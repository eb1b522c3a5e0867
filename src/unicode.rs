//! Unicode segmentation of leaf texts, and indices into a text by byte,
//! `char` or grapheme cluster.

use vstd::prelude::*;
use vstd::string::*;
use vstd::utf8::*;
use unicode_segmentation::UnicodeSegmentation;

verus! {

/// The byte offsets at which the extended grapheme clusters of a text begin,
/// in order, as the Unicode segmentation rules place them.
pub uninterp spec fn grapheme_starts(text: Seq<char>) -> Seq<usize>;

/// What every segmentation into grapheme clusters satisfies: the clusters are
/// non-empty, consecutive, and cover the text, so their starts begin at 0,
/// increase strictly, and fall on char boundaries inside the text.
pub open spec fn starts_partition(starts: Seq<usize>, text: Seq<char>) -> bool {
    let bytes = encode_utf8(text);
    &&& (starts.len() == 0 <==> text.len() == 0)
    &&& (starts.len() > 0 ==> starts[0] == 0)
    &&& forall|i: int, j: int| 0 <= i < j < starts.len() ==> starts[i] < starts[j]
    &&& forall|i: int|
        0 <= i < starts.len() ==> #[trigger] starts[i] < bytes.len() && is_char_boundary(
            bytes,
            starts[i] as int,
        )
}

/// Relies on `UnicodeSegmentation::grapheme_indices(s, true)`: it walks a
/// grapheme cursor from offset 0 to the end of `s` and yields each cluster
/// as the non-empty slice `s[start..next]` with its offset `start`.
#[verifier::external_body]
pub(crate) fn grapheme_offsets(s: &str) -> (r: Vec<usize>)
    ensures
        r@ == grapheme_starts(s@),
        starts_partition(r@, s@),
{
    s.grapheme_indices(true).map(|(i, _)| i).collect()
}

/// The byte offsets at which the segments of a text between Unicode word
/// boundaries begin, in order.
pub uninterp spec fn word_bound_starts(text: Seq<char>) -> Seq<usize>;

/// What a cover of a text by consecutive segments satisfies: the segments
/// run in order from offset 0 to the end, each starting on a char boundary.
pub open spec fn starts_cover(starts: Seq<usize>, text: Seq<char>) -> bool {
    let bytes = encode_utf8(text);
    &&& (starts.len() == 0 <==> text.len() == 0)
    &&& (starts.len() > 0 ==> starts[0] == 0)
    &&& forall|i: int, j: int| 0 <= i <= j < starts.len() ==> starts[i] <= starts[j]
    &&& forall|i: int|
        0 <= i < starts.len() ==> #[trigger] starts[i] <= bytes.len() && is_char_boundary(
            bytes,
            starts[i] as int,
        )
}

/// Relies on `UnicodeSegmentation::split_word_bound_indices(s)`: its
/// iterator hands out `s[..idx]` of what is left of `s` and keeps `s[idx..]`,
/// taking at least one char each time, so the segments are consecutive
/// non-empty slices of `s` from offset 0, and it ends when nothing is left.
#[verifier::external_body]
pub(crate) fn word_bound_offsets(s: &str) -> (r: Vec<usize>)
    ensures
        r@ == word_bound_starts(s@),
        starts_partition(r@, s@),
{
    s.split_word_bound_indices().map(|(i, _)| i).collect()
}

/// A way of cutting text into segments.
#[derive(Clone, Copy, Debug, PartialEq, Eq, Structural)]
pub enum Segmentation {
    /// Extended grapheme clusters.
    Graphemes,
    /// The runs of text between word boundaries.
    WordBounds,
}

/// Where the segments of `text` begin.
pub open spec fn seg_starts(kind: Segmentation, text: Seq<char>) -> Seq<usize> {
    match kind {
        Segmentation::Graphemes => grapheme_starts(text),
        Segmentation::WordBounds => word_bound_starts(text),
    }
}

/// The number of segments of `text`.
pub open spec fn seg_count(kind: Segmentation, text: Seq<char>) -> nat {
    if text.len() == 0 {
        0
    } else {
        seg_starts(kind, text).len()
    }
}

/// The byte offset at which segment `n` of `text` begins: the end of the
/// text for `n` equal to the number of segments.
pub open spec fn seg_offset(kind: Segmentation, text: Seq<char>, n: nat) -> nat {
    if text.len() > 0 && n < seg_starts(kind, text).len() {
        seg_starts(kind, text)[n as int] as nat
    } else {
        encode_utf8(text).len()
    }
}

/// The offsets at which the segments of `s` begin.
pub(crate) fn segment_offsets(kind: Segmentation, s: &str) -> (r: Vec<usize>)
    ensures
        r@ == seg_starts(kind, s@),
        starts_cover(r@, s@),
{
    match kind {
        Segmentation::Graphemes => {
            let r = grapheme_offsets(s);
            proof {
                assert forall|i: int, j: int| 0 <= i <= j < r@.len() implies r@[i] <= r@[j] by {
                    if i < j {
                        assert(r@[i] < r@[j]);
                    }
                }
            }
            r
        },
        Segmentation::WordBounds => {
            let r = word_bound_offsets(s);
            proof {
                assert forall|i: int, j: int| 0 <= i <= j < r@.len() implies r@[i] <= r@[j] by {
                    if i < j {
                        assert(r@[i] < r@[j]);
                    }
                }
            }
            r
        },
    }
}

/// The number of bytes of `s`.
pub fn byte_len_of(s: &str) -> (r: usize)
    ensures
        r == encode_utf8(s@).len(),
{
    let b = s.as_bytes();
    b.len()
}

/// The byte offset at which grapheme cluster `n` of `text` begins: the end
/// of the text for `n` equal to the number of clusters.
pub open spec fn grapheme_offset(text: Seq<char>, n: nat) -> nat {
    seg_offset(Segmentation::Graphemes, text, n)
}

/// The number of grapheme clusters of `text`.
pub open spec fn grapheme_count(text: Seq<char>) -> nat {
    seg_count(Segmentation::Graphemes, text)
}

/// The index of a Unicode grapheme cluster.
#[derive(Copy, Clone, Debug, PartialOrd, Ord, PartialEq, Eq, Structural)]
pub struct GraphemeIndex(pub usize);

/// The index of a byte in a string.
#[derive(Copy, Clone, Debug, PartialOrd, Ord, PartialEq, Eq, Structural)]
pub struct ByteIndex(pub usize);

/// The index of a Rust `char` in a string.
#[derive(Copy, Clone, Debug, PartialOrd, Ord, PartialEq, Eq, Structural)]
pub struct CharIndex(pub usize);

impl GraphemeIndex {
    /// Returns the byte index in `text` corresponding to this grapheme
    /// index: where that cluster begins, or the end of `text` for the index
    /// just past its last cluster.
    pub fn to_byte_index(&self, text: &str) -> (r: ByteIndex)
        requires
            self.0 <= grapheme_count(text@),
        ensures
            r.0 == grapheme_offset(text@, self.0 as nat),
    {
        let starts = grapheme_offsets(text);
        if self.0 < starts.len() {
            ByteIndex(starts[self.0])
        } else {
            ByteIndex(byte_len_of(text))
        }
    }

    /// `to_byte_index`, or `None` where `text` has fewer clusters than this
    /// index.
    pub fn checked_byte_index(&self, text: &str) -> (r: Option<ByteIndex>)
        ensures
            r is Some <==> self.0 <= grapheme_count(text@),
            r matches Some(b) ==> b.0 == grapheme_offset(text@, self.0 as nat),
    {
        let starts = grapheme_offsets(text);
        if self.0 <= starts.len() {
            Some(self.to_byte_index(text))
        } else {
            None
        }
    }

    /// Returns the `char` index in `text` just past the grapheme cluster at
    /// this index: the number of chars in the clusters up to and including
    /// it.
    pub fn to_char_index(&self, text: &str) -> (r: CharIndex)
        requires
            self.0 < grapheme_count(text@),
        ensures
            r.0 == decode_utf8(
                encode_utf8(text@).subrange(0, grapheme_offset(text@, self.0 as nat + 1) as int),
            ).len(),
    {
        let starts = grapheme_offsets(text);
        let count = starts.len();
        assert(self.0 < count);
        let end = if self.0 + 1 < count {
            starts[self.0 + 1]
        } else {
            byte_len_of(text)
        };
        proof {
            broadcast use encode_utf8_valid_utf8;

            is_char_boundary_start_end_of_seq(encode_utf8(text@));
        }
        let (head, _) = text.split_at(end);
        proof {
            encode_utf8_decode_utf8(head@);
        }
        CharIndex(head.unicode_len())
    }

    /// `to_char_index`, or `None` where `text` has no cluster at this index.
    pub fn checked_char_index(&self, text: &str) -> (r: Option<CharIndex>)
        ensures
            r is Some <==> self.0 < grapheme_count(text@),
            r matches Some(c) ==> c.0 == decode_utf8(
                encode_utf8(text@).subrange(0, grapheme_offset(text@, self.0 as nat + 1) as int),
            ).len(),
    {
        let starts = grapheme_offsets(text);
        if self.0 < starts.len() {
            Some(self.to_char_index(text))
        } else {
            None
        }
    }
}

/// Counts of a text by byte, `char` and grapheme cluster.
pub trait Unicode {
    /// The number of `char`s.
    spec fn spec_char_len(&self) -> nat;

    /// The number of grapheme clusters.
    spec fn spec_grapheme_len(&self) -> nat;

    /// The number of bytes.
    spec fn spec_byte_len(&self) -> nat;

    /// The number of `char`s.
    fn char_len(&self) -> (r: usize)
        ensures
            r == self.spec_char_len(),
    ;

    /// The number of grapheme clusters.
    fn grapheme_len(&self) -> (r: usize)
        ensures
            r == self.spec_grapheme_len(),
    ;

    /// The number of bytes.
    fn byte_len(&self) -> (r: usize)
        ensures
            r == self.spec_byte_len(),
    ;
}

impl Unicode for str {
    open spec fn spec_char_len(&self) -> nat {
        self@.len()
    }

    open spec fn spec_grapheme_len(&self) -> nat {
        grapheme_count(self@)
    }

    open spec fn spec_byte_len(&self) -> nat {
        encode_utf8(self@).len()
    }

    fn char_len(&self) -> (r: usize) {
        self.unicode_len()
    }

    fn grapheme_len(&self) -> (r: usize) {
        grapheme_offsets(self).len()
    }

    fn byte_len(&self) -> (r: usize) {
        byte_len_of(self)
    }
}

/// Whether a character or a string is a line ending.
pub trait IsLineEnding {
    /// Whether this is a line ending.
    spec fn spec_is_line_ending(&self) -> bool;

    /// Whether this is a line ending.
    fn is_line_ending(&self) -> (r: bool)
        ensures
            r == self.spec_is_line_ending(),
    ;
}

impl IsLineEnding for char {
    /// A line feed is the one line ending.
    open spec fn spec_is_line_ending(&self) -> bool {
        *self == '\n'
    }

    fn is_line_ending(&self) -> (r: bool) {
        *self == '\n'
    }
}

impl IsLineEnding for str {
    /// A string is a line ending when it is a single line feed.
    open spec fn spec_is_line_ending(&self) -> bool {
        encode_utf8(self@) == seq![10u8]
    }

    fn is_line_ending(&self) -> (r: bool) {
        let b = self.as_bytes();
        let r = b.len() == 1 && b[0] == 10u8;
        proof {
            if r {
                assert(b@ =~= seq![10u8]);
            }
        }
        r
    }
}

} // verus!
