//! The rope: a handle on the root of a tree, with the editing operations.
//!
//! Every edit follows one shape: take the root, cut and join trees with
//! `Node::split` and `Node::new_branch`, install the new root, rebalance.
//! The destructive methods edit in place; the persistent `with_` methods
//! leave the receiver as it was and return the edited copy.

use vstd::prelude::*;
use vstd::utf8::*;
use crate::internals::{Node, Shape};
use crate::metric::{Grapheme, Metric, Monoid, utf8};
use crate::unicode::{Segmentation, byte_len_of};
use crate::slice::{RopeSlice, RopeSliceMut};

verus! {

/// A rope: a string held as a tree of text leaves.
///
/// Two ropes are equal when they spell the same bytes, whatever the shapes of
/// their trees.
#[derive(Debug)]
pub struct Rope {
    /// The root of the rope's tree.
    pub root: Node,
}

impl View for Rope {
    type V = Seq<u8>;

    /// The UTF-8 bytes the rope spells.
    open spec fn view(&self) -> Seq<u8> {
        self.root.bytes()
    }
}

/// Relies on `String::from(char)`: a string holding just that character.
#[verifier::external_body]
fn char_string(c: char) -> (r: String)
    ensures
        r@ == seq![c],
{
    String::from(c)
}

#[verifier::external_type_specification]
#[verifier::external_body]
pub struct ExFromUtf8Error(std::string::FromUtf8Error);

#[verifier::external_type_specification]
#[verifier::external_body]
pub struct ExFromUtf16Error(std::string::FromUtf16Error);

/// The text that a sequence of UTF-16 code units decodes to, or `None` when
/// they are not valid UTF-16: a unit outside the surrogate range is a char
/// of its own, a high surrogate followed by a low one is the char
/// `0x10000 + (high - 0xD800) * 0x400 + (low - 0xDC00)`, and any other
/// surrogate makes the units invalid.
pub open spec fn utf16_text(units: Seq<u16>) -> Option<Seq<char>>
    decreases units.len(),
{
    if units.len() == 0 {
        Some(Seq::empty())
    } else if units[0] < 0xD800 || units[0] > 0xDFFF {
        match utf16_text(units.drop_first()) {
            Some(rest) => Some(seq![(units[0] as u32) as char] + rest),
            None => None,
        }
    } else if units[0] <= 0xDBFF && units.len() >= 2 && 0xDC00 <= units[1] <= 0xDFFF {
        let c = (0x10000 + (units[0] - 0xD800) * 0x400 + (units[1] - 0xDC00)) as u32;
        match utf16_text(units.subrange(2, units.len() as int)) {
            Some(rest) => Some(seq![c as char] + rest),
            None => None,
        }
    } else {
        None
    }
}

/// Relies on `String::from_utf8`: the string the bytes encode when they are
/// valid UTF-8, an error otherwise.
#[verifier::external_body]
fn string_from_utf8(bytes: Vec<u8>) -> (r: Result<String, std::string::FromUtf8Error>)
    ensures
        r is Ok <==> valid_utf8(bytes@),
        r matches Ok(s) ==> utf8(s@) == bytes@,
{
    String::from_utf8(bytes)
}

/// Relies on `String::from_utf16`: the string the code units decode to when
/// they are valid UTF-16, an error otherwise.
#[verifier::external_body]
fn string_from_utf16(units: &[u16]) -> (r: Result<String, std::string::FromUtf16Error>)
    ensures
        r is Ok <==> utf16_text(units@) is Some,
        r matches Ok(s) ==> utf16_text(units@) == Some(s@),
{
    String::from_utf16(units)
}

/// A line feed in valid UTF-8 is a char of its own: there are char
/// boundaries on both sides of it.
pub proof fn lemma_line_feed_boundary(b: Seq<u8>, p: int)
    requires
        valid_utf8(b),
        0 <= p < b.len(),
        b[p] == 10u8,
    ensures
        is_char_boundary(b, p),
        is_char_boundary(b, p + 1),
{
    is_char_boundary_iff_not_is_continuation_byte(b, p);
    valid_utf8_split(b, p);
    let pre = b.subrange(0, p);
    let rest = b.subrange(p, b.len() as int);
    assert(rest[0] == 10u8);
    assert(is_char_boundary(rest, 1)) by {
        reveal_with_fuel(is_char_boundary, 2);
        reveal_with_fuel(valid_utf8, 2);
    }
    crate::internals::lemma_boundary_concat(pre, rest, p + 1);
    assert(pre + rest =~= b);
}

/// A character takes at least one byte.
proof fn lemma_char_utf8_nonempty(ch: char)
    ensures
        utf8(seq![ch]).len() > 0,
{
    reveal_with_fuel(encode_utf8, 2);
}

/// The first byte offset at or after `from` where `text` holds a line feed,
/// or `None` if it holds none there.
fn find_line_end(text: &str, from: usize) -> (r: Option<usize>)
    requires
        from <= utf8(text@).len(),
    ensures
        r matches Some(p) ==> from <= p < utf8(text@).len() && utf8(text@)[p as int] == 10u8
            && is_char_boundary(utf8(text@), p as int) && is_char_boundary(
            utf8(text@),
            p as int + 1,
        ) && forall|j: int| from <= j < p ==> utf8(text@)[j] != 10u8,
        r is None ==> forall|j: int| from <= j < utf8(text@).len() ==> utf8(text@)[j] != 10u8,
{
    let bytes = text.as_bytes();
    let n = bytes.len();
    let mut i = from;
    while i < n
        invariant
            from <= i <= n,
            n == utf8(text@).len(),
            bytes@ == utf8(text@),
            forall|j: int| from <= j < i ==> utf8(text@)[j] != 10u8,
        decreases n - i,
    {
        if bytes[i] == 10u8 {
            proof {
                broadcast use encode_utf8_valid_utf8;

                lemma_line_feed_boundary(utf8(text@), i as int);
            }
            return Some(i);
        }
        i = i + 1;
    }
    None
}

/// The bytes of `lines`, each followed by a line feed.
pub open spec fn join_terminated(lines: Seq<Seq<u8>>) -> Seq<u8>
    decreases lines.len(),
{
    if lines.len() == 0 {
        Seq::empty()
    } else {
        join_terminated(lines.drop_last()) + lines.last() + seq![10u8]
    }
}

/// The lines of `text`: its bytes between line feeds, where a line feed ends
/// each line but the last, which may end the text without one.
pub open spec fn is_lines_of(lines: Seq<Seq<u8>>, text: Seq<u8>) -> bool {
    &&& forall|k: int, j: int|
        0 <= k < lines.len() && 0 <= j < lines[k].len() ==> #[trigger] lines[k][j] != 10u8
    &&& (text == join_terminated(lines) || (lines.len() > 0 && lines.last().len() > 0 && text
        == join_terminated(lines.drop_last()) + lines.last()))
}

/// Leaves cut at line feeds: there is at least one leaf, every leaf but the
/// last ends with a line feed, and no leaf holds a line feed anywhere else.
pub open spec fn split_at_line_feeds(leaves: Seq<Seq<u8>>) -> bool {
    &&& leaves.len() >= 1
    &&& forall|k: int|
        0 <= k < leaves.len() - 1 ==> #[trigger] leaves[k].len() > 0 && leaves[k].last() == 10u8
    &&& forall|k: int, j: int|
        0 <= k < leaves.len() && 0 <= j < leaves[k].len() && !(k < leaves.len() - 1 && j
            == leaves[k].len() - 1) ==> #[trigger] leaves[k][j] != 10u8
}

/// A tree over `text` whose leaves end at its line feeds: each line with its
/// line feed is a leaf, and what follows the last line feed is the last leaf.
fn str_to_tree(text: &str) -> (r: Node)
    ensures
        r.wf(),
        r.bytes() == utf8(text@),
        split_at_line_feeds(r.leaf_texts()),
    decreases utf8(text@).len(),
{
    let _ = byte_len_of(text);
    match find_line_end(text, 0) {
        None => {
            let r = Node::new_leaf(text);
            proof {
                assert(r.leaf_texts()[0] == utf8(text@));
            }
            r
        },
        Some(p) => {
            let (line, rest) = text.split_at(p + 1);
            proof {
                assert(utf8(line@) + utf8(rest@) =~= utf8(text@));
            }
            let leaf = Node::new_leaf(line);
            let tail = str_to_tree(rest);
            let r = Node::new_branch(leaf, tail);
            proof {
                let lb = utf8(line@);
                let tl = tail.leaf_texts();
                let all = r.leaf_texts();
                assert(lb =~= utf8(text@).subrange(0, p + 1));
                assert(leaf.leaf_texts() =~= seq![leaf.bytes()]);
                assert(all == leaf.leaf_texts() + tl);
                assert(all =~= seq![lb] + tl);
                assert(all[0] == lb);
                assert forall|k: int| 0 <= k < all.len() - 1 implies #[trigger] all[k].len() > 0
                    && all[k].last() == 10u8 by {
                    if k > 0 {
                        assert(all[k] == tl[k - 1]);
                    }
                }
                assert forall|k: int, j: int|
                    0 <= k < all.len() && 0 <= j < all[k].len() && !(k < all.len() - 1 && j
                        == all[k].len() - 1) implies #[trigger] all[k][j] != 10u8 by {
                    if k > 0 {
                        assert(all[k] == tl[k - 1]);
                        assert(tl[k - 1][j] != 10u8);
                    } else {
                        assert(lb[j] == utf8(text@)[j]);
                    }
                }
            }
            r
        },
    }
}

impl Rope {
    /// The rope's tree is well formed.
    pub open spec fn wf(&self) -> bool {
        self.root.wf()
    }

    /// The measure of the rope in metric `M`.
    pub open spec fn units<M: Metric>(&self) -> nat {
        M::node_measure(self.root)
    }

    /// The rope can be split at unit `index` of metric `M`.
    pub open spec fn can_split<M: Metric>(&self, index: nat) -> bool {
        index <= self.units::<M>() && self.root.split_ok::<M>(index)
    }

    /// The byte offset at which a split at unit `index` of metric `M` cuts.
    pub open spec fn offset_of<M: Metric>(&self, index: nat) -> nat {
        self.root.split_offset::<M>(index)->0
    }

    /// Text can be inserted at unit `index` of metric `M`: at the start, at
    /// the end, or where the rope can be split.
    pub open spec fn can_insert<M: Metric>(&self, index: nat) -> bool {
        index == 0 || index == self.units::<M>() || self.can_split::<M>(index)
    }

    /// The byte offset at which text inserted at unit `index` of metric `M`
    /// lands: the start for index 0, the end for the rope's measure, and
    /// otherwise where a split cuts.
    pub open spec fn insert_offset<M: Metric>(&self, index: nat) -> nat {
        if index == 0 {
            0
        } else if index == self.units::<M>() {
            self@.len()
        } else {
            self.offset_of::<M>(index)
        }
    }

    /// What appending `other` to this rope spells: this rope's bytes, then
    /// `other`'s.
    pub open spec fn appended(&self, other: Rope) -> Seq<u8> {
        self@ + other@
    }

    /// What prepending `other` to this rope spells: `other`'s bytes, then
    /// this rope's.
    pub open spec fn prepended(&self, other: Rope) -> Seq<u8> {
        other@ + self@
    }

    /// `self@` with `text` put in at byte `at`.
    pub open spec fn spliced(&self, at: nat, text: Seq<u8>) -> Seq<u8> {
        self@.subrange(0, at as int) + text + self@.subrange(at as int, self@.len() as int)
    }

    /// Returns a new empty Rope.
    pub fn new() -> (r: Rope)
        ensures
            r.wf(),
            r@ == Seq::<u8>::empty(),
    {
        Rope { root: Node::empty() }
    }

    /// A rope spelling `text`, with a leaf for each of its lines: each line
    /// with its line feed is a leaf, and what follows the last line feed is
    /// the last leaf (for empty text, the one empty leaf).
    pub fn from_text(text: &str) -> (r: Rope)
        ensures
            r.wf(),
            r@ == utf8(text@),
            split_at_line_feeds(r.root.leaf_texts()),
    {
        if text.is_empty() {
            proof {
                assert(utf8(text@) =~= Seq::<u8>::empty());
            }
            let r = Rope { root: Node::empty() };
            proof {
                assert(r.root.leaf_texts()[0].len() == 0);
            }
            r
        } else {
            Rope { root: str_to_tree(text) }
        }
    }

    /// A rope spelling `text`, with a leaf for each of its lines.
    pub fn from_string(text: String) -> (r: Rope)
        ensures
            r.wf(),
            r@ == utf8(text@),
            split_at_line_feeds(r.root.leaf_texts()),
    {
        Rope::from_text(text.as_str())
    }

    /// Converts a vector of bytes to a rope, or returns the error that
    /// `String::from_utf8` gives when the bytes are not valid UTF-8.
    pub fn from_utf8(bytes: Vec<u8>) -> (r: Result<Rope, std::string::FromUtf8Error>)
        ensures
            r is Ok <==> valid_utf8(bytes@),
            r matches Ok(rope) ==> rope.wf() && rope@ == bytes@,
    {
        match string_from_utf8(bytes) {
            Ok(s) => Ok(Rope::from_string(s)),
            Err(e) => Err(e),
        }
    }

    /// Decodes UTF-16 code units into a rope, or returns the error that
    /// `String::from_utf16` gives when they are not valid UTF-16.
    pub fn from_utf16(units: &[u16]) -> (r: Result<Rope, std::string::FromUtf16Error>)
        ensures
            r is Ok <==> utf16_text(units@) is Some,
            r matches Ok(rope) ==> rope.wf() && rope@ == utf8(utf16_text(units@)->0),
    {
        match string_from_utf16(units) {
            Ok(s) => Ok(Rope::from_string(s)),
            Err(e) => Err(e),
        }
    }

    /// A rope spelling the one character `ch`.
    pub fn from_char(ch: char) -> (r: Rope)
        ensures
            r.wf(),
            r@ == utf8(seq![ch]),
    {
        Rope::from_string(char_string(ch))
    }

    /// Returns the length of this rope in bytes.
    pub fn len(&self) -> (r: usize)
        requires
            self.wf(),
        ensures
            r == self@.len(),
    {
        self.root.len()
    }

    /// Returns `true` if this rope spells nothing.
    pub fn is_empty(&self) -> (r: bool)
        requires
            self.wf(),
        ensures
            r == (self@.len() == 0),
    {
        self.len() == 0
    }

    /// The measure of this rope in metric `M`.
    pub fn measure<M: Metric>(&self) -> (r: M)
        requires
            self.wf(),
        ensures
            r.spec_count() == self.units::<M>(),
    {
        M::of_count(self.root.measure_units::<M>())
    }

    /// Returns true if this rope's tree is balanced: its length is at least
    /// the `(depth + 2)`th Fibonacci number.
    pub fn is_balanced(&self) -> (r: bool)
        requires
            self.wf(),
        ensures
            r == self.root.balanced(),
    {
        self.root.is_balanced()
    }

    /// Rebalance this rope's tree, keeping its text.
    ///
    /// A balanced tree is left as it is; any other tree is rebuilt from its
    /// leaves, after which it is balanced unless it spells nothing.
    pub fn rebalance(&mut self)
        requires
            old(self).wf(),
        ensures
            final(self).wf(),
            final(self)@ == old(self)@,
            old(self).root.balanced() ==> *final(self) == *old(self),
            old(self)@.len() > 0 ==> final(self).root.balanced(),
            !old(self).root.balanced() ==> final(self).root.nonempty_leaf_seq()
                == old(self).root.nonempty_leaf_seq(),
            !old(self).root.balanced() && old(self)@.len() > 0 ==> final(self).root.depth()
                == crate::internals::build_depth(old(self).root.nonempty_leaf_seq().len()),
            !old(self).root.balanced() && old(self)@.len() > 0 ==> forall|k: int|
                0 <= k < final(self).root.leaf_texts().len()
                    ==> #[trigger] final(self).root.leaf_texts()[k].len() > 0,
    {
        if self.is_balanced() {
            // the rope is already balanced, do nothing
        } else {
            let root = self.take_root();
            self.root = root.rebalance();
        }
    }

    /// Take this rope's root, leaving an empty leaf in its place.
    fn take_root(&mut self) -> (r: Node)
        ensures
            r == old(self).root,
            final(self).wf(),
            final(self)@.len() == 0,
    {
        let mut root = Node::empty();
        std::mem::swap(&mut root, &mut self.root);
        root
    }

    /// Append `other` to the end of this rope, then rebalance.
    ///
    /// An empty `other` leaves the rope exactly as it was.
    pub fn append(&mut self, other: Rope)
        requires
            old(self).wf(),
            other.wf(),
            old(self)@.len() + other@.len() <= usize::MAX,
        ensures
            final(self).wf(),
            final(self)@ == old(self).appended(other),
            other@.len() == 0 ==> *final(self) == *old(self),
            other@.len() > 0 ==> final(self).root.balanced(),
    {
        if !other.is_empty() {
            let root = self.take_root();
            self.root = Node::new_branch(root, other.root);
            self.rebalance();
        } else {
            proof {
                assert(old(self)@ + other@ =~= old(self)@);
            }
        }
    }

    /// Prepend `other` to the start of this rope, then rebalance.
    ///
    /// An empty `other` leaves the rope exactly as it was.
    pub fn prepend(&mut self, other: Rope)
        requires
            old(self).wf(),
            other.wf(),
            old(self)@.len() + other@.len() <= usize::MAX,
        ensures
            final(self).wf(),
            final(self)@ == old(self).prepended(other),
            other@.len() == 0 ==> *final(self) == *old(self),
            other@.len() > 0 ==> final(self).root.balanced(),
    {
        if !other.is_empty() {
            let root = self.take_root();
            self.root = Node::new_branch(other.root, root);
            self.rebalance();
        } else {
            proof {
                assert(other@ + old(self)@ =~= old(self)@);
            }
        }
    }

    /// Split this rope at unit `index` of metric `M`, consuming it.
    ///
    /// The left rope spells the bytes before `offset_of(index)`, the right
    /// one the rest.
    pub fn split<M: Metric>(self, index: M) -> (r: (Rope, Rope))
        requires
            self.wf(),
            self.can_split::<M>(index.spec_count()),
        ensures
            r.0.wf(),
            r.1.wf(),
            self.offset_of::<M>(index.spec_count()) <= self@.len(),
            r.0@ == self@.subrange(0, self.offset_of::<M>(index.spec_count()) as int),
            r.1@ == self@.subrange(
                self.offset_of::<M>(index.spec_count()) as int,
                self@.len() as int,
            ),
    {
        let (l, r) = self.root.split(index);
        (Rope { root: l }, Rope { root: r })
    }

    /// Insert `rope` at unit `index` of metric `M`, then rebalance.
    ///
    /// Index 0 prepends, the rope's measure appends, and any other index
    /// splits the rope there and joins the three parts. An empty `rope`
    /// leaves this one exactly as it was.
    pub fn insert_rope<M: Metric>(&mut self, index: M, rope: Rope)
        requires
            old(self).wf(),
            rope.wf(),
            index.spec_count() <= old(self).units::<M>(),
            rope@.len() > 0 ==> old(self).can_insert::<M>(index.spec_count()),
            old(self)@.len() + rope@.len() <= usize::MAX,
        ensures
            final(self).wf(),
            old(self).can_insert::<M>(index.spec_count()) ==> old(self).insert_offset::<M>(
                index.spec_count(),
            ) <= old(self)@.len() && final(self)@ == old(self).spliced(
                old(self).insert_offset::<M>(index.spec_count()),
                rope@,
            ),
            rope@.len() == 0 ==> *final(self) == *old(self),
            rope@.len() > 0 ==> final(self).root.balanced(),
    {
        let ghost old_bytes = self@;
        if !rope.is_empty() {
            let len = self.measure::<M>().count();
            let i = index.count();
            if i == 0 {
                // inserting at index 0 prepends
                self.prepend(rope);
                proof {
                    assert(old_bytes.subrange(0, 0) =~= Seq::<u8>::empty());
                    assert(old_bytes.subrange(0, old_bytes.len() as int) =~= old_bytes);
                    assert(Seq::<u8>::empty() + rope@ + old_bytes =~= rope@ + old_bytes);
                }
            } else if i == len {
                // inserting at index len appends
                self.append(rope);
                proof {
                    assert(old_bytes.subrange(0, old_bytes.len() as int) =~= old_bytes);
                    assert(old_bytes.subrange(old_bytes.len() as int, old_bytes.len() as int)
                        =~= Seq::<u8>::empty());
                    assert(old_bytes + rope@ + Seq::<u8>::empty() =~= old_bytes + rope@);
                }
            } else {
                // split the rope at the given index and put `rope` between
                let root = self.take_root();
                let (left, right) = root.split_units::<M>(i);
                let ghost k = old(self).offset_of::<M>(index.spec_count());
                let ghost rb = rope@;
                let joined = Node::new_branch(left, rope.root);
                self.root = Node::new_branch(joined, right);
                proof {
                    assert(self@ =~= old_bytes.subrange(0, k as int) + rb + old_bytes.subrange(
                        k as int,
                        old_bytes.len() as int,
                    ));
                }
                self.rebalance();
            }
        } else {
            proof {
                let k = old(self).insert_offset::<M>(index.spec_count());
                if old(self).can_insert::<M>(index.spec_count()) {
                    if index.spec_count() != 0 && index.spec_count() != old(self).units::<M>() {
                        old(self).root.lemma_split_offset_bound::<M>(index.spec_count());
                    }
                    assert(old_bytes.subrange(0, k as int) + rope@ + old_bytes.subrange(
                        k as int,
                        old_bytes.len() as int,
                    ) =~= old_bytes);
                }
            }
        }
        proof {
            if old(self).can_insert::<M>(index.spec_count()) && index.spec_count() != 0
                && index.spec_count() != old(self).units::<M>() {
                old(self).root.lemma_split_offset_bound::<M>(index.spec_count());
            }
        }
    }

    /// A copy of this rope with `rope` inserted at unit `index` of metric
    /// `M`; this rope is left as it was.
    pub fn with_insert_rope<M: Metric>(&self, index: M, rope: Rope) -> (r: Rope)
        requires
            self.wf(),
            rope.wf(),
            index.spec_count() <= self.units::<M>(),
            rope@.len() > 0 ==> self.can_insert::<M>(index.spec_count()),
            self@.len() + rope@.len() <= usize::MAX,
        ensures
            r.wf(),
            self.can_insert::<M>(index.spec_count()) ==> self.insert_offset::<M>(
                index.spec_count(),
            ) <= self@.len() && r@ == self.spliced(
                self.insert_offset::<M>(index.spec_count()),
                rope@,
            ),
            rope@.len() == 0 ==> r == *self,
            rope@.len() > 0 ==> r.root.balanced(),
    {
        let mut new_rope = self.clone();
        new_rope.insert_rope(index, rope);
        new_rope
    }

    /// Insert `ch` at unit `index` of metric `M`.
    pub fn insert<M: Metric>(&mut self, index: M, ch: char)
        requires
            old(self).wf(),
            index.spec_count() <= old(self).units::<M>(),
            old(self).can_insert::<M>(index.spec_count()),
            old(self)@.len() + utf8(seq![ch]).len() <= usize::MAX,
        ensures
            final(self).wf(),
            old(self).insert_offset::<M>(index.spec_count()) <= old(self)@.len(),
            final(self)@ == old(self).spliced(
                old(self).insert_offset::<M>(index.spec_count()),
                utf8(seq![ch]),
            ),
            final(self).root.balanced(),
    {
        proof {
            lemma_char_utf8_nonempty(ch);
        }
        self.insert_rope(index, Rope::from_char(ch))
    }

    /// A copy of this rope with `ch` inserted at unit `index` of metric `M`;
    /// this rope is left as it was.
    pub fn with_insert<M: Metric>(&self, index: M, ch: char) -> (r: Rope)
        requires
            self.wf(),
            index.spec_count() <= self.units::<M>(),
            self.can_insert::<M>(index.spec_count()),
            self@.len() + utf8(seq![ch]).len() <= usize::MAX,
        ensures
            r.wf(),
            self.insert_offset::<M>(index.spec_count()) <= self@.len(),
            r@ == self.spliced(self.insert_offset::<M>(index.spec_count()), utf8(seq![ch])),
            r.root.balanced(),
    {
        proof {
            lemma_char_utf8_nonempty(ch);
        }
        self.with_insert_rope(index, Rope::from_char(ch))
    }

    /// Insert `s` at unit `index` of metric `M`.
    pub fn insert_str<M: Metric>(&mut self, index: M, s: &str)
        requires
            old(self).wf(),
            index.spec_count() <= old(self).units::<M>(),
            old(self).can_insert::<M>(index.spec_count()),
            old(self)@.len() + utf8(s@).len() <= usize::MAX,
        ensures
            final(self).wf(),
            old(self).insert_offset::<M>(index.spec_count()) <= old(self)@.len(),
            final(self)@ == old(self).spliced(
                old(self).insert_offset::<M>(index.spec_count()),
                utf8(s@),
            ),
            utf8(s@).len() > 0 ==> final(self).root.balanced(),
    {
        self.insert_rope(index, Rope::from_text(s))
    }

    /// A copy of this rope with `s` inserted at unit `index` of metric `M`;
    /// this rope is left as it was.
    pub fn with_insert_str<M: Metric>(&self, index: M, s: &str) -> (r: Rope)
        requires
            self.wf(),
            index.spec_count() <= self.units::<M>(),
            self.can_insert::<M>(index.spec_count()),
            self@.len() + utf8(s@).len() <= usize::MAX,
        ensures
            r.wf(),
            self.insert_offset::<M>(index.spec_count()) <= self@.len(),
            r@ == self.spliced(self.insert_offset::<M>(index.spec_count()), utf8(s@)),
            utf8(s@).len() > 0 ==> r.root.balanced(),
    {
        self.with_insert_rope(index, Rope::from_text(s))
    }

    /// A copy of this rope with `other` appended; this rope is left as it
    /// was.
    pub fn with_append(&self, other: Rope) -> (r: Rope)
        requires
            self.wf(),
            other.wf(),
            self@.len() + other@.len() <= usize::MAX,
        ensures
            r.wf(),
            r@ == self.appended(other),
            other@.len() == 0 ==> r == *self,
            other@.len() > 0 ==> r.root.balanced(),
    {
        if other.is_empty() {
            proof {
                assert(self@ + other@ =~= self@);
            }
            self.clone()
        } else {
            let mut rope = self.clone();
            rope.append(other);
            rope
        }
    }

    /// A copy of this rope with `other` prepended; this rope is left as it
    /// was.
    pub fn with_prepend(&self, other: Rope) -> (r: Rope)
        requires
            self.wf(),
            other.wf(),
            self@.len() + other@.len() <= usize::MAX,
        ensures
            r.wf(),
            r@ == self.prepended(other),
            other@.len() == 0 ==> r == *self,
            other@.len() > 0 ==> r.root.balanced(),
    {
        if other.is_empty() {
            proof {
                assert(other@ + self@ =~= self@);
            }
            self.clone()
        } else {
            let mut rope = self.clone();
            rope.prepend(other);
            rope
        }
    }
}

impl Rope {
    /// The shape of the right part that splitting this rope at unit `start`
    /// of metric `M` gives: the tree `delete` cuts a second time.
    pub open spec fn rest_after<M: Metric>(&self, start: nat) -> Shape {
        self.root.shape().split::<M>(start).1
    }

    /// `delete` can remove the units `start..end` of metric `M`: the rope
    /// can be split at `start`, and the right part it gives can be split at
    /// `end - start`.
    pub open spec fn can_delete<M: Metric>(&self, start: nat, end: nat) -> bool {
        &&& start <= end
        &&& self.can_split::<M>(start)
        &&& self.rest_after::<M>(start).split_ok::<M>((end - start) as nat)
    }

    /// The bytes `delete` leaves of this rope for the units `start..end` of
    /// metric `M`: what precedes the cut at `start`, then what of the right
    /// part follows its own cut at `end - start`.
    pub open spec fn deleted<M: Metric>(&self, start: nat, end: nat) -> Seq<u8> {
        let rest = self.rest_after::<M>(start);
        self@.subrange(0, self.offset_of::<M>(start) as int) + rest.bytes().subrange(
            rest.split_offset::<M>((end - start) as nat)->0 as int,
            rest.bytes().len() as int,
        )
    }

    /// Delete the units `range.start..range.end` of metric `M`.
    ///
    /// The rope is split at `range.start`, the right part is split again at
    /// `range.end - range.start`, the middle is dropped, and the rest is
    /// joined and rebalanced.
    pub fn delete<M: Metric>(&mut self, range: std::ops::Range<M>)
        requires
            old(self).wf(),
            old(self).can_delete::<M>(range.start.spec_count(), range.end.spec_count()),
        ensures
            final(self).wf(),
            final(self)@.len() > 0 ==> final(self).root.balanced(),
            final(self)@ == old(self).deleted::<M>(range.start.spec_count(), range.end.spec_count()),
    {
        let start = range.start.count();
        let end = range.end.count();
        let root = self.take_root();
        let (l, r) = root.split_units::<M>(start);
        proof {
            r.lemma_shape::<M>((end - start) as nat);
        }
        let ghost rest = r;
        let (_, r2) = r.split_units::<M>(end - start);
        self.root = Node::new_branch(l, r2);
        proof {
            assert(old(self).deleted::<M>(start as nat, end as nat) =~= self@);
        }
        self.rebalance();
    }
}

/// Appends the bytes `node` spells to `out`.
fn push_bytes(node: &Node, out: &mut Vec<u8>)
    ensures
        final(out)@ == old(out)@ + node.bytes(),
    decreases node,
{
    match node {
        Node::Leaf(s) => {
            let b = s.as_str().as_bytes();
            let ghost start = out@;
            let mut i: usize = 0;
            while i < b.len()
                invariant
                    0 <= i <= b@.len(),
                    b@ == node.bytes(),
                    out@ == start + b@.subrange(0, i as int),
                decreases b@.len() - i,
            {
                out.push(b[i]);
                i = i + 1;
                proof {
                    assert(out@ =~= start + b@.subrange(0, i as int));
                }
            }
            proof {
                assert(b@.subrange(0, b@.len() as int) =~= b@);
            }
        },
        Node::Branch(br) => {
            let ghost start = out@;
            push_bytes(&br.left, out);
            push_bytes(&br.right, out);
            proof {
                assert(start + br.left.bytes() + br.right.bytes() =~= start + node.bytes());
            }
        },
    }
}

/// Whether two byte sequences are equal, compared byte by byte.
fn bytes_eq(a: &[u8], b: &[u8]) -> (r: bool)
    ensures
        r == (a@ == b@),
{
    if a.len() != b.len() {
        return false;
    }
    let mut i: usize = 0;
    while i < a.len()
        invariant
            0 <= i <= a@.len(),
            a@.len() == b@.len(),
            forall|j: int| 0 <= j < i ==> a@[j] == b@[j],
        decreases a@.len() - i,
    {
        if a[i] != b[i] {
            return false;
        }
        i = i + 1;
    }
    proof {
        assert(a@ =~= b@);
    }
    true
}

impl Rope {
    /// The bytes this rope spells, in order.
    pub fn to_bytes(&self) -> (r: Vec<u8>)
        ensures
            r@ == self@,
    {
        let mut out: Vec<u8> = Vec::new();
        push_bytes(&self.root, &mut out);
        proof {
            assert(Seq::<u8>::empty() + self@ =~= self@);
        }
        out
    }

    /// The text this rope spells.
    pub fn to_text(&self) -> (r: String)
        requires
            self.wf(),
        ensures
            utf8(r@) == self@,
    {
        let mut out = String::new();
        proof {
            assert(utf8(out@) =~= Seq::<u8>::empty()) by {
                reveal_with_fuel(encode_utf8, 1);
            }
        }
        push_text(&self.root, &mut out);
        out
    }
}

/// The UTF-8 encoding of two texts one after the other is the encoding of
/// the first followed by that of the second.
proof fn lemma_utf8_concat(a: Seq<char>, b: Seq<char>)
    ensures
        utf8(a + b) == utf8(a) + utf8(b),
    decreases a.len(),
{
    if a.len() == 0 {
        assert(a + b =~= b);
        assert(utf8(a) =~= Seq::<u8>::empty());
        assert(Seq::<u8>::empty() + utf8(b) =~= utf8(b));
    } else {
        lemma_utf8_concat(a.drop_first(), b);
        assert((a + b).drop_first() =~= a.drop_first() + b);
        assert((a + b)[0] == a[0]);
        assert(utf8(a + b) =~= utf8(a) + utf8(b));
    }
}

/// Appends the text `node` spells to `out`.
fn push_text(node: &Node, out: &mut String)
    ensures
        utf8(final(out)@) == utf8(old(out)@) + node.bytes(),
    decreases node,
{
    match node {
        Node::Leaf(s) => {
            proof {
                lemma_utf8_concat(out@, s@);
            }
            out.append(s.as_str());
        },
        Node::Branch(br) => {
            let ghost start = utf8(out@);
            push_text(&br.left, out);
            push_text(&br.right, out);
            proof {
                assert(start + br.left.bytes() + br.right.bytes() =~= start + node.bytes());
            }
        },
    }
}

impl PartialEq for Rope {
    /// Two ropes are equal when they spell the same bytes.
    fn eq(&self, other: &Rope) -> (r: bool) {
        let a = self.to_bytes();
        let b = other.to_bytes();
        bytes_eq(a.as_slice(), b.as_slice())
    }
}

impl vstd::std_specs::cmp::PartialEqSpecImpl for Rope {
    open spec fn obeys_eq_spec() -> bool {
        true
    }

    open spec fn eq_spec(&self, other: &Rope) -> bool {
        self@ == other@
    }
}

impl PartialEq<str> for Rope {
    /// A rope equals a string when it spells the string's bytes.
    fn eq(&self, other: &str) -> (r: bool) {
        let a = self.to_bytes();
        bytes_eq(a.as_slice(), other.as_bytes())
    }
}

impl vstd::std_specs::cmp::PartialEqSpecImpl<str> for Rope {
    open spec fn obeys_eq_spec() -> bool {
        true
    }

    open spec fn eq_spec(&self, other: &str) -> bool {
        self@ == utf8(other@)
    }
}

impl From<&str> for Rope {
    /// A rope spelling `text`; see `Rope::from_text`.
    fn from(text: &str) -> (r: Rope)
        ensures
            r.wf(),
            r@ == utf8(text@),
            split_at_line_feeds(r.root.leaf_texts()),
    {
        Rope::from_text(text)
    }
}

impl vstd::std_specs::convert::FromSpecImpl<&str> for Rope {
    open spec fn obeys_from_spec() -> bool {
        false
    }

    open spec fn from_spec(text: &str) -> Rope {
        vstd::pervasive::arbitrary()
    }
}

impl From<String> for Rope {
    /// A rope spelling `text`; see `Rope::from_string`.
    fn from(text: String) -> (r: Rope)
        ensures
            r.wf(),
            r@ == utf8(text@),
            split_at_line_feeds(r.root.leaf_texts()),
    {
        Rope::from_string(text)
    }
}

impl vstd::std_specs::convert::FromSpecImpl<String> for Rope {
    open spec fn obeys_from_spec() -> bool {
        false
    }

    open spec fn from_spec(text: String) -> Rope {
        vstd::pervasive::arbitrary()
    }
}

impl Default for Rope {
    /// The empty rope.
    fn default() -> (r: Rope)
        ensures
            r.wf(),
            r@ == Seq::<u8>::empty(),
    {
        Rope::new()
    }
}

impl Rope {
    /// A read-only window on the bytes `range` of this rope.
    pub fn slice(&self, range: std::ops::Range<usize>) -> (r: RopeSlice<'_>)
        requires
            self.wf(),
            range.start <= range.end <= self@.len(),
        ensures
            r.wf(),
            r@ == self@.subrange(range.start as int, range.end as int),
    {
        RopeSlice::new(&self.root, range)
    }

    /// A window on the bytes `range` of this rope, through which text can be
    /// inserted into it.
    pub fn slice_mut(&mut self, range: std::ops::Range<usize>) -> (r: RopeSliceMut<'_>)
        requires
            old(self).wf(),
            range.start <= range.end <= old(self)@.len(),
        ensures
            *r.rope == *old(self),
            r.offset == range.start,
            r.len == range.end - range.start,
            *final(self) == *final(r.rope),
    {
        RopeSliceMut::new(self, range)
    }

    /// The grapheme cluster at index `i`, counting each leaf's clusters in
    /// turn.
    pub fn index(&self, i: usize) -> (r: &str)
        requires
            self.wf(),
            i < self.units::<Grapheme>(),
        ensures
            utf8(r@) == self.root.pieces()[i as int],
    {
        self.root.index(i)
    }

    /// `index`, or `None` where the rope has no cluster at `i`.
    pub fn grapheme_at(&self, i: usize) -> (r: Option<&str>)
        requires
            self.wf(),
        ensures
            r is Some <==> i < self.units::<Grapheme>(),
            r matches Some(g) ==> utf8(g@) == self.root.pieces()[i as int],
    {
        let count = self.root.measure_units::<Grapheme>();
        if i < count {
            Some(self.index(i))
        } else {
            None
        }
    }

    /// The grapheme clusters of this rope, each leaf segmented on its own,
    /// with the byte offset at which each begins.
    pub fn grapheme_indices(&self) -> (r: Vec<(usize, &str)>)
        requires
            self.wf(),
        ensures
            r@.map_values(|p: (usize, &str)| utf8(p.1@)) == self.root.pieces(),
            r@.map_values(|p: (usize, &str)| p.0 as nat) == self.root.piece_offsets(0),
    {
        self.root.grapheme_indices()
    }

    /// The grapheme clusters of this rope, each leaf segmented on its own.
    pub fn graphemes(&self) -> (r: Vec<&str>)
        requires
            self.wf(),
        ensures
            r@.map_values(|p: &str| utf8(p@)) == self.root.pieces(),
    {
        let indexed = self.root.grapheme_indices();
        let mut out: Vec<&str> = Vec::new();
        let mut i: usize = 0;
        while i < indexed.len()
            invariant
                0 <= i <= indexed@.len(),
                indexed@.map_values(|p: (usize, &str)| utf8(p.1@)) == self.root.pieces(),
                out@.len() == i,
                forall|j: int| 0 <= j < i ==> out@[j] == indexed@[j].1,
            decreases indexed@.len() - i,
        {
            out.push(indexed[i].1);
            i = i + 1;
        }
        proof {
            assert(out@.map_values(|p: &str| utf8(p@)) =~= indexed@.map_values(
                |p: (usize, &str)| utf8(p.1@),
            ));
        }
        out
    }

    /// The runs of text between word boundaries of this rope, each leaf
    /// segmented on its own, with the byte offset at which each begins.
    pub fn split_word_bound_indices(&self) -> (r: Vec<(usize, &str)>)
        requires
            self.wf(),
        ensures
            r@.map_values(|p: (usize, &str)| utf8(p.1@)) == self.root.segments(
                Segmentation::WordBounds,
            ),
            r@.map_values(|p: (usize, &str)| p.0 as nat) == self.root.segment_starts(
                Segmentation::WordBounds,
                0,
            ),
    {
        self.root.split_word_bound_indices()
    }

    /// The lines of this rope: its text between line feeds, without them.
    pub fn lines(&self) -> (r: Vec<String>)
        requires
            self.wf(),
        ensures
            is_lines_of(r@.map_values(|l: String| utf8(l@)), self@),
    {
        let text = self.to_text();
        let mut rest: &str = text.as_str();
        let mut out: Vec<String> = Vec::new();
        proof {
            assert(out@.map_values(|l: String| utf8(l@)) =~= Seq::<Seq<u8>>::empty());
            assert(self@ =~= join_terminated(Seq::empty()) + utf8(rest@));
        }
        while !rest.is_empty()
            invariant
                utf8(text@) == self@,
                self@ == join_terminated(out@.map_values(|l: String| utf8(l@))) + utf8(rest@),
                forall|k: int, j: int|
                    0 <= k < out@.len() && 0 <= j < utf8(out@[k]@).len() ==> #[trigger] utf8(
                        out@[k]@,
                    )[j] != 10u8,
            decreases utf8(rest@).len(),
        {
            let ghost lines = out@.map_values(|l: String| utf8(l@));
            let _ = crate::unicode::byte_len_of(rest);
            match find_line_end(rest, 0) {
                Some(p) => {
                    let (line, _) = rest.split_at(p);
                    let (_, after) = rest.split_at(p + 1);
                    let ghost before = out@;
                    out.push(line.to_owned());
                    proof {
                        let lb = utf8(line@);
                        assert(utf8(rest@) =~= lb + seq![10u8] + utf8(after@));
                        assert(out@.map_values(|l: String| utf8(l@)).drop_last() =~= lines);
                        assert(out@.map_values(|l: String| utf8(l@)).last() == lb);
                        assert(join_terminated(out@.map_values(|l: String| utf8(l@))) =~= join_terminated(lines) + lb + seq![10u8]);
                        assert(self@ =~= join_terminated(out@.map_values(|l: String| utf8(l@))) + utf8(after@));
                        assert forall|k: int, j: int|
                            0 <= k < out@.len() && 0 <= j < utf8(out@[k]@).len() implies #[trigger] utf8(
                                out@[k]@,
                            )[j] != 10u8 by {
                            if k < before.len() {
                                assert(out@[k] == before[k]);
                            } else {
                                assert(out@[k]@ == line@);
                                assert(utf8(rest@)[j] == lb[j]);
                            }
                        }
                    }
                    rest = after;
                },
                None => {
                    let ghost before = out@;
                    out.push(rest.to_owned());
                    proof {
                        let lb = utf8(rest@);
                        assert(out@.map_values(|l: String| utf8(l@)).drop_last() =~= lines);
                        assert(out@.map_values(|l: String| utf8(l@)).last() == lb);
                        assert forall|k: int, j: int|
                            0 <= k < out@.len() && 0 <= j < utf8(out@[k]@).len() implies #[trigger] utf8(
                                out@[k]@,
                            )[j] != 10u8 by {
                            if k < before.len() {
                                assert(out@[k] == before[k]);
                            }
                        }
                        assert(lb.len() > 0);
                        assert(self@ =~= join_terminated(lines) + lb);
                        let ls = out@.map_values(|l: String| utf8(l@));
                        assert forall|k: int, j: int|
                            0 <= k < ls.len() && 0 <= j < ls[k].len() implies #[trigger] ls[k][j]
                                != 10u8 by {
                            assert(ls[k] == utf8(out@[k]@));
                            if k == out@.len() - 1 {
                                assert(ls[k][j] == utf8(rest@)[j]);
                            }
                        }
                    }
                    return out;
                },
            }
        }
        proof {
            let ls = out@.map_values(|l: String| utf8(l@));
            assert(utf8(rest@) =~= Seq::<u8>::empty()) by {
                reveal_with_fuel(encode_utf8, 1);
            }
            assert(self@ =~= join_terminated(ls));
            assert forall|k: int, j: int| 0 <= k < ls.len() && 0 <= j < ls[k].len() implies #[trigger] ls[k][j]
                != 10u8 by {
                assert(ls[k] == utf8(out@[k]@));
            }
        }
        out
    }
}

impl Clone for Rope {
    /// A copy of this rope, node for node.
    fn clone(&self) -> (r: Rope)
        ensures
            r == *self,
    {
        Rope { root: self.root.clone() }
    }
}

} // verus!
