//! Rope slices: windows on a byte range of a rope.
//!
//! A `RopeSlice` borrows the smallest subtree that holds its range, found
//! with `Node::spanning`, and reads its bytes from there. A `RopeSliceMut`
//! borrows the whole rope and edits it through the rope's own operations,
//! so every cached measure on the way to the edit stays right.

use vstd::prelude::*;
use vstd::utf8::*;
use crate::internals::Node;
use crate::metric::utf8;
use crate::rope::Rope;

verus! {

/// A read-only window on the bytes `offset..offset + len` of a subtree.
#[derive(Debug)]
pub struct RopeSlice<'a> {
    /// The smallest subtree holding the window.
    pub node: &'a Node,
    /// Where the window begins in `node`.
    pub offset: usize,
    /// The window's length in bytes.
    pub len: usize,
}

impl<'a> View for RopeSlice<'a> {
    type V = Seq<u8>;

    /// The bytes in the window.
    open spec fn view(&self) -> Seq<u8> {
        self.node.bytes().subrange(self.offset as int, self.offset + self.len)
    }
}

impl<'a> RopeSlice<'a> {
    /// The window lies inside a well-formed subtree.
    pub open spec fn wf(&self) -> bool {
        self.node.wf() && self.offset + self.len <= self.node.bytes().len()
    }

    /// A window on the bytes `range` of `node`, borrowed from the smallest
    /// subtree holding them.
    pub fn new(node: &'a Node, range: std::ops::Range<usize>) -> (r: RopeSlice<'a>)
        requires
            node.wf(),
            range.start <= range.end <= node.bytes().len(),
        ensures
            r.wf(),
            r@ == node.bytes().subrange(range.start as int, range.end as int),
    {
        let slice_len = range.end - range.start;
        let (span, offset) = node.spanning(range.start, slice_len);
        proof {
            let base = choose|base: int|
                0 <= base && base + span.bytes().len() <= node.bytes().len()
                    && #[trigger] node.bytes().subrange(base, base + span.bytes().len())
                    == span.bytes() && base + offset == range.start;
            assert(span.bytes().subrange(offset as int, offset + slice_len) =~= node.bytes().subrange(
                range.start as int,
                range.end as int,
            ));
        }
        RopeSlice { node: span, offset, len: slice_len }
    }

    /// The length of the window in bytes.
    pub fn len(&self) -> (r: usize)
        ensures
            r == self.len,
    {
        self.len
    }

    /// The bytes in the window, in order.
    pub fn to_bytes(&self) -> (r: Vec<u8>)
        requires
            self.wf(),
        ensures
            r@ == self@,
    {
        let rope_bytes = Rope { root: self.node.clone() }.to_bytes();
        let mut out: Vec<u8> = Vec::new();
        let mut i = self.offset;
        let end = self.offset + self.len;
        while i < end
            invariant
                self.offset <= i <= end,
                end == self.offset + self.len,
                end <= rope_bytes@.len(),
                rope_bytes@ == self.node.bytes(),
                out@ == rope_bytes@.subrange(self.offset as int, i as int),
            decreases end - i,
        {
            out.push(rope_bytes[i]);
            i = i + 1;
            proof {
                assert(out@ =~= rope_bytes@.subrange(self.offset as int, i as int));
            }
        }
        out
    }
}

/// A window on the bytes `offset..offset + len` of a rope, through which
/// text can be inserted into the rope.
#[derive(Debug)]
pub struct RopeSliceMut<'a> {
    /// The rope the window is on.
    pub rope: &'a mut Rope,
    /// Where the window begins in the rope.
    pub offset: usize,
    /// The window's length in bytes.
    pub len: usize,
}

impl<'a> RopeSliceMut<'a> {
    /// A window on the bytes `range` of `rope`.
    pub fn new(rope: &'a mut Rope, range: std::ops::Range<usize>) -> (r: RopeSliceMut<'a>)
        requires
            old(rope).wf(),
            range.start <= range.end <= old(rope)@.len(),
        ensures
            *r.rope == *old(rope),
            r.offset == range.start,
            r.len == range.end - range.start,
            *final(rope) == *final(r.rope),
    {
        RopeSliceMut { rope, offset: range.start, len: range.end - range.start }
    }

    /// The length of the window in bytes.
    pub fn len(&self) -> (r: usize)
        ensures
            r == self.len,
    {
        self.len
    }

    /// The bytes in the window.
    pub open spec fn spec_bytes(&self) -> Seq<u8> {
        (*self.rope)@.subrange(self.offset as int, self.offset + self.len)
    }

    /// Insert `rope` at byte `index` of the window, which grows by its
    /// length. The text lands where the rope's `insert_rope` puts it: at
    /// that byte, unless the split there keeps a one-byte leaf whole.
    pub fn insert_rope(&mut self, index: usize, rope: Rope)
        requires
            old(self).rope.wf(),
            rope.wf(),
            old(self).offset + old(self).len <= (*old(self).rope)@.len(),
            index <= old(self).len,
            is_char_boundary((*old(self).rope)@, old(self).offset + index),
            (*old(self).rope)@.len() + rope@.len() <= usize::MAX,
        ensures
            final(self).rope.wf(),
            final(self).offset == old(self).offset,
            final(self).len == old(self).len + rope@.len(),
            (*final(self).rope)@ == old(self).rope.spliced(
                old(self).rope.insert_offset::<usize>((old(self).offset + index) as nat),
                rope@,
            ),
    {
        proof {
            crate::laws::lemma_byte_index(*self.rope, (self.offset + index) as nat);
        }
        let at = self.offset + index;
        let grow = rope.len();
        self.rope.insert_rope(at, rope);
        self.len = self.len + grow;
    }

    /// Insert `ch` at byte `index` of the window.
    pub fn insert(&mut self, index: usize, ch: char)
        requires
            old(self).rope.wf(),
            old(self).offset + old(self).len <= (*old(self).rope)@.len(),
            index <= old(self).len,
            is_char_boundary((*old(self).rope)@, old(self).offset + index),
            (*old(self).rope)@.len() + utf8(seq![ch]).len() <= usize::MAX,
        ensures
            final(self).rope.wf(),
            final(self).offset == old(self).offset,
            final(self).len == old(self).len + utf8(seq![ch]).len(),
            (*final(self).rope)@ == old(self).rope.spliced(
                old(self).rope.insert_offset::<usize>((old(self).offset + index) as nat),
                utf8(seq![ch]),
            ),
    {
        let r = Rope::from_char(ch);
        self.insert_rope(index, r)
    }

    /// Insert `s` at byte `index` of the window.
    pub fn insert_str(&mut self, index: usize, s: &str)
        requires
            old(self).rope.wf(),
            old(self).offset + old(self).len <= (*old(self).rope)@.len(),
            index <= old(self).len,
            is_char_boundary((*old(self).rope)@, old(self).offset + index),
            (*old(self).rope)@.len() + utf8(s@).len() <= usize::MAX,
        ensures
            final(self).rope.wf(),
            final(self).offset == old(self).offset,
            final(self).len == old(self).len + utf8(s@).len(),
            (*final(self).rope)@ == old(self).rope.spliced(
                old(self).rope.insert_offset::<usize>((old(self).offset + index) as nat),
                utf8(s@),
            ),
    {
        self.insert_rope(index, Rope::from_text(s))
    }
}

impl<'a> PartialEq<str> for RopeSlice<'a> {
    /// A slice equals a string when its window holds the string's bytes.
    fn eq(&self, other: &str) -> (r: bool) {
        let mine = Rope { root: self.node.clone() }.to_bytes();
        let theirs = other.as_bytes();
        let n = mine.len();
        if self.offset > mine.len() || self.len > mine.len() - self.offset || self.len
            != theirs.len() {
            return false;
        }
        let mut i: usize = 0;
        while i < self.len
            invariant
                0 <= i <= self.len,
                self.offset + self.len <= mine@.len(),
                mine@.len() == n,
                self.len == theirs@.len(),
                mine@ == self.node.bytes(),
                theirs@ == utf8(other@),
                forall|j: int| 0 <= j < i ==> mine@[self.offset + j] == theirs@[j],
            decreases self.len - i,
        {
            if mine[self.offset + i] != theirs[i] {
                proof {
                    assert(theirs@ == utf8(other@));
                    assert(self@[i as int] != theirs@[i as int]);
                    assert(self@ != utf8(other@));
                }
                return false;
            }
            i = i + 1;
        }
        proof {
            assert(self@ =~= theirs@);
        }
        true
    }
}

impl<'a> RopeSliceMut<'a> {
    /// The bytes in the window, in order.
    pub fn to_bytes(&self) -> (r: Vec<u8>)
        requires
            self.offset + self.len <= (*self.rope)@.len(),
        ensures
            r@ == self.spec_bytes(),
    {
        let all = self.rope.to_bytes();
        let _ = all.len();
        let mut out: Vec<u8> = Vec::new();
        let mut i = self.offset;
        let end = self.offset + self.len;
        while i < end
            invariant
                self.offset <= i <= end,
                end == self.offset + self.len,
                end <= all@.len(),
                all@ == (*self.rope)@,
                out@ == all@.subrange(self.offset as int, i as int),
            decreases end - i,
        {
            out.push(all[i]);
            i = i + 1;
            proof {
                assert(out@ =~= all@.subrange(self.offset as int, i as int));
            }
        }
        out
    }
}

impl<'a> PartialEq<str> for RopeSliceMut<'a> {
    /// A slice equals a string when its window holds the string's bytes.
    fn eq(&self, other: &str) -> (r: bool) {
        let mine = self.rope.to_bytes();
        let theirs = other.as_bytes();
        let n = mine.len();
        if self.offset > mine.len() || self.len > mine.len() - self.offset || self.len
            != theirs.len() {
            return false;
        }
        let mut i: usize = 0;
        while i < self.len
            invariant
                0 <= i <= self.len,
                self.offset + self.len <= mine@.len(),
                mine@.len() == n,
                self.len == theirs@.len(),
                mine@ == (*self.rope)@,
                theirs@ == utf8(other@),
                forall|j: int| 0 <= j < i ==> mine@[self.offset + j] == theirs@[j],
            decreases self.len - i,
        {
            if mine[self.offset + i] != theirs[i] {
                proof {
                    assert(theirs@ == utf8(other@));
                    assert(self.spec_bytes()[i as int] != theirs@[i as int]);
                    assert(self.spec_bytes() != utf8(other@));
                }
                return false;
            }
            i = i + 1;
        }
        proof {
            assert(self.spec_bytes() =~= theirs@);
        }
        true
    }
}

impl<'a> vstd::std_specs::cmp::PartialEqSpecImpl<str> for RopeSliceMut<'a> {
    open spec fn obeys_eq_spec() -> bool {
        true
    }

    /// The window lies in the rope and holds the string's bytes.
    open spec fn eq_spec(&self, other: &str) -> bool {
        self.offset + self.len <= (*self.rope)@.len() && self.spec_bytes() == utf8(other@)
    }
}

impl<'a> vstd::std_specs::cmp::PartialEqSpecImpl<str> for RopeSlice<'a> {
    open spec fn obeys_eq_spec() -> bool {
        true
    }

    /// The window lies in its subtree and holds the string's bytes.
    open spec fn eq_spec(&self, other: &str) -> bool {
        self.offset + self.len <= self.node.bytes().len() && self@ == utf8(other@)
    }
}

} // verus!
