//! The rope's tree: leaves holding text, branches concatenating two
//! subtrees and caching their measures.

use vstd::prelude::*;
use vstd::utf8::*;
use crate::metric::{Grapheme, Line, Metric, Monoid, line_units, starts_ok, utf8};
use crate::unicode::{
    Segmentation, byte_len_of, grapheme_count, grapheme_offsets, seg_count, seg_offset,
    segment_offsets,
};

verus! {

/// A node of a rope's tree.
///
/// A `Node` is either a `Leaf` holding a `String`, or a `Branch`
/// concatenating together two `Node`s.
#[derive(Debug)]
pub enum Node {
    /// A leaf node.
    Leaf(String),
    /// A branch concatenating together left and right nodes.
    Branch(BranchNode),
}

/// A branch of the tree, with the measures of its subtrees cached.
#[derive(Debug)]
pub struct BranchNode {
    /// The length of this node in bytes.
    pub len: usize,
    /// The length of this node in graphemes.
    pub grapheme_len: Grapheme,
    /// The weight of this node: the length of its left subtree in bytes.
    pub weight: usize,
    /// The number of started lines of this node.
    pub nlines: Line,
    /// The number of started lines in the node's left subtree.
    pub wlines: Line,
    /// The left subtree.
    pub left: Box<Node>,
    /// The right subtree.
    pub right: Box<Node>,
}

impl Node {
    /// The UTF-8 bytes this subtree spells, leaves read left to right.
    pub open spec fn bytes(self) -> Seq<u8>
        decreases self,
    {
        match self {
            Node::Leaf(s) => utf8(s@),
            Node::Branch(b) => b.left.bytes() + b.right.bytes(),
        }
    }

    /// The number of grapheme clusters of this subtree: the sum of the
    /// counts of its leaves.
    pub open spec fn grapheme_measure(self) -> nat
        decreases self,
    {
        match self {
            Node::Leaf(s) => grapheme_count(s@),
            Node::Branch(b) => b.left.grapheme_measure() + b.right.grapheme_measure(),
        }
    }

    /// The number of lines this subtree ends: the number of its leaves that
    /// end with a line feed.
    pub open spec fn line_measure(self) -> nat
        decreases self,
    {
        match self {
            Node::Leaf(s) => line_units(s@),
            Node::Branch(b) => b.left.line_measure() + b.right.line_measure(),
        }
    }

    /// The measure of this subtree in metric `M`.
    pub open spec fn measure<M: Metric>(self) -> nat {
        M::node_measure(self)
    }

    /// The depth of this subtree: 0 for a leaf, one more than the deeper
    /// child for a branch.
    pub open spec fn depth(self) -> nat
        decreases self,
    {
        match self {
            Node::Leaf(_) => 0,
            Node::Branch(b) => 1 + if b.left.depth() >= b.right.depth() {
                b.left.depth()
            } else {
                b.right.depth()
            },
        }
    }

    /// Every cached measure agrees with the subtrees, and every leaf is a
    /// text of at most `usize::MAX` bytes.
    pub open spec fn wf(self) -> bool
        decreases self,
    {
        match self {
            Node::Leaf(s) => utf8(s@).len() <= usize::MAX && starts_ok(s@),
            Node::Branch(b) => {
                &&& b.len as nat == b.left.bytes().len() + b.right.bytes().len()
                &&& b.weight as nat == b.left.bytes().len()
                &&& b.grapheme_len.0 as nat == b.left.grapheme_measure()
                    + b.right.grapheme_measure()
                &&& b.nlines.0 as nat == b.left.line_measure() + b.right.line_measure()
                &&& b.wlines.0 as nat == b.left.line_measure()
                &&& b.left.wf()
                &&& b.right.wf()
            },
        }
    }
}

/// The Fibonacci numbers: `fib(0) == 0`, `fib(1) == 1`.
pub open spec fn fib(n: nat) -> nat
    decreases n,
{
    if n == 0 {
        0
    } else if n == 1 {
        1
    } else {
        fib((n - 1) as nat) + fib((n - 2) as nat)
    }
}

/// The Fibonacci numbers never decrease.
pub proof fn lemma_fib_monotone(i: nat, j: nat)
    requires
        i <= j,
    ensures
        fib(i) <= fib(j),
    decreases j,
{
    if i < j {
        lemma_fib_monotone(i, (j - 1) as nat);
        if j >= 2 {
            assert(fib(j) == fib((j - 1) as nat) + fib((j - 2) as nat));
        }
    }
}

/// `fib(n)` is at least `n - 1`.
pub proof fn lemma_fib_lower(n: nat)
    ensures
        fib(n) + 1 >= n,
    decreases n,
{
    if n >= 4 {
        lemma_fib_lower((n - 1) as nat);
        lemma_fib_lower((n - 2) as nat);
    } else {
        reveal_with_fuel(fib, 4);
    }
}

/// Returns the `n`th Fibonacci number.
pub fn fibonacci(n: usize) -> (r: usize)
    requires
        fib(n as nat) <= usize::MAX,
    ensures
        r == fib(n as nat),
{
    if n == 0 {
        return 0;
    }
    let mut a: usize = 0;
    let mut b: usize = 1;
    let mut i: usize = 1;
    while i < n
        invariant
            1 <= i <= n,
            a == fib((i - 1) as nat),
            b == fib(i as nat),
            fib(n as nat) <= usize::MAX,
        decreases n - i,
    {
        proof {
            lemma_fib_monotone((i + 1) as nat, n as nat);
        }
        let c = a + b;
        a = b;
        b = c;
        i = i + 1;
    }
    b
}

/// Whether `fib(n + 2) <= bound`, computed without overflow for every `n`.
fn fib_at_most(n: usize, bound: usize) -> (r: bool)
    ensures
        r == (fib(n as nat + 2) <= bound),
{
    if bound == 0 {
        assert(fib(2) == 1) by {
            reveal_with_fuel(fib, 3);
        }
        proof {
            lemma_fib_monotone(2, n as nat + 2);
        }
        return false;
    }
    let mut a: u128 = 1;
    let mut b: u128 = 2;
    let mut k: usize = 0;
    assert(fib(2) == 1 && fib(3) == 2) by {
        reveal_with_fuel(fib, 4);
    }
    while k < n
        invariant
            k <= n,
            a == fib(k as nat + 2),
            b == fib(k as nat + 3),
            a <= bound,
        decreases n - k,
    {
        if b > bound as u128 {
            proof {
                lemma_fib_monotone(k as nat + 3, n as nat + 2);
            }
            return false;
        }
        proof {
            lemma_fib_monotone(k as nat + 2, k as nat + 3);
            assert(fib(k as nat + 4) == fib(k as nat + 3) + fib(k as nat + 2));
        }
        let c = a + b;
        a = b;
        b = c;
        k = k + 1;
    }
    true
}

impl Node {
    /// The measure of this subtree in metric `M`.
    pub fn measure_units<M: Metric>(&self) -> (r: usize)
        requires
            self.wf(),
        ensures
            r == self.measure::<M>(),
    {
        proof {
            M::lemma_node_measure(*self);
        }
        match self {
            Node::Leaf(s) => M::measure_text(s.as_str()),
            Node::Branch(b) => M::measure_branch(b),
        }
    }
}

impl BranchNode {
    /// The branch's subtrees agree with its cached measures.
    pub open spec fn wf(self) -> bool {
        Node::Branch(self).wf()
    }


    /// The length of this branch in bytes.
    pub fn len(&self) -> (r: usize)
        requires
            self.wf(),
        ensures
            r == Node::Branch(*self).bytes().len(),
    {
        self.len
    }

    /// The weight of this branch: the length of its left subtree in bytes.
    pub fn weight(&self) -> (r: usize)
        requires
            self.wf(),
        ensures
            r == self.left.bytes().len(),
    {
        self.weight
    }

    /// The length of this branch in grapheme clusters.
    pub fn grapheme_len(&self) -> (r: Grapheme)
        requires
            self.wf(),
        ensures
            r.0 == Node::Branch(*self).grapheme_measure(),
    {
        self.grapheme_len
    }

    /// The number of lines this branch ends.
    pub fn line_count(&self) -> (r: Line)
        requires
            self.wf(),
        ensures
            r.0 == Node::Branch(*self).line_measure(),
    {
        self.nlines
    }

    /// The number of lines the left subtree ends.
    pub fn line_weight(&self) -> (r: Line)
        requires
            self.wf(),
        ensures
            r.0 == self.left.line_measure(),
    {
        self.wlines
    }
}

impl Node {
    /// The subtree is balanced: its length is at least the
    /// `(depth + 2)`th Fibonacci number.
    pub open spec fn balanced(self) -> bool {
        self.bytes().len() >= fib(self.depth() + 2)
    }

    /// The byte offset at which `split` cuts this subtree at unit `index` of
    /// metric `M`: a leaf is cut where its unit `index` begins, except that an
    /// empty leaf is cut at 0 and a leaf of a single unit is cut at its end,
    /// whatever the index; a branch is cut in its left subtree when `index` is below
    /// the left subtree's measure, else in its right subtree at the rest of
    /// the index.
    pub open spec fn split_offset<M: Metric>(self, index: nat) -> Option<nat>
        decreases self,
    {
        match self {
            Node::Leaf(s) => if utf8(s@).len() == 0 {
                Some(0)
            } else if M::leaf_measure(s@) == 1 {
                Some(utf8(s@).len())
            } else {
                M::leaf_offset(s@, index)
            },
            Node::Branch(b) => if index < M::node_measure(*b.left) {
                b.left.split_offset::<M>(index)
            } else {
                match b.right.split_offset::<M>((index - M::node_measure(*b.left)) as nat) {
                    Some(k) => Some(b.left.bytes().len() + k),
                    None => None,
                }
            },
        }
    }

    /// `split` can cut this subtree at unit `index` of metric `M`: the leaf
    /// the index falls in has an offset for it, on one of its char
    /// boundaries.
    pub open spec fn split_ok<M: Metric>(self, index: nat) -> bool
        decreases self,
    {
        match self {
            Node::Leaf(s) => {
                ||| utf8(s@).len() == 0
                ||| M::leaf_measure(s@) == 1
                ||| match M::leaf_offset(s@, index) {
                    Some(k) => k <= utf8(s@).len() && is_char_boundary(utf8(s@), k as int),
                    None => false,
                }
            },
            Node::Branch(b) => if index < M::node_measure(*b.left) {
                b.left.split_ok::<M>(index)
            } else {
                b.right.split_ok::<M>((index - M::node_measure(*b.left)) as nat)
            },
        }
    }

    /// How `split` at unit `index` of metric `M` reuses this subtree's
    /// nodes in the pair `r` it returns: a leaf is cut into two leaves. At a
    /// branch cut in its left subtree, the untouched right subtree is the
    /// right side itself when the left subtree's far part spells nothing,
    /// and otherwise the right child of the new branch on the right side;
    /// a cut in the right subtree mirrors this with the left subtree.
    pub open spec fn split_reuses<M: Metric>(self, index: nat, r: (Node, Node)) -> bool {
        match self {
            Node::Leaf(_) => r.0 is Leaf && r.1 is Leaf,
            Node::Branch(b) => if index < M::node_measure(*b.left) {
                if b.left.split_offset::<M>(index)->0 == b.left.bytes().len() {
                    r.1 == *b.right
                } else {
                    r.1 matches Node::Branch(nb) && *nb.right == *b.right
                }
            } else {
                if b.right.split_offset::<M>((index - M::node_measure(*b.left)) as nat)->0 == 0 {
                    r.0 == *b.left
                } else {
                    r.0 matches Node::Branch(nb) && *nb.left == *b.left
                }
            },
        }
    }

    /// A leaf holding no text.
    pub fn empty() -> (r: Node)
        ensures
            r.wf(),
            r.bytes().len() == 0,
            r is Leaf,
            r.shape() == Shape::Leaf(Seq::empty()),
    {
        Node::Leaf(String::new())
    }

    /// A leaf holding `text`.
    pub fn new_leaf(text: &str) -> (r: Node)
        ensures
            r.wf(),
            r.bytes() == utf8(text@),
            r is Leaf,
            r.shape() == Shape::Leaf(text@),
    {
        let _ = byte_len_of(text);
        let _ = grapheme_offsets(text);
        Node::Leaf(text.to_owned())
    }

    /// Concatenate two `Node`s to return a new `Branch` node.
    pub fn new_branch(left: Node, right: Node) -> (r: Node)
        requires
            left.wf(),
            right.wf(),
            left.bytes().len() + right.bytes().len() <= usize::MAX,
        ensures
            r.wf(),
            r is Branch,
            *r->Branch_0.left == left,
            *r->Branch_0.right == right,
            r.bytes() == left.bytes() + right.bytes(),
            r.depth() == 1 + if left.depth() >= right.depth() {
                left.depth()
            } else {
                right.depth()
            },
    {
        Node::Branch(BranchNode::new(left, right))
    }
}

impl BranchNode {
    /// A branch over `left` and `right`, its measures computed from theirs.
    pub fn new(left: Node, right: Node) -> (r: BranchNode)
        requires
            left.wf(),
            right.wf(),
            left.bytes().len() + right.bytes().len() <= usize::MAX,
        ensures
            r.wf(),
            *r.left == left,
            *r.right == right,
    {
        proof {
            left.lemma_measures_bounded();
            right.lemma_measures_bounded();
        }
        let len = left.len() + right.len();
        let weight = left.len();
        let gl = left.measure_units::<Grapheme>();
        let gr = right.measure_units::<Grapheme>();
        let ll = left.measure_units::<Line>();
        let lr = right.measure_units::<Line>();
        proof {
            Grapheme::lemma_node_measure(left);
            Line::lemma_node_measure(left);
        }
        BranchNode {
            len,
            grapheme_len: Grapheme(gl + gr),
            weight,
            nlines: Line(ll + lr),
            wlines: Line(ll),
            left: Box::new(left),
            right: Box::new(right),
        }
    }
}

impl Node {

    /// The grapheme and line measures of a subtree are at most its length.
    pub proof fn lemma_measures_bounded(self)
        requires
            self.wf(),
        ensures
            self.grapheme_measure() <= self.bytes().len(),
            self.line_measure() <= self.bytes().len(),
        decreases self,
    {
        match self {
            Node::Leaf(s) => {
                Grapheme::lemma_leaf_measure_bound(s@);
            },
            Node::Branch(b) => {
                b.left.lemma_measures_bounded();
                b.right.lemma_measures_bounded();
            },
        }
    }

    /// Returns the length of a node in bytes.
    pub fn len(&self) -> (r: usize)
        requires
            self.wf(),
        ensures
            r == self.bytes().len(),
    {
        match self {
            Node::Leaf(s) => byte_len_of(s.as_str()),
            Node::Branch(b) => b.len,
        }
    }

    /// Returns true if this node spells no text.
    pub fn is_empty(&self) -> (r: bool)
        requires
            self.wf(),
        ensures
            r == (self.bytes().len() == 0),
    {
        self.len() == 0
    }
}

impl Node {
    /// Split this `Node`'s subtree at unit `index` of metric `M`, consuming
    /// it.
    ///
    /// The tree is walked from this node to the leaf holding the index,
    /// which is cut in two; the nodes on the way are rebuilt around the two
    /// halves. Returns the left and right sides of the cut: together they
    /// spell this subtree, and the left side spells its first
    /// `split_offset(index)` bytes.
    ///
    /// # Time complexity
    /// O(log _n_) on a balanced tree.
    pub fn split<M: Metric>(self, index: M) -> (r: (Node, Node))
        requires
            self.wf(),
            self.split_ok::<M>(index.spec_count()),
        ensures
            r.0.wf(),
            r.1.wf(),
            self.split_offset::<M>(index.spec_count()) is Some,
            self.split_offset::<M>(index.spec_count())->0 <= self.bytes().len(),
            r.0.bytes() == self.bytes().subrange(
                0,
                self.split_offset::<M>(index.spec_count())->0 as int,
            ),
            r.1.bytes() == self.bytes().subrange(
                self.split_offset::<M>(index.spec_count())->0 as int,
                self.bytes().len() as int,
            ),
            self.split_reuses::<M>(index.spec_count(), r),
            r.0.shape() == self.shape().split::<M>(index.spec_count()).0,
            r.1.shape() == self.shape().split::<M>(index.spec_count()).1,
    {
        let i = index.count();
        self.split_units::<M>(i)
    }

    /// `split` at unit `index` of metric `M`, the index given as a count.
    pub fn split_units<M: Metric>(self, index: usize) -> (r: (Node, Node))
        requires
            self.wf(),
            self.split_ok::<M>(index as nat),
        ensures
            r.0.wf(),
            r.1.wf(),
            self.split_offset::<M>(index as nat) is Some,
            self.split_offset::<M>(index as nat)->0 <= self.bytes().len(),
            r.0.bytes() == self.bytes().subrange(
                0,
                self.split_offset::<M>(index as nat)->0 as int,
            ),
            r.1.bytes() == self.bytes().subrange(
                self.split_offset::<M>(index as nat)->0 as int,
                self.bytes().len() as int,
            ),
            self.split_reuses::<M>(index as nat, r),
            r.0.shape() == self.shape().split::<M>(index as nat).0,
            r.1.shape() == self.shape().split::<M>(index as nat).1,
        decreases self,
    {
        match self {
            Node::Leaf(s) => {
                let n = byte_len_of(s.as_str());
                if n == 0 {
                    // splitting an empty leaf returns two empty leaves
                    proof {
                        assert(self.bytes() =~= Seq::<u8>::empty());
                    }
                    (Node::empty(), Node::empty())
                } else if M::measure_text(s.as_str()) == 1 {
                    // a leaf of one unit is kept whole on the left, whatever
                    // the index
                    proof {
                        assert(self.bytes().subrange(0, n as int) =~= self.bytes());
                    }
                    (Node::Leaf(s), Node::empty())
                } else {
                    let k = M::text_byte_index(s.as_str(), index).unwrap();
                    let (a, b) = s.as_str().split_at(k);
                    proof {
                        broadcast use encode_utf8_decode_utf8;

                    }
                    (Node::new_leaf(a), Node::new_leaf(b))
                }
            },
            Node::Branch(b) => b.split_units::<M>(index),
        }
    }
}

impl BranchNode {
    /// Split this branch at unit `index` of metric `M`.
    ///
    /// The index is compared to the measure of the left subtree: below it,
    /// the left subtree is split and its right part joins the right subtree;
    /// otherwise the right subtree is split at the rest of the index and its
    /// left part joins the left subtree. A part that spells nothing is
    /// dropped rather than joined.
    pub fn split_units<M: Metric>(self, index: usize) -> (r: (Node, Node))
        requires
            self.wf(),
            Node::Branch(self).split_ok::<M>(index as nat),
        ensures
            r.0.wf(),
            r.1.wf(),
            Node::Branch(self).split_offset::<M>(index as nat) is Some,
            Node::Branch(self).split_offset::<M>(index as nat)->0 <= Node::Branch(self).bytes().len(),
            r.0.bytes() == Node::Branch(self).bytes().subrange(
                0,
                Node::Branch(self).split_offset::<M>(index as nat)->0 as int,
            ),
            r.1.bytes() == Node::Branch(self).bytes().subrange(
                Node::Branch(self).split_offset::<M>(index as nat)->0 as int,
                Node::Branch(self).bytes().len() as int,
            ),
            Node::Branch(self).split_reuses::<M>(index as nat, r),
            r.0.shape() == Node::Branch(self).shape().split::<M>(index as nat).0,
            r.1.shape() == Node::Branch(self).shape().split::<M>(index as nat).1,
        decreases self,
    {
        let weight = M::weight_branch(&self);
        let ghost whole = Node::Branch(self);
        proof {
            self.left.lemma_shape::<M>(index as nat);
        }
        let BranchNode { left, right, .. } = self;
        let ghost lb = left.bytes();
        let ghost rb = right.bytes();
        if index < weight {
            // the index is in the left subtree
            let (l, lr) = (*left).split_units::<M>(index);
            proof {
                lr.lemma_shape::<M>(0);
            }
            let ghost k = left.split_offset::<M>(index as nat)->0;
            let r = if lr.is_empty() {
                *right
            } else {
                Node::new_branch(lr, *right)
            };
            proof {
                assert(lr.bytes() + rb =~= (lb + rb).subrange(k as int, (lb + rb).len() as int));
                assert(lb.subrange(0, k as int) =~= (lb + rb).subrange(0, k as int));
                if lr.bytes().len() == 0 {
                    assert(rb =~= lr.bytes() + rb);
                }
            }
            (l, r)
        } else {
            // the index is in the right subtree, past the left's weight
            let (rl, r) = (*right).split_units::<M>(index - weight);
            proof {
                rl.lemma_shape::<M>(0);
            }
            let ghost k = right.split_offset::<M>((index - weight) as nat)->0;
            let l = if rl.is_empty() {
                *left
            } else {
                Node::new_branch(*left, rl)
            };
            proof {
                assert(lb + rl.bytes() =~= (lb + rb).subrange(0, (lb.len() + k) as int));
                assert(rb.subrange(k as int, rb.len() as int) =~= (lb + rb).subrange(
                    (lb.len() + k) as int,
                    (lb + rb).len() as int,
                ));
                if rl.bytes().len() == 0 {
                    assert(lb =~= lb + rl.bytes());
                }
            }
            (l, r)
        }
    }
}

/// The shape of a tree: its branches and the text of each leaf, without the
/// cached measures. It names the trees `split` returns.
pub enum Shape {
    /// A leaf holding this text.
    Leaf(Seq<char>),
    /// A branch over two shapes.
    Branch(Box<Shape>, Box<Shape>),
}

impl Shape {
    /// The UTF-8 bytes this shape spells.
    pub open spec fn bytes(self) -> Seq<u8>
        decreases self,
    {
        match self {
            Shape::Leaf(t) => utf8(t),
            Shape::Branch(l, r) => l.bytes() + r.bytes(),
        }
    }

    /// The measure of this shape in metric `M`: the sum of its leaves'.
    pub open spec fn measure<M: Metric>(self) -> nat
        decreases self,
    {
        match self {
            Shape::Leaf(t) => M::leaf_measure(t),
            Shape::Branch(l, r) => l.measure::<M>() + r.measure::<M>(),
        }
    }

    /// `Node::split_ok` on shapes.
    pub open spec fn split_ok<M: Metric>(self, index: nat) -> bool
        decreases self,
    {
        match self {
            Shape::Leaf(t) => {
                ||| utf8(t).len() == 0
                ||| M::leaf_measure(t) == 1
                ||| match M::leaf_offset(t, index) {
                    Some(k) => k <= utf8(t).len() && is_char_boundary(utf8(t), k as int),
                    None => false,
                }
            },
            Shape::Branch(l, r) => if index < l.measure::<M>() {
                l.split_ok::<M>(index)
            } else {
                r.split_ok::<M>((index - l.measure::<M>()) as nat)
            },
        }
    }

    /// `Node::split_offset` on shapes.
    pub open spec fn split_offset<M: Metric>(self, index: nat) -> Option<nat>
        decreases self,
    {
        match self {
            Shape::Leaf(t) => if utf8(t).len() == 0 {
                Some(0)
            } else if M::leaf_measure(t) == 1 {
                Some(utf8(t).len())
            } else {
                M::leaf_offset(t, index)
            },
            Shape::Branch(l, r) => if index < l.measure::<M>() {
                l.split_offset::<M>(index)
            } else {
                match r.split_offset::<M>((index - l.measure::<M>()) as nat) {
                    Some(k) => Some(l.bytes().len() + k),
                    None => None,
                }
            },
        }
    }

    /// The shapes of the two trees `split` returns at unit `index` of `M`:
    /// a leaf is cut into two leaves (into two empty ones when it is empty,
    /// into itself and an empty one when it holds one unit); a
    /// branch has its left or right subtree cut, and the part of the cut
    /// subtree towards the other side is joined to the untouched subtree,
    /// or dropped when it spells nothing.
    pub open spec fn split<M: Metric>(self, index: nat) -> (Shape, Shape)
        decreases self,
    {
        match self {
            Shape::Leaf(t) => if utf8(t).len() == 0 {
                (Shape::Leaf(Seq::empty()), Shape::Leaf(Seq::empty()))
            } else if M::leaf_measure(t) == 1 {
                (self, Shape::Leaf(Seq::empty()))
            } else {
                let k = M::leaf_offset(t, index)->0;
                (
                    Shape::Leaf(decode_utf8(utf8(t).subrange(0, k as int))),
                    Shape::Leaf(decode_utf8(utf8(t).subrange(k as int, utf8(t).len() as int))),
                )
            },
            Shape::Branch(l, r) => if index < l.measure::<M>() {
                let (a, b) = l.split::<M>(index);
                (a, if b.bytes().len() == 0 {
                    *r
                } else {
                    Shape::Branch(Box::new(b), r)
                })
            } else {
                let (a, b) = r.split::<M>((index - l.measure::<M>()) as nat);
                (if a.bytes().len() == 0 {
                    *l
                } else {
                    Shape::Branch(l, Box::new(a))
                }, b)
            },
        }
    }

    /// Where a shape can be split, its two parts spell the bytes before and
    /// after the cut.
    pub proof fn lemma_split_bytes<M: Metric>(self, index: nat)
        requires
            self.split_ok::<M>(index),
        ensures
            self.split_offset::<M>(index) is Some,
            self.split_offset::<M>(index)->0 <= self.bytes().len(),
            self.split::<M>(index).0.bytes() == self.bytes().subrange(
                0,
                self.split_offset::<M>(index)->0 as int,
            ),
            self.split::<M>(index).1.bytes() == self.bytes().subrange(
                self.split_offset::<M>(index)->0 as int,
                self.bytes().len() as int,
            ),
        decreases self,
    {
        broadcast use encode_utf8_valid_utf8, decode_utf8_encode_utf8;

        match self {
            Shape::Leaf(t) => {
                let b = utf8(t);
                if b.len() == 0 {
                    assert(utf8(Seq::<char>::empty()) =~= Seq::<u8>::empty()) by {
                        reveal_with_fuel(encode_utf8, 1);
                    }
                    assert(b.subrange(0, 0) =~= b);
                    assert(b.subrange(0, b.len() as int) =~= b);
                } else if M::leaf_measure(t) == 1 {
                    assert(utf8(Seq::<char>::empty()) =~= Seq::<u8>::empty()) by {
                        reveal_with_fuel(encode_utf8, 1);
                    }
                    assert(b.subrange(0, b.len() as int) =~= b);
                } else {
                    let k = M::leaf_offset(t, index)->0;
                    valid_utf8_split(b, k as int);
                }
            },
            Shape::Branch(l, r) => {
                let lb = l.bytes();
                let rb = r.bytes();
                if index < l.measure::<M>() {
                    l.lemma_split_bytes::<M>(index);
                    let k = l.split_offset::<M>(index)->0;
                    let (a, c) = l.split::<M>(index);
                    assert(c.bytes() + rb =~= (lb + rb).subrange(k as int, (lb + rb).len() as int));
                    assert(lb.subrange(0, k as int) =~= (lb + rb).subrange(0, k as int));
                    if c.bytes().len() == 0 {
                        assert(rb =~= c.bytes() + rb);
                    }
                } else {
                    let j = (index - l.measure::<M>()) as nat;
                    r.lemma_split_bytes::<M>(j);
                    let k = r.split_offset::<M>(j)->0;
                    let (a, c) = r.split::<M>(j);
                    assert(lb + a.bytes() =~= (lb + rb).subrange(0, (lb.len() + k) as int));
                    assert(rb.subrange(k as int, rb.len() as int) =~= (lb + rb).subrange(
                        (lb.len() + k) as int,
                        (lb + rb).len() as int,
                    ));
                    if a.bytes().len() == 0 {
                        assert(lb =~= lb + a.bytes());
                    }
                }
            },
        }
    }
}

impl Shape {
    /// The bytes a shape spells are valid UTF-8.
    pub proof fn lemma_valid_utf8(self)
        ensures
            valid_utf8(self.bytes()),
        decreases self,
    {
        broadcast use encode_utf8_valid_utf8, valid_utf8_concat;

        match self {
            Shape::Leaf(_) => {},
            Shape::Branch(l, r) => {
                l.lemma_valid_utf8();
                r.lemma_valid_utf8();
            },
        }
    }

    /// In bytes, a shape measures its length.
    pub proof fn lemma_byte_measure(self)
        ensures
            self.measure::<usize>() == self.bytes().len(),
        decreases self,
    {
        match self {
            Shape::Leaf(_) => {},
            Shape::Branch(l, r) => {
                l.lemma_byte_measure();
                r.lemma_byte_measure();
            },
        }
    }

    /// No leaf of this shape holds exactly one unit of metric `M`, so no
    /// split in `M` keeps a leaf whole for its single unit.
    pub open spec fn no_unit_leaf<M: Metric>(self) -> bool
        decreases self,
    {
        match self {
            Shape::Leaf(t) => M::leaf_measure(t) != 1,
            Shape::Branch(l, r) => l.no_unit_leaf::<M>() && r.no_unit_leaf::<M>(),
        }
    }

    /// In bytes, a shape can be split at any char boundary of its text; the
    /// cut falls exactly there when no leaf is a single byte (a one-byte
    /// leaf is kept whole, so a cut at its start falls at its end).
    pub proof fn lemma_byte_split(self, i: nat)
        requires
            i <= self.bytes().len(),
            is_char_boundary(self.bytes(), i as int),
        ensures
            self.split_ok::<usize>(i),
            self.no_unit_leaf::<usize>() ==> self.split_offset::<usize>(i) == Some(i),
        decreases self,
    {
        match self {
            Shape::Leaf(_) => {},
            Shape::Branch(l, r) => {
                l.lemma_valid_utf8();
                r.lemma_valid_utf8();
                l.lemma_byte_measure();
                lemma_boundary_concat(l.bytes(), r.bytes(), i as int);
                if i < l.bytes().len() {
                    l.lemma_byte_split(i);
                } else {
                    r.lemma_byte_split((i - l.bytes().len()) as nat);
                }
            },
        }
    }
}

impl Node {
    /// The shape of this tree.
    pub open spec fn shape(self) -> Shape
        decreases self,
    {
        match self {
            Node::Leaf(s) => Shape::Leaf(s@),
            Node::Branch(b) => Shape::Branch(Box::new(b.left.shape()), Box::new(b.right.shape())),
        }
    }

    /// A tree and its shape spell the same bytes, have the same measures,
    /// and split alike.
    pub proof fn lemma_shape<M: Metric>(self, index: nat)
        ensures
            self.bytes() == self.shape().bytes(),
            M::node_measure(self) == self.shape().measure::<M>(),
            self.split_ok::<M>(index) == self.shape().split_ok::<M>(index),
            self.split_offset::<M>(index) == self.shape().split_offset::<M>(index),
        decreases self,
    {
        M::lemma_node_measure(self);
        match self {
            Node::Leaf(_) => {},
            Node::Branch(b) => {
                b.left.lemma_shape::<M>(index);
                b.right.lemma_shape::<M>(0);
                if index >= M::node_measure(*b.left) {
                    b.right.lemma_shape::<M>((index - M::node_measure(*b.left)) as nat);
                }
            },
        }
    }
}

/// The bytes a sequence of nodes spells, read left to right.
pub open spec fn concat_bytes(nodes: Seq<Node>) -> Seq<u8>
    decreases nodes.len(),
{
    if nodes.len() == 0 {
        Seq::empty()
    } else {
        concat_bytes(nodes.drop_last()) + nodes.last().bytes()
    }
}

/// Every node of the sequence is a well-formed leaf holding some text.
pub open spec fn nonempty_leaves(nodes: Seq<Node>) -> bool {
    forall|i: int|
        0 <= i < nodes.len() ==> {
            &&& #[trigger] nodes[i] is Leaf
            &&& nodes[i].wf()
            &&& nodes[i].bytes().len() > 0
        }
}

impl Node {
    /// The leaves of this subtree that hold some text, left to right.
    pub open spec fn nonempty_leaf_seq(self) -> Seq<Node>
        decreases self,
    {
        match self {
            Node::Leaf(s) => if utf8(s@).len() > 0 {
                seq![self]
            } else {
                Seq::empty()
            },
            Node::Branch(b) => b.left.nonempty_leaf_seq() + b.right.nonempty_leaf_seq(),
        }
    }
}

impl Node {
    /// The bytes of every leaf of this subtree, empty ones too, left to
    /// right.
    pub open spec fn leaf_texts(self) -> Seq<Seq<u8>>
        decreases self,
    {
        match self {
            Node::Leaf(s) => seq![utf8(s@)],
            Node::Branch(b) => b.left.leaf_texts() + b.right.leaf_texts(),
        }
    }
}

/// The depth of the tree that `build` makes of `n` leaves.
pub open spec fn build_depth(n: nat) -> nat
    decreases n,
{
    if n <= 1 {
        0
    } else {
        1 + build_depth((n - n / 2) as nat)
    }
}

proof fn lemma_build_depth_monotone(m: nat, n: nat)
    requires
        m <= n,
    ensures
        build_depth(m) <= build_depth(n),
    decreases n,
{
    if m > 1 {
        lemma_build_depth_monotone((m - m / 2) as nat, (n - n / 2) as nat);
    }
}

/// A tree built by halving `n` leaves is shallow enough for `n` bytes to
/// balance it.
proof fn lemma_build_depth_balanced(n: nat)
    requires
        n >= 1,
    ensures
        fib(build_depth(n) + 2) <= n,
    decreases n,
{
    reveal_with_fuel(fib, 3);
    if n >= 2 {
        let m = (n - n / 2) as nat;
        lemma_build_depth_balanced(m);
        let d = build_depth(m);
        assert(fib(d + 3) == fib(d + 2) + fib(d + 1));
        if d >= 1 {
            assert(fib(d + 2) == fib(d + 1) + fib(d as nat));
            lemma_fib_monotone(1, d as nat);
        }
    }
}

proof fn lemma_concat_bytes_len(nodes: Seq<Node>)
    requires
        nonempty_leaves(nodes),
    ensures
        concat_bytes(nodes).len() >= nodes.len(),
    decreases nodes.len(),
{
    if nodes.len() > 0 {
        assert(nodes.last() == nodes[nodes.len() - 1]);
        lemma_concat_bytes_len(nodes.drop_last());
    }
}

proof fn lemma_concat_bytes_split(nodes: Seq<Node>, k: int)
    requires
        0 <= k <= nodes.len(),
    ensures
        concat_bytes(nodes) == concat_bytes(nodes.subrange(0, k)) + concat_bytes(
            nodes.subrange(k, nodes.len() as int),
        ),
    decreases nodes.len(),
{
    if k == nodes.len() {
        assert(nodes.subrange(0, k) =~= nodes);
        assert(concat_bytes(nodes.subrange(k, nodes.len() as int)) =~= Seq::<u8>::empty());
        assert(concat_bytes(nodes) + Seq::<u8>::empty() =~= concat_bytes(nodes));
    } else {
        lemma_concat_bytes_split(nodes.drop_last(), k);
        assert(nodes.drop_last().subrange(0, k) =~= nodes.subrange(0, k));
        assert(nodes.subrange(k, nodes.len() as int).drop_last() =~= nodes.drop_last().subrange(
            k,
            nodes.drop_last().len() as int,
        ));
        assert(nodes.subrange(k, nodes.len() as int).last() == nodes.last());
    }
}

/// Builds a tree over `leaves` by halving: one leaf is itself, more are the
/// concatenation of the trees over their first and second halves.
#[verifier::rlimit(40)]
fn build(leaves: Vec<Node>) -> (r: Node)
    requires
        leaves@.len() >= 1,
        nonempty_leaves(leaves@),
        concat_bytes(leaves@).len() <= usize::MAX,
    ensures
        r.wf(),
        r.bytes() == concat_bytes(leaves@),
        r.depth() == build_depth(leaves@.len()),
        r.nonempty_leaf_seq() == leaves@,
        forall|k: int| 0 <= k < r.leaf_texts().len() ==> #[trigger] r.leaf_texts()[k].len() > 0,
    decreases leaves@.len(),
{
    let mut leaves = leaves;
    let n = leaves.len();
    if n == 1 {
        let ghost orig = leaves@;
        let r = leaves.pop().unwrap();
        proof {
            assert(orig.drop_last() =~= Seq::<Node>::empty());
            assert(concat_bytes(orig.drop_last()) =~= Seq::<u8>::empty());
            assert(Seq::<u8>::empty() + r.bytes() =~= r.bytes());
            assert(orig[0] == r);
            assert(r.nonempty_leaf_seq() =~= orig);
            assert(r.leaf_texts() =~= seq![r.bytes()]);
        }
        r
    } else {
        let ghost all = leaves@;
        let right = leaves.split_off(n / 2);
        proof {
            lemma_concat_bytes_split(all, (n / 2) as int);
            assert(leaves@ =~= all.subrange(0, (n / 2) as int));
            assert(nonempty_leaves(leaves@));
            assert(nonempty_leaves(right@));
            lemma_build_depth_monotone((n / 2) as nat, (n - n / 2) as nat);
        }
        let ghost left_seq = leaves@;
        let ghost right_seq = right@;
        let l = build(leaves);
        let r = build(right);
        let t = Node::new_branch(l, r);
        proof {
            assert(left_seq + right_seq =~= all);
            assert(t.leaf_texts() == l.leaf_texts() + r.leaf_texts());
            assert forall|k: int| 0 <= k < t.leaf_texts().len() implies #[trigger] t.leaf_texts()[k].len()
                > 0 by {
                if k >= l.leaf_texts().len() {
                    assert(t.leaf_texts()[k] == r.leaf_texts()[k - l.leaf_texts().len()]);
                } else {
                    assert(t.leaf_texts()[k] == l.leaf_texts()[k]);
                }
            }
        }
        t
    }
}

impl Node {
    /// Returns the depth of this subtree, or `usize::MAX` if it is deeper.
    fn tree_depth(&self) -> (r: usize)
        requires
            self.wf(),
        ensures
            r as nat == if self.depth() <= usize::MAX {
                self.depth()
            } else {
                usize::MAX as nat
            },
        decreases self,
    {
        match self {
            Node::Leaf(_) => 0,
            Node::Branch(b) => {
                let l = b.left.tree_depth();
                let r = b.right.tree_depth();
                let m = if l >= r {
                    l
                } else {
                    r
                };
                if m == usize::MAX {
                    usize::MAX
                } else {
                    m + 1
                }
            },
        }
    }

    /// Returns true if this node is balanced.
    ///
    /// > We define the depth of a leaf to be 0, and the depth of a
    /// > concatenation to be one plus the maximum depth of its children. Let
    /// > _Fn_ be the _n_th Fibonacci number. A rope of depth _n_ is balanced if
    /// > its length is at least _Fn_+2, e.g. a balanced rope of depth 1 must
    /// > have length at least 2. Note that balanced ropes may contain
    /// > unbalanced subropes.
    /// – from "Ropes: An Alternative to Strings"
    pub fn is_balanced(&self) -> (r: bool)
        requires
            self.wf(),
        ensures
            r == self.balanced(),
    {
        let d = self.tree_depth();
        let len = self.len();
        let r = fib_at_most(d, len);
        proof {
            if self.depth() > usize::MAX {
                lemma_fib_lower(d as nat + 2);
                lemma_fib_lower(self.depth() + 2);
                lemma_fib_monotone(d as nat + 2, self.depth() + 2);
            }
        }
        r
    }

    /// The non-empty leaves of this subtree, in order, appended to `out`.
    fn push_leaves(self, out: &mut Vec<Node>)
        requires
            self.wf(),
            nonempty_leaves(old(out)@),
        ensures
            nonempty_leaves(final(out)@),
            concat_bytes(final(out)@) == concat_bytes(old(out)@) + self.bytes(),
            final(out)@ == old(out)@ + self.nonempty_leaf_seq(),
        decreases self,
    {
        match self {
            Node::Leaf(s) => {
                if !s.as_str().is_empty() {
                    let ghost before = out@;
                    let leaf = Node::Leaf(s);
                    out.push(leaf);
                    proof {
                        assert(out@.drop_last() =~= before);
                        assert(out@.last() == leaf);
                        assert(s@.len() > 0);
                        assert(utf8(s@).len() > 0) by {
                            reveal_with_fuel(vstd::utf8::encode_utf8, 2);
                        }
                        assert(out@ =~= before + self.nonempty_leaf_seq());
                    }
                } else {
                    proof {
                        assert(self.bytes() =~= Seq::<u8>::empty()) by {
                            reveal_with_fuel(vstd::utf8::encode_utf8, 2);
                        }
                        assert(concat_bytes(out@) + self.bytes() =~= concat_bytes(out@));
                        assert(out@ =~= out@ + self.nonempty_leaf_seq());
                    }
                }
            },
            Node::Branch(b) => {
                let BranchNode { left, right, .. } = b;
                let ghost lb = left.bytes();
                let ghost rb = right.bytes();
                let ghost before = concat_bytes(out@);
                let ghost start = out@;
                (*left).push_leaves(out);
                (*right).push_leaves(out);
                proof {
                    assert(before + lb + rb =~= before + (lb + rb));
                    assert(start + left.nonempty_leaf_seq() + right.nonempty_leaf_seq() =~= start
                        + self.nonempty_leaf_seq());
                }
            },
        }
    }

    /// The non-empty leaves of this subtree, in order.
    pub fn into_leaves(self) -> (r: Vec<Node>)
        requires
            self.wf(),
        ensures
            nonempty_leaves(r@),
            concat_bytes(r@) == self.bytes(),
            r@ == self.nonempty_leaf_seq(),
    {
        let mut out: Vec<Node> = Vec::new();
        proof {
            assert(concat_bytes(out@) =~= Seq::<u8>::empty());
        }
        self.push_leaves(&mut out);
        proof {
            assert(Seq::<u8>::empty() + self.bytes() =~= self.bytes());
            assert(Seq::<Node>::empty() + self.nonempty_leaf_seq() =~= self.nonempty_leaf_seq());
        }
        out
    }

    /// Rebalance the subrope starting at this `Node`, returning a new `Node`.
    ///
    /// A balanced subtree is returned as it is. Otherwise its non-empty
    /// leaves are collected in order and a tree is rebuilt over them by
    /// halving, whose depth grows with the logarithm of the number of leaves;
    /// the result spells the same text and, unless that text is empty, is
    /// balanced.
    pub fn rebalance(self) -> (r: Node)
        requires
            self.wf(),
        ensures
            r.wf(),
            r.bytes() == self.bytes(),
            self.balanced() ==> r == self,
            self.bytes().len() > 0 ==> r.balanced(),
            !self.balanced() ==> r.nonempty_leaf_seq() == self.nonempty_leaf_seq(),
            !self.balanced() && self.bytes().len() > 0 ==> r.depth() == build_depth(
                self.nonempty_leaf_seq().len(),
            ),
            !self.balanced() && self.bytes().len() > 0 ==> forall|k: int|
                0 <= k < r.leaf_texts().len() ==> #[trigger] r.leaf_texts()[k].len() > 0,
    {
        if self.is_balanced() {
            // the subrope is already balanced, do nothing
            self
        } else {
            let ghost old_bytes = self.bytes();
            let leaves = self.into_leaves();
            if leaves.len() == 0 {
                proof {
                    assert(concat_bytes(leaves@) =~= Seq::<u8>::empty());
                }
                let e = Node::empty();
                proof {
                    assert(e.nonempty_leaf_seq() =~= leaves@);
                }
                e
            } else {
                let ghost n = leaves@.len();
                proof {
                    lemma_concat_bytes_len(leaves@);
                }
                let r = build(leaves);
                proof {
                    lemma_build_depth_balanced(n);
                    lemma_fib_monotone(r.depth() + 2, build_depth(n) + 2);
                }
                r
            }
        }
    }
}

impl Clone for Node {
    /// A copy of this subtree, node for node.
    fn clone(&self) -> (r: Node)
        ensures
            r == *self,
        decreases self,
    {
        match self {
            Node::Leaf(s) => Node::Leaf(s.clone()),
            Node::Branch(b) => {
                let left = (&*b.left).clone();
                let right = (&*b.right).clone();
                Node::Branch(
                    BranchNode {
                        len: b.len,
                        grapheme_len: b.grapheme_len,
                        weight: b.weight,
                        nlines: b.nlines,
                        wlines: b.wlines,
                        left: Box::new(left),
                        right: Box::new(right),
                    },
                )
            },
        }
    }
}

/// A cut of `a + b` inside `a` (or at its end) is a char boundary of the
/// whole exactly when it is one of `a`; past `a` exactly when it is one of
/// `b`.
pub proof fn lemma_boundary_concat(a: Seq<u8>, b: Seq<u8>, i: int)
    requires
        valid_utf8(a),
        valid_utf8(b),
        0 <= i <= a.len() + b.len(),
    ensures
        i < a.len() ==> (is_char_boundary(a + b, i) <==> is_char_boundary(a, i)),
        i >= a.len() ==> (is_char_boundary(a + b, i) <==> is_char_boundary(b, i - a.len())),
{
    broadcast use valid_utf8_concat;

    is_char_boundary_start_end_of_seq(a);
    is_char_boundary_start_end_of_seq(b);
    is_char_boundary_start_end_of_seq(a + b);
    if i < a.len() {
        is_char_boundary_iff_not_is_continuation_byte(a + b, i);
        is_char_boundary_iff_not_is_continuation_byte(a, i);
        assert((a + b)[i] == a[i]);
    } else if i < a.len() + b.len() {
        is_char_boundary_iff_not_is_continuation_byte(a + b, i);
        if i > a.len() {
            is_char_boundary_iff_not_is_continuation_byte(b, i - a.len());
        } else {
            is_char_boundary_iff_is_leading_byte(b, 0);
            is_char_boundary_iff_not_is_continuation_byte(b, 0);
        }
        assert((a + b)[i] == b[i - a.len()]);
    }
}

impl Node {
    /// The bytes a well-formed subtree spells are valid UTF-8.
    pub proof fn lemma_valid_utf8(self)
        requires
            self.wf(),
        ensures
            valid_utf8(self.bytes()),
        decreases self,
    {
        broadcast use encode_utf8_valid_utf8, valid_utf8_concat;

        match self {
            Node::Leaf(_) => {},
            Node::Branch(b) => {
                b.left.lemma_valid_utf8();
                b.right.lemma_valid_utf8();
            },
        }
    }

    /// Where `split` can cut, the cut falls inside the subtree's text.
    pub proof fn lemma_split_offset_bound<M: Metric>(self, index: nat)
        requires
            self.wf(),
            self.split_ok::<M>(index),
        ensures
            self.split_offset::<M>(index) is Some,
            self.split_offset::<M>(index)->0 <= self.bytes().len(),
        decreases self,
    {
        match self {
            Node::Leaf(s) => {},
            Node::Branch(b) => {
                if index < M::node_measure(*b.left) {
                    b.left.lemma_split_offset_bound::<M>(index);
                } else {
                    b.right.lemma_split_offset_bound::<M>(
                        (index - M::node_measure(*b.left)) as nat,
                    );
                }
            },
        }
    }

    /// In bytes, any char boundary of the text can be split at; the cut
    /// falls exactly there when no leaf is a single byte.
    pub proof fn lemma_byte_split(self, i: nat)
        requires
            self.wf(),
            i <= self.bytes().len(),
            is_char_boundary(self.bytes(), i as int),
        ensures
            self.split_ok::<usize>(i),
            self.shape().no_unit_leaf::<usize>() ==> self.split_offset::<usize>(i) == Some(i),
    {
        self.lemma_shape::<usize>(i);
        self.shape().lemma_byte_split(i);
    }

    /// In a metric whose leaves place every index up to their measure on a
    /// char boundary, a subtree can be split at any index up to its measure.
    pub proof fn lemma_exact_split<M: Metric>(self, index: nat)
        requires
            self.wf(),
            M::is_exact(),
            index <= M::node_measure(self),
        ensures
            self.split_ok::<M>(index),
        decreases self,
    {
        M::lemma_node_measure(self);
        match self {
            Node::Leaf(s) => {
                if utf8(s@).len() != 0 && M::leaf_measure(s@) != 1 {
                    M::lemma_leaf_offset_boundary(s@, index);
                }
            },
            Node::Branch(b) => {
                if index < M::node_measure(*b.left) {
                    b.left.lemma_exact_split::<M>(index);
                } else {
                    b.right.lemma_exact_split::<M>((index - M::node_measure(*b.left)) as nat);
                }
            },
        }
    }
}

/// The bytes a sequence of strings spells, read left to right.
pub open spec fn concat_strs(strs: Seq<&str>) -> Seq<u8>
    decreases strs.len(),
{
    if strs.len() == 0 {
        Seq::empty()
    } else {
        concat_strs(strs.drop_last()) + utf8(strs.last()@)
    }
}

impl Node {
    /// Appends the texts of the non-empty leaves of this subtree to `out`.
    fn push_strings<'a>(&'a self, out: &mut Vec<&'a str>)
        requires
            self.wf(),
        ensures
            concat_strs(final(out)@) == concat_strs(old(out)@) + self.bytes(),
            forall|i: int| 0 <= i < old(out)@.len() ==> final(out)@[i] == old(out)@[i],
            forall|i: int|
                old(out)@.len() <= i < final(out)@.len() ==> utf8(#[trigger] final(out)@[i]@).len()
                    > 0,
            final(out)@.len() >= old(out)@.len(),
        decreases self,
    {
        match self {
            Node::Leaf(s) => {
                if !s.as_str().is_empty() {
                    let ghost before = out@;
                    out.push(s.as_str());
                    proof {
                        assert(out@.drop_last() =~= before);
                        assert(utf8(s@).len() > 0) by {
                            reveal_with_fuel(vstd::utf8::encode_utf8, 2);
                        }
                    }
                } else {
                    proof {
                        assert(self.bytes() =~= Seq::<u8>::empty()) by {
                            reveal_with_fuel(vstd::utf8::encode_utf8, 2);
                        }
                        assert(concat_strs(out@) + self.bytes() =~= concat_strs(out@));
                    }
                }
            },
            Node::Branch(b) => {
                let ghost before = concat_strs(out@);
                b.left.push_strings(out);
                b.right.push_strings(out);
                proof {
                    assert(before + b.left.bytes() + b.right.bytes() =~= before + self.bytes());
                }
            },
        }
    }

    /// The texts of the non-empty leaves of this subtree, in order.
    pub fn strings(&self) -> (r: Vec<&str>)
        requires
            self.wf(),
        ensures
            concat_strs(r@) == self.bytes(),
            forall|i: int| 0 <= i < r@.len() ==> utf8(#[trigger] r@[i]@).len() > 0,
    {
        let mut out: Vec<&str> = Vec::new();
        self.push_strings(&mut out);
        proof {
            assert(Seq::<u8>::empty() + self.bytes() =~= self.bytes());
        }
        out
    }

    /// The number of grapheme clusters of this subtree: the sum of its
    /// leaves' counts.
    pub fn grapheme_len(&self) -> (r: Grapheme)
        requires
            self.wf(),
        ensures
            r.0 == self.grapheme_measure(),
    {
        Grapheme(self.measure_units::<Grapheme>())
    }

    /// `n` is this node or a node of one of its subtrees.
    pub open spec fn has_subtree(self, n: Node) -> bool
        decreases self,
    {
        self == n || match self {
            Node::Leaf(_) => false,
            Node::Branch(b) => b.left.has_subtree(n) || b.right.has_subtree(n),
        }
    }

    /// The way `spanning` walks for the span `i..i + span_len`: at each
    /// branch `true` to go right, `false` to go left, until it stops.
    pub open spec fn spanning_path(self, i: nat, span_len: nat) -> Seq<bool>
        decreases self,
    {
        match self {
            Node::Branch(b) => if (b.weight as nat) < i {
                seq![true] + b.right.spanning_path((i - b.weight) as nat, span_len)
            } else if b.weight >= i + span_len {
                seq![false] + b.left.spanning_path(i, span_len)
            } else {
                Seq::empty()
            },
            Node::Leaf(_) => Seq::empty(),
        }
    }

    /// The offset of the span `i..i + span_len` in the node `spanning`
    /// stops at.
    pub open spec fn spanning_offset(self, i: nat, span_len: nat) -> nat
        decreases self,
    {
        match self {
            Node::Branch(b) => if (b.weight as nat) < i {
                b.right.spanning_offset((i - b.weight) as nat, span_len)
            } else if b.weight >= i + span_len {
                b.left.spanning_offset(i, span_len)
            } else {
                i
            },
            Node::Leaf(_) => i,
        }
    }

    /// The node reached from this one along `path`.
    pub open spec fn at_path(self, path: Seq<bool>) -> Node
        decreases path.len(),
    {
        if path.len() == 0 {
            self
        } else {
            match self {
                Node::Branch(b) => if path[0] {
                    b.right.at_path(path.drop_first())
                } else {
                    b.left.at_path(path.drop_first())
                },
                Node::Leaf(_) => self,
            }
        }
    }

    /// This tree with the node reached along `path` replaced by `n`, every
    /// other node (cached measures included) kept as it is.
    pub open spec fn with_subtree(self, path: Seq<bool>, n: Node) -> Node
        decreases path.len(),
    {
        if path.len() == 0 {
            n
        } else {
            match self {
                Node::Branch(b) => if path[0] {
                    Node::Branch(
                        BranchNode {
                            right: Box::new(b.right.with_subtree(path.drop_first(), n)),
                            ..b
                        },
                    )
                } else {
                    Node::Branch(
                        BranchNode { left: Box::new(b.left.with_subtree(path.drop_first(), n)), ..b },
                    )
                },
                Node::Leaf(_) => self,
            }
        }
    }

    /// `spanning`, handing out the node found for editing in place.
    ///
    /// The tree that results once the borrow ends is this one with the node
    /// found replaced by what it was edited into; the cached measures of the
    /// nodes above it are left as they were.
    pub fn spanning_mut(&mut self, i: usize, span_len: usize) -> (r: (&mut Node, usize))
        requires
            old(self).wf(),
            i + span_len <= old(self).bytes().len(),
        ensures
            *r.0 == old(self).at_path(old(self).spanning_path(i as nat, span_len as nat)),
            r.1 == old(self).spanning_offset(i as nat, span_len as nat),
            r.1 + span_len <= r.0.bytes().len(),
            *final(self) == old(self).with_subtree(
                old(self).spanning_path(i as nat, span_len as nat),
                *final(r.0),
            ),
        decreases *old(self),
    {
        // 1: the span begins in the right subtree; 2: the left subtree holds
        // it all; 0: this node is the spanning node
        let dir: u8 = match &*self {
            Node::Branch(b) => if b.weight < i {
                1
            } else if b.weight - i >= span_len {
                2
            } else {
                0
            },
            Node::Leaf(_) => 0,
        };
        if dir == 0 {
            return (self, i);
        }
        let ghost path = old(self).spanning_path(i as nat, span_len as nat);
        match self {
            Node::Branch(b) => if dir == 1 {
                let span_i = i - b.weight;
                let ghost rest = (*old(self))->Branch_0.right.spanning_path(
                    span_i as nat,
                    span_len as nat,
                );
                proof {
                    assert(path =~= seq![true] + rest);
                    assert(path.drop_first() =~= rest);
                }
                b.right.spanning_mut(span_i, span_len)
            } else {
                let ghost rest = (*old(self))->Branch_0.left.spanning_path(i as nat, span_len as nat);
                proof {
                    assert(path =~= seq![false] + rest);
                    assert(path.drop_first() =~= rest);
                }
                b.left.spanning_mut(i, span_len)
            },
            other => (other, i),
        }
    }

    /// Finds the smallest subtree holding the byte span `i..i + span_len`,
    /// with the span's offset in it.
    ///
    /// At a branch whose weight is below `i` the walk goes right, at the
    /// rest of the index; otherwise it goes left when the left subtree holds
    /// the whole span; otherwise this branch is the spanning node.
    pub fn spanning(&self, i: usize, span_len: usize) -> (r: (&Node, usize))
        requires
            self.wf(),
            i + span_len <= self.bytes().len(),
        ensures
            r.0.wf(),
            self.has_subtree(*r.0),
            *r.0 == self.at_path(self.spanning_path(i as nat, span_len as nat)),
            r.1 == self.spanning_offset(i as nat, span_len as nat),
            r.1 + span_len <= r.0.bytes().len(),
            exists|base: int|
                0 <= base && base + r.0.bytes().len() <= self.bytes().len() && #[trigger] self.bytes().subrange(
                    base,
                    base + r.0.bytes().len(),
                ) == r.0.bytes() && base + r.1 == i,
            r.0 matches Node::Branch(b) ==> r.1 <= b.left.bytes().len() && r.1 + span_len
                > b.left.bytes().len(),
        decreases self,
    {
        match self {
            Node::Branch(b) => {
                let ghost lb = b.left.bytes();
                if b.weight < i {
                    // the span begins in the right subtree
                    let span_i = i - b.left.len();
                    let r = b.right.spanning(span_i, span_len);
                    proof {
                        let rest = b.right.spanning_path(span_i as nat, span_len as nat);
                        let path = self.spanning_path(i as nat, span_len as nat);
                        assert(path =~= seq![true] + rest);
                        assert(path.drop_first() =~= rest);
                        let base = choose|base: int|
                            0 <= base && base + r.0.bytes().len() <= b.right.bytes().len()
                                && #[trigger] b.right.bytes().subrange(
                                base,
                                base + r.0.bytes().len(),
                            ) == r.0.bytes() && base + r.1 == span_i;
                        let whole = lb.len() + base;
                        assert(self.bytes().subrange(whole, whole + r.0.bytes().len())
                            =~= b.right.bytes().subrange(base, base + r.0.bytes().len()));
                    }
                    r
                } else if b.left.len() - i >= span_len {
                    // the left subtree holds the whole span
                    let r = b.left.spanning(i, span_len);
                    proof {
                        let rest = b.left.spanning_path(i as nat, span_len as nat);
                        let path = self.spanning_path(i as nat, span_len as nat);
                        assert(path =~= seq![false] + rest);
                        assert(path.drop_first() =~= rest);
                        let base = choose|base: int|
                            0 <= base && base + r.0.bytes().len() <= lb.len()
                                && #[trigger] lb.subrange(base, base + r.0.bytes().len())
                                == r.0.bytes() && base + r.1 == i;
                        assert(self.bytes().subrange(base, base + r.0.bytes().len()) =~= lb.subrange(
                            base,
                            base + r.0.bytes().len(),
                        ));
                    }
                    r
                } else {
                    proof {
                        let base = 0int;
                        assert(self.bytes().subrange(base, base + self.bytes().len()) =~= self.bytes());
                    }
                    (self, i)
                }
            },
            Node::Leaf(_) => {
                proof {
                    let base = 0int;
                    assert(self.bytes().subrange(base, base + self.bytes().len()) =~= self.bytes());
                }
                (self, i)
            },
        }
    }
}

/// The segments of a leaf text, as byte sequences.
pub open spec fn leaf_pieces(kind: Segmentation, text: Seq<char>) -> Seq<Seq<u8>> {
    Seq::new(
        seg_count(kind, text),
        |k: int|
            utf8(text).subrange(
                seg_offset(kind, text, k as nat) as int,
                seg_offset(kind, text, (k + 1) as nat) as int,
            ),
    )
}

/// Where the segments of a leaf text begin, counted from `base`.
pub open spec fn leaf_piece_offsets(kind: Segmentation, text: Seq<char>, base: nat) -> Seq<nat> {
    Seq::new(seg_count(kind, text), |k: int| base + seg_offset(kind, text, k as nat))
}

impl Node {
    /// The segments of this subtree, leaf by leaf: each leaf is segmented on
    /// its own.
    pub open spec fn segments(self, kind: Segmentation) -> Seq<Seq<u8>>
        decreases self,
    {
        match self {
            Node::Leaf(s) => leaf_pieces(kind, s@),
            Node::Branch(b) => b.left.segments(kind) + b.right.segments(kind),
        }
    }

    /// Where the segments of `segments(kind)` begin in the text of this
    /// subtree, counted from `base`.
    pub open spec fn segment_starts(self, kind: Segmentation, base: nat) -> Seq<nat>
        decreases self,
    {
        match self {
            Node::Leaf(s) => leaf_piece_offsets(kind, s@, base),
            Node::Branch(b) => b.left.segment_starts(kind, base) + b.right.segment_starts(
                kind,
                base + b.left.bytes().len(),
            ),
        }
    }

    /// The grapheme clusters of this subtree, leaf by leaf.
    pub open spec fn pieces(self) -> Seq<Seq<u8>> {
        self.segments(Segmentation::Graphemes)
    }

    /// Where the clusters of `pieces` begin, counted from `base`.
    pub open spec fn piece_offsets(self, base: nat) -> Seq<nat> {
        self.segment_starts(Segmentation::Graphemes, base)
    }

    /// Appends the segments of this subtree, each with its byte offset
    /// counted from `base`, to `out`.
    fn push_segments<'a>(&'a self, kind: Segmentation, base: usize, out: &mut Vec<(usize, &'a str)>)
        requires
            self.wf(),
            base + self.bytes().len() <= usize::MAX,
        ensures
            final(out)@.map_values(|p: (usize, &str)| utf8(p.1@)) == old(out)@.map_values(
                |p: (usize, &str)| utf8(p.1@),
            ) + self.segments(kind),
            final(out)@.map_values(|p: (usize, &str)| p.0 as nat) == old(out)@.map_values(
                |p: (usize, &str)| p.0 as nat,
            ) + self.segment_starts(kind, base as nat),
        decreases self,
    {
        match self {
            Node::Leaf(s) => {
                let text = s.as_str();
                let starts = segment_offsets(kind, text);
                let n = byte_len_of(text);
                let ghost start_pieces = out@.map_values(|p: (usize, &str)| utf8(p.1@));
                let ghost start_offsets = out@.map_values(|p: (usize, &str)| p.0 as nat);
                let ghost count = seg_count(kind, s@);
                proof {
                    broadcast use vstd::utf8::encode_utf8_valid_utf8;

                    is_char_boundary_start_end_of_seq(utf8(s@));
                    if s@.len() == 0 {
                        assert(starts@.len() == 0);
                    }
                }
                let mut k: usize = 0;
                while k < starts.len()
                    invariant
                        0 <= k <= starts@.len(),
                        starts@.len() == count,
                        starts@ == crate::unicode::seg_starts(kind, s@),
                        crate::unicode::starts_cover(starts@, s@),
                        s@.len() == 0 ==> starts@.len() == 0,
                        n == utf8(s@).len(),
                        text@ == s@,
                        base + n <= usize::MAX,
                        valid_utf8(utf8(s@)),
                        is_char_boundary(utf8(s@), n as int),
                        out@.map_values(|p: (usize, &str)| utf8(p.1@)) == start_pieces
                            + leaf_pieces(kind, s@).subrange(0, k as int),
                        out@.map_values(|p: (usize, &str)| p.0 as nat) == start_offsets
                            + leaf_piece_offsets(kind, s@, base as nat).subrange(0, k as int),
                    decreases starts@.len() - k,
                {
                    let a = starts[k];
                    let b = if k + 1 < starts.len() {
                        starts[k + 1]
                    } else {
                        n
                    };
                    proof {
                        assert(a <= b);
                    }
                    let (head, tail) = text.split_at(b);
                    proof {
                        assert(utf8(s@) =~= utf8(head@) + utf8(tail@));
                        valid_utf8_split(utf8(s@), b as int);
                        lemma_boundary_concat(utf8(head@), utf8(tail@), a as int);
                        is_char_boundary_start_end_of_seq(utf8(head@));
                    }
                    let (_, piece) = head.split_at(a);
                    let ghost before = out@;
                    let at = base + a;
                    out.push((at, piece));
                    proof {
                        assert(utf8(piece@) =~= leaf_pieces(kind, s@)[k as int]);
                        assert(out@ == before.push((at, piece)));
                        assert(out@.map_values(|p: (usize, &str)| utf8(p.1@)) =~= before.map_values(
                            |p: (usize, &str)| utf8(p.1@),
                        ).push(utf8(piece@)));
                        assert(leaf_pieces(kind, s@).subrange(0, k as int + 1) =~= leaf_pieces(
                            kind,
                            s@,
                        ).subrange(0, k as int).push(leaf_pieces(kind, s@)[k as int]));
                        assert(out@.map_values(|p: (usize, &str)| utf8(p.1@)) =~= start_pieces
                            + leaf_pieces(kind, s@).subrange(0, k as int + 1));
                        assert(out@.map_values(|p: (usize, &str)| p.0 as nat) =~= before.map_values(
                            |p: (usize, &str)| p.0 as nat,
                        ).push(at as nat));
                        assert(leaf_piece_offsets(kind, s@, base as nat).subrange(0, k as int + 1)
                            =~= leaf_piece_offsets(kind, s@, base as nat).subrange(0, k as int).push(
                            leaf_piece_offsets(kind, s@, base as nat)[k as int],
                        ));
                        assert(out@.map_values(|p: (usize, &str)| p.0 as nat) =~= start_offsets
                            + leaf_piece_offsets(kind, s@, base as nat).subrange(0, k as int + 1));
                    }
                    k = k + 1;
                }
                proof {
                    assert(leaf_pieces(kind, s@).subrange(0, k as int) =~= leaf_pieces(kind, s@));
                    assert(leaf_piece_offsets(kind, s@, base as nat).subrange(0, k as int)
                        =~= leaf_piece_offsets(kind, s@, base as nat));
                }
            },
            Node::Branch(b) => {
                let ghost pieces0 = out@.map_values(|p: (usize, &str)| utf8(p.1@));
                let ghost o0 = out@.map_values(|p: (usize, &str)| p.0 as nat);
                b.left.push_segments(kind, base, out);
                b.right.push_segments(kind, base + b.left.len(), out);
                proof {
                    assert(pieces0 + b.left.segments(kind) + b.right.segments(kind) =~= pieces0 + self.segments(kind));
                    assert(o0 + b.left.segment_starts(kind, base as nat) + b.right.segment_starts(kind, 
                        (base + b.left.bytes().len()) as nat,
                    ) =~= o0 + self.segment_starts(kind, base as nat));
                }
            },
        }
    }

    /// The segments of this subtree, each leaf segmented on its own, with
    /// the byte offset at which each begins in the subtree's text.
    pub fn segment_indices(&self, kind: Segmentation) -> (r: Vec<(usize, &str)>)
        requires
            self.wf(),
        ensures
            r@.map_values(|p: (usize, &str)| utf8(p.1@)) == self.segments(kind),
            r@.map_values(|p: (usize, &str)| p.0 as nat) == self.segment_starts(kind, 0),
    {
        let mut out: Vec<(usize, &str)> = Vec::new();
        proof {
            assert(out@.map_values(|p: (usize, &str)| utf8(p.1@)) =~= Seq::<Seq<u8>>::empty());
            assert(out@.map_values(|p: (usize, &str)| p.0 as nat) =~= Seq::<nat>::empty());
        }
        self.push_segments(kind, 0, &mut out);
        proof {
            assert(Seq::<Seq<u8>>::empty() + self.segments(kind) =~= self.segments(kind));
            assert(Seq::<nat>::empty() + self.segment_starts(kind, 0) =~= self.segment_starts(
                kind,
                0,
            ));
        }
        out
    }

    /// The grapheme clusters of this subtree, each leaf segmented on its
    /// own, with the byte offset at which each begins in the subtree's text.
    pub fn grapheme_indices(&self) -> (r: Vec<(usize, &str)>)
        requires
            self.wf(),
        ensures
            r@.map_values(|p: (usize, &str)| utf8(p.1@)) == self.pieces(),
            r@.map_values(|p: (usize, &str)| p.0 as nat) == self.piece_offsets(0),
    {
        self.segment_indices(Segmentation::Graphemes)
    }

    /// The runs of text between word boundaries of this subtree, each leaf
    /// segmented on its own, with the byte offset at which each begins.
    pub fn split_word_bound_indices(&self) -> (r: Vec<(usize, &str)>)
        requires
            self.wf(),
        ensures
            r@.map_values(|p: (usize, &str)| utf8(p.1@)) == self.segments(
                Segmentation::WordBounds,
            ),
            r@.map_values(|p: (usize, &str)| p.0 as nat) == self.segment_starts(
                Segmentation::WordBounds,
                0,
            ),
    {
        self.segment_indices(Segmentation::WordBounds)
    }

    /// There are as many clusters in `pieces` as the subtree's grapheme
    /// measure counts.
    pub proof fn lemma_pieces_len(self)
        ensures
            self.pieces().len() == self.grapheme_measure(),
        decreases self,
    {
        match self {
            Node::Leaf(_) => {},
            Node::Branch(b) => {
                b.left.lemma_pieces_len();
                b.right.lemma_pieces_len();
            },
        }
    }

    /// The grapheme cluster at index `i` of this subtree.
    ///
    /// At a branch the index is compared to the grapheme weight, the count
    /// of the left subtree, exactly as `split` descends: below it the walk
    /// goes left, otherwise right at the rest of the index.
    pub fn index(&self, i: usize) -> (r: &str)
        requires
            self.wf(),
            i < self.grapheme_measure(),
        ensures
            utf8(r@) == self.pieces()[i as int],
        decreases self,
    {
        proof {
            self.lemma_pieces_len();
        }
        match self {
            Node::Leaf(s) => {
                let text = s.as_str();
                let starts = grapheme_offsets(text);
                let n = byte_len_of(text);
                let count = starts.len();
                assert(i < count);
                let a = starts[i];
                let b = if i + 1 < count {
                    starts[i + 1]
                } else {
                    n
                };
                proof {
                    broadcast use vstd::utf8::encode_utf8_valid_utf8;

                    is_char_boundary_start_end_of_seq(utf8(s@));
                    assert(a < b);
                }
                let (head, tail) = text.split_at(b);
                proof {
                    assert(utf8(s@) =~= utf8(head@) + utf8(tail@));
                    valid_utf8_split(utf8(s@), b as int);
                    lemma_boundary_concat(utf8(head@), utf8(tail@), a as int);
                }
                let (_, piece) = head.split_at(a);
                proof {
                    assert(utf8(piece@) =~= leaf_pieces(Segmentation::Graphemes, s@)[i as int]);
                }
                piece
            },
            Node::Branch(b) => {
                proof {
                    b.left.lemma_pieces_len();
                }
                let w = Grapheme::weight_branch(b);
                if i < w {
                    b.left.index(i)
                } else {
                    b.right.index(i - w)
                }
            },
        }
    }

    /// Whether `split` can cut this subtree at unit `index` of metric `M`.
    pub fn can_split_units<M: Metric>(&self, index: usize) -> (r: bool)
        requires
            self.wf(),
        ensures
            r == self.split_ok::<M>(index as nat),
        decreases self,
    {
        match self {
            Node::Leaf(s) => {
                let text = s.as_str();
                let n = byte_len_of(text);
                if n == 0 {
                    true
                } else if M::measure_text(text) == 1 {
                    true
                } else {
                    match M::text_byte_index(text, index) {
                        Some(k) => k <= n && text.is_char_boundary(k),
                        None => false,
                    }
                }
            },
            Node::Branch(b) => {
                let w = M::weight_branch(b);
                if index < w {
                    b.left.can_split_units::<M>(index)
                } else {
                    b.right.can_split_units::<M>(index - w)
                }
            },
        }
    }

    /// `split`, or `None` where this subtree cannot be cut at `index` (the
    /// leaf the index falls in has no char boundary for it).
    pub fn split_checked<M: Metric>(self, index: M) -> (r: Option<(Node, Node)>)
        requires
            self.wf(),
        ensures
            r is Some <==> self.split_ok::<M>(index.spec_count()),
            r matches Some(p) ==> {
                &&& p.0.wf()
                &&& p.1.wf()
                &&& p.0.bytes() == self.bytes().subrange(
                    0,
                    self.split_offset::<M>(index.spec_count())->0 as int,
                )
                &&& p.1.bytes() == self.bytes().subrange(
                    self.split_offset::<M>(index.spec_count())->0 as int,
                    self.bytes().len() as int,
                )
                &&& self.split_reuses::<M>(index.spec_count(), p)
                &&& p.0.shape() == self.shape().split::<M>(index.spec_count()).0
                &&& p.1.shape() == self.shape().split::<M>(index.spec_count()).1
            },
    {
        let i = index.count();
        if self.can_split_units::<M>(i) {
            Some(self.split_units::<M>(i))
        } else {
            None
        }
    }
}

} // verus!
