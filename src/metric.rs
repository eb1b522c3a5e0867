//! Metrics for indexing ropes.
//!
//! A [`Metric`] is a measurement by which an index into a rope is counted:
//! bytes (`usize`), grapheme clusters ([`Grapheme`]) or lines ([`Line`]).
//! Every rope operation that takes an index takes it in some metric.

use vstd::prelude::*;
use vstd::utf8::*;
use crate::internals::{BranchNode, Node};
use crate::unicode::{byte_len_of, grapheme_count, grapheme_offset, grapheme_offsets, grapheme_starts};

verus! {

/// The UTF-8 bytes of a text.
pub open spec fn utf8(text: Seq<char>) -> Seq<u8> {
    encode_utf8(text)
}

/// An `Option<usize>` read as an `Option<nat>`.
pub open spec fn opt_nat(o: Option<usize>) -> Option<nat> {
    match o {
        Some(k) => Some(k as nat),
        None => None,
    }
}

/// The class of monoids whose values are counts: the identity counts zero
/// and the operation adds counts.
pub trait Monoid: Sized + Copy {
    /// The count this value stands for.
    spec fn spec_count(self) -> nat;

    /// The count, as an integer.
    fn count(&self) -> (r: usize)
        ensures
            r == self.spec_count(),
    ;

    /// The value that stands for `n`.
    fn of_count(n: usize) -> (r: Self)
        ensures
            r.spec_count() == n,
    ;

    /// The identity of the monoid.
    fn identity() -> (r: Self)
        ensures
            r.spec_count() == 0,
    ;

    /// The monoid's operation.
    fn combine(self, other: Self) -> (r: Self)
        requires
            self.spec_count() + other.spec_count() <= usize::MAX,
        ensures
            r.spec_count() == self.spec_count() + other.spec_count(),
    ;
}

/// The total count of a sequence of monoid values.
pub open spec fn total_count<T: Monoid>(xs: Seq<T>) -> nat
    decreases xs.len(),
{
    if xs.len() == 0 {
        0
    } else {
        total_count(xs.drop_last()) + xs.last().spec_count()
    }
}

/// Folds `xs` with the monoid's operation, starting from its identity.
pub fn accumulate<T: Monoid>(xs: &Vec<T>) -> (r: T)
    requires
        total_count(xs@) <= usize::MAX,
    ensures
        r.spec_count() == total_count(xs@),
{
    let mut acc = T::identity();
    let mut i: usize = 0;
    while i < xs.len()
        invariant
            i <= xs@.len(),
            acc.spec_count() == total_count(xs@.subrange(0, i as int)),
            total_count(xs@) <= usize::MAX,
        decreases xs@.len() - i,
    {
        proof {
            lemma_total_count_prefix(xs@, i as int + 1);
            assert(xs@.subrange(0, i as int + 1).drop_last() =~= xs@.subrange(0, i as int));
        }
        acc = acc.combine(xs[i]);
        i = i + 1;
    }
    proof {
        assert(xs@.subrange(0, xs@.len() as int) =~= xs@);
    }
    acc
}

/// The count of a prefix is at most the count of the whole.
pub proof fn lemma_total_count_prefix<T: Monoid>(xs: Seq<T>, k: int)
    requires
        0 <= k <= xs.len(),
    ensures
        total_count(xs.subrange(0, k)) <= total_count(xs),
    decreases xs.len(),
{
    if k < xs.len() {
        lemma_total_count_prefix(xs.drop_last(), k);
        assert(xs.drop_last().subrange(0, k) =~= xs.subrange(0, k));
    } else {
        assert(xs.subrange(0, k) =~= xs);
    }
}

/// A measurement by which indices into a rope are counted.
///
/// Each metric says how many of its units a leaf text holds
/// (`leaf_measure`) and at which byte of a leaf text a given unit begins
/// (`leaf_offset`); a tree's measure is the sum of its leaves' measures.
pub trait Metric: Monoid {
    /// The number of units of this metric in a leaf text.
    spec fn leaf_measure(text: Seq<char>) -> nat;

    /// The byte offset at which unit `n` of a leaf text begins, if there is
    /// such a unit.
    spec fn leaf_offset(text: Seq<char>, n: nat) -> Option<nat>;

    /// The measure of a tree in this metric.
    spec fn node_measure(node: Node) -> nat;

    /// A tree's measure is its leaf's, or the sum of its subtrees'.
    proof fn lemma_node_measure(node: Node)
        ensures
            Self::node_measure(node) == match node {
                Node::Leaf(s) => Self::leaf_measure(s@),
                Node::Branch(b) => Self::node_measure(*b.left) + Self::node_measure(*b.right),
            },
    ;

    /// Whether text may be cut into new leaves at any unit boundary of this
    /// metric.
    spec fn spec_is_splittable() -> bool;

    /// Whether text may be cut into new leaves at any unit boundary of this
    /// metric.
    fn is_splittable() -> (r: bool)
        ensures
            r == Self::spec_is_splittable(),
    ;

    /// A leaf text holds no more units than bytes.
    proof fn lemma_leaf_measure_bound(text: Seq<char>)
        requires
            starts_ok(text),
        ensures
            Self::leaf_measure(text) <= utf8(text).len(),
    ;

    /// Where an offset is found, it is a char boundary of the leaf text.
    proof fn lemma_leaf_offset_boundary(text: Seq<char>, n: nat)
        requires
            starts_ok(text),
            n <= Self::leaf_measure(text),
            Self::leaf_measure(text) != 1,
            Self::is_exact(),
        ensures
            Self::leaf_offset(text, n) is Some,
            Self::leaf_offset(text, n)->0 <= utf8(text).len(),
            is_char_boundary(utf8(text), Self::leaf_offset(text, n)->0 as int),
    ;

    /// Whether every index up to a leaf's measure has an offset on a char
    /// boundary (true of graphemes and lines; bytes need the index itself to
    /// be a char boundary).
    spec fn is_exact() -> bool;

    /// The measure of a leaf text.
    fn measure_text(text: &str) -> (r: usize)
        requires
            utf8(text@).len() <= usize::MAX,
            starts_ok(text@),
        ensures
            r == Self::leaf_measure(text@),
    ;

    /// The byte offset at which unit `n` of a leaf text begins.
    fn text_byte_index(text: &str, n: usize) -> (r: Option<usize>)
        requires
            utf8(text@).len() <= usize::MAX,
            starts_ok(text@),
        ensures
            opt_nat(r) == Self::leaf_offset(text@, n as nat),
    ;

    /// The measure of a branch, read from its cached counts.
    fn measure_branch(b: &BranchNode) -> (r: usize)
        requires
            b.wf(),
        ensures
            r == Self::node_measure(Node::Branch(*b)),
    ;

    /// The measure of a branch's left subtree, read from its cached counts.
    fn weight_branch(b: &BranchNode) -> (r: usize)
        requires
            b.wf(),
        ensures
            r == Self::node_measure(*b.left),
    ;
}

/// A type that may be measured with metric `M`.
pub trait Measured<M: Metric> {
    /// The value is well formed.
    spec fn measured_wf(&self) -> bool;

    /// Its measure in `M`.
    spec fn spec_measure(&self) -> nat;

    /// Its weight in `M`: the measure of what lies before its split point
    /// (a branch's left subtree; all of a leaf).
    spec fn spec_weight(&self) -> nat;

    /// Apply `M` to `self`.
    fn measure(&self) -> (r: M)
        requires
            self.measured_wf(),
        ensures
            r.spec_count() == self.spec_measure(),
    ;

    /// Measure the weight of `self` by `M`.
    fn measure_weight(&self) -> (r: M)
        requires
            self.measured_wf(),
        ensures
            r.spec_count() == self.spec_weight(),
    ;
}

impl<M: Metric> Measured<M> for Node {
    open spec fn measured_wf(&self) -> bool {
        self.wf()
    }

    open spec fn spec_measure(&self) -> nat {
        M::node_measure(*self)
    }

    open spec fn spec_weight(&self) -> nat {
        match *self {
            Node::Leaf(_) => M::node_measure(*self),
            Node::Branch(b) => M::node_measure(*b.left),
        }
    }

    fn measure(&self) -> (r: M) {
        M::of_count(self.measure_units::<M>())
    }

    fn measure_weight(&self) -> (r: M) {
        match self {
            Node::Leaf(_) => M::of_count(self.measure_units::<M>()),
            Node::Branch(b) => M::of_count(M::weight_branch(b)),
        }
    }
}

/// A metric for calculating indices in ropes based on Unicode grapheme
/// clusters.
#[derive(Clone, Copy, Debug, PartialEq, Eq, Structural, PartialOrd, Ord, Hash)]
pub struct Grapheme(pub usize);

/// A metric for calculating indices in ropes based on line numbering.
///
/// A leaf counts one line when its text ends with a line feed, so a rope's
/// line count is the number of its leaves that end a line.
#[derive(Clone, Copy, Debug, PartialEq, Eq, Structural, PartialOrd, Ord, Hash)]
pub struct Line(pub usize);

impl Monoid for usize {
    open spec fn spec_count(self) -> nat {
        self as nat
    }

    fn count(&self) -> (r: usize) {
        *self
    }

    fn of_count(n: usize) -> (r: usize) {
        n
    }

    fn identity() -> (r: usize) {
        0
    }

    fn combine(self, other: usize) -> (r: usize) {
        self + other
    }
}

impl Monoid for Grapheme {
    open spec fn spec_count(self) -> nat {
        self.0 as nat
    }

    fn count(&self) -> (r: usize) {
        self.0
    }

    fn of_count(n: usize) -> (r: Grapheme) {
        Grapheme(n)
    }

    fn identity() -> (r: Grapheme) {
        Grapheme(0)
    }

    fn combine(self, other: Grapheme) -> (r: Grapheme) {
        Grapheme(self.0 + other.0)
    }
}

impl Monoid for Line {
    open spec fn spec_count(self) -> nat {
        self.0 as nat
    }

    fn count(&self) -> (r: usize) {
        self.0
    }

    fn of_count(n: usize) -> (r: Line) {
        Line(n)
    }

    fn identity() -> (r: Line) {
        Line(0)
    }

    fn combine(self, other: Line) -> (r: Line) {
        Line(self.0 + other.0)
    }
}

/// `usize` is the byte metric: a leaf holds as many units as bytes, and unit
/// `n` begins at byte `n`.
impl Metric for usize {
    open spec fn leaf_measure(text: Seq<char>) -> nat {
        utf8(text).len()
    }

    open spec fn leaf_offset(text: Seq<char>, n: nat) -> Option<nat> {
        if n <= utf8(text).len() {
            Some(n)
        } else {
            None
        }
    }

    open spec fn is_exact() -> bool {
        false
    }

    open spec fn node_measure(node: Node) -> nat {
        node.bytes().len()
    }

    proof fn lemma_node_measure(node: Node) {
    }

    open spec fn spec_is_splittable() -> bool {
        true
    }

    fn is_splittable() -> (r: bool) {
        true
    }

    proof fn lemma_leaf_measure_bound(text: Seq<char>) {
    }

    proof fn lemma_leaf_offset_boundary(text: Seq<char>, n: nat) {
    }

    fn measure_text(text: &str) -> (r: usize) {
        byte_len_of(text)
    }

    fn text_byte_index(text: &str, n: usize) -> (r: Option<usize>) {
        if n <= byte_len_of(text) {
            Some(n)
        } else {
            None
        }
    }

    fn measure_branch(b: &BranchNode) -> (r: usize) {
        b.len()
    }

    fn weight_branch(b: &BranchNode) -> (r: usize) {
        b.weight()
    }
}

/// Strictly increasing offsets below a bound are no more than the bound.
proof fn lemma_increasing_bound(starts: Seq<usize>, bound: nat)
    requires
        forall|i: int, j: int| 0 <= i < j < starts.len() ==> starts[i] < starts[j],
        forall|i: int| 0 <= i < starts.len() ==> #[trigger] starts[i] < bound,
    ensures
        starts.len() <= bound,
    decreases starts.len(),
{
    if starts.len() > 0 {
        let rest = starts.drop_last();
        assert forall|i: int| 0 <= i < rest.len() implies #[trigger] rest[i] < starts.last() by {
            assert(starts[i] < starts[starts.len() - 1]);
        }
        lemma_increasing_bound(rest, starts.last() as nat);
    }
}

/// Grapheme clusters as the Unicode segmentation rules find them in each
/// leaf: a leaf holds as many units as clusters, and unit `n` begins where
/// its `n`-th cluster does (the end of the text for `n` equal to the count).
impl Metric for Grapheme {
    open spec fn leaf_measure(text: Seq<char>) -> nat {
        grapheme_count(text)
    }

    open spec fn node_measure(node: Node) -> nat {
        node.grapheme_measure()
    }

    proof fn lemma_node_measure(node: Node) {
    }

    open spec fn leaf_offset(text: Seq<char>, n: nat) -> Option<nat> {
        if n <= grapheme_count(text) {
            Some(grapheme_offset(text, n))
        } else {
            None
        }
    }

    open spec fn is_exact() -> bool {
        true
    }

    open spec fn spec_is_splittable() -> bool {
        false
    }

    fn is_splittable() -> (r: bool) {
        false
    }

    proof fn lemma_leaf_measure_bound(text: Seq<char>) {
        if text.len() > 0 {
            lemma_increasing_bound(grapheme_starts(text), utf8(text).len());
        }
    }

    proof fn lemma_leaf_offset_boundary(text: Seq<char>, n: nat) {
        broadcast use encode_utf8_valid_utf8;

        is_char_boundary_start_end_of_seq(utf8(text));
        if n < grapheme_count(text) {
            assert(grapheme_starts(text)[n as int] < utf8(text).len());
        }
    }

    fn measure_text(text: &str) -> (r: usize) {
        let starts = grapheme_offsets(text);
        starts.len()
    }

    fn text_byte_index(text: &str, n: usize) -> (r: Option<usize>) {
        let starts = grapheme_offsets(text);
        if text.is_empty() {
            if n == 0 {
                Some(0)
            } else {
                None
            }
        } else if n < starts.len() {
            Some(starts[n])
        } else if n == starts.len() {
            Some(byte_len_of(text))
        } else {
            None
        }
    }

    fn measure_branch(b: &BranchNode) -> (r: usize) {
        b.grapheme_len().0
    }

    fn weight_branch(b: &BranchNode) -> (r: usize) {
        assert(b.left.wf());
        match &*b.left {
            Node::Leaf(s) => Grapheme::measure_text(s.as_str()),
            Node::Branch(lb) => lb.grapheme_len().0,
        }
    }
}

/// Lines as leaves count them: a leaf whose text ends with a line feed holds
/// one unit, any other leaf none; the only offset a leaf knows is that of
/// unit 0, its end.
impl Metric for Line {
    open spec fn leaf_measure(text: Seq<char>) -> nat {
        line_units(text)
    }

    open spec fn node_measure(node: Node) -> nat {
        node.line_measure()
    }

    proof fn lemma_node_measure(node: Node) {
    }

    open spec fn leaf_offset(text: Seq<char>, n: nat) -> Option<nat> {
        if n == 0 {
            Some(utf8(text).len())
        } else {
            None
        }
    }

    open spec fn is_exact() -> bool {
        true
    }

    open spec fn spec_is_splittable() -> bool {
        true
    }

    fn is_splittable() -> (r: bool) {
        true
    }

    proof fn lemma_leaf_measure_bound(text: Seq<char>) {
    }

    proof fn lemma_leaf_offset_boundary(text: Seq<char>, n: nat) {
        broadcast use encode_utf8_valid_utf8;

        is_char_boundary_start_end_of_seq(utf8(text));
    }

    fn measure_text(text: &str) -> (r: usize) {
        let b = text.as_bytes();
        if b.len() > 0 && b[b.len() - 1] == 10u8 {
            1
        } else {
            0
        }
    }

    fn text_byte_index(text: &str, n: usize) -> (r: Option<usize>) {
        if n == 0 {
            Some(byte_len_of(text))
        } else {
            None
        }
    }

    fn measure_branch(b: &BranchNode) -> (r: usize) {
        b.line_count().0
    }

    fn weight_branch(b: &BranchNode) -> (r: usize) {
        b.line_weight().0
    }
}

/// The number of lines a leaf text ends: 1 when its last byte is a line
/// feed, else 0.
pub open spec fn line_units(text: Seq<char>) -> nat {
    if utf8(text).len() > 0 && utf8(text).last() == 10u8 {
        1
    } else {
        0
    }
}

/// What a leaf text's grapheme segmentation satisfies.
pub open spec fn starts_ok(text: Seq<char>) -> bool {
    text.len() == 0 || crate::unicode::starts_partition(grapheme_starts(text), text)
}

} // verus!
