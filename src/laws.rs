//! Laws that relate the rope's operations to one another, each stated over
//! the views and spec functions the operations' own contracts use.

use vstd::prelude::*;
use vstd::utf8::*;
use crate::internals::{Node, lemma_boundary_concat};
use crate::metric::{Grapheme, Metric, utf8};
use vstd::std_specs::cmp::PartialEqSpec;
use crate::rope::Rope;

verus! {

/// In bytes, a rope can be split at any char boundary of its text, and text
/// can be inserted there. When no leaf is a single byte, the cut and the
/// insertion fall exactly there (a one-byte leaf is kept whole by a split,
/// so a cut at its start falls at its end).
pub proof fn lemma_byte_index(r: Rope, i: nat)
    requires
        r.wf(),
        i <= r@.len(),
        is_char_boundary(r@, i as int),
    ensures
        r.can_split::<usize>(i),
        r.can_insert::<usize>(i),
        r.root.shape().no_unit_leaf::<usize>() ==> r.offset_of::<usize>(i) == i
            && r.insert_offset::<usize>(i) == i,
{
    r.root.lemma_byte_split(i);
}

/// In bytes, when neither the rope nor the right part its first cut leaves
/// has a one-byte leaf, deleting a range between two char boundaries
/// applies, and leaves the text before the range followed by the text after
/// it. (A one-byte leaf is kept whole by a split, which moves the cut past
/// it, so elsewhere the second cut may fall off a char boundary or off the
/// end.)
pub proof fn lemma_byte_delete(r: Rope, i: nat, j: nat)
    requires
        r.wf(),
        i <= j <= r@.len(),
        is_char_boundary(r@, i as int),
        is_char_boundary(r@, j as int),
    ensures
        r.can_split::<usize>(i),
        r.root.shape().no_unit_leaf::<usize>() && r.rest_after::<usize>(i).no_unit_leaf::<usize>()
            ==> r.offset_of::<usize>(i) == i && r.can_delete::<usize>(i, j) && r.deleted::<usize>(
            i,
            j,
        ) == r@.subrange(0, i as int) + r@.subrange(j as int, r@.len() as int),
{
    lemma_byte_index(r, i);
    if r.root.shape().no_unit_leaf::<usize>() && r.rest_after::<usize>(i).no_unit_leaf::<usize>() {
        r.root.lemma_valid_utf8();
        r.root.lemma_shape::<usize>(i);
        r.root.shape().lemma_split_bytes::<usize>(i);
        let pre = r@.subrange(0, i as int);
        let tail = r@.subrange(i as int, r@.len() as int);
        let rest = r.rest_after::<usize>(i);
        assert(rest.bytes() == tail);
        valid_utf8_split(r@, i as int);
        assert(r@ =~= pre + tail);
        lemma_boundary_concat(pre, tail, j as int);
        rest.lemma_byte_split((j - i) as nat);
        assert(rest.bytes().subrange((j - i) as int, rest.bytes().len() as int) =~= r@.subrange(
            j as int,
            r@.len() as int,
        ));
    }
}

/// In grapheme clusters, when no leaf holds a single cluster, a split at
/// cluster `i` cuts where that cluster begins (clusters counted leaf by
/// leaf, as `pieces` lists them), and a split at the count of clusters cuts
/// at the end.
pub proof fn lemma_grapheme_split_offset(n: Node, i: nat)
    requires
        n.wf(),
        i <= n.grapheme_measure(),
        n.shape().no_unit_leaf::<Grapheme>(),
    ensures
        n.split_ok::<Grapheme>(i),
        i < n.grapheme_measure() ==> n.split_offset::<Grapheme>(i) == Some(n.piece_offsets(0)[i as int]),
        i == n.grapheme_measure() ==> n.split_offset::<Grapheme>(i) == Some(n.bytes().len()),
{
    n.lemma_exact_split::<Grapheme>(i);
    lemma_grapheme_offset_from(n, i, 0);
}

proof fn lemma_grapheme_offset_from(n: Node, i: nat, base: nat)
    requires
        n.wf(),
        i <= n.grapheme_measure(),
        n.shape().no_unit_leaf::<Grapheme>(),
    ensures
        n.piece_offsets(base).len() == n.grapheme_measure(),
        forall|k: int| 0 <= k < n.piece_offsets(base).len() ==> #[trigger] n.piece_offsets(base)[k] >= base,
        i < n.grapheme_measure() ==> n.split_offset::<Grapheme>(i) == Some(
            (n.piece_offsets(base)[i as int] - base) as nat,
        ),
        i == n.grapheme_measure() ==> n.split_offset::<Grapheme>(i) == Some(n.bytes().len()),
    decreases n,
{
    match n {
        Node::Leaf(s) => {
            if s@.len() > 0 {
                assert(utf8(s@).len() > 0) by {
                    reveal_with_fuel(encode_utf8, 2);
                }
            }
        },
        Node::Branch(b) => {
            let w = b.left.grapheme_measure();
            let lb = b.left.bytes().len();
            let lo = b.left.piece_offsets(base);
            let ro = b.right.piece_offsets(base + lb);
            lemma_grapheme_offset_from(*b.left, if i < w { i } else { w }, base);
            if i >= w {
                lemma_grapheme_offset_from(*b.right, (i - w) as nat, base + lb);
            } else {
                lemma_grapheme_offset_from(*b.right, 0, base + lb);
            }
            assert(n.piece_offsets(base) == lo + ro);
            assert forall|k: int| 0 <= k < (lo + ro).len() implies #[trigger] (lo + ro)[k] >= base by {
                if k >= lo.len() {
                    assert((lo + ro)[k] == ro[k - lo.len()]);
                }
            }
            if i < w {
                assert((lo + ro)[i as int] == lo[i as int]);
            } else if i < n.grapheme_measure() {
                assert((lo + ro)[i as int] == ro[i - w]);
            }
        },
    }
}

/// Splitting a rope and appending the right part to the left part gives
/// back the rope's text: the two parts `split` returns spell the text before
/// and after one cut, and fit together in a `usize` length.
pub proof fn law_split_then_append<M: Metric>(r: Rope, i: nat)
    requires
        r.wf(),
        r.can_split::<M>(i),
    ensures
        r.offset_of::<M>(i) <= r@.len(),
        r@.subrange(0, r.offset_of::<M>(i) as int) + r@.subrange(
            r.offset_of::<M>(i) as int,
            r@.len() as int,
        ) == r@,
        r@.subrange(0, r.offset_of::<M>(i) as int).len() + r@.subrange(
            r.offset_of::<M>(i) as int,
            r@.len() as int,
        ).len() <= usize::MAX,
{
    r.root.lemma_split_offset_bound::<M>(i);
    r.root.lemma_measures_bounded();
    assert(r@.subrange(0, r.offset_of::<M>(i) as int) + r@.subrange(
        r.offset_of::<M>(i) as int,
        r@.len() as int,
    ) =~= r@);
}

/// Every branch of a well-formed tree (which every operation returns) is as
/// long as its two subtrees together, and weighs as much as its left one.
pub proof fn law_length_additive(n: Node)
    requires
        n.wf(),
    ensures
        n matches Node::Branch(b) ==> b.len == b.left.bytes().len() + b.right.bytes().len()
            && b.weight == b.left.bytes().len() && b.left.wf() && b.right.wf(),
{
}

/// Inserting a non-empty string at a char boundary `i` and then deleting
/// the bytes `i..i + s.len()` gives back the rope's text, on the inputs
/// where no split keeps a one-byte leaf whole: the insertion lands at `i`
/// when the rope has no one-byte leaf, and on a rope spelling the result
/// whose tree, and the right part its cut at `i` leaves, have none either,
/// the deletion applies and removes exactly the inserted bytes. (Elsewhere
/// a one-byte leaf moves a cut one byte on: inserting `z` at 1 into the
/// one-leaf rope `xy` and then deleting `1..2` gives `xz`.)
pub proof fn law_insert_then_delete(r: Rope, i: nat, s: Seq<char>)
    requires
        r.wf(),
        i <= r@.len(),
        is_char_boundary(r@, i as int),
        s.len() > 0,
        r@.len() + utf8(s).len() <= usize::MAX,
    ensures
        r.can_insert::<usize>(i),
        r.root.shape().no_unit_leaf::<usize>() ==> r.insert_offset::<usize>(i) == i,
        forall|t: Rope|
            #![auto]
            t.wf() && t@ == r.spliced(i, utf8(s)) && t.root.shape().no_unit_leaf::<usize>()
                && t.rest_after::<usize>(i).no_unit_leaf::<usize>() ==> t.can_delete::<usize>(
                i,
                i + utf8(s).len(),
            ) && t.deleted::<usize>(i, i + utf8(s).len()) == r@,
{
    broadcast use encode_utf8_valid_utf8;

    lemma_byte_index(r, i);
    r.root.lemma_valid_utf8();
    let pre = r@.subrange(0, i as int);
    let post = r@.subrange(i as int, r@.len() as int);
    let ins = utf8(s);
    valid_utf8_split(r@, i as int);
    valid_utf8_concat(ins, post);
    valid_utf8_concat(pre, ins + post);
    assert(r@ =~= pre + post);
    assert forall|t: Rope|
        #![auto]
        t.wf() && t@ == r.spliced(i, utf8(s)) && t.root.shape().no_unit_leaf::<usize>()
            && t.rest_after::<usize>(i).no_unit_leaf::<usize>() implies t.can_delete::<usize>(
            i,
            i + utf8(s).len(),
        ) && t.deleted::<usize>(i, i + utf8(s).len()) == r@ by {
        assert(t@ =~= pre + (ins + post));
        is_char_boundary_start_end_of_seq(ins + post);
        is_char_boundary_start_end_of_seq(post);
        lemma_boundary_concat(pre, ins + post, i as int);
        lemma_boundary_concat(pre, ins + post, (i + ins.len()) as int);
        lemma_boundary_concat(ins, post, ins.len() as int);
        lemma_byte_delete(t, i, i + ins.len());
        assert(t@.subrange(0, i as int) =~= pre);
        assert(t@.subrange((i + ins.len()) as int, t@.len() as int) =~= post);
    }
}

/// Appending `b` to `a` and prepending `a` to `b` give equal ropes, and
/// so do prepending `b` to `a` and appending `a` to `b`: both calls of each
/// pair are allowed on the same inputs, what `a.with_append(b)` spells
/// (`a.appended(b)`) is what `b.with_prepend(a)` spells (`b.prepended(a)`),
/// and ropes spelling the same bytes compare equal under `==`.
pub proof fn law_append_prepend_symmetric(a: Rope, b: Rope)
    requires
        a.wf(),
        b.wf(),
        a@.len() + b@.len() <= usize::MAX,
    ensures
        b@.len() + a@.len() <= usize::MAX,
        a.appended(b) == b.prepended(a),
        a.prepended(b) == b.appended(a),
        forall|x: Rope, y: Rope|
            #![auto]
            x@ == a.appended(b) && y@ == b.prepended(a) ==> <Rope as PartialEqSpec>::eq_spec(
                &x,
                &y,
            ),
{
}

/// Appending or prepending an empty rope gives back the rope's text, and
/// the destructive and persistent operations leave the rope itself as it
/// was.
pub proof fn law_empty_noop(r: Rope, e: Rope)
    requires
        r.wf(),
        e.wf(),
        e@.len() == 0,
    ensures
        r@ + e@ == r@,
        e@ + r@ == r@,
        r@.len() + e@.len() <= usize::MAX,
{
    r.root.lemma_measures_bounded();
    assert(r@ + e@ =~= r@);
    assert(e@ + r@ =~= r@);
}

} // verus!
