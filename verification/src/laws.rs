//! The engine's laws: order of sequence evaluation, the leaf-count and
//! map/flatten identities, longest-match and first-match selection, and the
//! composite round trip.
use vstd::prelude::*;
use crate::semantics::CombView;
use crate::semantics::ErrView;
use crate::semantics::TreeView;
use crate::semantics::ceval;
use crate::semantics::ceval_alt;
use crate::semantics::ceval_any;
use crate::semantics::ceval_chain;
use crate::semantics::eval;
use crate::semantics::eval_alt;
use crate::semantics::eval_any;
use crate::semantics::eval_chain;
use crate::semantics::leaf_count;
use crate::semantics::leaf_count_upto;
use crate::semantics::leaves;
use crate::semantics::leaves_upto;
use crate::semantics::lemma_eval_any_skip;
use crate::semantics::lemma_eval_chain_err;
use crate::semantics::lemma_upto_prefix;
use crate::semantics::scan_elems;
use crate::semantics::tree_map;
use crate::semantics::tree_map_upto;

verus! {

/// Law: a sequence rule consumes monotonically, sub-rule by sub-rule.  Its
/// evaluation is the head rule on the whole input, then the remaining rules
/// on the head's remainder, with the head's result prepended — so each
/// sub-rule runs on the successively shrinking remainder its predecessor
/// left, the children stand in sub-rule order, and a failure is the first
/// failing sub-rule's error, verbatim.
pub proof fn lemma_chain_in_order<C>(ps: Seq<CombView<C>>, input: Seq<C>)
    requires
        ps.len() > 0,
    ensures
        ({
            let whole = eval(CombView::Chain(ps), input);
            match eval(ps[0], input) {
                Err(e) => whole == Err::<(Seq<C>, TreeView<C>), ErrView<C>>(e),
                Ok((rem1, t)) => match eval(CombView::Chain(ps.drop_first()), rem1) {
                    Err(e2) => whole == Err::<(Seq<C>, TreeView<C>), ErrView<C>>(e2),
                    Ok((rem2, rest)) => rest matches TreeView::Branch(ts) && whole == Ok::<
                        (Seq<C>, TreeView<C>),
                        ErrView<C>,
                    >((rem2, TreeView::Branch(seq![t] + ts))),
                },
            }
        }),
{
    let tail = ps.drop_first();
    match eval(ps[0], input) {
        Err(e) => {
            assert(eval_chain(ps, input, 0) == Ok::<(Seq<C>, Seq<TreeView<C>>), ErrView<C>>(
                (input, Seq::empty()),
            ));
            assert(eval_chain(ps, input, 1) == Err::<(Seq<C>, Seq<TreeView<C>>), ErrView<C>>(e));
            lemma_eval_chain_err(ps, input, 1, ps.len() as int);
        },
        Ok((rem1, t)) => {
            lemma_chain_shift(ps, input, ps.len() as int);
        },
    }
}

/// Evaluating the first `i` rules of a nonempty chain equals evaluating the
/// head, then the first `i - 1` remaining rules on the head's remainder.
pub proof fn lemma_chain_shift<C>(ps: Seq<CombView<C>>, input: Seq<C>, i: int)
    requires
        1 <= i <= ps.len(),
        eval(ps[0], input) is Ok,
    ensures
        ({
            match eval(ps[0], input) {
                Ok((rem1, t)) => eval_chain(ps, input, i) == (match eval_chain(
                    ps.drop_first(),
                    rem1,
                    i - 1,
                ) {
                    Ok((rem2, ts)) => Ok::<(Seq<C>, Seq<TreeView<C>>), ErrView<C>>(
                        (rem2, seq![t] + ts),
                    ),
                    Err(e) => Err::<(Seq<C>, Seq<TreeView<C>>), ErrView<C>>(e),
                }),
                Err(_) => true,
            }
        }),
    decreases i,
{
    let tail = ps.drop_first();
    match eval(ps[0], input) {
        Ok((rem1, t)) => {
            if i == 1 {
                assert(seq![t] + Seq::<TreeView<C>>::empty() =~= seq![t]);
            } else {
                lemma_chain_shift(ps, input, i - 1);
                assert(tail[i - 2] == ps[i - 1]);
                match eval_chain(tail, rem1, i - 2) {
                    Ok((rem2, ts)) => {
                        match eval(tail[i - 2], rem2) {
                            Ok((rem3, t3)) => {
                                assert((seq![t] + ts).push(t3) =~= seq![t] + ts.push(t3));
                            },
                            Err(_) => {},
                        }
                    },
                    Err(_) => {},
                }
            }
        },
        Err(_) => {},
    }
}

/// Law: an empty sequence rule succeeds on any input, consumes nothing, and
/// yields an empty composite result.
pub proof fn lemma_empty_chain<C>(input: Seq<C>)
    ensures
        eval(CombView::Chain(Seq::<CombView<C>>::empty()), input) == Ok::<
            (Seq<C>, TreeView<C>),
            ErrView<C>,
        >((input, TreeView::Branch(Seq::<TreeView<C>>::empty()))),
{
}

/// Law: the leaf count of any result tree equals the length of its
/// flattened leaf sequence.
pub proof fn lemma_leaf_count_is_leaves_len<C>(t: TreeView<C>)
    ensures
        leaf_count(t) == leaves(t).len(),
    decreases t, 0int,
{
    match t {
        TreeView::Leaf(_) => {},
        TreeView::Branch(ts) => {
            lemma_leaf_count_is_leaves_len_upto(ts, ts.len() as int);
        },
    }
}

/// `lemma_leaf_count_is_leaves_len`, over the first `i` trees of a list.
pub proof fn lemma_leaf_count_is_leaves_len_upto<C>(ts: Seq<TreeView<C>>, i: int)
    ensures
        leaf_count_upto(ts, i) == leaves_upto(ts, i).len(),
    decreases ts, i,
{
    if i > 0 && i <= ts.len() {
        lemma_leaf_count_is_leaves_len_upto(ts, i - 1);
        lemma_leaf_count_is_leaves_len(ts[i - 1]);
    }
}

/// `tree_map_upto(ts, i, f)` lists the mapped trees of `ts[0..i]` in order.
pub proof fn lemma_tree_map_upto<C, D>(ts: Seq<TreeView<C>>, i: int, f: spec_fn(C) -> D)
    requires
        0 <= i <= ts.len(),
    ensures
        tree_map_upto(ts, i, f).len() == i,
        forall|j: int| 0 <= j < i ==> tree_map_upto(ts, i, f)[j] == tree_map(ts[j], f),
    decreases i,
{
    if i > 0 {
        lemma_tree_map_upto(ts, i - 1, f);
    }
}

/// Law: flattening commutes with mapping.  The leaves of a mapped tree are
/// the mapped leaves of the tree, element for element, in order.
pub proof fn lemma_map_then_flatten<C, D>(t: TreeView<C>, f: spec_fn(C) -> D)
    ensures
        leaves(tree_map(t, f)) == leaves(t).map_values(f),
    decreases t, 0int,
{
    match t {
        TreeView::Leaf(c) => {
            assert(tree_map(t, f) == TreeView::Leaf(f(c)));
            assert(leaves(tree_map(t, f)) == seq![f(c)]);
            assert(leaves(t) == seq![c]);
            assert(leaves(t).map_values(f).len() == 1);
            assert(leaves(t).map_values(f)[0] == f(c));
            assert(leaves(tree_map(t, f)) =~= leaves(t).map_values(f));
        },
        TreeView::Branch(ts) => {
            lemma_tree_map_upto(ts, ts.len() as int, f);
            lemma_map_then_flatten_upto(ts, ts.len() as int, f);
        },
    }
}

/// `lemma_map_then_flatten`, over the first `i` trees of a list.
pub proof fn lemma_map_then_flatten_upto<C, D>(ts: Seq<TreeView<C>>, i: int, f: spec_fn(C) -> D)
    requires
        0 <= i <= ts.len(),
    ensures
        leaves_upto(tree_map_upto(ts, i, f), i) == leaves_upto(ts, i).map_values(f),
    decreases ts, i,
{
    if i <= 0 {
        assert(leaves_upto(tree_map_upto(ts, i, f), i) =~= leaves_upto(ts, i).map_values(f));
    } else {
        lemma_map_then_flatten_upto(ts, i - 1, f);
        lemma_map_then_flatten(ts[i - 1], f);
        lemma_tree_map_upto(ts, i, f);
        lemma_tree_map_upto(ts, i - 1, f);
        lemma_upto_prefix(tree_map_upto(ts, i - 1, f), tree_map_upto(ts, i, f), i - 1);
        assert(leaves_upto(tree_map_upto(ts, i, f), i) == leaves_upto(
            tree_map_upto(ts, i, f),
            i - 1,
        ) + leaves(tree_map(ts[i - 1], f)));
        assert((leaves_upto(ts, i - 1) + leaves(ts[i - 1])).map_values(f) =~= leaves_upto(
            ts,
            i - 1,
        ).map_values(f) + leaves(ts[i - 1]).map_values(f));
    }
}

/// The longest-match fold over the first `i` alternatives: when all fail it
/// is the first alternative's outcome; when any succeeds it is one of the
/// successes, and no successful alternative has more leaves.
pub proof fn lemma_alt_fold<C>(ps: Seq<CombView<C>>, input: Seq<C>, i: int)
    requires
        0 < ps.len(),
        1 <= i <= ps.len(),
    ensures
        (forall|j: int| 0 <= j < i ==> eval(ps[j], input) is Err) ==> eval_alt(ps, input, i)
            == eval(ps[0], input),
        eval_alt(ps, input, i) is Ok ==> exists|k: int|
            0 <= k < i && eval_alt(ps, input, i) == eval(ps[k], input),
        (exists|j: int| 0 <= j < i && eval(ps[j], input) is Ok) ==> eval_alt(ps, input, i) is Ok,
        forall|j: int|
            0 <= j < i ==> (match (eval_alt(ps, input, i), #[trigger] eval(ps[j], input)) {
                (Ok((rem, t)), Ok((remj, tj))) => leaf_count(t) >= leaf_count(tj),
                _ => true,
            }),
    decreases i,
{
    if i > 1 {
        lemma_alt_fold(ps, input, i - 1);
    }
}

/// Law: longest match.  Among the alternatives of a `Longest` rule, when
/// none succeeds the outcome is the first alternative's error; when some
/// succeed the outcome is one of the successful alternatives, and its leaf
/// count is no smaller than any successful alternative's — so a single
/// success is returned verbatim.
pub proof fn lemma_alt_longest<C>(ps: Seq<CombView<C>>, input: Seq<C>)
    requires
        ps.len() > 0,
    ensures
        (forall|j: int| 0 <= j < ps.len() ==> eval(ps[j], input) is Err) ==> eval(
            CombView::Longest(ps),
            input,
        ) == eval(ps[0], input),
        (exists|j: int| 0 <= j < ps.len() && eval(ps[j], input) is Ok) ==> exists|k: int|
            0 <= k < ps.len() && eval(ps[k], input) is Ok && eval(CombView::Longest(ps), input)
                == eval(ps[k], input),
        forall|j: int|
            0 <= j < ps.len() ==> (match (
                eval(CombView::Longest(ps), input),
                #[trigger] eval(ps[j], input),
            ) {
                (Ok((rem, t)), Ok((remj, tj))) => leaf_count(t) >= leaf_count(tj),
                _ => true,
            }),
        forall|k: int|
            0 <= k < ps.len() && eval(ps[k], input) is Ok && (forall|j: int|
                0 <= j < ps.len() && j != k ==> eval(ps[j], input) is Err) ==> eval(
                CombView::Longest(ps),
                input,
            ) == #[trigger] eval(ps[k], input),
{
    lemma_alt_fold(ps, input, ps.len() as int);
    if exists|j: int| 0 <= j < ps.len() && eval(ps[j], input) is Ok {
        let k = choose|k: int|
            0 <= k < ps.len() && eval_alt(ps, input, ps.len() as int) == eval(ps[k], input);
        assert(eval(ps[k], input) is Ok);
    }
    assert forall|k: int|
        0 <= k < ps.len() && eval(ps[k], input) is Ok && (forall|j: int|
            0 <= j < ps.len() && j != k ==> eval(ps[j], input) is Err) implies eval(
        CombView::Longest(ps),
        input,
    ) == #[trigger] eval(ps[k], input) by {
        let k2 = choose|k2: int|
            0 <= k2 < ps.len() && eval_alt(ps, input, ps.len() as int) == eval(ps[k2], input);
        assert(eval(ps[k2], input) is Ok);
        assert(k2 == k);
    }
}

/// Law: first match.  A `First` rule returns its first alternative's
/// success untouched; in general the earliest successful alternative wins,
/// and when all fail, the first alternative's error is returned.
pub proof fn lemma_any_first<C>(ps: Seq<CombView<C>>, input: Seq<C>)
    requires
        ps.len() > 0,
    ensures
        eval(ps[0], input) is Ok ==> eval(CombView::First(ps), input) == eval(ps[0], input),
        forall|k: int|
            0 <= k < ps.len() && eval(ps[k], input) is Ok && (forall|j: int|
                0 <= j < k ==> eval(ps[j], input) is Err) ==> eval(CombView::First(ps), input)
                == #[trigger] eval(ps[k], input),
        (forall|j: int| 0 <= j < ps.len() ==> eval(ps[j], input) is Err) ==> eval(
            CombView::First(ps),
            input,
        ) == eval(ps[0], input),
{
    assert forall|k: int|
        0 <= k < ps.len() && eval(ps[k], input) is Ok && (forall|j: int|
            0 <= j < k ==> eval(ps[j], input) is Err) implies eval(CombView::First(ps), input)
        == #[trigger] eval(ps[k], input) by {
        lemma_eval_any_skip(ps, input, k);
        assert(eval_any(ps, input, k) == eval(ps[k], input));
    }
    if forall|j: int| 0 <= j < ps.len() ==> eval(ps[j], input) is Err {
        lemma_eval_any_skip(ps, input, ps.len() as int);
    }
}

/// While every element before `k` matches the input, the element scan may
/// start at `k` instead of at the front.
pub proof fn lemma_scan_prefix<C>(es: Seq<C>, input: Seq<C>, k: int)
    requires
        0 <= k <= es.len(),
        k <= input.len(),
        forall|j: int| 0 <= j < k ==> input[j] == es[j],
    ensures
        scan_elems(es, input, 0) == scan_elems(es, input, k),
    decreases k,
{
    if k > 0 {
        lemma_scan_prefix(es, input, k - 1);
    }
}

/// Law: composite round trip.  A composite token of elements `es` matched
/// against an input that starts with exactly those elements consumes them
/// and yields the single aggregate leaf `es`; a mismatch at position `k`
/// yields the error that expects the whole token and reports the `k`
/// elements matched so far followed by the mismatching element.
pub proof fn lemma_composite_roundtrip<C>(es: Seq<C>, input: Seq<C>)
    ensures
        (es.len() <= input.len() && input.take(es.len() as int) == es) ==> ceval(
            CombView::Single(es),
            input,
        ) == Ok::<(Seq<C>, TreeView<Seq<C>>), ErrView<Seq<C>>>(
            (input.skip(es.len() as int), TreeView::Leaf(es)),
        ),
        forall|k: int|
            0 <= k < es.len() && k < input.len() && input.take(k) == es.take(k) && input[k]
                != es[k] ==> ceval(CombView::Single(es), input) == Err::<
                (Seq<C>, TreeView<Seq<C>>),
                ErrView<Seq<C>>,
            >(
                ErrView {
                    expects: Some(es),
                    found: Some(#[trigger] es.take(k).push(input[k])),
                },
            ),
{
    if es.len() <= input.len() && input.take(es.len() as int) == es {
        assert forall|j: int| 0 <= j < es.len() implies input[j] == es[j] by {
            assert(input.take(es.len() as int)[j] == es[j]);
        }
        lemma_scan_prefix(es, input, es.len() as int);
    }
    assert forall|k: int|
        0 <= k < es.len() && k < input.len() && input.take(k) == es.take(k) && input[k]
            != es[k] implies ceval(CombView::Single(es), input) == Err::<
        (Seq<C>, TreeView<Seq<C>>),
        ErrView<Seq<C>>,
    >(ErrView { expects: Some(es), found: Some(#[trigger] es.take(k).push(input[k])) }) by {
        assert forall|j: int| 0 <= j < k implies input[j] == es[j] by {
            assert(input.take(k)[j] == es.take(k)[j]);
        }
        lemma_scan_prefix(es, input, k);
        assert(scan_elems(es, input, k) == k);
    }
}


/// A scan that matched every element saw each of them in the input.
pub proof fn lemma_scan_success<C>(es: Seq<C>, input: Seq<C>, k: int)
    requires
        0 <= k <= es.len(),
        k <= input.len(),
        scan_elems(es, input, k) == es.len(),
    ensures
        es.len() <= input.len(),
    decreases es.len() - k,
{
    if k < es.len() {
        lemma_scan_success(es, input, k + 1);
    }
}

/// Law: a composite evaluation never invents input.  On success the
/// remainder is a suffix of the input: the input with its consumed front
/// removed.
pub proof fn lemma_ceval_suffix<C>(p: CombView<Seq<C>>, input: Seq<C>)
    ensures
        ceval(p, input) matches Ok((rem, t)) ==> {
            &&& rem.len() <= input.len()
            &&& rem == input.skip(input.len() - rem.len())
        },
    decreases p, 0int,
{
    match p {
        CombView::Single(es) => {
            if scan_elems(es, input, 0) == es.len() {
                lemma_scan_success(es, input, 0);
                assert(input.skip(es.len() as int).len() == input.len() - es.len());
            }
        },
        CombView::Chain(ps) => {
            lemma_ceval_chain_suffix(ps, input, ps.len() as int);
        },
        CombView::Longest(ps) => {
            if ps.len() > 0 {
                lemma_ceval_alt_suffix(ps, input, ps.len() as int);
            }
        },
        CombView::First(ps) => {
            if ps.len() > 0 {
                lemma_ceval_any_suffix(ps, input, 0);
            }
        },
    }
}

/// `lemma_ceval_suffix`, for the chain of the first `i` rules.
pub proof fn lemma_ceval_chain_suffix<C>(ps: Seq<CombView<Seq<C>>>, input: Seq<C>, i: int)
    requires
        0 <= i <= ps.len(),
    ensures
        ceval_chain(ps, input, i) matches Ok((rem, ts)) ==> {
            &&& rem.len() <= input.len()
            &&& rem == input.skip(input.len() - rem.len())
        },
    decreases ps, i,
{
    if i > 0 {
        lemma_ceval_chain_suffix(ps, input, i - 1);
        match ceval_chain(ps, input, i - 1) {
            Ok((rem1, ts1)) => {
                lemma_ceval_suffix(ps[i - 1], rem1);
                match ceval(ps[i - 1], rem1) {
                    Ok((rem2, t)) => {
                        assert(rem2 =~= input.skip(input.len() - rem2.len()));
                    },
                    Err(_) => {},
                }
            },
            Err(_) => {},
        }
    } else {
        assert(input.skip(0) =~= input);
    }
}

/// `lemma_ceval_suffix`, for the fold over the first `i` alternatives.
pub proof fn lemma_ceval_alt_suffix<C>(ps: Seq<CombView<Seq<C>>>, input: Seq<C>, i: int)
    requires
        0 < ps.len(),
        1 <= i <= ps.len(),
    ensures
        ceval_alt(ps, input, i) matches Ok((rem, t)) ==> {
            &&& rem.len() <= input.len()
            &&& rem == input.skip(input.len() - rem.len())
        },
    decreases ps, i,
{
    if i <= 1 {
        lemma_ceval_suffix(ps[0], input);
    } else {
        lemma_ceval_alt_suffix(ps, input, i - 1);
        lemma_ceval_suffix(ps[i - 1], input);
    }
}

/// `lemma_ceval_suffix`, for the scan from alternative `i` on.
pub proof fn lemma_ceval_any_suffix<C>(ps: Seq<CombView<Seq<C>>>, input: Seq<C>, i: int)
    requires
        0 < ps.len(),
        0 <= i <= ps.len(),
    ensures
        ceval_any(ps, input, i) matches Ok((rem, t)) ==> {
            &&& rem.len() <= input.len()
            &&& rem == input.skip(input.len() - rem.len())
        },
    decreases ps, ps.len() - i,
{
    if i >= ps.len() {
        lemma_ceval_suffix(ps[0], input);
    } else if ceval(ps[i], input) is Ok {
        lemma_ceval_suffix(ps[i], input);
    } else {
        lemma_ceval_any_suffix(ps, input, i + 1);
    }
}

} // verus!
