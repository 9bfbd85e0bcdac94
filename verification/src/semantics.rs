//! The mathematical model of the engine: ghost trees for combinators and
//! match results, and the evaluation semantics as recursive spec functions.
use vstd::prelude::*;

verus! {

/// Ghost mirror of a match-result tree: a matched token, or an ordered list
/// of sub-results.
pub enum TreeView<C> {
    Leaf(C),
    Branch(Seq<TreeView<C>>),
}

/// Ghost mirror of a combinator tree: match one token, match sub-rules in
/// order, pick the longest-matching alternative, or pick the first-matching
/// alternative.
pub enum CombView<C> {
    Single(C),
    Chain(Seq<CombView<C>>),
    Longest(Seq<CombView<C>>),
    First(Seq<CombView<C>>),
}

/// Number of leaves of a result tree.
pub open spec fn leaf_count<C>(t: TreeView<C>) -> int
    decreases t, 0int,
{
    match t {
        TreeView::Leaf(_) => 1,
        TreeView::Branch(ts) => leaf_count_upto(ts, ts.len() as int),
    }
}

/// Sum of the leaf counts of the first `i` trees of `ts`.
pub open spec fn leaf_count_upto<C>(ts: Seq<TreeView<C>>, i: int) -> int
    decreases ts, i,
{
    if i <= 0 || i > ts.len() {
        0
    } else {
        leaf_count_upto(ts, i - 1) + leaf_count(ts[i - 1])
    }
}

/// The leaves of a result tree, depth first, left to right.
pub open spec fn leaves<C>(t: TreeView<C>) -> Seq<C>
    decreases t, 0int,
{
    match t {
        TreeView::Leaf(c) => seq![c],
        TreeView::Branch(ts) => leaves_upto(ts, ts.len() as int),
    }
}

/// Concatenation of the leaves of the first `i` trees of `ts`.
pub open spec fn leaves_upto<C>(ts: Seq<TreeView<C>>, i: int) -> Seq<C>
    decreases ts, i,
{
    if i <= 0 || i > ts.len() {
        Seq::empty()
    } else {
        leaves_upto(ts, i - 1) + leaves(ts[i - 1])
    }
}

/// Structure-preserving transform of a result tree: applies `f` to every leaf.
pub open spec fn tree_map<C, D>(t: TreeView<C>, f: spec_fn(C) -> D) -> TreeView<D>
    decreases t, 0int,
{
    match t {
        TreeView::Leaf(c) => TreeView::Leaf(f(c)),
        TreeView::Branch(ts) => TreeView::Branch(tree_map_upto(ts, ts.len() as int, f)),
    }
}

/// The first `i` trees of `ts`, each transformed by `tree_map`.
pub open spec fn tree_map_upto<C, D>(ts: Seq<TreeView<C>>, i: int, f: spec_fn(C) -> D) -> Seq<
    TreeView<D>,
>
    decreases ts, i,
{
    if i <= 0 || i > ts.len() {
        Seq::empty()
    } else {
        tree_map_upto(ts, i - 1, f).push(tree_map(ts[i - 1], f))
    }
}

/// Every result tree has a nonnegative leaf count.
pub proof fn lemma_leaf_count_nonneg<C>(t: TreeView<C>)
    ensures
        leaf_count(t) >= 0,
    decreases t, 0int,
{
    match t {
        TreeView::Leaf(_) => {},
        TreeView::Branch(ts) => {
            lemma_leaf_count_upto_nonneg(ts, ts.len() as int);
        },
    }
}

/// Partial leaf-count sums are nonnegative and monotone in the index.
pub proof fn lemma_leaf_count_upto_nonneg<C>(ts: Seq<TreeView<C>>, i: int)
    requires
        i <= ts.len(),
    ensures
        leaf_count_upto(ts, i) >= 0,
        forall|j: int| 0 <= j <= i ==> #[trigger] leaf_count_upto(ts, j) <= leaf_count_upto(ts, i),
    decreases ts, i,
{
    if i > 0 && i <= ts.len() {
        lemma_leaf_count_upto_nonneg(ts, i - 1);
        lemma_leaf_count_nonneg(ts[i - 1]);
        assert forall|j: int| 0 <= j <= i implies #[trigger] leaf_count_upto(ts, j)
            <= leaf_count_upto(ts, i) by {
            if j == i {
            } else {
                assert(leaf_count_upto(ts, j) <= leaf_count_upto(ts, i - 1));
            }
        }
    }
}

/// A parse error: what was expected (`None` when no single expectation can be
/// named) and what was found (`None` when the input was exhausted).
pub struct ErrView<C> {
    pub expects: Option<C>,
    pub found: Option<C>,
}

/// Outcome of evaluating a combinator tree: the unconsumed remainder and the
/// result tree, or an error.
pub type EvalResult<C, E> = Result<(Seq<E>, TreeView<C>), ErrView<C>>;

/// The error of an alternation with no alternatives: nothing can be expected,
/// and the head of the input, if any, was found.
pub open spec fn no_alternative_err<C>(input: Seq<C>) -> ErrView<C> {
    ErrView {
        expects: None,
        found: if input.len() > 0 {
            Some(input[0])
        } else {
            None
        },
    }
}

/// Longest-match selection: keeps the earlier result unless the later one is
/// a success with a strictly greater leaf count, or the earlier one failed.
pub open spec fn merge_alt<C, E>(r1: EvalResult<C, E>, r2: EvalResult<C, E>) -> EvalResult<C, E> {
    match (r1, r2) {
        (Ok((m1, t1)), Ok((m2, t2))) => if leaf_count(t2) > leaf_count(t1) {
            r2
        } else {
            r1
        },
        (Err(_), Ok(_)) => r2,
        _ => r1,
    }
}

/// Evaluation of an elemental combinator tree against an input sequence.
///
/// `Single(c)` consumes the head iff it equals `c`; `Chain` runs its sub-rules
/// left to right, each on its predecessor's remainder; `Longest` runs every
/// sub-rule on the same input and keeps the success with the most leaves
/// (earliest on ties), or the first failure when none succeeds; `First` keeps
/// the earliest success, or the first failure when none succeeds.
pub open spec fn eval<C>(p: CombView<C>, input: Seq<C>) -> EvalResult<C, C>
    decreases p, 0int,
{
    match p {
        CombView::Single(c) => if input.len() > 0 {
            if input[0] == c {
                Ok((input.drop_first(), TreeView::Leaf(c)))
            } else {
                Err(ErrView { expects: Some(c), found: Some(input[0]) })
            }
        } else {
            Err(ErrView { expects: Some(c), found: None })
        },
        CombView::Chain(ps) => match eval_chain(ps, input, ps.len() as int) {
            Ok((rem, ts)) => Ok((rem, TreeView::Branch(ts))),
            Err(e) => Err(e),
        },
        CombView::Longest(ps) => if ps.len() == 0 {
            Err(no_alternative_err(input))
        } else {
            eval_alt(ps, input, ps.len() as int)
        },
        CombView::First(ps) => if ps.len() == 0 {
            Err(no_alternative_err(input))
        } else {
            eval_any(ps, input, 0)
        },
    }
}

/// Evaluates the first `i` rules of `ps` in order, threading the remainder;
/// fails at the first failing rule, with that rule's error.
pub open spec fn eval_chain<C>(ps: Seq<CombView<C>>, input: Seq<C>, i: int) -> Result<
    (Seq<C>, Seq<TreeView<C>>),
    ErrView<C>,
>
    decreases ps, i,
{
    if i <= 0 || i > ps.len() {
        Ok((input, Seq::empty()))
    } else {
        match eval_chain(ps, input, i - 1) {
            Ok((rem, ts)) => match eval(ps[i - 1], rem) {
                Ok((rem2, t)) => Ok((rem2, ts.push(t))),
                Err(e) => Err(e),
            },
            Err(e) => Err(e),
        }
    }
}

/// Left fold of `merge_alt` over the first `i` rules of `ps`, each evaluated
/// on the same input; `i` must be at least 1.
pub open spec fn eval_alt<C>(ps: Seq<CombView<C>>, input: Seq<C>, i: int) -> EvalResult<C, C>
    decreases ps, i,
{
    if ps.len() == 0 {
        Err(no_alternative_err(input))
    } else if i <= 1 || i > ps.len() {
        eval(ps[0], input)
    } else {
        merge_alt(eval_alt(ps, input, i - 1), eval(ps[i - 1], input))
    }
}

/// First success among `ps[i..]`, all evaluated on the same input; when none
/// succeeds, the first rule's error.
pub open spec fn eval_any<C>(ps: Seq<CombView<C>>, input: Seq<C>, i: int) -> EvalResult<C, C>
    decreases ps, ps.len() - i,
{
    if ps.len() == 0 {
        Err(no_alternative_err(input))
    } else if i < 0 || i >= ps.len() {
        eval(ps[0], input)
    } else if eval(ps[i], input) is Ok {
        eval(ps[i], input)
    } else {
        eval_any(ps, input, i + 1)
    }
}

/// Index of the first position at which `es` stops matching the front of
/// `input` (the input is exhausted or the elements differ), scanning from
/// `k`; `es.len()` when every element matches.
pub open spec fn scan_elems<C>(es: Seq<C>, input: Seq<C>, k: int) -> int
    decreases es.len() - k,
{
    if k < 0 || k >= es.len() {
        es.len() as int
    } else if k >= input.len() || input[k] != es[k] {
        k
    } else {
        scan_elems(es, input, k + 1)
    }
}

/// The error of a composite alternation with no alternatives: the found
/// field wraps the head element, if any, as a one-element composite token.
pub open spec fn no_alternative_err_composite<C>(input: Seq<C>) -> ErrView<Seq<C>> {
    ErrView {
        expects: None,
        found: if input.len() > 0 {
            Some(seq![input[0]])
        } else {
            None
        },
    }
}

/// Evaluation of a combinator tree over composite tokens: each token is an
/// ordered sequence of elements, and a `Single(es)` node matches `es`
/// element by element against the front of the input, as a chain of
/// one-element rules would.  On success the whole token is reported as one
/// aggregate leaf; on failure the error expects the whole token and reports
/// the elements matched so far, followed by the mismatching element.
pub open spec fn ceval<C>(p: CombView<Seq<C>>, input: Seq<C>) -> EvalResult<Seq<C>, C>
    decreases p, 0int,
{
    match p {
        CombView::Single(es) => {
            let k = scan_elems(es, input, 0);
            if k == es.len() {
                Ok((input.skip(es.len() as int), TreeView::Leaf(es)))
            } else {
                Err(
                    ErrView {
                        expects: Some(es),
                        found: if k < input.len() {
                            Some(es.take(k).push(input[k]))
                        } else {
                            None
                        },
                    },
                )
            }
        },
        CombView::Chain(ps) => match ceval_chain(ps, input, ps.len() as int) {
            Ok((rem, ts)) => Ok((rem, TreeView::Branch(ts))),
            Err(e) => Err(e),
        },
        CombView::Longest(ps) => if ps.len() == 0 {
            Err(no_alternative_err_composite(input))
        } else {
            ceval_alt(ps, input, ps.len() as int)
        },
        CombView::First(ps) => if ps.len() == 0 {
            Err(no_alternative_err_composite(input))
        } else {
            ceval_any(ps, input, 0)
        },
    }
}

/// Composite counterpart of `eval_chain`.
pub open spec fn ceval_chain<C>(ps: Seq<CombView<Seq<C>>>, input: Seq<C>, i: int) -> Result<
    (Seq<C>, Seq<TreeView<Seq<C>>>),
    ErrView<Seq<C>>,
>
    decreases ps, i,
{
    if i <= 0 || i > ps.len() {
        Ok((input, Seq::empty()))
    } else {
        match ceval_chain(ps, input, i - 1) {
            Ok((rem, ts)) => match ceval(ps[i - 1], rem) {
                Ok((rem2, t)) => Ok((rem2, ts.push(t))),
                Err(e) => Err(e),
            },
            Err(e) => Err(e),
        }
    }
}

/// Composite counterpart of `eval_alt`.
pub open spec fn ceval_alt<C>(ps: Seq<CombView<Seq<C>>>, input: Seq<C>, i: int) -> EvalResult<
    Seq<C>,
    C,
>
    decreases ps, i,
{
    if ps.len() == 0 {
        Err(no_alternative_err_composite(input))
    } else if i <= 1 || i > ps.len() {
        ceval(ps[0], input)
    } else {
        merge_alt(ceval_alt(ps, input, i - 1), ceval(ps[i - 1], input))
    }
}

/// Composite counterpart of `eval_any`.
pub open spec fn ceval_any<C>(ps: Seq<CombView<Seq<C>>>, input: Seq<C>, i: int) -> EvalResult<
    Seq<C>,
    C,
>
    decreases ps, ps.len() - i,
{
    if ps.len() == 0 {
        Err(no_alternative_err_composite(input))
    } else if i < 0 || i >= ps.len() {
        ceval(ps[0], input)
    } else if ceval(ps[i], input) is Ok {
        ceval(ps[i], input)
    } else {
        ceval_any(ps, input, i + 1)
    }
}

/// Node count of a combinator tree; an upper bound on the leaf count of any
/// result its evaluation can yield.
pub open spec fn weight<C>(p: CombView<C>) -> int
    decreases p, 0int,
{
    match p {
        CombView::Single(_) => 1,
        CombView::Chain(ps) => 1 + weight_upto(ps, ps.len() as int),
        CombView::Longest(ps) => 1 + weight_upto(ps, ps.len() as int),
        CombView::First(ps) => 1 + weight_upto(ps, ps.len() as int),
    }
}

/// Sum of the weights of the first `i` trees of `ps`.
pub open spec fn weight_upto<C>(ps: Seq<CombView<C>>, i: int) -> int
    decreases ps, i,
{
    if i <= 0 || i > ps.len() {
        0
    } else {
        weight_upto(ps, i - 1) + weight(ps[i - 1])
    }
}


/// Lists that agree on their first `i` entries have the same partial leaf
/// counts and leaf concatenations there.
pub proof fn lemma_upto_prefix<C>(ts1: Seq<TreeView<C>>, ts2: Seq<TreeView<C>>, i: int)
    requires
        0 <= i <= ts1.len(),
        i <= ts2.len(),
        forall|j: int| 0 <= j < i ==> ts1[j] == ts2[j],
    ensures
        leaf_count_upto(ts1, i) == leaf_count_upto(ts2, i),
        leaves_upto(ts1, i) == leaves_upto(ts2, i),
    decreases i,
{
    if i > 0 {
        lemma_upto_prefix(ts1, ts2, i - 1);
    }
}

/// A successful elemental evaluation consumes exactly the leaves of its
/// result: the remainder is the input without its first `leaf_count` tokens,
/// and the leaves are those consumed tokens, in order.
pub proof fn lemma_eval_consumed<C>(p: CombView<C>, input: Seq<C>)
    ensures
        eval(p, input) matches Ok((rem, t)) ==> {
            &&& 0 <= leaf_count(t) <= input.len()
            &&& rem == input.skip(leaf_count(t))
            &&& leaves(t) == input.take(leaf_count(t))
        },
    decreases p, 0int,
{
    match p {
        CombView::Single(c) => {
            if input.len() > 0 && input[0] == c {
                assert(input.drop_first() =~= input.skip(1));
                assert(leaves(TreeView::Leaf(c)) =~= input.take(1));
            }
        },
        CombView::Chain(ps) => {
            lemma_eval_chain_consumed(ps, input, ps.len() as int);
        },
        CombView::Longest(ps) => {
            if ps.len() > 0 {
                lemma_eval_alt_consumed(ps, input, ps.len() as int);
            }
        },
        CombView::First(ps) => {
            if ps.len() > 0 {
                lemma_eval_any_consumed(ps, input, 0);
            }
        },
    }
}

/// `lemma_eval_consumed`, for the chain of the first `i` rules.
pub proof fn lemma_eval_chain_consumed<C>(ps: Seq<CombView<C>>, input: Seq<C>, i: int)
    requires
        0 <= i <= ps.len(),
    ensures
        eval_chain(ps, input, i) matches Ok((rem, ts)) ==> {
            let n = leaf_count_upto(ts, ts.len() as int);
            &&& ts.len() == i
            &&& 0 <= n <= input.len()
            &&& rem == input.skip(n)
            &&& leaves_upto(ts, ts.len() as int) == input.take(n)
        },
    decreases ps, i,
{
    if i > 0 {
        lemma_eval_chain_consumed(ps, input, i - 1);
        match eval_chain(ps, input, i - 1) {
            Ok((rem1, ts1)) => {
                lemma_eval_consumed(ps[i - 1], rem1);
                match eval(ps[i - 1], rem1) {
                    Ok((rem2, t)) => {
                        let ts2 = ts1.push(t);
                        let n1 = leaf_count_upto(ts1, ts1.len() as int);
                        let n2 = leaf_count(t);
                        lemma_upto_prefix(ts1, ts2, i - 1);
                        assert(leaf_count_upto(ts2, ts2.len() as int) == n1 + n2);
                        assert(rem2 =~= input.skip(n1 + n2));
                        assert(leaves_upto(ts2, ts2.len() as int) =~= input.take(n1 + n2));
                    },
                    Err(_) => {},
                }
            },
            Err(_) => {},
        }
    } else {
        assert(input.skip(0) =~= input);
    }
}

/// `lemma_eval_consumed`, for the fold over the first `i` alternatives.
pub proof fn lemma_eval_alt_consumed<C>(ps: Seq<CombView<C>>, input: Seq<C>, i: int)
    requires
        0 < ps.len(),
        0 <= i <= ps.len(),
    ensures
        eval_alt(ps, input, i) matches Ok((rem, t)) ==> {
            &&& 0 <= leaf_count(t) <= input.len()
            &&& rem == input.skip(leaf_count(t))
            &&& leaves(t) == input.take(leaf_count(t))
        },
    decreases ps, i,
{
    if i <= 1 {
        lemma_eval_consumed(ps[0], input);
    } else {
        lemma_eval_alt_consumed(ps, input, i - 1);
        lemma_eval_consumed(ps[i - 1], input);
    }
}

/// `lemma_eval_consumed`, for the scan from alternative `i` on.
pub proof fn lemma_eval_any_consumed<C>(ps: Seq<CombView<C>>, input: Seq<C>, i: int)
    requires
        0 < ps.len(),
        0 <= i <= ps.len(),
    ensures
        eval_any(ps, input, i) matches Ok((rem, t)) ==> {
            &&& 0 <= leaf_count(t) <= input.len()
            &&& rem == input.skip(leaf_count(t))
            &&& leaves(t) == input.take(leaf_count(t))
        },
    decreases ps, ps.len() - i,
{
    if i >= ps.len() {
        lemma_eval_consumed(ps[0], input);
    } else if eval(ps[i], input) is Ok {
        lemma_eval_consumed(ps[i], input);
    } else {
        lemma_eval_any_consumed(ps, input, i + 1);
    }
}

/// Once a chain has failed, evaluating more of it changes nothing.
pub proof fn lemma_eval_chain_err<C>(ps: Seq<CombView<C>>, input: Seq<C>, i: int, k: int)
    requires
        0 <= i <= k <= ps.len(),
        eval_chain(ps, input, i) is Err,
    ensures
        eval_chain(ps, input, k) == eval_chain(ps, input, i),
    decreases k,
{
    if k > i {
        lemma_eval_chain_err(ps, input, i, k - 1);
    }
}

/// While every alternative before `i` fails, the first-match scan may start
/// at `i` instead of at the front.
pub proof fn lemma_eval_any_skip<C>(ps: Seq<CombView<C>>, input: Seq<C>, i: int)
    requires
        0 < ps.len(),
        0 <= i <= ps.len(),
        forall|j: int| 0 <= j < i ==> eval(ps[j], input) is Err,
    ensures
        eval_any(ps, input, 0) == eval_any(ps, input, i),
    decreases i,
{
    if i > 0 {
        lemma_eval_any_skip(ps, input, i - 1);
    }
}

} // verus!
