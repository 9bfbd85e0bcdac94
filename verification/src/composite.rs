//! The composite-token specialization: a "token" that is itself an ordered
//! sequence of elements (a literal text against a character stream), matched
//! element by element and reported as one aggregate match.
use std::rc::Rc;
use vstd::prelude::*;
use vstd::slice::slice_index_get;
use vstd::slice::slice_subrange;
use vstd::slice::slice_to_vec;
use crate::combinator::CombinatorParser;
use crate::combinator::ParseResult;
use crate::combinator::tree_view;
use crate::combinator::tree_view_upto;
use crate::combinator::lemma_tree_view_upto;
use crate::parser::ParserError;
use crate::parser::Token;
use crate::semantics::CombView;
use crate::semantics::ErrView;
use crate::semantics::EvalResult;
use crate::semantics::TreeView;
use crate::semantics::ceval;
use crate::semantics::ceval_alt;
use crate::semantics::ceval_any;
use crate::semantics::ceval_chain;
use crate::semantics::leaf_count;
use crate::semantics::leaf_count_upto;
use crate::semantics::leaves;
use crate::semantics::lemma_leaf_count_nonneg;
use crate::semantics::lemma_upto_prefix;
use crate::semantics::scan_elems;
use crate::semantics::weight;
use crate::semantics::weight_upto;

verus! {

/// Ghost tree of a combinator over composite tokens, each token seen as the
/// sequence of its elements.
pub open spec fn comb_deep_view<C>(p: CombinatorParser<Vec<C>>) -> CombView<Seq<C>>
    decreases p, 0int,
{
    match p {
        CombinatorParser::One(es) => CombView::Single(es@),
        CombinatorParser::Sequence(ps) => CombView::Chain(
            comb_deep_view_upto(ps@, ps@.len() as int),
        ),
        CombinatorParser::Alt(ps) => CombView::Longest(
            comb_deep_view_upto(ps@, ps@.len() as int),
        ),
        CombinatorParser::Any(ps) => CombView::First(comb_deep_view_upto(ps@, ps@.len() as int)),
    }
}

/// Composite ghost trees of the first `i` shared sub-rules of `ps`.
pub open spec fn comb_deep_view_upto<C>(ps: Seq<Rc<CombinatorParser<Vec<C>>>>, i: int) -> Seq<
    CombView<Seq<C>>,
>
    decreases ps, i,
{
    if i <= 0 || i > ps.len() {
        Seq::empty()
    } else {
        comb_deep_view_upto(ps, i - 1).push(comb_deep_view(*ps[i - 1]))
    }
}

/// `comb_deep_view_upto(ps, i)` lists the composite ghost trees of
/// `ps[0..i]` in order.
pub proof fn lemma_comb_deep_view_upto<C>(ps: Seq<Rc<CombinatorParser<Vec<C>>>>, i: int)
    requires
        0 <= i <= ps.len(),
    ensures
        comb_deep_view_upto(ps, i).len() == i,
        forall|j: int| 0 <= j < i ==> comb_deep_view_upto(ps, i)[j] == comb_deep_view(*ps[j]),
    decreases i,
{
    if i > 0 {
        lemma_comb_deep_view_upto(ps, i - 1);
    }
}

/// Composite ghost tree of a match result: each token leaf becomes the
/// sequence of its elements.
pub open spec fn tree_deep_view<C>(r: ParseResult<Vec<C>>) -> TreeView<Seq<C>>
    decreases r, 0int,
{
    match r {
        ParseResult::One(es) => TreeView::Leaf(es@),
        ParseResult::Sequence(rs) => TreeView::Branch(tree_deep_view_upto(rs@, rs@.len() as int)),
    }
}

/// Composite ghost trees of the first `i` results of `rs`.
pub open spec fn tree_deep_view_upto<C>(rs: Seq<ParseResult<Vec<C>>>, i: int) -> Seq<
    TreeView<Seq<C>>,
>
    decreases rs, i,
{
    if i <= 0 || i > rs.len() {
        Seq::empty()
    } else {
        tree_deep_view_upto(rs, i - 1).push(tree_deep_view(rs[i - 1]))
    }
}

/// `tree_deep_view_upto(rs, i)` lists the composite ghost trees of
/// `rs[0..i]` in order.
pub proof fn lemma_tree_deep_view_upto<C>(rs: Seq<ParseResult<Vec<C>>>, i: int)
    requires
        0 <= i <= rs.len(),
    ensures
        tree_deep_view_upto(rs, i).len() == i,
        forall|j: int| 0 <= j < i ==> tree_deep_view_upto(rs, i)[j] == tree_deep_view(rs[j]),
    decreases i,
{
    if i > 0 {
        lemma_tree_deep_view_upto(rs, i - 1);
    }
}

/// Composite ghost value of an error: each token field seen as the sequence
/// of its elements.
pub open spec fn err_deep_view<C>(e: ParserError<Vec<C>>) -> ErrView<Seq<C>> {
    match e {
        ParserError::ParseError { expects, found } => ErrView {
            expects: match expects {
                Some(v) => Some(v@),
                None => None,
            },
            found: match found {
                Some(v) => Some(v@),
                None => None,
            },
        },
    }
}

/// The plain and the composite ghost tree of a result have the same shape,
/// so the same leaf count.
pub proof fn lemma_deep_count<C>(r: ParseResult<Vec<C>>)
    ensures
        leaf_count(tree_view(r)) == leaf_count(tree_deep_view(r)),
    decreases r, 0int,
{
    match r {
        ParseResult::One(_) => {},
        ParseResult::Sequence(rs) => {
            lemma_tree_view_upto(rs@, rs@.len() as int);
            lemma_tree_deep_view_upto(rs@, rs@.len() as int);
            lemma_deep_count_upto(rs@, rs@.len() as int);
        },
    }
}

/// `lemma_deep_count`, over the first `i` results of a list.
pub proof fn lemma_deep_count_upto<C>(rs: Seq<ParseResult<Vec<C>>>, i: int)
    requires
        0 <= i <= rs.len(),
    ensures
        leaf_count_upto(tree_view_upto(rs, i), i) == leaf_count_upto(tree_deep_view_upto(rs, i), i),
    decreases rs, i,
{
    if i > 0 {
        lemma_deep_count_upto(rs, i - 1);
        lemma_deep_count(rs[i - 1]);
        lemma_tree_view_upto(rs, i);
        lemma_tree_view_upto(rs, i - 1);
        lemma_tree_deep_view_upto(rs, i);
        lemma_tree_deep_view_upto(rs, i - 1);
        lemma_upto_prefix(tree_view_upto(rs, i - 1), tree_view_upto(rs, i), i - 1);
        lemma_upto_prefix(tree_deep_view_upto(rs, i - 1), tree_deep_view_upto(rs, i), i - 1);
    }
}

/// Every combinator tree has weight at least 1.
pub proof fn lemma_weight_pos<C>(p: CombView<C>)
    ensures
        weight(p) >= 1,
    decreases p, 0int,
{
    match p {
        CombView::Single(_) => {},
        CombView::Chain(ps) => {
            lemma_weight_upto(ps, ps.len() as int);
        },
        CombView::Longest(ps) => {
            lemma_weight_upto(ps, ps.len() as int);
        },
        CombView::First(ps) => {
            lemma_weight_upto(ps, ps.len() as int);
        },
    }
}

/// Partial weight sums are nonnegative, monotone, and bound each member.
pub proof fn lemma_weight_upto<C>(ps: Seq<CombView<C>>, i: int)
    requires
        i <= ps.len(),
    ensures
        weight_upto(ps, i) >= 0,
        forall|j: int| 0 <= j <= i ==> #[trigger] weight_upto(ps, j) <= weight_upto(ps, i),
        forall|j: int| 0 <= j < i ==> #[trigger] weight(ps[j]) <= weight_upto(ps, i),
    decreases ps, i,
{
    if i > 0 && i <= ps.len() {
        lemma_weight_upto(ps, i - 1);
        lemma_weight_pos(ps[i - 1]);
        assert forall|j: int| 0 <= j <= i implies #[trigger] weight_upto(ps, j) <= weight_upto(
            ps,
            i,
        ) by {
            if j < i {
                assert(weight_upto(ps, j) <= weight_upto(ps, i - 1));
            }
        }
        assert forall|j: int| 0 <= j < i implies #[trigger] weight(ps[j]) <= weight_upto(
            ps,
            i,
        ) by {
            if j < i - 1 {
                assert(weight(ps[j]) <= weight_upto(ps, i - 1));
            }
        }
    }
}

/// A successful composite evaluation yields at most `weight(p)` leaves.
pub proof fn lemma_ceval_count<C>(p: CombView<Seq<C>>, input: Seq<C>)
    ensures
        ceval(p, input) matches Ok((rem, t)) ==> leaf_count(t) <= weight(p),
    decreases p, 0int,
{
    match p {
        CombView::Single(_) => {},
        CombView::Chain(ps) => {
            lemma_ceval_chain_count(ps, input, ps.len() as int);
            lemma_weight_upto(ps, ps.len() as int);
        },
        CombView::Longest(ps) => {
            if ps.len() > 0 {
                lemma_ceval_alt_count(ps, input, ps.len() as int);
                lemma_weight_upto(ps, ps.len() as int);
            }
        },
        CombView::First(ps) => {
            if ps.len() > 0 {
                lemma_ceval_any_count(ps, input, 0);
                lemma_weight_upto(ps, ps.len() as int);
            }
        },
    }
}

/// `lemma_ceval_count`, for the chain of the first `i` rules.
pub proof fn lemma_ceval_chain_count<C>(ps: Seq<CombView<Seq<C>>>, input: Seq<C>, i: int)
    requires
        0 <= i <= ps.len(),
    ensures
        ceval_chain(ps, input, i) matches Ok((rem, ts)) ==> {
            &&& ts.len() == i
            &&& leaf_count_upto(ts, i) <= weight_upto(ps, i)
        },
    decreases ps, i,
{
    if i > 0 {
        lemma_ceval_chain_count(ps, input, i - 1);
        match ceval_chain(ps, input, i - 1) {
            Ok((rem1, ts1)) => {
                lemma_ceval_count(ps[i - 1], rem1);
                match ceval(ps[i - 1], rem1) {
                    Ok((rem2, t)) => {
                        let ts2 = ts1.push(t);
                        lemma_upto_prefix(ts1, ts2, i - 1);
                    },
                    Err(_) => {},
                }
            },
            Err(_) => {},
        }
    }
}

/// `lemma_ceval_count`, for the fold over the first `i` alternatives.
pub proof fn lemma_ceval_alt_count<C>(ps: Seq<CombView<Seq<C>>>, input: Seq<C>, i: int)
    requires
        0 < ps.len(),
        1 <= i <= ps.len(),
    ensures
        ceval_alt(ps, input, i) matches Ok((rem, t)) ==> leaf_count(t) <= weight_upto(ps, i),
    decreases ps, i,
{
    lemma_weight_upto(ps, i);
    if i <= 1 {
        lemma_ceval_count(ps[0], input);
    } else {
        lemma_ceval_alt_count(ps, input, i - 1);
        lemma_ceval_count(ps[i - 1], input);
    }
}

/// `lemma_ceval_count`, for the scan from alternative `i` on.
pub proof fn lemma_ceval_any_count<C>(ps: Seq<CombView<Seq<C>>>, input: Seq<C>, i: int)
    requires
        0 < ps.len(),
        0 <= i <= ps.len(),
    ensures
        ceval_any(ps, input, i) matches Ok((rem, t)) ==> leaf_count(t) <= weight_upto(
            ps,
            ps.len() as int,
        ),
    decreases ps, ps.len() - i,
{
    lemma_weight_upto(ps, ps.len() as int);
    if i >= ps.len() {
        lemma_ceval_count(ps[0], input);
    } else if ceval(ps[i], input) is Ok {
        lemma_ceval_count(ps[i], input);
    } else {
        lemma_ceval_any_count(ps, input, i + 1);
    }
}

/// Once a composite chain has failed, evaluating more of it changes nothing.
pub proof fn lemma_ceval_chain_err<C>(ps: Seq<CombView<Seq<C>>>, input: Seq<C>, i: int, k: int)
    requires
        0 <= i <= k <= ps.len(),
        ceval_chain(ps, input, i) is Err,
    ensures
        ceval_chain(ps, input, k) == ceval_chain(ps, input, i),
    decreases k,
{
    if k > i {
        lemma_ceval_chain_err(ps, input, i, k - 1);
    }
}

/// While every alternative before `i` fails, the composite first-match scan
/// may start at `i` instead of at the front.
pub proof fn lemma_ceval_any_skip<C>(ps: Seq<CombView<Seq<C>>>, input: Seq<C>, i: int)
    requires
        0 < ps.len(),
        0 <= i <= ps.len(),
        forall|j: int| 0 <= j < i ==> ceval(ps[j], input) is Err,
    ensures
        ceval_any(ps, input, 0) == ceval_any(ps, input, i),
    decreases i,
{
    if i > 0 {
        lemma_ceval_any_skip(ps, input, i - 1);
    }
}

/// Whether an executable composite parse outcome agrees with a ghost
/// composite evaluation outcome.
pub open spec fn cparse_matches<C>(
    r: Result<(&[C], ParseResult<Vec<C>>), ParserError<Vec<C>>>,
    s: EvalResult<Seq<C>, C>,
) -> bool {
    match (r, s) {
        (Ok((rem, t)), Ok((srem, st))) => rem@ == srem && tree_deep_view(t) == st,
        (Err(e), Err(se)) => err_deep_view(e) == se,
        _ => false,
    }
}

/// How far the elements of `es` match the front of `input`: the first index
/// of divergence, or `es.len()` when every element matches.
fn scan_prefix<C: Token>(es: &Vec<C>, input: &[C]) -> (k: usize)
    ensures
        k as int == scan_elems(es@, input@, 0),
        k <= es@.len(),
        k <= input@.len(),
        forall|j: int| 0 <= j < k ==> input@[j] == es@[j],
{
    let mut k: usize = 0;
    while k < es.len()
        invariant
            0 <= k <= es@.len(),
            k <= input@.len(),
            forall|j: int| 0 <= j < k ==> input@[j] == es@[j],
            scan_elems(es@, input@, 0) == scan_elems(es@, input@, k as int),
        decreases es@.len() - k,
    {
        if k >= input.len() {
            return k;
        }
        let h = slice_index_get(input, k);
        if !es[k].same(h) {
            return k;
        }
        k = k + 1;
    }
    k
}

impl<C> CombinatorParser<Vec<C>> {
    /// A rule matching the composite token `s`: its elements in order,
    /// reported as one aggregate match.
    pub fn new_from_vec(s: Vec<C>) -> (r: Self)
        ensures
            comb_deep_view(r) == CombView::Single(s@),
    {
        CombinatorParser::One(s)
    }
}

impl<C: Token> CombinatorParser<Vec<C>> {
    /// Evaluates the combinator tree over composite tokens against a stream
    /// of their elements, as the composite semantics `ceval` gives it: a
    /// `One` token is matched element by element; on success the whole token
    /// is one aggregate leaf, on failure the error expects the whole token
    /// and reports the elements matched so far plus the mismatch.
    #[verifier::loop_isolation(false)]
    pub fn parse_composite<'a>(&self, input: &'a [C]) -> (r: Result<
        (&'a [C], ParseResult<Vec<C>>),
        ParserError<Vec<C>>,
    >)
        requires
            weight(comb_deep_view(*self)) <= i64::MAX,
        ensures
            cparse_matches(r, ceval(comb_deep_view(*self), input@)),
        decreases *self,
    {
        match self {
            CombinatorParser::One(es) => {
                let k = scan_prefix(es, input);
                if k == es.len() {
                    let rem = slice_subrange(input, k, input.len());
                    let tok = slice_to_vec(es.as_slice());
                    proof {
                        assert(rem@ =~= input@.skip(es@.len() as int));
                    }
                    Ok((rem, ParseResult::One(tok)))
                } else {
                    let expects = slice_to_vec(es.as_slice());
                    let found = if k < input.len() {
                        let mut sofar: Vec<C> = Vec::new();
                        let mut j: usize = 0;
                        while j < k
                            invariant
                                0 <= j <= k,
                                sofar@ =~= es@.take(j as int),
                            decreases k - j,
                        {
                            sofar.push(es[j]);
                            proof {
                                assert(es@.take(j as int + 1) =~= es@.take(j as int).push(
                                    es@[j as int],
                                ));
                            }
                            j = j + 1;
                        }
                        sofar.push(*slice_index_get(input, k));
                        proof {
                            assert(sofar@ =~= es@.take(k as int).push(input@[k as int]));
                        }
                        Some(sofar)
                    } else {
                        None
                    };
                    Err(ParserError::ParseError { expects: Some(expects), found })
                }
            },
            CombinatorParser::Sequence(ps) => {
                let ghost psv = comb_deep_view_upto(ps@, ps@.len() as int);
                proof {
                    lemma_comb_deep_view_upto(ps@, ps@.len() as int);
                    lemma_weight_upto(psv, psv.len() as int);
                }
                let mut rem: &'a [C] = input;
                let mut results: Vec<ParseResult<Vec<C>>> = Vec::new();
                let mut i: usize = 0;
                while i < ps.len()
                    invariant
                        0 <= i <= ps@.len(),
                        results@.len() == i,
                        ceval_chain(psv, input@, i as int) matches Ok((srem, sts)) && srem == rem@
                            && sts == tree_deep_view_upto(results@, i as int),
                    decreases ps@.len() - i,
                {
                    let child = &ps[i];
                    proof {
                        assert(decreases_to!(*self => (*self)->Sequence_0));
                        assert(decreases_to!((*self)->Sequence_0 => (*self)->Sequence_0@[
                            i as int
                        ]));
                    }
                    let step = child.parse_composite(rem);
                    match step {
                        Ok((rem2, t)) => {
                            let ghost old_results = results@;
                            results.push(t);
                            rem = rem2;
                            proof {
                                lemma_tree_deep_view_upto(old_results, i as int);
                                lemma_tree_deep_view_upto(results@, i as int + 1);
                                assert(tree_deep_view_upto(results@, i as int + 1)
                                    =~= tree_deep_view_upto(old_results, i as int).push(
                                    tree_deep_view(t),
                                ));
                            }
                            i = i + 1;
                        },
                        Err(e) => {
                            proof {
                                assert(ceval_chain(psv, input@, i as int + 1) matches Err(se)
                                    && se == err_deep_view(e));
                                lemma_ceval_chain_err(psv, input@, i as int + 1, psv.len() as int);
                            }
                            return Err(e);
                        },
                    }
                }
                Ok((rem, ParseResult::Sequence(results)))
            },
            CombinatorParser::Alt(ps) => {
                let ghost psv = comb_deep_view_upto(ps@, ps@.len() as int);
                proof {
                    lemma_comb_deep_view_upto(ps@, ps@.len() as int);
                    lemma_weight_upto(psv, psv.len() as int);
                }
                if ps.len() == 0 {
                    let found = if input.len() > 0 {
                        let mut fv: Vec<C> = Vec::new();
                        fv.push(*slice_index_get(input, 0));
                        proof {
                            assert(fv@ =~= seq![input@[0]]);
                        }
                        Some(fv)
                    } else {
                        None
                    };
                    return Err(ParserError::ParseError { expects: None, found });
                }
                let first = &ps[0];
                proof {
                    assert(decreases_to!(*self => (*self)->Alt_0));
                    assert(decreases_to!((*self)->Alt_0 => (*self)->Alt_0@[0int]));
                }
                let mut acc = first.parse_composite(input);
                let mut i: usize = 1;
                while i < ps.len()
                    invariant
                        1 <= i <= ps@.len(),
                        cparse_matches(acc, ceval_alt(psv, input@, i as int)),
                    decreases ps@.len() - i,
                {
                    let child = &ps[i];
                    proof {
                        assert(decreases_to!(*self => (*self)->Alt_0));
                        assert(decreases_to!((*self)->Alt_0 => (*self)->Alt_0@[i as int]));
                    }
                    let cand = child.parse_composite(input);
                    proof {
                        lemma_ceval_count(psv[i as int], input@);
                        lemma_ceval_alt_count(psv, input@, i as int);
                    }
                    let replace = match (&acc, &cand) {
                        (Ok((_, at)), Ok((_, ct))) => {
                            proof {
                                lemma_deep_count(*at);
                                lemma_deep_count(*ct);
                                lemma_leaf_count_nonneg(tree_deep_view(*at));
                                lemma_leaf_count_nonneg(tree_deep_view(*ct));
                            }
                            let la = at.len();
                            let lc = ct.len();
                            lc > la
                        },
                        (Err(_), Ok(_)) => true,
                        _ => false,
                    };
                    if replace {
                        acc = cand;
                    }
                    i = i + 1;
                }
                acc
            },
            CombinatorParser::Any(ps) => {
                let ghost psv = comb_deep_view_upto(ps@, ps@.len() as int);
                proof {
                    lemma_comb_deep_view_upto(ps@, ps@.len() as int);
                    lemma_weight_upto(psv, psv.len() as int);
                }
                if ps.len() == 0 {
                    let found = if input.len() > 0 {
                        let mut fv: Vec<C> = Vec::new();
                        fv.push(*slice_index_get(input, 0));
                        proof {
                            assert(fv@ =~= seq![input@[0]]);
                        }
                        Some(fv)
                    } else {
                        None
                    };
                    return Err(ParserError::ParseError { expects: None, found });
                }
                let mut first_err: Option<ParserError<Vec<C>>> = None;
                let mut i: usize = 0;
                while i < ps.len()
                    invariant
                        0 <= i <= ps@.len(),
                        forall|j: int| 0 <= j < i ==> ceval(psv[j], input@) is Err,
                        i > 0 ==> (first_err matches Some(e) && ceval(psv[0], input@) matches Err(
                            se,
                        ) && se == err_deep_view(e)),
                    decreases ps@.len() - i,
                {
                    let child = &ps[i];
                    proof {
                        assert(decreases_to!(*self => (*self)->Any_0));
                        assert(decreases_to!((*self)->Any_0 => (*self)->Any_0@[i as int]));
                        assert(weight(psv[i as int]) <= weight_upto(psv, psv.len() as int));
                    }
                    let cand = child.parse_composite(input);
                    match cand {
                        Ok(v) => {
                            proof {
                                lemma_ceval_any_skip(psv, input@, i as int);
                            }
                            return Ok(v);
                        },
                        Err(e) => {
                            if i == 0 {
                                first_err = Some(e);
                            }
                        },
                    }
                    i = i + 1;
                }
                proof {
                    lemma_ceval_any_skip(psv, input@, psv.len() as int);
                }
                match first_err {
                    Some(e) => Err(e),
                    None => {
                        proof {
                            assert(false);
                        }
                        Err(ParserError::ParseError { expects: None, found: None })
                    },
                }
            },
        }
    }
}


impl<C: Token> ParseResult<C> {
    /// The whole match as one composite unit: a single aggregate leaf
    /// holding every matched token, in order — `One(flatten(tree))`.
    pub fn to_composite(self) -> (r: ParseResult<Vec<C>>)
        ensures
            tree_deep_view(r) == TreeView::Leaf(leaves(tree_view(self))),
    {
        ParseResult::One(self.flatten())
    }
}

} // verus!
