//! The match-result tree, the combinator tree, and the elemental engine.
use std::rc::Rc;
use vstd::prelude::*;
use vstd::slice::slice_index_get;
use vstd::slice::slice_subrange;
use crate::parser::Parser;
use crate::parser::ParserError;
use crate::parser::Token;
use crate::semantics::CombView;
use crate::semantics::EvalResult;
use crate::semantics::TreeView;
use crate::semantics::eval;
use crate::semantics::eval_alt;
use crate::semantics::eval_chain;
use crate::semantics::leaf_count;
use crate::semantics::leaf_count_upto;
use crate::semantics::leaves;
use crate::semantics::leaves_upto;
use crate::semantics::lemma_leaf_count_nonneg;
use crate::semantics::lemma_leaf_count_upto_nonneg;
use crate::semantics::lemma_eval_consumed;
use crate::semantics::lemma_eval_alt_consumed;
use crate::semantics::lemma_eval_chain_err;
use crate::semantics::lemma_eval_any_skip;

verus! {

/// The structured output of a successful match: a single matched token, or
/// an ordered list of sub-results, shaped like the combinator subtree that
/// produced it.
#[derive(Debug)]
pub enum ParseResult<C> {
    One(C),
    Sequence(Vec<ParseResult<C>>),
}

/// Ghost tree of a match result.
pub open spec fn tree_view<C>(r: ParseResult<C>) -> TreeView<C>
    decreases r, 0int,
{
    match r {
        ParseResult::One(c) => TreeView::Leaf(c),
        ParseResult::Sequence(rs) => TreeView::Branch(tree_view_upto(rs@, rs@.len() as int)),
    }
}

/// Ghost trees of the first `i` results of `rs`.
pub open spec fn tree_view_upto<C>(rs: Seq<ParseResult<C>>, i: int) -> Seq<TreeView<C>>
    decreases rs, i,
{
    if i <= 0 || i > rs.len() {
        Seq::empty()
    } else {
        tree_view_upto(rs, i - 1).push(tree_view(rs[i - 1]))
    }
}

impl<C> View for ParseResult<C> {
    type V = TreeView<C>;

    open spec fn view(&self) -> TreeView<C> {
        tree_view(*self)
    }
}

/// `tree_view_upto(rs, i)` lists the ghost trees of `rs[0..i]` in order.
pub proof fn lemma_tree_view_upto<C>(rs: Seq<ParseResult<C>>, i: int)
    requires
        0 <= i <= rs.len(),
    ensures
        tree_view_upto(rs, i).len() == i,
        forall|j: int| 0 <= j < i ==> tree_view_upto(rs, i)[j] == tree_view(rs[j]),
    decreases i,
{
    if i > 0 {
        lemma_tree_view_upto(rs, i - 1);
    }
}

impl<C> ParseResult<C> {
    /// Count of leaves: 1 for a single match, the sum over the children for
    /// a composite one.
    #[verifier::loop_isolation(false)]
    pub fn len(&self) -> (r: i64)
        requires
            leaf_count(self@) <= i64::MAX,
        ensures
            r == leaf_count(self@),
        decreases *self,
    {
        match self {
            ParseResult::One(_) => 1,
            ParseResult::Sequence(rs) => {
                let ghost ts = tree_view_upto(rs@, rs@.len() as int);
                proof {
                    lemma_tree_view_upto(rs@, rs@.len() as int);
                    lemma_leaf_count_upto_nonneg(ts, ts.len() as int);
                }
                let mut acc: i64 = 0;
                let mut i: usize = 0;
                while i < rs.len()
                    invariant
                        0 <= i <= rs@.len(),
                        ts == tree_view_upto(rs@, rs@.len() as int),
                        ts.len() == rs@.len(),
                        forall|j: int| 0 <= j < rs@.len() ==> ts[j] == tree_view(rs@[j]),
                        leaf_count_upto(ts, ts.len() as int) <= i64::MAX,
                        leaf_count_upto(ts, ts.len() as int) >= 0,
                        forall|j: int|
                            0 <= j <= ts.len() ==> #[trigger] leaf_count_upto(ts, j)
                                <= leaf_count_upto(ts, ts.len() as int),
                        acc == leaf_count_upto(ts, i as int),
                    decreases rs@.len() - i,
                {
                    proof {
                        lemma_leaf_count_upto_nonneg(ts, i as int);
                        lemma_leaf_count_nonneg(ts[i as int]);
                        assert(leaf_count_upto(ts, i as int + 1) == leaf_count_upto(ts, i as int)
                            + leaf_count(ts[i as int]));
                    }
                    let child = &rs[i];
                    proof {
                        assert(decreases_to!(*self => (*self)->Sequence_0));
                        assert(decreases_to!((*self)->Sequence_0 => (*self)->Sequence_0@[i as int]));
                    }
                    let cl = child.len();
                    acc = acc + cl;
                    i = i + 1;
                }
                acc
            },
        }
    }

}

impl<C: Token> ParseResult<C> {
    /// Appends the leaves of `self`, depth first and left to right, to `out`.
    #[verifier::loop_isolation(false)]
    fn flatten_into(&self, out: &mut Vec<C>)
        ensures
            final(out)@ == old(out)@ + leaves(self@),
        decreases *self,
    {
        match self {
            ParseResult::One(c) => {
                out.push(*c);
                proof {
                    assert(out@ =~= old(out)@ + leaves(self@));
                }
            },
            ParseResult::Sequence(rs) => {
                let ghost ts = tree_view_upto(rs@, rs@.len() as int);
                proof {
                    lemma_tree_view_upto(rs@, rs@.len() as int);
                }
                let mut i: usize = 0;
                proof {
                    assert(old(out)@ + leaves_upto(ts, 0) =~= old(out)@);
                }
                while i < rs.len()
                    invariant
                        0 <= i <= rs@.len(),
                        ts == tree_view_upto(rs@, rs@.len() as int),
                        ts.len() == rs@.len(),
                        forall|j: int| 0 <= j < rs@.len() ==> ts[j] == tree_view(rs@[j]),
                        out@ == old(out)@ + leaves_upto(ts, i as int),
                    decreases rs@.len() - i,
                {
                    let child = &rs[i];
                    proof {
                        assert(decreases_to!(*self => (*self)->Sequence_0));
                        assert(decreases_to!((*self)->Sequence_0 => (*self)->Sequence_0@[i as int]));
                    }
                    child.flatten_into(out);
                    proof {
                        assert(old(out)@ + leaves_upto(ts, i as int + 1) =~= (old(out)@
                            + leaves_upto(ts, i as int)) + leaves(ts[i as int]));
                    }
                    i = i + 1;
                }
                proof {
                    assert(leaves(self@) == leaves_upto(ts, ts.len() as int));
                }
            },
        }
    }

    /// All leaves of the tree, depth first and left to right.
    pub fn flatten(self) -> (r: Vec<C>)
        ensures
            r@ == leaves(self@),
    {
        let mut out: Vec<C> = Vec::new();
        self.flatten_into(&mut out);
        out
    }
}

/// Whether `u` is `t` with every leaf rewritten by an output of `f`: the
/// shapes agree and each leaf pair is in `f`'s call graph.
pub open spec fn tree_maps_to<C, D, F: Fn(&C) -> D>(f: F, t: TreeView<C>, u: TreeView<D>) -> bool
    decreases t, 0int,
{
    match (t, u) {
        (TreeView::Leaf(c), TreeView::Leaf(d)) => f.ensures((&c,), d),
        (TreeView::Branch(ts), TreeView::Branch(us)) => ts.len() == us.len() && tree_maps_to_upto(
            f,
            ts,
            us,
            ts.len() as int,
        ),
        _ => false,
    }
}

/// `tree_maps_to`, over the first `i` trees of each list.
pub open spec fn tree_maps_to_upto<C, D, F: Fn(&C) -> D>(
    f: F,
    ts: Seq<TreeView<C>>,
    us: Seq<TreeView<D>>,
    i: int,
) -> bool
    decreases ts, i,
{
    if i <= 0 || i > ts.len() || i > us.len() {
        true
    } else {
        tree_maps_to_upto(f, ts, us, i - 1) && tree_maps_to(f, ts[i - 1], us[i - 1])
    }
}

/// Pairwise-mapped prefixes make a mapped list.
pub proof fn lemma_tree_maps_to_upto_intro<C, D, F: Fn(&C) -> D>(
    f: F,
    ts: Seq<TreeView<C>>,
    us: Seq<TreeView<D>>,
    i: int,
)
    requires
        0 <= i <= ts.len(),
        i <= us.len(),
        forall|j: int| 0 <= j < i ==> tree_maps_to(f, ts[j], us[j]),
    ensures
        tree_maps_to_upto(f, ts, us, i),
    decreases i,
{
    if i > 0 {
        lemma_tree_maps_to_upto_intro(f, ts, us, i - 1);
    }
}

impl<C> ParseResult<C> {
    /// Structure-preserving transform: applies `f` to every leaf token,
    /// keeping the shape of the tree.
    #[verifier::loop_isolation(false)]
    pub fn map<D, F>(&self, f: F) -> (r: ParseResult<D>) where F: Fn(&C) -> D + Copy
        requires
            forall|c: &C| #[trigger] f.requires((c,)),
        ensures
            tree_maps_to(f, self@, r@),
        decreases *self,
    {
        match self {
            ParseResult::One(c) => ParseResult::One(f(c)),
            ParseResult::Sequence(rs) => {
                let ghost ts = tree_view_upto(rs@, rs@.len() as int);
                proof {
                    lemma_tree_view_upto(rs@, rs@.len() as int);
                }
                let mut v: Vec<ParseResult<D>> = Vec::new();
                let mut i: usize = 0;
                while i < rs.len()
                    invariant
                        0 <= i <= rs@.len(),
                        forall|c: &C| #[trigger] f.requires((c,)),
                        ts == tree_view_upto(rs@, rs@.len() as int),
                        ts.len() == rs@.len(),
                        forall|j: int| 0 <= j < rs@.len() ==> ts[j] == tree_view(rs@[j]),
                        v@.len() == i,
                        forall|j: int|
                            0 <= j < i ==> tree_maps_to(f, ts[j], #[trigger] tree_view(v@[j])),
                    decreases rs@.len() - i,
                {
                    let child = &rs[i];
                    proof {
                        assert(decreases_to!(*self => (*self)->Sequence_0));
                        assert(decreases_to!((*self)->Sequence_0 => (*self)->Sequence_0@[i as int]));
                    }
                    let m = child.map(f);
                    v.push(m);
                    i = i + 1;
                }
                proof {
                    lemma_tree_view_upto(v@, v@.len() as int);
                    let us = tree_view_upto(v@, v@.len() as int);
                    lemma_tree_maps_to_upto_intro(f, ts, us, ts.len() as int);
                }
                ParseResult::Sequence(v)
            },
        }
    }
}

/// The combinator tree: an immutable recursive structure built once and
/// shared read-only.  `One` matches a single token, `Seq` its sub-rules in
/// order; `Alt` picks the longest-matching alternative, `Any` the first.
pub enum CombinatorParser<C> {
    One(C),
    Sequence(Vec<Rc<CombinatorParser<C>>>),
    Alt(Vec<Rc<CombinatorParser<C>>>),
    Any(Vec<Rc<CombinatorParser<C>>>),
}

/// Ghost tree of a combinator.
pub open spec fn comb_view<C>(p: CombinatorParser<C>) -> CombView<C>
    decreases p, 0int,
{
    match p {
        CombinatorParser::One(c) => CombView::Single(c),
        CombinatorParser::Sequence(ps) => CombView::Chain(comb_view_upto(ps@, ps@.len() as int)),
        CombinatorParser::Alt(ps) => CombView::Longest(comb_view_upto(ps@, ps@.len() as int)),
        CombinatorParser::Any(ps) => CombView::First(comb_view_upto(ps@, ps@.len() as int)),
    }
}

/// Ghost trees of the first `i` shared sub-rules of `ps`.
pub open spec fn comb_view_upto<C>(ps: Seq<Rc<CombinatorParser<C>>>, i: int) -> Seq<CombView<C>>
    decreases ps, i,
{
    if i <= 0 || i > ps.len() {
        Seq::empty()
    } else {
        comb_view_upto(ps, i - 1).push(comb_view(*ps[i - 1]))
    }
}

impl<C> View for CombinatorParser<C> {
    type V = CombView<C>;

    open spec fn view(&self) -> CombView<C> {
        comb_view(*self)
    }
}

/// `comb_view_upto(ps, i)` lists the ghost trees of `ps[0..i]` in order.
pub proof fn lemma_comb_view_upto<C>(ps: Seq<Rc<CombinatorParser<C>>>, i: int)
    requires
        0 <= i <= ps.len(),
    ensures
        comb_view_upto(ps, i).len() == i,
        forall|j: int| 0 <= j < i ==> comb_view_upto(ps, i)[j] == comb_view(*ps[j]),
    decreases i,
{
    if i > 0 {
        lemma_comb_view_upto(ps, i - 1);
    }
}

impl<C> CombinatorParser<C> {
    /// A rule matching exactly the token `c`.
    pub fn new_from(c: C) -> (r: Self)
        ensures
            r@ == CombView::Single(c),
    {
        CombinatorParser::One(c)
    }

    /// A rule matching `self` and then `rhs` on what `self` left.
    pub fn then(self, rhs: Self) -> (r: Self)
        ensures
            r@ == CombView::Chain(seq![self@, rhs@]),
    {
        let ghost s = self@;
        let ghost t = rhs@;
        let v = vec![Rc::new(self), Rc::new(rhs)];
        let r = CombinatorParser::Sequence(v);
        proof {
            lemma_comb_view_upto(v@, 2);
            assert(comb_view_upto(v@, 2) =~= seq![s, t]);
        }
        r
    }

    /// A rule matching whichever of `self` and `rhs` has the longer match.
    pub fn or_longest(self, rhs: Self) -> (r: Self)
        ensures
            r@ == CombView::Longest(seq![self@, rhs@]),
    {
        let ghost s = self@;
        let ghost t = rhs@;
        let v = vec![Rc::new(self), Rc::new(rhs)];
        let r = CombinatorParser::Alt(v);
        proof {
            lemma_comb_view_upto(v@, 2);
            assert(comb_view_upto(v@, 2) =~= seq![s, t]);
        }
        r
    }

    /// A rule matching `self` when it succeeds, else `rhs`.
    pub fn or_first(self, rhs: Self) -> (r: Self)
        ensures
            r@ == CombView::First(seq![self@, rhs@]),
    {
        let ghost s = self@;
        let ghost t = rhs@;
        let v = vec![Rc::new(self), Rc::new(rhs)];
        let r = CombinatorParser::Any(v);
        proof {
            lemma_comb_view_upto(v@, 2);
            assert(comb_view_upto(v@, 2) =~= seq![s, t]);
        }
        r
    }
}


/// Whether an executable parse outcome agrees with a ghost evaluation
/// outcome: same success or failure, same remainder, result tree and error.
pub open spec fn parse_matches<C>(
    r: Result<(&[C], ParseResult<C>), ParserError<C>>,
    s: EvalResult<C, C>,
) -> bool {
    match (r, s) {
        (Ok((rem, t)), Ok((srem, st))) => rem@ == srem && tree_view(t) == st,
        (Err(e), Err(se)) => e@ == se,
        _ => false,
    }
}

impl<C: Token> CombinatorParser<C> {
    /// Evaluates the combinator tree against `input` without mutating it:
    /// on success, the unconsumed remainder (a suffix of `input`) and the
    /// result tree; on failure, the error — exactly as the evaluation
    /// semantics `eval` gives them.
    #[verifier::loop_isolation(false)]
    pub fn parse<'a>(&self, input: &'a [C]) -> (r: Result<
        (&'a [C], ParseResult<C>),
        ParserError<C>,
    >)
        ensures
            parse_matches(r, eval(self@, input@)),
        decreases *self,
    {
        match self {
            CombinatorParser::One(c) => {
                if input.len() > 0 {
                    let h = slice_index_get(input, 0);
                    if h.same(c) {
                        let rem = slice_subrange(input, 1, input.len());
                        proof {
                            assert(rem@ =~= input@.drop_first());
                        }
                        Ok((rem, ParseResult::One(*c)))
                    } else {
                        Err(ParserError::ParseError { expects: Some(*c), found: Some(*h) })
                    }
                } else {
                    Err(ParserError::ParseError { expects: Some(*c), found: None })
                }
            },
            CombinatorParser::Sequence(ps) => {
                let ghost psv = comb_view_upto(ps@, ps@.len() as int);
                proof {
                    lemma_comb_view_upto(ps@, ps@.len() as int);
                }
                let mut rem: &'a [C] = input;
                let mut results: Vec<ParseResult<C>> = Vec::new();
                let mut i: usize = 0;
                while i < ps.len()
                    invariant
                        0 <= i <= ps@.len(),
                        results@.len() == i,
                        eval_chain(psv, input@, i as int) matches Ok((srem, sts)) && srem == rem@
                            && sts == tree_view_upto(results@, i as int),
                    decreases ps@.len() - i,
                {
                    let child = &ps[i];
                    proof {
                        assert(decreases_to!(*self => (*self)->Sequence_0));
                        assert(decreases_to!((*self)->Sequence_0 => (*self)->Sequence_0@[
                            i as int
                        ]));
                    }
                    let ghost rem_before = rem@;
                    let step = child.parse(rem);
                    match step {
                        Ok((rem2, t)) => {
                            let ghost old_results = results@;
                            results.push(t);
                            rem = rem2;
                            proof {
                                lemma_tree_view_upto(old_results, i as int);
                                lemma_tree_view_upto(results@, i as int + 1);
                                assert(tree_view_upto(results@, i as int + 1) =~= tree_view_upto(
                                    old_results,
                                    i as int,
                                ).push(tree_view(t)));
                            }
                            i = i + 1;
                        },
                        Err(e) => {
                            proof {
                                assert(eval_chain(psv, input@, i as int + 1) matches Err(se)
                                    && se == e@);
                                lemma_eval_chain_err(psv, input@, i as int + 1, psv.len() as int);
                            }
                            return Err(e);
                        },
                    }
                }
                Ok((rem, ParseResult::Sequence(results)))
            },
            CombinatorParser::Alt(ps) => {
                let ghost psv = comb_view_upto(ps@, ps@.len() as int);
                proof {
                    lemma_comb_view_upto(ps@, ps@.len() as int);
                }
                if ps.len() == 0 {
                    let found = if input.len() > 0 {
                        Some(*slice_index_get(input, 0))
                    } else {
                        None
                    };
                    return Err(ParserError::ParseError { expects: None, found });
                }
                let first = &ps[0];
                proof {
                    assert(decreases_to!(*self => (*self)->Alt_0));
                    assert(decreases_to!((*self)->Alt_0 => (*self)->Alt_0@[0int]));
                }
                let mut acc = first.parse(input);
                let mut i: usize = 1;
                while i < ps.len()
                    invariant
                        1 <= i <= ps@.len(),
                        parse_matches(acc, eval_alt(psv, input@, i as int)),
                    decreases ps@.len() - i,
                {
                    let child = &ps[i];
                    proof {
                        assert(decreases_to!(*self => (*self)->Alt_0));
                        assert(decreases_to!((*self)->Alt_0 => (*self)->Alt_0@[i as int]));
                    }
                    let cand = child.parse(input);
                    proof {
                        lemma_eval_consumed(psv[i as int], input@);
                        lemma_eval_alt_consumed(psv, input@, i as int);
                    }
                    // At this level a result holds one leaf per consumed
                    // token, so the strictly shorter remainder is the
                    // strictly longer match.
                    let replace = match (&acc, &cand) {
                        (Ok((arem, _)), Ok((crem, _))) => crem.len() < arem.len(),
                        (Err(_), Ok(_)) => true,
                        _ => false,
                    };
                    if replace {
                        acc = cand;
                    }
                    i = i + 1;
                }
                acc
            },
            CombinatorParser::Any(ps) => {
                let ghost psv = comb_view_upto(ps@, ps@.len() as int);
                proof {
                    lemma_comb_view_upto(ps@, ps@.len() as int);
                }
                if ps.len() == 0 {
                    let found = if input.len() > 0 {
                        Some(*slice_index_get(input, 0))
                    } else {
                        None
                    };
                    return Err(ParserError::ParseError { expects: None, found });
                }
                let mut first_err: Option<ParserError<C>> = None;
                let mut i: usize = 0;
                while i < ps.len()
                    invariant
                        0 <= i <= ps@.len(),
                        forall|j: int| 0 <= j < i ==> eval(psv[j], input@) is Err,
                        i > 0 ==> (first_err matches Some(e) && eval(psv[0], input@) matches Err(
                            se,
                        ) && se == e@),
                    decreases ps@.len() - i,
                {
                    let child = &ps[i];
                    proof {
                        assert(decreases_to!(*self => (*self)->Any_0));
                        assert(decreases_to!((*self)->Any_0 => (*self)->Any_0@[i as int]));
                    }
                    let cand = child.parse(input);
                    match cand {
                        Ok(v) => {
                            proof {
                                lemma_eval_any_skip(psv, input@, i as int);
                            }
                            return Ok(v);
                        },
                        Err(e) => {
                            if i == 0 {
                                first_err = Some(e);
                            }
                        },
                    }
                    i = i + 1;
                }
                proof {
                    lemma_eval_any_skip(psv, input@, psv.len() as int);
                }
                match first_err {
                    Some(e) => Err(e),
                    None => {
                        proof {
                            assert(false);
                        }
                        Err(ParserError::ParseError { expects: None, found: None })
                    },
                }
            },
        }
    }
}


impl<'i, C: Token> Parser<&'i [C], (&'i [C], ParseResult<C>), ParserError<C>>
    for CombinatorParser<C> {
    fn parse(&self, input: &'i [C]) -> Result<(&'i [C], ParseResult<C>), ParserError<C>> {
        CombinatorParser::parse(self, input)
    }
}

} // verus!
