//! The literal-text adaptor: composite tokens whose elements are
//! characters, with results and errors presented as plain strings.  A pure
//! presentation conversion over the composite engine, not a new evaluation
//! rule.
use vstd::prelude::*;
use vstd::string::StrSliceExecFns;
use crate::combinator::CombinatorParser;
use crate::combinator::ParseResult;
use crate::composite::comb_deep_view;
use crate::composite::err_deep_view;
use crate::composite::tree_deep_view;
use crate::composite::tree_deep_view_upto;
use crate::composite::lemma_tree_deep_view_upto;
use crate::parser::ParserError;
use crate::semantics::CombView;
use crate::semantics::ErrView;
use crate::semantics::TreeView;
use crate::semantics::ceval;
use crate::semantics::weight;

verus! {

/// Ghost tree of a string-valued match result, each string seen as its
/// character sequence.
pub open spec fn tree_str_view(r: ParseResult<String>) -> TreeView<Seq<char>>
    decreases r, 0int,
{
    match r {
        ParseResult::One(s) => TreeView::Leaf(s@),
        ParseResult::Sequence(rs) => TreeView::Branch(tree_str_view_upto(rs@, rs@.len() as int)),
    }
}

/// Ghost trees of the first `i` string-valued results of `rs`.
pub open spec fn tree_str_view_upto(rs: Seq<ParseResult<String>>, i: int) -> Seq<TreeView<Seq<char>>>
    decreases rs, i,
{
    if i <= 0 || i > rs.len() {
        Seq::empty()
    } else {
        tree_str_view_upto(rs, i - 1).push(tree_str_view(rs[i - 1]))
    }
}

/// `tree_str_view_upto(rs, i)` lists the ghost trees of `rs[0..i]` in order.
pub proof fn lemma_tree_str_view_upto(rs: Seq<ParseResult<String>>, i: int)
    requires
        0 <= i <= rs.len(),
    ensures
        tree_str_view_upto(rs, i).len() == i,
        forall|j: int| 0 <= j < i ==> tree_str_view_upto(rs, i)[j] == tree_str_view(rs[j]),
    decreases i,
{
    if i > 0 {
        lemma_tree_str_view_upto(rs, i - 1);
    }
}

/// Ghost value of a string-valued error, each string seen as its character
/// sequence.
pub open spec fn err_str_view(e: ParserError<String>) -> ErrView<Seq<char>> {
    match e {
        ParserError::ParseError { expects, found } => ErrView {
            expects: match expects {
                Some(s) => Some(s@),
                None => None,
            },
            found: match found {
                Some(s) => Some(s@),
                None => None,
            },
        },
    }
}

/// Relies on `String`'s `FromIterator` over `char`: collecting the
/// characters of a vector yields the string of exactly those characters,
/// in order.
#[verifier::external_body]
fn chars_to_string(v: &Vec<char>) -> (s: String)
    ensures
        s@ == v@,
{
    v.iter().collect()
}

/// Rewrites a composite match result over character vectors into one over
/// strings, leaf for leaf.
#[verifier::loop_isolation(false)]
fn to_text_tree(r: &ParseResult<Vec<char>>) -> (t: ParseResult<String>)
    ensures
        tree_str_view(t) == tree_deep_view(*r),
    decreases *r,
{
    match r {
        ParseResult::One(v) => ParseResult::One(chars_to_string(v)),
        ParseResult::Sequence(rs) => {
            let ghost ts = tree_deep_view_upto(rs@, rs@.len() as int);
            proof {
                lemma_tree_deep_view_upto(rs@, rs@.len() as int);
            }
            let mut out: Vec<ParseResult<String>> = Vec::new();
            let mut i: usize = 0;
            while i < rs.len()
                invariant
                    0 <= i <= rs@.len(),
                    out@.len() == i,
                    forall|j: int|
                        0 <= j < i ==> #[trigger] tree_str_view(out@[j]) == tree_deep_view(
                            rs@[j],
                        ),
                decreases rs@.len() - i,
            {
                let child = &rs[i];
                proof {
                    assert(decreases_to!(*r => (*r)->Sequence_0));
                    assert(decreases_to!((*r)->Sequence_0 => (*r)->Sequence_0@[i as int]));
                }
                let m = to_text_tree(child);
                out.push(m);
                i = i + 1;
            }
            proof {
                lemma_tree_str_view_upto(out@, out@.len() as int);
                assert(tree_str_view_upto(out@, out@.len() as int) =~= tree_deep_view_upto(
                    rs@,
                    rs@.len() as int,
                ));
            }
            ParseResult::Sequence(out)
        },
    }
}

/// Rewrites a composite error over character vectors into one over strings.
fn to_text_err(e: ParserError<Vec<char>>) -> (r: ParserError<String>)
    ensures
        err_str_view(r) == err_deep_view(e),
{
    match e {
        ParserError::ParseError { expects, found } => {
            let expects = match expects {
                Some(v) => Some(chars_to_string(&v)),
                None => None,
            };
            let found = match found {
                Some(v) => Some(chars_to_string(&v)),
                None => None,
            };
            ParserError::ParseError { expects, found }
        },
    }
}

/// Whether an executable text parse outcome agrees with a ghost composite
/// evaluation outcome, through the string views.
pub open spec fn tparse_matches(
    r: Result<(&[char], ParseResult<String>), ParserError<String>>,
    s: Result<(Seq<char>, TreeView<Seq<char>>), ErrView<Seq<char>>>,
) -> bool {
    match (r, s) {
        (Ok((rem, t)), Ok((srem, st))) => rem@ == srem && tree_str_view(t) == st,
        (Err(e), Err(se)) => err_str_view(e) == se,
        _ => false,
    }
}

impl CombinatorParser<Vec<char>> {
    /// A rule matching the literal text `s`, character by character.
    pub fn new_from_str(s: &str) -> (r: CombinatorParser<Vec<char>>)
        ensures
            comb_deep_view(r) == CombView::Single(s@),
    {
        let n = s.unicode_len();
        let mut v: Vec<char> = Vec::new();
        let mut i: usize = 0;
        while i < n
            invariant
                0 <= i <= s@.len(),
                n == s@.len(),
                v@ =~= s@.take(i as int),
            decreases s@.len() - i,
        {
            let c = s.get_char(i);
            v.push(c);
            proof {
                assert(s@.take(i as int + 1) =~= s@.take(i as int).push(s@[i as int]));
            }
            i = i + 1;
        }
        proof {
            assert(v@ =~= s@);
        }
        CombinatorParser::One(v)
    }

    /// Evaluates the combinator tree over literal-text tokens against a
    /// character stream, as `parse_composite` does, and presents the result
    /// and the error with their character sequences collected into strings.
    pub fn parse_text<'a>(&self, input: &'a [char]) -> (r: Result<
        (&'a [char], ParseResult<String>),
        ParserError<String>,
    >)
        requires
            weight(comb_deep_view(*self)) <= i64::MAX,
        ensures
            tparse_matches(r, ceval(comb_deep_view(*self), input@)),
    {
        match self.parse_composite(input) {
            Ok((rem, t)) => Ok((rem, to_text_tree(&t))),
            Err(e) => Err(to_text_err(e)),
        }
    }
}

} // verus!
