//! The parser capability, the error type, and the token interface.
use vstd::prelude::*;
use crate::semantics::ErrView;

verus! {

/// The parser capability: a single operation from an input to an output or
/// an error.  Combinator trees offer this operation for token slices.
pub trait Parser<I, O, E> {
    fn parse(&self, input: I) -> Result<O, E>;
}

/// An atomic unit of input: duplicated freely and compared by equality.
///
/// `same` must decide logical equality of the two tokens, as the comparison
/// of two `char` values does.
pub trait Token: Sized + Copy {
    /// Whether the two tokens are equal.
    fn same(&self, other: &Self) -> (r: bool)
        ensures
            r == (*self == *other),
    ;
}

impl Token for char {
    fn same(&self, other: &char) -> (r: bool)
        ensures
            r == (*self == *other),
    {
        *self == *other
    }
}

impl Token for u8 {
    fn same(&self, other: &u8) -> (r: bool)
        ensures
            r == (*self == *other),
    {
        *self == *other
    }
}

/// A failed match: what was expected (`None` when no single expectation can
/// be named) and what was found (`None` when the input was exhausted).
#[derive(Debug, Clone)]
pub enum ParserError<C> {
    ParseError { expects: Option<C>, found: Option<C> },
}

impl<C> View for ParserError<C> {
    type V = ErrView<C>;

    open spec fn view(&self) -> ErrView<C> {
        match *self {
            ParserError::ParseError { expects, found } => ErrView { expects, found },
        }
    }
}

impl<C> ParserError<C> {
    /// Rewrites both fields of the error through `op`, retyping the error.
    pub fn map<F, D>(self, op: F) -> (r: ParserError<D>) where F: Fn(C) -> D
        requires
            forall|c: C| #[trigger] op.requires((c,)),
        ensures
            match (self@.expects, r@.expects) {
                (Option::None, Option::None) => true,
                (Option::Some(c), Option::Some(d)) => op.ensures((c,), d),
                _ => false,
            },
            match (self@.found, r@.found) {
                (Option::None, Option::None) => true,
                (Option::Some(c), Option::Some(d)) => op.ensures((c,), d),
                _ => false,
            },
    {
        match self {
            ParserError::ParseError { expects, found } => {
                let expects = match expects {
                    Option::Some(c) => Option::Some(op(c)),
                    Option::None => Option::None,
                };
                let found = match found {
                    Option::Some(c) => Option::Some(op(c)),
                    Option::None => Option::None,
                };
                ParserError::ParseError { expects, found }
            },
        }
    }
}

} // verus!
