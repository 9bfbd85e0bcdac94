//! A backtracking parser-combinator engine over streams of equatable tokens.
//!
//! A caller builds an immutable tree of matching rules — match one token,
//! match a sequence of rules in order, pick the longest-matching alternative,
//! or pick the first-matching alternative — and evaluates it against an input
//! slice.  Evaluation either yields the unconsumed remainder together with a
//! result tree mirroring the rules that matched, or an error naming what was
//! expected and what was found.
pub mod combinator;
pub mod composite;
pub mod laws;
pub mod parser;
pub mod semantics;
pub mod text;

pub use combinator::CombinatorParser;
pub use combinator::ParseResult;

pub use parser::Parser;
pub use parser::ParserError;
pub use parser::Token;
pub use semantics::CombView;
pub use semantics::TreeView;
