//! A small parser-combinator toolkit.
//!
//! A [`Combinator`] consumes a textual cursor and either produces a
//! structured [`Token`] with an advanced cursor, or fails and hands the
//! cursor back unchanged, so callers can backtrack freely. Six
//! operations are provided: [`string`] (an exact literal),
//! [`char_predicate`] (one character satisfying a predicate),
//! [`number`] (an optionally signed 64-bit integer), and the composites
//! [`sequence`], [`repeat`] and [`alternatively`], which nest to any
//! depth.
//!
//! Each combinator's behaviour is pinned down by the specification
//! function [`combinator::spec_parse`]; the contract of
//! [`Parser::parse`] says that applying a combinator returns exactly
//! what that model prescribes. The module [`laws`] states and proves
//! the engine-wide guarantees, among them full rollback on failure and
//! first-match-wins alternation.
pub mod combinator;
pub mod laws;
pub mod numeric;
pub mod token;

pub use combinator::{
    alternatively, char_predicate, number, repeat, sequence, string, Combinator, ParseResult,
    Parser, SpecResult, State,
};
pub use token::{Token, TokenModel};
