//! The pieces that a host name template is made of.

use vstd::prelude::*;

verus! {

/// One piece of a template as a value of mathematics: literal text, or the
/// bounds of the ranges of one bracket group.
pub enum Part {
    Text(Seq<char>),
    Numbers(Seq<(u32, u32)>),
}

/// One piece of a template as it is read from an expression: a run of literal
/// text, or the bounds of the ranges written in one bracket group, in the order
/// in which they are written.
#[derive(Debug, Clone, Eq, PartialEq)]
pub enum Token {
    Static(String),
    Range(Vec<(u32, u32)>),
}

impl View for Token {
    type V = Part;

    open spec fn view(&self) -> Part {
        match self {
            Token::Static(s) => Part::Text(s@),
            Token::Range(pairs) => Part::Numbers(pairs@),
        }
    }
}

/// The pieces that the tokens stand for, in order.
pub open spec fn token_parts(ts: Seq<Token>) -> Seq<Part> {
    Seq::new(ts.len(), |i: int| ts[i]@)
}

} // verus!
