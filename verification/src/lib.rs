//! Verified building blocks for small grid puzzles: a rectangular grid with
//! bounds-checked access, search and simulation algorithms on top of it
//! (constrained shortest path, beam propagation, loop-interior
//! classification, cycle extrapolation), and an interval remapping engine.
use vstd::prelude::*;

pub mod grid;
pub mod remap;
pub mod cycle;
pub mod garden;
pub mod beam;
pub mod pipes;
pub mod crt;
pub mod pathfind;
pub mod cubes;
pub mod race;
pub mod lens;
pub mod scratch;
pub mod mirrors;
pub mod series;
pub mod springs;
pub mod rocks;
pub mod digits;

verus! {

/// Error carried by the parsing helpers: the offending text and a reason.
#[derive(Debug)]
pub struct ParseError {
    text: String,
    err: String,
}

impl ParseError {
    /// The text fragment that failed to parse.
    pub closed spec fn text_view(&self) -> Seq<char> {
        self.text@
    }

    /// The reason the text was rejected.
    pub closed spec fn err_view(&self) -> Seq<char> {
        self.err@
    }

    pub fn text(&self) -> (r: &String)
        ensures
            r@ == self.text_view(),
    {
        &self.text
    }

    pub fn reason(&self) -> (r: &String)
        ensures
            r@ == self.err_view(),
    {
        &self.err
    }
}

/// Builds a `ParseError` from the offending text and a reason.
pub fn parse_error(text: &str, err: &str) -> (r: ParseError)
    ensures
        r.text_view() == text@,
        r.err_view() == err@,
{
    ParseError { text: text.to_owned(), err: err.to_owned() }
}

} // verus!
