//! The failures of the board, each with its words.
use crate::text::{joined, joined3};
use vstd::prelude::*;

verus! {

/// A failure, told in words.
#[derive(Debug, PartialEq, Eq)]
pub struct BoardError {
    pub message: String,
}

impl View for BoardError {
    type V = Seq<char>;

    open spec fn view(&self) -> Seq<char> {
        self.message@
    }
}

/// The words of a failure, if there is one.
pub open spec fn fault<T>(result: Result<T, BoardError>) -> Option<Seq<char>> {
    match result {
        Ok(_) => None,
        Err(e) => Some(e@),
    }
}

/// A failure with these words.
pub fn failure(words: &str) -> (r: BoardError)
    ensures
        r@ == words@,
{
    BoardError { message: words.to_owned() }
}

/// A failure whose words end in a detail.
pub fn failure_with(words: &str, detail: &str) -> (r: BoardError)
    ensures
        r@ == words@ + detail@,
{
    BoardError { message: joined(words, detail) }
}

/// A failure whose words have a detail in their midst.
pub fn failure_around(before: &str, detail: &str, after: &str) -> (r: BoardError)
    ensures
        r@ == before@ + detail@ + after@,
{
    BoardError { message: joined3(before, detail, after) }
}

} // verus!
