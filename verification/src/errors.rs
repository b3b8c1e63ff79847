use vstd::prelude::*;

verus! {

/// Errors surfaced by the conversion pipeline.
///
/// `ParseError` reports malformed user input: an unmatched inline delimiter
/// (the carried string is the offending text) or a document whose first
/// block is not a level-1 heading. `ValueError` reports a violated internal
/// structural invariant of the element tree: a leaf without text or a
/// container without a tag.
#[derive(Debug)]
pub enum NodeError {
    ValueError(String),
    ParseError(String),
}

} // verus!
