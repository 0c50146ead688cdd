//! The output type of evaluation, supplied by the embedding host.

use vstd::prelude::*;

verus! {

/// A host value. The engine never inspects a value; it only calls these
/// conversion points and passes values to and from registered functions.
pub trait Value: Sized {
    /// The value, if any, a hard linebreak evaluates to.
    fn linebreak() -> Option<Self>;

    /// A value read from literal text; `None` suppresses the element.
    fn from_text_element(text: &str) -> Option<Self>;

    /// A value built from the already evaluated children of a block.
    fn from_block_element(elements: Vec<Self>) -> Option<Self>;
}

/// A value type that produces nothing: evaluation keeps only the side
/// effects registered functions have on the context.
#[derive(Debug)]
pub struct EmptyValue {}

impl Value for EmptyValue {
    fn linebreak() -> (r: Option<Self>)
        ensures
            r is None,
    {
        None
    }

    fn from_text_element(_text: &str) -> (r: Option<Self>)
        ensures
            r is None,
    {
        None
    }

    fn from_block_element(_elements: Vec<Self>) -> (r: Option<Self>)
        ensures
            r is None,
    {
        None
    }
}

} // verus!
