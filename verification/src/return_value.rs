//! Adaptation of a registered function's return type to the uniform
//! outcome the evaluator expects: an optional value, or an error.

use vstd::prelude::*;

use crate::error::Error;
use crate::value::Value;

verus! {

/// A type a registered function may return; each carries the obvious way
/// to read it as "an optional value, or an error".
pub trait ReturnValue<V>: Sized {
    /// The outcome this return value denotes.
    spec fn to_result_spec(self) -> Result<Option<V>, Error>;

    /// Read the return value as an outcome.
    fn to_result_of_option(self) -> (r: Result<Option<V>, Error>)
        ensures
            r == self.to_result_spec(),
    ;
}

impl<V: Value> ReturnValue<V> for Result<Option<V>, Error> {
    open spec fn to_result_spec(self) -> Result<Option<V>, Error> {
        self
    }

    fn to_result_of_option(self) -> (r: Result<Option<V>, Error>) {
        self
    }
}

impl<V: Value> ReturnValue<V> for Result<(), Error> {
    open spec fn to_result_spec(self) -> Result<Option<V>, Error> {
        match self {
            Ok(_) => Ok(None),
            Err(e) => Err(e),
        }
    }

    fn to_result_of_option(self) -> (r: Result<Option<V>, Error>) {
        match self {
            Ok(_) => Ok(None),
            Err(e) => Err(e),
        }
    }
}

impl<V: Value> ReturnValue<V> for Result<V, Error> {
    open spec fn to_result_spec(self) -> Result<Option<V>, Error> {
        match self {
            Ok(v) => Ok(Some(v)),
            Err(e) => Err(e),
        }
    }

    fn to_result_of_option(self) -> (r: Result<Option<V>, Error>) {
        match self {
            Ok(v) => Ok(Some(v)),
            Err(e) => Err(e),
        }
    }
}

impl<V: Value> ReturnValue<V> for Option<V> {
    open spec fn to_result_spec(self) -> Result<Option<V>, Error> {
        Ok(self)
    }

    fn to_result_of_option(self) -> (r: Result<Option<V>, Error>) {
        Ok(self)
    }
}

impl<V: Value> ReturnValue<V> for V {
    open spec fn to_result_spec(self) -> Result<Option<V>, Error> {
        Ok(Some(self))
    }

    fn to_result_of_option(self) -> (r: Result<Option<V>, Error>) {
        Ok(Some(self))
    }
}

impl<V: Value> ReturnValue<V> for () {
    open spec fn to_result_spec(self) -> Result<Option<V>, Error> {
        Ok(None)
    }

    fn to_result_of_option(self) -> (r: Result<Option<V>, Error>) {
        Ok(None)
    }
}

} // verus!
