//! The evaluation context, supplied and owned by the embedding host.

use vstd::prelude::*;

use crate::attribute::Attrs;
use crate::error::Error;
use crate::evaluator::{BoundArg, Evaluator};
use crate::registry::FunctionRegistry;
use crate::value::Value;

verus! {

/// The mutable state threaded through evaluation. The host implements it
/// to register its named functions and to dispatch their calls.
pub trait Context<V: Value>: Sized {
    /// Register the functions the markup may invoke.
    fn register_functions(registry: &mut FunctionRegistry);

    /// Run the registered function `id` was registered for, on arguments
    /// the runtime bound to its declared parameters.
    fn invoke(
        &mut self,
        evaluator: &Evaluator<Self, V>,
        id: u64,
        attrs: &Attrs,
        args: Vec<BoundArg<V>>,
    ) -> Result<Option<V>, Error>;
}

} // verus!
