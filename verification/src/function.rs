//! The shape of a registered function: which parameters it takes and how
//! each is bound, together with the adaptation that turns host-side
//! descriptions into registry entries.

use vstd::prelude::*;

verus! {

/// How one parameter of a registered function is bound. Positional kinds
/// consume the next unconsumed argument element; attribute kinds read the
/// attribute list and never advance the positional cursor; variadic kinds
/// consume every remaining positional argument and must come last.
#[derive(Debug, PartialEq, Clone)]
pub enum Param {
    /// One positional argument, evaluated to a host value.
    Value,
    /// One positional argument that must be literal text.
    Text,
    /// One positional argument read from literal text as an unsigned number.
    Uint,
    /// One positional argument read from literal text as a signed number.
    Int,
    /// An unsigned number that must fit eight bits; handed over widened.
    Uint8,
    /// An unsigned number that must fit sixteen bits; handed over widened.
    Uint16,
    /// An unsigned number that must fit thirty-two bits; handed over widened.
    Uint32,
    /// A signed number that must fit eight bits; handed over widened.
    Int8,
    /// A signed number that must fit sixteen bits; handed over widened.
    Int16,
    /// A signed number that must fit thirty-two bits; handed over widened.
    Int32,
    /// One positional argument read from literal text as a boolean.
    Bool,
    /// One positional argument handed over unevaluated.
    Raw,
    /// Whether a flag attribute with this key is present.
    Flag(String),
    /// The text of the value attribute with this key, if present.
    AttrText(String),
    /// All remaining positional arguments, each evaluated to a host value.
    VariadicValue,
    /// All remaining positional arguments, each literal text.
    VariadicText,
}

/// The model of a parameter: attribute keys as character sequences.
pub enum ParamModel {
    Value,
    Text,
    Uint,
    Int,
    Uint8,
    Uint16,
    Uint32,
    Int8,
    Int16,
    Int32,
    Bool,
    Raw,
    Flag(Seq<char>),
    AttrText(Seq<char>),
    VariadicValue,
    VariadicText,
}

impl View for Param {
    type V = ParamModel;

    open spec fn view(&self) -> ParamModel {
        match self {
            Param::Value => ParamModel::Value,
            Param::Text => ParamModel::Text,
            Param::Uint => ParamModel::Uint,
            Param::Int => ParamModel::Int,
            Param::Uint8 => ParamModel::Uint8,
            Param::Uint16 => ParamModel::Uint16,
            Param::Uint32 => ParamModel::Uint32,
            Param::Int8 => ParamModel::Int8,
            Param::Int16 => ParamModel::Int16,
            Param::Int32 => ParamModel::Int32,
            Param::Bool => ParamModel::Bool,
            Param::Raw => ParamModel::Raw,
            Param::Flag(k) => ParamModel::Flag(k@),
            Param::AttrText(k) => ParamModel::AttrText(k@),
            Param::VariadicValue => ParamModel::VariadicValue,
            Param::VariadicText => ParamModel::VariadicText,
        }
    }
}

/// A function as the registry stores it: the identifier the host dispatches
/// on, and the parameters the runtime binds before invoking it.
#[derive(Debug, PartialEq, Clone)]
pub struct FunctionDef {
    pub id: u64,
    pub params: Vec<Param>,
}

/// The model of a registered function.
pub struct FunctionDefModel {
    pub id: u64,
    pub params: Seq<ParamModel>,
}

impl View for FunctionDef {
    type V = FunctionDefModel;

    open spec fn view(&self) -> FunctionDefModel {
        FunctionDefModel { id: self.id, params: self.params@.map_values(|p: Param| p@) }
    }
}

/// Something the registry accepts as a function: the adaptation layer that
/// turns a host-side description into a registry entry.
pub trait ToFunction: Sized {
    /// The registered function this description denotes.
    spec fn to_function_spec(self) -> FunctionDefModel;

    /// Build the registry entry.
    fn to_function(self) -> (r: FunctionDef)
        ensures
            r@ == self.to_function_spec(),
    ;
}

impl ToFunction for FunctionDef {
    open spec fn to_function_spec(self) -> FunctionDefModel {
        self@
    }

    fn to_function(self) -> (r: FunctionDef) {
        self
    }
}

impl ToFunction for (u64, Vec<Param>) {
    open spec fn to_function_spec(self) -> FunctionDefModel {
        FunctionDefModel { id: self.0, params: self.1@.map_values(|p: Param| p@) }
    }

    fn to_function(self) -> (r: FunctionDef) {
        FunctionDef { id: self.0, params: self.1 }
    }
}

} // verus!
