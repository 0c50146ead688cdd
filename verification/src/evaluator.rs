//! The tree-walking evaluator.
//!
//! Text and linebreak elements map to host values through the hooks of
//! [`Value`]; a function element is resolved in the registry, its declared
//! parameters are bound left-to-right from the call's attributes and raw
//! argument elements — attribute-sourced parameters never advance the
//! positional cursor, a variadic parameter consumes every remaining
//! positional argument — and the host's function is invoked on the bound
//! arguments. The binding of every host-independent parameter kind is
//! specified exactly by `bind_pure`.

use vstd::prelude::*;
use vstd::string::StringExecFns;

use core::marker::PhantomData;

use crate::argument::{signed_val, unsigned_val, valid_signed, valid_unsigned, Argument};
use crate::attribute::{find_attr, has_flag_spec, AttrModel, Attribute, Attrs};
use crate::context::Context;
use crate::error::Error;
use crate::function::{FunctionDefModel, Param, ParamModel};
use crate::parse_tree::{
    elem_no_function, elem_view, elems_no_function, elems_view, lemma_elems_no_function_index,
    ElemModel, ParsedElement,
};
use crate::parser::Parser;
use crate::parser::{doc_prefix_no_function, p_document};
use crate::registry::{lookup_spec, FunctionRegistry};
use crate::value::Value;
use crate::variadic::Variadic;

verus! {

/// An argument as handed to the host: the result of binding one declared
/// parameter.
pub enum BoundArg<V> {
    /// A positional argument evaluated to a host value.
    Value(V),
    /// A literal text argument.
    Text(String),
    /// An unsigned number read from a literal text argument.
    Uint(u64),
    /// A signed number read from a literal text argument.
    Int(i64),
    /// A boolean read from a literal text argument.
    Bool(bool),
    /// A positional argument handed over unevaluated.
    Raw(ParsedElement),
    /// Whether the declared flag attribute is present.
    Flag(bool),
    /// The text of the declared value attribute, if present.
    AttrText(Option<String>),
    /// Every remaining positional argument, evaluated to host values.
    Values(Variadic<V>),
    /// Every remaining positional argument, as literal texts.
    Texts(Variadic<String>),
}

/// The model of a bound argument whose value does not depend on the host.
pub enum BoundModel {
    Text(Seq<char>),
    Uint(u64),
    Int(i64),
    Bool(bool),
    Raw(ElemModel),
    Flag(bool),
    AttrText(Option<Seq<char>>),
    Texts(Seq<Seq<char>>),
}

/// Whether binding this parameter is independent of the host: everything
/// but the kinds that evaluate an argument to a host value.
pub open spec fn param_pure(p: ParamModel) -> bool {
    match p {
        ParamModel::Value => false,
        ParamModel::VariadicValue => false,
        _ => true,
    }
}

pub open spec fn all_pure(ps: Seq<ParamModel>) -> bool {
    forall|k: int| 0 <= k < ps.len() ==> param_pure(#[trigger] ps[k])
}

/// The text of a text element.
pub open spec fn text_of(e: ElemModel) -> Seq<char> {
    match e {
        ElemModel::Text(t) => t,
        _ => Seq::empty(),
    }
}

/// Whether every argument from `cur` on is literal text.
pub open spec fn all_texts(args: Seq<ElemModel>, cur: int) -> bool {
    forall|k: int| cur <= k < args.len() ==> (#[trigger] args[k]) is Text
}

/// The texts of the arguments from `cur` on, in source order.
pub open spec fn texts_from(args: Seq<ElemModel>, cur: int) -> Seq<Seq<char>> {
    args.subrange(cur, args.len() as int).map_values(|e: ElemModel| text_of(e))
}

/// The message of a missing-argument binding error.
pub open spec fn missing_message(label: Seq<char>) -> Seq<char> {
    "Argument of type "@ + label + " is missing a value"@
}

/// The message of a non-literal-argument binding error.
pub open spec fn literal_message(label: Seq<char>) -> Seq<char> {
    "Argument of type "@ + label + " must be literal text"@
}

/// The message of a failed text-to-number or text-to-boolean conversion.
pub open spec fn convert_message(text: Seq<char>, label: Seq<char>) -> Seq<char> {
    "Failed to convert '"@ + text + "' to "@ + label
}

/// Binding one host-independent parameter at positional cursor `cur`:
/// the bound value and the new cursor, or the failure's message.
pub open spec fn bind_one_pure(
    p: ParamModel,
    attrs: Seq<AttrModel>,
    args: Seq<ElemModel>,
    cur: int,
) -> Result<(BoundModel, int), Seq<char>> {
    match p {
        ParamModel::Value => Err(missing_message("value"@)),
        ParamModel::VariadicValue => Err(missing_message("value"@)),
        ParamModel::Text => {
            if cur < args.len() {
                match args[cur] {
                    ElemModel::Text(t) => Ok((BoundModel::Text(t), cur + 1)),
                    _ => Err(literal_message("text"@)),
                }
            } else {
                Err(missing_message("text"@))
            }
        },
        ParamModel::Uint => {
            if cur < args.len() {
                match args[cur] {
                    ElemModel::Text(t) => {
                        if valid_unsigned(t) && unsigned_val(t) <= u64::MAX {
                            Ok((BoundModel::Uint(unsigned_val(t) as u64), cur + 1))
                        } else {
                            Err(convert_message(t, "u64"@))
                        }
                    },
                    _ => Err(literal_message("u64"@)),
                }
            } else {
                Err(missing_message("u64"@))
            }
        },
        ParamModel::Int => {
            if cur < args.len() {
                match args[cur] {
                    ElemModel::Text(t) => {
                        if valid_signed(t) && i64::MIN <= signed_val(t) <= i64::MAX {
                            Ok((BoundModel::Int(signed_val(t) as i64), cur + 1))
                        } else {
                            Err(convert_message(t, "i64"@))
                        }
                    },
                    _ => Err(literal_message("i64"@)),
                }
            } else {
                Err(missing_message("i64"@))
            }
        },
        ParamModel::Uint8 => {
            if cur < args.len() {
                match args[cur] {
                    ElemModel::Text(t) => {
                        if valid_unsigned(t) && unsigned_val(t) <= u8::MAX {
                            Ok((BoundModel::Uint(unsigned_val(t) as u64), cur + 1))
                        } else {
                            Err(convert_message(t, "u8"@))
                        }
                    },
                    _ => Err(literal_message("u8"@)),
                }
            } else {
                Err(missing_message("u8"@))
            }
        },
        ParamModel::Uint16 => {
            if cur < args.len() {
                match args[cur] {
                    ElemModel::Text(t) => {
                        if valid_unsigned(t) && unsigned_val(t) <= u16::MAX {
                            Ok((BoundModel::Uint(unsigned_val(t) as u64), cur + 1))
                        } else {
                            Err(convert_message(t, "u16"@))
                        }
                    },
                    _ => Err(literal_message("u16"@)),
                }
            } else {
                Err(missing_message("u16"@))
            }
        },
        ParamModel::Uint32 => {
            if cur < args.len() {
                match args[cur] {
                    ElemModel::Text(t) => {
                        if valid_unsigned(t) && unsigned_val(t) <= u32::MAX {
                            Ok((BoundModel::Uint(unsigned_val(t) as u64), cur + 1))
                        } else {
                            Err(convert_message(t, "u32"@))
                        }
                    },
                    _ => Err(literal_message("u32"@)),
                }
            } else {
                Err(missing_message("u32"@))
            }
        },
        ParamModel::Int8 => {
            if cur < args.len() {
                match args[cur] {
                    ElemModel::Text(t) => {
                        if valid_signed(t) && i8::MIN <= signed_val(t) <= i8::MAX {
                            Ok((BoundModel::Int(signed_val(t) as i64), cur + 1))
                        } else {
                            Err(convert_message(t, "i8"@))
                        }
                    },
                    _ => Err(literal_message("i8"@)),
                }
            } else {
                Err(missing_message("i8"@))
            }
        },
        ParamModel::Int16 => {
            if cur < args.len() {
                match args[cur] {
                    ElemModel::Text(t) => {
                        if valid_signed(t) && i16::MIN <= signed_val(t) <= i16::MAX {
                            Ok((BoundModel::Int(signed_val(t) as i64), cur + 1))
                        } else {
                            Err(convert_message(t, "i16"@))
                        }
                    },
                    _ => Err(literal_message("i16"@)),
                }
            } else {
                Err(missing_message("i16"@))
            }
        },
        ParamModel::Int32 => {
            if cur < args.len() {
                match args[cur] {
                    ElemModel::Text(t) => {
                        if valid_signed(t) && i32::MIN <= signed_val(t) <= i32::MAX {
                            Ok((BoundModel::Int(signed_val(t) as i64), cur + 1))
                        } else {
                            Err(convert_message(t, "i32"@))
                        }
                    },
                    _ => Err(literal_message("i32"@)),
                }
            } else {
                Err(missing_message("i32"@))
            }
        },
        ParamModel::Bool => {
            if cur < args.len() {
                match args[cur] {
                    ElemModel::Text(t) => {
                        if t == "true"@ || t == "false"@ {
                            Ok((BoundModel::Bool(t == "true"@), cur + 1))
                        } else {
                            Err(convert_message(t, "bool"@))
                        }
                    },
                    _ => Err(literal_message("bool"@)),
                }
            } else {
                Err(missing_message("bool"@))
            }
        },
        ParamModel::Raw => {
            if cur < args.len() {
                Ok((BoundModel::Raw(args[cur]), cur + 1))
            } else {
                Err(missing_message("element"@))
            }
        },
        ParamModel::Flag(k) => Ok((BoundModel::Flag(has_flag_spec(attrs, k)), cur)),
        ParamModel::AttrText(k) => Ok(
            (
                BoundModel::AttrText(
                    match find_attr(attrs, k) {
                        Some(i) => attrs[i].value,
                        None => None,
                    },
                ),
                cur,
            ),
        ),
        ParamModel::VariadicText => {
            if 0 <= cur <= args.len() && all_texts(args, cur) {
                Ok((BoundModel::Texts(texts_from(args, cur)), args.len() as int))
            } else {
                Err(literal_message("text"@))
            }
        },
    }
}

/// Binding a host-independent parameter list left-to-right from cursor
/// `cur`: the bound arguments in declaration order, or the first failure's
/// message.
pub open spec fn bind_pure(
    ps: Seq<ParamModel>,
    attrs: Seq<AttrModel>,
    args: Seq<ElemModel>,
    cur: int,
) -> Result<Seq<BoundModel>, Seq<char>>
    decreases ps.len(),
{
    if ps.len() == 0 {
        Ok(Seq::empty())
    } else {
        match bind_one_pure(ps[0], attrs, args, cur) {
            Err(msg) => Err(msg),
            Ok((m, c2)) => match bind_pure(ps.subrange(1, ps.len() as int), attrs, args, c2) {
                Err(msg) => Err(msg),
                Ok(rest) => Ok(seq![m] + rest),
            },
        }
    }
}

/// Whether an exec bound argument realises a bound-argument model.
pub open spec fn bound_matches<V>(b: BoundArg<V>, m: BoundModel) -> bool {
    match b {
        BoundArg::Value(_) => false,
        BoundArg::Values(_) => false,
        BoundArg::Text(s) => m matches BoundModel::Text(t) && s@ == t,
        BoundArg::Uint(u) => m == BoundModel::Uint(u),
        BoundArg::Int(v) => m == BoundModel::Int(v),
        BoundArg::Bool(v) => m == BoundModel::Bool(v),
        BoundArg::Raw(e) => m matches BoundModel::Raw(em) && e@ == em,
        BoundArg::Flag(f) => m == BoundModel::Flag(f),
        BoundArg::AttrText(o) => m matches BoundModel::AttrText(mo) && (match o {
            Some(s) => mo matches Some(t) && s@ == t,
            None => mo is None,
        }),
        BoundArg::Texts(v) => m matches BoundModel::Texts(ts) && v.vals().map_values(
            |s: String| s@,
        ) == ts,
    }
}

pub open spec fn bounds_match<V>(bs: Seq<BoundArg<V>>, ms: Seq<BoundModel>) -> bool {
    bs.len() == ms.len() && forall|k: int|
        0 <= k < bs.len() ==> bound_matches(#[trigger] bs[k], ms[k])
}

/// The evaluator: the registry built once from the context type's
/// registrations.
pub struct Evaluator<C, V> {
    function_registry: FunctionRegistry,
    contexts: PhantomData<C>,
    values: PhantomData<V>,
}

impl<C: Context<V>, V: Value> Evaluator<C, V> {
    /// The registry's entries.
    pub closed spec fn registry(&self) -> Seq<(Seq<char>, FunctionDefModel)> {
        self.function_registry@
    }

    /// Build an evaluator over the functions the context type registers.
    pub fn new() -> (r: Self) {
        let mut function_registry = FunctionRegistry::new();
        C::register_functions(&mut function_registry);
        Self { function_registry, contexts: PhantomData, values: PhantomData }
    }

    /// Resolve a call: an evaluation error for an unregistered name, the
    /// host function's outcome otherwise.
    fn evaluate_function(
        &self,
        context: &mut C,
        name: String,
        attributes: Vec<Attribute>,
        arguments: Vec<ParsedElement>,
    ) -> (r: Result<Option<V>, Error>)
        ensures
            lookup_spec(self.registry(), name@) is None ==> (r matches Err(e) && e matches Error::Eval(m, sp) && m@ == "Function '"@
                + name@ + "' not found"@ && sp is None) && *final(context) == *old(context),
            (match lookup_spec(self.registry(), name@) {
                Some(f) => all_pure(f.params) ==> (match bind_pure(
                    f.params,
                    attributes@.map_values(|a: Attribute| a@),
                    elems_view(arguments@),
                    0,
                ) {
                    Err(msg) => r matches Err(e) && e matches Error::Type(m, sp) && m@ == msg
                        && sp is None,
                    Ok(_) => true,
                }),
                None => true,
            }),
        decreases arguments, 1int,
    {
        match self.function_registry.get(name.as_str()) {
            Some(func) => {
                let id = func.id;
                let attrs = Attrs::new(attributes);
                let bound = match self.bind_arguments(context, &func.params, &attrs, arguments) {
                    Ok(b) => b,
                    Err(e) => {
                        return Err(e);
                    },
                };
                context.invoke(self, id, &attrs, bound)
            },
            None => Err(
                Error::Eval(
                    String::from_str("Function '").concat(name.as_str()).concat("' not found"),
                    None,
                ),
            ),
        }
    }

    /// Evaluate one element. Text and linebreak elements never fail; a
    /// function element fails with an evaluation error when its name is
    /// not registered.
    pub fn evaluate_element(&self, context: &mut C, element: ParsedElement) -> (r: Result<
        Option<V>,
        Error,
    >)
        ensures
            element matches ParsedElement::Text(_) ==> r is Ok && *final(context) == *old(
                context,
            ),
            element matches ParsedElement::HardLinebreak ==> r is Ok && *final(context) == *old(
                context,
            ),
            elem_no_function(elem_view(element)) ==> r is Ok && *final(context) == *old(context),
            (match element {
                ParsedElement::Function(name, _, _) => lookup_spec(self.registry(), name@) is None
                    ==> (r matches Err(e) && e matches Error::Eval(m, sp) && m@ == "Function '"@
                        + name@ + "' not found"@ && sp is None) && *final(context) == *old(
                        context,
                    ),
                _ => true,
            }),
            (match element {
                ParsedElement::Function(name, attributes, arguments) => (match lookup_spec(
                    self.registry(),
                    name@,
                ) {
                    Some(f) => all_pure(f.params) ==> (match bind_pure(
                        f.params,
                        attributes@.map_values(|a: Attribute| a@),
                        elems_view(arguments@),
                        0,
                    ) {
                        Err(msg) => r matches Err(e) && e matches Error::Type(m, sp) && m@
                            == msg && sp is None,
                        Ok(_) => true,
                    }),
                    None => true,
                }),
                _ => true,
            }),
        decreases element, 2int,
    {
        let ghost gelem = element;
        match element {
            ParsedElement::HardLinebreak => Ok(V::linebreak()),
            ParsedElement::Text(t) => Ok(V::from_text_element(t.as_str())),
            ParsedElement::Function(name, attributes, arguments) => {
                proof {
                    assert(decreases_to!(gelem => gelem->Function_2));
                    assert(gelem->Function_2 == arguments);
                }
                self.evaluate_function(context, name, attributes, arguments)
            },
            ParsedElement::Block(b) => {
                let mut elems = b.elements;
                let ghost gelems = elems;
                proof {
                    assert(gelems@ =~= gelems@.subrange(0, gelems@.len() as int));
                }
                let mut vals: Vec<V> = Vec::new();
                let ghost mut k: int = 0;
                loop
                    invariant
                        0 <= k <= gelems@.len(),
                        elems@ == gelems@.subrange(k, gelems@.len() as int),
                        gelem == element,
                        gelem matches ParsedElement::Block(b0) && b0.elements@ == gelems@,
                        elem_no_function(elem_view(element)) ==> *context == *old(context),
                    decreases gelems@.len() - k,
                {
                    if elems.len() == 0 {
                        break ;
                    }
                    let e = elems.remove(0);
                    proof {
                        assert(e == gelems@[k]);
                        if elem_no_function(elem_view(gelem)) {
                            crate::parse_tree::lemma_elems_view_len(gelems@);
                            lemma_elems_no_function_index(elems_view(gelems@));
                            assert(elems_view(gelems@)[k] == elem_view(gelems@[k]));
                            assert(elem_no_function(elem_view(e)));
                        }
                        assert(decreases_to!(gelem => gelem->Block_0));
                        assert(decreases_to!(gelem->Block_0 => gelem->Block_0.elements));
                        assert(decreases_to!(gelem->Block_0.elements
                            => gelem->Block_0.elements@));
                        assert(decreases_to!(gelem->Block_0.elements@
                            => gelem->Block_0.elements@[k]));
                        assert(gelem->Block_0.elements@[k] == e);
                        assert(elems@ =~= gelems@.subrange(k + 1, gelems@.len() as int));
                        k = k + 1;
                    }
                    match self.evaluate_element(context, e) {
                        Err(er) => {
                            return Err(er);
                        },
                        Ok(Some(v)) => {
                            vals.push(v);
                        },
                        Ok(None) => (),
                    }
                }
                Ok(V::from_block_element(vals))
            },
        }
    }

    /// Evaluate a whole document, in source order: the values its elements
    /// yield. The first parse or evaluation error aborts the run.
    pub fn evaluate_document(&self, context: &mut C, parser: &mut Parser) -> (r: Result<
        Vec<V>,
        Error,
    >)
        requires
            old(parser).wf(),
        ensures
            final(parser).wf(),
            final(parser).src() == old(parser).src(),
            final(parser).toks() == old(parser).toks(),
            r is Ok ==> p_document(old(parser).src(), old(parser).toks(), old(parser).at())
                is Ok && final(parser).at() == final(parser).toks().len(),
            (match p_document(old(parser).src(), old(parser).toks(), old(parser).at()) {
                Ok(es) => elems_no_function(es) ==> r is Ok && *final(context) == *old(context),
                Err(()) => true,
            }),
            (p_document(old(parser).src(), old(parser).toks(), old(parser).at()) is Err
                && doc_prefix_no_function(
                old(parser).src(),
                old(parser).toks(),
                old(parser).at(),
            )) ==> (r matches Err(e) && e matches Error::Parse(_, _) && *final(context) == *old(
                context,
            )),
    {
        let ghost s = parser.src();
        let ghost ts = parser.toks();
        let ghost at0 = parser.at();
        let ghost benign = match p_document(s, ts, at0) {
            Ok(es) => elems_no_function(es),
            Err(()) => false,
        };
        let ghost strict = p_document(s, ts, at0) is Err && doc_prefix_no_function(s, ts, at0);
        proof {
            parser.lemma_wf_bounds();
        }
        let mut evaluated_elements: Vec<V> = Vec::new();
        loop
            invariant
                parser.wf(),
                parser.src() == s,
                parser.toks() == ts,
                s == old(parser).src(),
                ts == old(parser).toks(),
                at0 == old(parser).at(),
                0 <= at0 <= parser.at() <= ts.len(),
                p_document(s, ts, parser.at()) is Ok ==> p_document(s, ts, at0) is Ok,
                benign == (match p_document(s, ts, at0) {
                    Ok(es) => elems_no_function(es),
                    Err(()) => false,
                }),
                benign ==> (match p_document(s, ts, parser.at()) {
                    Ok(rest) => elems_no_function(rest),
                    Err(()) => false,
                }) && *context == *old(context),
                strict == (p_document(s, ts, at0) is Err && doc_prefix_no_function(s, ts, at0)),
                strict ==> p_document(s, ts, parser.at()) is Err && doc_prefix_no_function(
                    s,
                    ts,
                    parser.at(),
                ) && *context == *old(context),
            ensures
                parser.wf(),
                parser.src() == s,
                parser.toks() == ts,
                s == old(parser).src(),
                ts == old(parser).toks(),
                parser.at() == ts.len(),
                p_document(s, ts, at0) is Ok,
                benign ==> *context == *old(context),
                !strict,
            decreases ts.len() - parser.at(),
        {
            let ghost cur = parser.at();
            match parser.next() {
                None => {
                    proof {
                        assert(p_document(s, ts, parser.at()) is Ok);
                        assert(!strict);
                    }
                    break ;
                },
                Some(Err(e)) => {
                    proof {
                        if benign {
                            assert(p_document(s, ts, cur) is Ok);
                            assert(cur < ts.len());
                            if crate::parser::p_element(s, ts, cur) is Ok {
                                assert(false);
                            } else {
                                assert(p_document(s, ts, cur) is Err);
                                assert(false);
                            }
                        }
                    }
                    return Err(e);
                },
                Some(Ok(element)) => {
                    let ghost j = parser.at();
                    proof {
                        if p_document(s, ts, j) is Ok {
                            assert(p_document(s, ts, cur) is Ok);
                        }
                        if strict {
                            assert(p_document(s, ts, cur) is Err);
                            assert(doc_prefix_no_function(s, ts, cur));
                            assert(0 <= cur < ts.len());
                            match crate::parser::p_element(s, ts, cur) {
                                Ok((em, j2)) => {
                                    assert(cur < j2 <= ts.len());
                                    assert(elem_no_function(em));
                                    assert(em == elem_view(element));
                                    assert(p_document(s, ts, j2) is Err);
                                    assert(doc_prefix_no_function(s, ts, j2));
                                },
                                Err(()) => {
                                    assert(false);
                                },
                            }
                        }
                        if benign {
                            match p_document(s, ts, cur) {
                                Ok(restc) => {
                                    match p_document(s, ts, j) {
                                        Ok(restj) => {
                                            assert(restc == seq![elem_view(element)] + restj);
                                            lemma_elems_no_function_index(restc);
                                            lemma_elems_no_function_index(restj);
                                            assert(restc[0] == elem_view(element));
                                            assert(elem_no_function(elem_view(element)));
                                            assert(forall|i: int|
                                                0 <= i < restj.len() ==> #[trigger] restj[i]
                                                    == restc[i + 1]);
                                            assert(elems_no_function(restj));
                                        },
                                        Err(()) => {
                                            assert(false);
                                        },
                                    }
                                },
                                Err(()) => {
                                    assert(false);
                                },
                            }
                        }
                    }
                    match self.evaluate_element(context, element) {
                        Err(e) => {
                            proof {
                                if benign {
                                    assert(false);
                                }
                                if strict {
                                    assert(false);
                                }
                            }
                            return Err(e);
                        },
                        Ok(Some(v)) => {
                            evaluated_elements.push(v);
                        },
                        Ok(None) => (),
                    }
                },
            }
        }
        Ok(evaluated_elements)
    }

    /// Bind the declared parameters left-to-right from the call's
    /// attributes and raw argument elements. For a host-independent
    /// parameter list the outcome is exactly `bind_pure`.
    #[verifier::spinoff_prover]
    #[verifier::rlimit(100)]
    fn bind_arguments(
        &self,
        context: &mut C,
        params: &Vec<Param>,
        attrs: &Attrs,
        arguments: Vec<ParsedElement>,
    ) -> (r: Result<Vec<BoundArg<V>>, Error>)
        ensures
            all_pure(params@.map_values(|p: Param| p@)) ==> (match bind_pure(
                params@.map_values(|p: Param| p@),
                attrs@,
                elems_view(arguments@),
                0,
            ) {
                Ok(ms) => r matches Ok(bs) && bounds_match(bs@, ms),
                Err(msg) => r matches Err(e) && e matches Error::Type(m, sp) && m@ == msg
                    && sp is None,
            }),
        decreases arguments, 0int,
    {
        let ghost pview = params@.map_values(|p: Param| p@);
        let ghost argm = elems_view(arguments@);
        let ghost gargs = arguments;
        proof {
            crate::parse_tree::lemma_elems_view_len(arguments@);
        }
        let mut args = arguments;
        proof {
            assert(gargs@.subrange(0, gargs@.len() as int) =~= gargs@);
        }
        let mut out: Vec<BoundArg<V>> = Vec::new();
        let ghost mut ms_acc: Seq<BoundModel> = Seq::empty();
        let ghost mut cur: int = 0;
        let mut pi: usize = 0;
        proof {
            assert(pview.subrange(0, pview.len() as int) =~= pview);
            if all_pure(pview) {
                match bind_pure(pview, attrs@, argm, 0) {
                    Ok(rest) => {
                        assert(Seq::<BoundModel>::empty() + rest =~= rest);
                    },
                    Err(_) => {},
                }
            }
        }
        loop
            invariant
                pi <= params@.len(),
                pview == params@.map_values(|p: Param| p@),
                argm == elems_view(gargs@),
                gargs == arguments,
                argm.len() == gargs@.len(),
                0 <= cur <= gargs@.len(),
                args@ == gargs@.subrange(cur, gargs@.len() as int),
                all_pure(pview) ==> {
                    &&& bounds_match(out@, ms_acc)
                    &&& match bind_pure(
                        pview.subrange(pi as int, pview.len() as int),
                        attrs@,
                        argm,
                        cur,
                    ) {
                        Ok(rest) => bind_pure(pview, attrs@, argm, 0) == Ok::<
                            Seq<BoundModel>,
                            Seq<char>,
                        >(ms_acc + rest),
                        Err(msg) => bind_pure(pview, attrs@, argm, 0) == Err::<
                            Seq<BoundModel>,
                            Seq<char>,
                        >(msg),
                    }
                },
            ensures
                all_pure(pview) ==> {
                    &&& bounds_match(out@, ms_acc)
                    &&& bind_pure(pview, attrs@, argm, 0) == Ok::<Seq<BoundModel>, Seq<char>>(
                        ms_acc,
                    )
                },
            decreases params@.len() - pi,
        {
            proof {
                crate::parse_tree::lemma_elems_view_len(gargs@);
                if pi < pview.len() {
                    lemma_bind_pure_step(pview, attrs@, argm, pi as int, cur);
                }
            }
            if pi >= params.len() {
                proof {
                    if all_pure(pview) {
                        assert(pview.subrange(pi as int, pview.len() as int)
                            =~= Seq::<ParamModel>::empty());
                        assert(ms_acc + Seq::<BoundModel>::empty() =~= ms_acc);
                    }
                }
                break ;
            }
            let ghost p_model = pview[pi as int];
            let ghost cur0 = cur;
            let ghost ms_before = ms_acc;
            let ghost out_before = out@;
            let bound: BoundArg<V> = match &params[pi] {
                Param::Value => {
                    if args.len() == 0 {
                        return Err(missing_argument_error("value"));
                    }
                    let e = args.remove(0);
                    proof {
                        assert(e == gargs@[cur]);
                        assert(decreases_to!(gargs => gargs@));
                        assert(decreases_to!(gargs@ => gargs@[cur]));
                        assert(args@ =~= gargs@.subrange(cur + 1, gargs@.len() as int));
                        cur = cur + 1;
                    }
                    match self.evaluate_element(context, e) {
                        Err(er) => {
                            return Err(er);
                        },
                        Ok(None) => {
                            return Err(no_value_error());
                        },
                        Ok(Some(v)) => BoundArg::Value(v),
                    }
                },
                Param::Text => {
                    if args.len() == 0 {
                        return Err(missing_argument_error("text"));
                    }
                    let e = args.remove(0);
                    proof {
                        assert(elem_view(e) == argm[cur]);
                        assert(args@ =~= gargs@.subrange(cur + 1, gargs@.len() as int));
                        cur = cur + 1;
                    }
                    match e {
                        ParsedElement::Text(t) => {
                            proof {
                                ms_acc = ms_acc.push(BoundModel::Text(t@));
                            }
                            BoundArg::Text(t)
                        },
                        _ => {
                            return Err(literal_text_error("text"));
                        },
                    }
                },
                Param::Uint => {
                    if args.len() == 0 {
                        return Err(missing_argument_error("u64"));
                    }
                    let e = args.remove(0);
                    proof {
                        assert(elem_view(e) == argm[cur]);
                        assert(args@ =~= gargs@.subrange(cur + 1, gargs@.len() as int));
                        cur = cur + 1;
                    }
                    match e {
                        ParsedElement::Text(t) => match <u64 as Argument>::parse_arg(t.as_str()) {
                            Some(v) => {
                                proof {
                                    ms_acc = ms_acc.push(BoundModel::Uint(v));
                                }
                                BoundArg::Uint(v)
                            },
                            None => {
                                return Err(conversion_error(t.as_str(), "u64"));
                            },
                        },
                        _ => {
                            return Err(literal_text_error("u64"));
                        },
                    }
                },
                Param::Int => {
                    if args.len() == 0 {
                        return Err(missing_argument_error("i64"));
                    }
                    let e = args.remove(0);
                    proof {
                        assert(elem_view(e) == argm[cur]);
                        assert(args@ =~= gargs@.subrange(cur + 1, gargs@.len() as int));
                        cur = cur + 1;
                    }
                    match e {
                        ParsedElement::Text(t) => match <i64 as Argument>::parse_arg(t.as_str()) {
                            Some(v) => {
                                proof {
                                    ms_acc = ms_acc.push(BoundModel::Int(v));
                                }
                                BoundArg::Int(v)
                            },
                            None => {
                                return Err(conversion_error(t.as_str(), "i64"));
                            },
                        },
                        _ => {
                            return Err(literal_text_error("i64"));
                        },
                    }
                },
                Param::Uint8 => {
                    if args.len() == 0 {
                        return Err(missing_argument_error("u8"));
                    }
                    let e = args.remove(0);
                    proof {
                        assert(elem_view(e) == argm[cur]);
                        assert(args@ =~= gargs@.subrange(cur + 1, gargs@.len() as int));
                        cur = cur + 1;
                    }
                    match e {
                        ParsedElement::Text(t) => match <u8 as Argument>::parse_arg(
                            t.as_str(),
                        ) {
                            Some(v) => {
                                proof {
                                    ms_acc = ms_acc.push(BoundModel::Uint(v as u64));
                                }
                                BoundArg::Uint(v as u64)
                            },
                            None => {
                                return Err(conversion_error(t.as_str(), "u8"));
                            },
                        },
                        _ => {
                            return Err(literal_text_error("u8"));
                        },
                    }
                },
                Param::Uint16 => {
                    if args.len() == 0 {
                        return Err(missing_argument_error("u16"));
                    }
                    let e = args.remove(0);
                    proof {
                        assert(elem_view(e) == argm[cur]);
                        assert(args@ =~= gargs@.subrange(cur + 1, gargs@.len() as int));
                        cur = cur + 1;
                    }
                    match e {
                        ParsedElement::Text(t) => match <u16 as Argument>::parse_arg(
                            t.as_str(),
                        ) {
                            Some(v) => {
                                proof {
                                    ms_acc = ms_acc.push(BoundModel::Uint(v as u64));
                                }
                                BoundArg::Uint(v as u64)
                            },
                            None => {
                                return Err(conversion_error(t.as_str(), "u16"));
                            },
                        },
                        _ => {
                            return Err(literal_text_error("u16"));
                        },
                    }
                },
                Param::Uint32 => {
                    if args.len() == 0 {
                        return Err(missing_argument_error("u32"));
                    }
                    let e = args.remove(0);
                    proof {
                        assert(elem_view(e) == argm[cur]);
                        assert(args@ =~= gargs@.subrange(cur + 1, gargs@.len() as int));
                        cur = cur + 1;
                    }
                    match e {
                        ParsedElement::Text(t) => match <u32 as Argument>::parse_arg(
                            t.as_str(),
                        ) {
                            Some(v) => {
                                proof {
                                    ms_acc = ms_acc.push(BoundModel::Uint(v as u64));
                                }
                                BoundArg::Uint(v as u64)
                            },
                            None => {
                                return Err(conversion_error(t.as_str(), "u32"));
                            },
                        },
                        _ => {
                            return Err(literal_text_error("u32"));
                        },
                    }
                },
                Param::Int8 => {
                    if args.len() == 0 {
                        return Err(missing_argument_error("i8"));
                    }
                    let e = args.remove(0);
                    proof {
                        assert(elem_view(e) == argm[cur]);
                        assert(args@ =~= gargs@.subrange(cur + 1, gargs@.len() as int));
                        cur = cur + 1;
                    }
                    match e {
                        ParsedElement::Text(t) => match <i8 as Argument>::parse_arg(
                            t.as_str(),
                        ) {
                            Some(v) => {
                                proof {
                                    ms_acc = ms_acc.push(BoundModel::Int(v as i64));
                                }
                                BoundArg::Int(v as i64)
                            },
                            None => {
                                return Err(conversion_error(t.as_str(), "i8"));
                            },
                        },
                        _ => {
                            return Err(literal_text_error("i8"));
                        },
                    }
                },
                Param::Int16 => {
                    if args.len() == 0 {
                        return Err(missing_argument_error("i16"));
                    }
                    let e = args.remove(0);
                    proof {
                        assert(elem_view(e) == argm[cur]);
                        assert(args@ =~= gargs@.subrange(cur + 1, gargs@.len() as int));
                        cur = cur + 1;
                    }
                    match e {
                        ParsedElement::Text(t) => match <i16 as Argument>::parse_arg(
                            t.as_str(),
                        ) {
                            Some(v) => {
                                proof {
                                    ms_acc = ms_acc.push(BoundModel::Int(v as i64));
                                }
                                BoundArg::Int(v as i64)
                            },
                            None => {
                                return Err(conversion_error(t.as_str(), "i16"));
                            },
                        },
                        _ => {
                            return Err(literal_text_error("i16"));
                        },
                    }
                },
                Param::Int32 => {
                    if args.len() == 0 {
                        return Err(missing_argument_error("i32"));
                    }
                    let e = args.remove(0);
                    proof {
                        assert(elem_view(e) == argm[cur]);
                        assert(args@ =~= gargs@.subrange(cur + 1, gargs@.len() as int));
                        cur = cur + 1;
                    }
                    match e {
                        ParsedElement::Text(t) => match <i32 as Argument>::parse_arg(
                            t.as_str(),
                        ) {
                            Some(v) => {
                                proof {
                                    ms_acc = ms_acc.push(BoundModel::Int(v as i64));
                                }
                                BoundArg::Int(v as i64)
                            },
                            None => {
                                return Err(conversion_error(t.as_str(), "i32"));
                            },
                        },
                        _ => {
                            return Err(literal_text_error("i32"));
                        },
                    }
                },
                Param::Bool => {
                    if args.len() == 0 {
                        return Err(missing_argument_error("bool"));
                    }
                    let e = args.remove(0);
                    proof {
                        assert(elem_view(e) == argm[cur]);
                        assert(args@ =~= gargs@.subrange(cur + 1, gargs@.len() as int));
                        cur = cur + 1;
                    }
                    match e {
                        ParsedElement::Text(t) => match <bool as Argument>::parse_arg(t.as_str()) {
                            Some(v) => {
                                proof {
                                    ms_acc = ms_acc.push(BoundModel::Bool(v));
                                }
                                BoundArg::Bool(v)
                            },
                            None => {
                                return Err(conversion_error(t.as_str(), "bool"));
                            },
                        },
                        _ => {
                            return Err(literal_text_error("bool"));
                        },
                    }
                },
                Param::Raw => {
                    if args.len() == 0 {
                        return Err(missing_argument_error("element"));
                    }
                    let e = args.remove(0);
                    proof {
                        assert(elem_view(e) == argm[cur]);
                        assert(args@ =~= gargs@.subrange(cur + 1, gargs@.len() as int));
                        cur = cur + 1;
                        ms_acc = ms_acc.push(BoundModel::Raw(elem_view(e)));
                    }
                    BoundArg::Raw(e)
                },
                Param::Flag(key) => {
                    let f = attrs.has_flag(key.as_str());
                    proof {
                        ms_acc = ms_acc.push(BoundModel::Flag(f));
                    }
                    BoundArg::Flag(f)
                },
                Param::AttrText(key) => {
                    let o = match attrs.get_value::<String>(key.as_str()) {
                        Ok(o) => o,
                        Err(er) => {
                            return Err(er);
                        },
                    };
                    proof {
                        ms_acc = ms_acc.push(
                            BoundModel::AttrText(
                                match o {
                                    Some(ref sv) => Some(sv@),
                                    None => None,
                                },
                            ),
                        );
                    }
                    BoundArg::AttrText(o)
                },
                Param::VariadicValue => {
                    let mut vals: Vec<V> = Vec::new();
                    loop
                        invariant
                            0 <= cur <= gargs@.len(),
                            gargs == arguments,
                            args@ == gargs@.subrange(cur, gargs@.len() as int),
                            pi < pview.len(),
                            pview == params@.map_values(|p: Param| p@),
                            pview[pi as int] is VariadicValue,
                        decreases args@.len(),
                    {
                        if args.len() == 0 {
                            break ;
                        }
                        let e = args.remove(0);
                        proof {
                            assert(e == gargs@[cur]);
                            assert(decreases_to!(gargs => gargs@));
                            assert(decreases_to!(gargs@ => gargs@[cur]));
                            assert(args@ =~= gargs@.subrange(cur + 1, gargs@.len() as int));
                            cur = cur + 1;
                        }
                        match self.evaluate_element(context, e) {
                            Err(er) => {
                                return Err(er);
                            },
                            Ok(None) => {
                                return Err(no_value_error());
                            },
                            Ok(Some(v)) => {
                                vals.push(v);
                            },
                        }
                    }
                    BoundArg::Values(Variadic::new(vals))
                },
                Param::VariadicText => {
                    let mut texts: Vec<String> = Vec::new();
                    let ghost vstart = cur;
                    loop
                        invariant
                            0 <= vstart <= cur <= gargs@.len(),
                            argm == elems_view(gargs@),
                            argm.len() == gargs@.len(),
                            gargs == arguments,
                            args@ == gargs@.subrange(cur, gargs@.len() as int),
                            pi < pview.len(),
                            pview == params@.map_values(|p: Param| p@),
                            pview[pi as int] is VariadicText,
                            all_pure(pview) ==> {
                                &&& bounds_match(out@, ms_acc)
                                &&& match bind_pure(
                                    pview.subrange(pi as int, pview.len() as int),
                                    attrs@,
                                    argm,
                                    vstart,
                                ) {
                                    Ok(rest) => bind_pure(pview, attrs@, argm, 0) == Ok::<
                                        Seq<BoundModel>,
                                        Seq<char>,
                                    >(ms_acc + rest),
                                    Err(msg) => bind_pure(pview, attrs@, argm, 0) == Err::<
                                        Seq<BoundModel>,
                                        Seq<char>,
                                    >(msg),
                                }
                            },
                            forall|k: int| vstart <= k < cur ==> (#[trigger] argm[k]) is Text,
                            texts@.map_values(|x: String| x@) == argm.subrange(
                                vstart,
                                cur,
                            ).map_values(|e: ElemModel| text_of(e)),
                        ensures
                            vstart <= cur <= gargs@.len(),
                            cur == gargs@.len(),
                            args@ == gargs@.subrange(cur, gargs@.len() as int),
                            forall|k: int| vstart <= k < cur ==> (#[trigger] argm[k]) is Text,
                            texts@.map_values(|x: String| x@) == argm.subrange(
                                vstart,
                                cur,
                            ).map_values(|e: ElemModel| text_of(e)),
                        decreases args@.len(),
                    {
                        if args.len() == 0 {
                            proof {
                                assert(cur == gargs@.len());
                            }
                            break ;
                        }
                        let e = args.remove(0);
                        proof {
                            crate::parse_tree::lemma_elems_view_len(gargs@);
                            assert(e == gargs@[cur]);
                            assert(elem_view(e) == argm[cur]);
                            assert(args@ =~= gargs@.subrange(cur + 1, gargs@.len() as int));
                        }
                        match e {
                            ParsedElement::Text(t) => {
                                let ghost tsb = texts@;
                                texts.push(t);
                                proof {
                                    assert(texts@.map_values(|x: String| x@) =~= tsb.map_values(
                                        |x: String| x@,
                                    ).push(t@));
                                    cur = cur + 1;
                                    assert(argm.subrange(vstart, cur).map_values(
                                        |e2: ElemModel| text_of(e2),
                                    ) =~= argm.subrange(vstart, cur - 1).map_values(
                                        |e2: ElemModel| text_of(e2),
                                    ).push(text_of(argm[cur - 1])));
                                }
                            },
                            _ => {
                                proof {
                                    if all_pure(pview) {
                                        lemma_bind_pure_step(
                                            pview,
                                            attrs@,
                                            argm,
                                            pi as int,
                                            vstart,
                                        );
                                        assert(!(argm[cur] is Text));
                                        assert(!all_texts(argm, vstart));
                                    }
                                }
                                return Err(literal_text_error("text"));
                            },
                        }
                    }
                    let v = Variadic::new(texts);
                    proof {
                        assert(argm.subrange(vstart, argm.len() as int) =~= argm.subrange(
                            vstart,
                            cur,
                        ));
                        ms_acc = ms_acc.push(BoundModel::Texts(texts_from(argm, vstart)));
                    }
                    BoundArg::Texts(v)
                },
            };
            out.push(bound);
            pi = pi + 1;
            proof {
                if all_pure(pview) {
                    assert(bounds_match(out@, ms_acc)) by {
                        assert(out@ =~= out_before.push(out@[out@.len() - 1]));
                        assert(forall|k: int|
                            0 <= k < out_before.len() ==> out@[k] == out_before[k]);
                    }
                    if ms_acc != ms_before {
                        assert(ms_acc == ms_before.push(ms_acc.last()));
                        match bind_pure(
                            pview.subrange(pi as int, pview.len() as int),
                            attrs@,
                            argm,
                            cur,
                        ) {
                            Ok(rest) => {
                                assert(ms_before + (seq![ms_acc.last()] + rest) =~= ms_acc
                                    + rest);
                            },
                            Err(_) => {},
                        }
                    }
                }
            }
        }
        Ok(out)
    }
}

/// Law (variadic binding): a single variadic text parameter binds every
/// positional argument, in source order, whatever their number — including
/// none.
pub proof fn lemma_variadic_binding(attrs: Seq<AttrModel>, args: Seq<ElemModel>)
    requires
        forall|k: int| 0 <= k < args.len() ==> (#[trigger] args[k]) is Text,
    ensures
        bind_pure(seq![ParamModel::VariadicText], attrs, args, 0) == Ok::<
            Seq<BoundModel>,
            Seq<char>,
        >(seq![BoundModel::Texts(args.map_values(|e: ElemModel| text_of(e)))]),
{
    let ps = seq![ParamModel::VariadicText];
    assert(ps[0] == ParamModel::VariadicText);
    assert(all_texts(args, 0));
    assert(args.subrange(0, args.len() as int) =~= args);
    assert(texts_from(args, 0) == args.map_values(|e: ElemModel| text_of(e)));
    assert(ps.subrange(1, 1) =~= Seq::<ParamModel>::empty());
    assert(bind_pure(ps.subrange(1, 1), attrs, args, args.len() as int) == Ok::<
        Seq<BoundModel>,
        Seq<char>,
    >(Seq::empty()));
    assert(seq![BoundModel::Texts(texts_from(args, 0))] + Seq::<BoundModel>::empty() =~= seq![
        BoundModel::Texts(texts_from(args, 0)),
    ]);
}

/// `bind_pure` unfolded one parameter at a time.
proof fn lemma_bind_pure_step(
    ps: Seq<ParamModel>,
    attrs: Seq<AttrModel>,
    args: Seq<ElemModel>,
    pi: int,
    cur: int,
)
    requires
        0 <= pi < ps.len(),
    ensures
        bind_pure(ps.subrange(pi, ps.len() as int), attrs, args, cur) == (match bind_one_pure(
            ps[pi],
            attrs,
            args,
            cur,
        ) {
            Err(msg) => Err::<Seq<BoundModel>, Seq<char>>(msg),
            Ok((m, c2)) => match bind_pure(ps.subrange(pi + 1, ps.len() as int), attrs, args, c2) {
                Err(msg) => Err(msg),
                Ok(rest) => Ok(seq![m] + rest),
            },
        }),
{
    let sub = ps.subrange(pi, ps.len() as int);
    assert(sub[0] == ps[pi]);
    assert(sub.subrange(1, sub.len() as int) =~= ps.subrange(pi + 1, ps.len() as int));
}

fn missing_argument_error(label: &str) -> (r: Error)
    ensures
        r matches Error::Type(m, sp) && m@ == missing_message(label@) && sp is None,
{
    Error::Type(
        String::from_str("Argument of type ").concat(label).concat(" is missing a value"),
        None,
    )
}

fn no_value_error() -> (r: Error)
    ensures
        r matches Error::Eval(m, sp) && m@ == "Evaluating argument did not result in a value"@
            && sp is None,
{
    Error::Eval(String::from_str("Evaluating argument did not result in a value"), None)
}

fn literal_text_error(label: &str) -> (r: Error)
    ensures
        r matches Error::Type(m, sp) && m@ == literal_message(label@) && sp is None,
{
    Error::Type(
        String::from_str("Argument of type ").concat(label).concat(" must be literal text"),
        None,
    )
}

fn conversion_error(text: &str, target: &str) -> (r: Error)
    ensures
        r matches Error::Type(m, sp) && m@ == convert_message(text@, target@) && sp is None,
{
    Error::Type(
        String::from_str("Failed to convert '").concat(text).concat("' to ").concat(target),
        None,
    )
}

} // verus!
