//! The parse tree the parser produces and the evaluator walks, together with
//! its mathematical model.

use vstd::prelude::*;

use crate::attribute::{AttrModel, Attribute};

verus! {

/// The model of a parse-tree node: text as character sequences, children as
/// sequences of models.
pub enum ElemModel {
    Text(Seq<char>),
    HardLinebreak,
    Function { name: Seq<char>, attrs: Seq<AttrModel>, args: Seq<ElemModel> },
    Block(Seq<ElemModel>),
}

/// A parse-tree node. `Text` owns the covered text; a `Function` holds its
/// name, its attributes and its `|`-separated arguments; `Block` wraps an
/// argument that decomposed into several elements.
#[derive(Debug, PartialEq)]
pub enum ParsedElement {
    Text(String),
    HardLinebreak,
    Function(String, Vec<Attribute>, Vec<ParsedElement>),
    Block(Block),
}

/// The elements of a multi-element argument.
#[derive(Debug, PartialEq)]
pub struct Block {
    pub elements: Vec<ParsedElement>,
}

impl Block {
    pub fn new(elements: Vec<ParsedElement>) -> (b: Self)
        ensures
            b.elements == elements,
    {
        Self { elements }
    }
}

/// The model of an element.
pub open spec fn elem_view(e: ParsedElement) -> ElemModel
    decreases e,
{
    match e {
        ParsedElement::Text(s) => ElemModel::Text(s@),
        ParsedElement::HardLinebreak => ElemModel::HardLinebreak,
        ParsedElement::Function(name, attrs, args) => ElemModel::Function {
            name: name@,
            attrs: attrs@.map_values(|a: Attribute| a@),
            args: elems_view(args@),
        },
        ParsedElement::Block(b) => ElemModel::Block(elems_view(b.elements@)),
    }
}

/// The models of a sequence of elements, in order.
pub open spec fn elems_view(es: Seq<ParsedElement>) -> Seq<ElemModel>
    decreases es,
{
    if es.len() == 0 {
        Seq::empty()
    } else {
        seq![elem_view(es[0])] + elems_view(es.subrange(1, es.len() as int))
    }
}

impl View for ParsedElement {
    type V = ElemModel;

    open spec fn view(&self) -> ElemModel {
        elem_view(*self)
    }
}

impl View for Block {
    type V = Seq<ElemModel>;

    open spec fn view(&self) -> Seq<ElemModel> {
        elems_view(self.elements@)
    }
}

/// Well-formedness of a parse-tree model: every block node holds at least
/// two children. The parser collapses a single-element argument group to
/// its element and drops an emptied group, so blocks below this bound never
/// appear in its output.
pub open spec fn elem_m_wf(e: ElemModel) -> bool
    decreases e,
{
    match e {
        ElemModel::Text(_) => true,
        ElemModel::HardLinebreak => true,
        ElemModel::Function { name: _, attrs: _, args } => elems_m_wf(args),
        ElemModel::Block(es) => es.len() >= 2 && elems_m_wf(es),
    }
}

pub open spec fn elems_m_wf(es: Seq<ElemModel>) -> bool
    decreases es,
{
    if es.len() == 0 {
        true
    } else {
        elem_m_wf(es[0]) && elems_m_wf(es.subrange(1, es.len() as int))
    }
}

/// `elems_m_wf` is pointwise `elem_m_wf`.
pub proof fn lemma_elems_m_wf_index(es: Seq<ElemModel>)
    ensures
        elems_m_wf(es) <==> (forall|i: int| 0 <= i < es.len() ==> elem_m_wf(#[trigger] es[i])),
    decreases es,
{
    if es.len() > 0 {
        let rest = es.subrange(1, es.len() as int);
        lemma_elems_m_wf_index(rest);
        assert(forall|i: int| 1 <= i < es.len() ==> #[trigger] es[i] == rest[i - 1]);
        if elem_m_wf(es[0]) && (forall|j: int| 0 <= j < rest.len() ==> elem_m_wf(
            #[trigger] rest[j],
        )) {
            assert forall|i: int| 0 <= i < es.len() implies elem_m_wf(#[trigger] es[i]) by {
                if i >= 1 {
                    assert(es[i] == rest[i - 1]);
                }
            }
        }
    }
}

/// Whether an element holds no function call anywhere: only text, hard
/// linebreaks, and blocks of such elements. Evaluating such an element
/// involves no host function, so it can be promised to succeed.
pub open spec fn elem_no_function(e: ElemModel) -> bool
    decreases e,
{
    match e {
        ElemModel::Text(_) => true,
        ElemModel::HardLinebreak => true,
        ElemModel::Function { name: _, attrs: _, args: _ } => false,
        ElemModel::Block(es) => elems_no_function(es),
    }
}

pub open spec fn elems_no_function(es: Seq<ElemModel>) -> bool
    decreases es,
{
    if es.len() == 0 {
        true
    } else {
        elem_no_function(es[0]) && elems_no_function(es.subrange(1, es.len() as int))
    }
}

/// `elems_no_function` is pointwise `elem_no_function`.
pub proof fn lemma_elems_no_function_index(es: Seq<ElemModel>)
    ensures
        elems_no_function(es) <==> (forall|i: int|
            0 <= i < es.len() ==> elem_no_function(#[trigger] es[i])),
    decreases es,
{
    if es.len() > 0 {
        let rest = es.subrange(1, es.len() as int);
        lemma_elems_no_function_index(rest);
        assert(forall|i: int| 1 <= i < es.len() ==> #[trigger] es[i] == rest[i - 1]);
        if elem_no_function(es[0]) && (forall|j: int|
            0 <= j < rest.len() ==> elem_no_function(#[trigger] rest[j])) {
            assert forall|i: int| 0 <= i < es.len() implies elem_no_function(
                #[trigger] es[i],
            ) by {
                if i >= 1 {
                    assert(es[i] == rest[i - 1]);
                }
            }
        }
    }
}

/// `elems_view` is pointwise `elem_view`.
pub proof fn lemma_elems_view_len(es: Seq<ParsedElement>)
    ensures
        elems_view(es).len() == es.len(),
        forall|i: int| 0 <= i < es.len() ==> elems_view(es)[i] == elem_view(#[trigger] es[i]),
    decreases es,
{
    if es.len() > 0 {
        let rest = es.subrange(1, es.len() as int);
        lemma_elems_view_len(rest);
        assert forall|i: int| 0 <= i < es.len() implies elems_view(es)[i] == elem_view(
            #[trigger] es[i],
        ) by {
            if i >= 1 {
                assert(es[i] == rest[i - 1]);
                assert(elems_view(es)[i] == elems_view(rest)[i - 1]);
            }
        }
    }
}

/// `elems_view` commutes with taking a subrange.
pub proof fn lemma_elems_view_subrange(es: Seq<ParsedElement>, a: int, b: int)
    requires
        0 <= a <= b <= es.len(),
    ensures
        elems_view(es.subrange(a, b)) == elems_view(es).subrange(a, b),
{
    lemma_elems_view_len(es);
    lemma_elems_view_len(es.subrange(a, b));
    assert forall|i: int| 0 <= i < b - a implies elems_view(es.subrange(a, b))[i] == elems_view(
        es,
    ).subrange(a, b)[i] by {
        assert(es.subrange(a, b)[i] == es[a + i]);
    }
    assert(elems_view(es.subrange(a, b)) =~= elems_view(es).subrange(a, b));
}

/// `elems_view` distributes over concatenation.
pub proof fn lemma_elems_view_push(es: Seq<ParsedElement>, e: ParsedElement)
    ensures
        elems_view(es.push(e)) == elems_view(es) + seq![elem_view(e)],
    decreases es,
{
    if es.len() == 0 {
        assert(es.push(e).subrange(1, es.push(e).len() as int) =~= Seq::<ParsedElement>::empty());
        assert(es.push(e)[0] == e);
        assert(elems_view(es.push(e)) == seq![elem_view(e)] + elems_view(
            Seq::<ParsedElement>::empty(),
        ));
        assert(elems_view(Seq::<ParsedElement>::empty()) == Seq::<ElemModel>::empty());
        assert(elems_view(es) == Seq::<ElemModel>::empty());
        assert(seq![elem_view(e)] + Seq::<ElemModel>::empty() =~= Seq::<ElemModel>::empty() + seq![
            elem_view(e),
        ]);
    } else {
        let rest = es.subrange(1, es.len() as int);
        lemma_elems_view_push(rest, e);
        assert(es.push(e)[0] == es[0]);
        assert(es.push(e).subrange(1, es.push(e).len() as int) =~= rest.push(e));
        assert(elems_view(es.push(e)) == seq![elem_view(es[0])] + elems_view(rest.push(e)));
        assert(elems_view(es) == seq![elem_view(es[0])] + elems_view(rest));
        assert(seq![elem_view(es[0])] + (elems_view(rest) + seq![elem_view(e)]) =~= (seq![
            elem_view(es[0]),
        ] + elems_view(rest)) + seq![elem_view(e)]);
    }
}

} // verus!
