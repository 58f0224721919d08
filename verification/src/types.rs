//! The value model: a closed tagged union representing every value the
//! notation can denote, together with its mathematical view.

use vstd::prelude::*;

verus! {

/// A value of the notation.
///
/// A hash-map is kept as a flat, insertion-ordered sequence of forms that
/// alternate key, value, key, value, ...; the parser enforces that the
/// element count is even. This keeps printing deterministic: keys come back
/// out in the order they were read.
///
/// `Error` is a debug-only sentinel carrying a failure description; the
/// reader never produces it, and the printer renders it specially.
#[derive(Debug, PartialEq, Eq)]
pub enum MalVal {
    Atom(String),
    Boolean(bool),
    Error(String),
    HashMap(Vec<MalVal>),
    Int(isize),
    Keyword(String),
    List(Vec<MalVal>),
    Nil,
    String(String),
    Vector(Vec<MalVal>),
}

/// The mathematical model of a [`MalVal`]: text becomes a sequence of
/// characters, an integer becomes unbounded, and the three sequence
/// variants hold models of their children.
pub enum MalValModel {
    Atom(Seq<char>),
    Boolean(bool),
    Error(Seq<char>),
    HashMap(Seq<MalValModel>),
    Int(int),
    Keyword(Seq<char>),
    List(Seq<MalValModel>),
    Nil,
    String(Seq<char>),
    Vector(Seq<MalValModel>),
}

/// The models of the elements of `items`, in order.
pub open spec fn model_children(items: Seq<MalVal>) -> Seq<MalValModel>
    decreases items,
{
    if items.len() == 0 {
        Seq::empty()
    } else {
        seq![items[0].view()] + model_children(items.drop_first())
    }
}

/// `model_children` maps each element to its model.
pub proof fn lemma_model_children(items: Seq<MalVal>)
    ensures
        model_children(items).len() == items.len(),
        forall|i: int| 0 <= i < items.len() ==> model_children(items)[i] == items[i]@,
    decreases items.len(),
{
    if items.len() > 0 {
        lemma_model_children(items.drop_first());
        assert(model_children(items) == seq![items[0]@] + model_children(items.drop_first()));
        assert forall|i: int| 0 <= i < items.len() implies model_children(items)[i] == items[i]@ by {
            if i > 0 {
                assert(model_children(items)[i] == model_children(items.drop_first())[i - 1]);
                assert(items.drop_first()[i - 1] == items[i]);
            }
        }
    }
}

/// `model_children` over a sequence grown by one element at the end.
pub proof fn lemma_model_children_push(items: Seq<MalVal>, v: MalVal)
    ensures
        model_children(items.push(v)) == model_children(items).push(v@),
{
    lemma_model_children(items.push(v));
    lemma_model_children(items);
    assert(model_children(items.push(v)) =~= model_children(items).push(v@)) by {
        assert(forall|i: int|
            0 <= i < items.len() ==> #[trigger] items.push(v)[i] == items[i]);
        assert(items.push(v)[items.len() as int] == v);
    }
}

impl View for MalVal {
    type V = MalValModel;

    open spec fn view(&self) -> MalValModel
        decreases *self,
    {
        match self {
            MalVal::Atom(s) => MalValModel::Atom(s@),
            MalVal::Boolean(b) => MalValModel::Boolean(*b),
            MalVal::Error(s) => MalValModel::Error(s@),
            MalVal::HashMap(items) => MalValModel::HashMap(model_children(items@)),
            MalVal::Int(n) => MalValModel::Int(*n as int),
            MalVal::Keyword(s) => MalValModel::Keyword(s@),
            MalVal::List(items) => MalValModel::List(model_children(items@)),
            MalVal::Nil => MalValModel::Nil,
            MalVal::String(s) => MalValModel::String(s@),
            MalVal::Vector(items) => MalValModel::Vector(model_children(items@)),
        }
    }
}

impl DeepView for MalVal {
    type V = MalValModel;

    open spec fn deep_view(&self) -> MalValModel {
        self.view()
    }
}

} // verus!
