use vstd::prelude::*;

verus! {

/// A structured value as carried by commands and by the debugger's replies.
///
/// Reading keeps a bare token as text (`Str`) and never coerces it to a number; `Number`
/// holds a number that a caller builds, as text, and is written out as it stands.
/// `Object` keeps its entries in the order in which they were written.
#[derive(Debug, PartialEq)]
pub enum Value {
    Null,
    Bool(bool),
    Number(String),
    Str(String),
    List(Vec<Value>),
    Object(Vec<(String, Value)>),
}

/// The mathematical model of a `Value`.
pub enum ValueModel {
    Null,
    Bool(bool),
    Number(Seq<char>),
    Str(Seq<char>),
    List(Seq<ValueModel>),
    Object(Seq<(Seq<char>, ValueModel)>),
}

/// The model of an ordered list of key/value entries.
pub type EntriesModel = Seq<(Seq<char>, ValueModel)>;

pub open spec fn model_of(v: Value) -> ValueModel
    decreases v,
{
    match v {
        Value::Null => ValueModel::Null,
        Value::Bool(b) => ValueModel::Bool(b),
        Value::Number(t) => ValueModel::Number(t@),
        Value::Str(t) => ValueModel::Str(t@),
        Value::List(items) => ValueModel::List(models_of(items@)),
        Value::Object(entries) => ValueModel::Object(entries_model(entries@)),
    }
}

pub open spec fn models_of(s: Seq<Value>) -> Seq<ValueModel>
    decreases s,
{
    if s.len() == 0 {
        Seq::empty()
    } else {
        models_of(s.subrange(0, s.len() - 1)).push(model_of(s[s.len() - 1]))
    }
}

pub open spec fn entries_model(s: Seq<(String, Value)>) -> EntriesModel
    decreases s,
{
    if s.len() == 0 {
        Seq::empty()
    } else {
        entries_model(s.subrange(0, s.len() - 1)).push(
            (s[s.len() - 1].0@, model_of(s[s.len() - 1].1)),
        )
    }
}

impl View for Value {
    type V = ValueModel;

    open spec fn view(&self) -> ValueModel {
        model_of(*self)
    }
}

} // verus!
