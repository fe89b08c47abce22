use vstd::prelude::*;
use crate::token::is_valid_number_literal;

verus! {

broadcast use vstd::std_specs::vec::axiom_vec_decreases_to_view, vstd::seq::axiom_seq_index_decreases, vstd::seq::axiom_seq_subrange_decreases;

/// A parsed JSON document: a tagged tree of values.
///
/// A number is kept as its raw, grammar-checked literal text rather than as a
/// machine float, so the tree states exactly what the input said; a hosting
/// program may convert the text to its favourite numeric type. A string holds
/// its content verbatim: the grammar recognized here interprets no backslash
/// escapes. An object keeps its members in insertion order, and parsing
/// rejects a duplicate key rather than overwriting the earlier member.
#[derive(Debug, PartialEq)]
pub enum Value {
    Null,
    Bool(bool),
    Num(String),
    Str(String),
    Arr(Vec<Value>),
    Obj(Vec<(String, Value)>),
}

/// The mathematical image of a [`Value`]: text becomes a character sequence,
/// vectors become sequences.
#[verifier::ext_equal]
pub enum SpecValue {
    Null,
    Bool(bool),
    Num(Seq<char>),
    Str(Seq<char>),
    Arr(Seq<SpecValue>),
    Obj(Seq<(Seq<char>, SpecValue)>),
}

/// The mathematical image of a tree, taken recursively.
pub open spec fn view_value(v: Value) -> SpecValue
    decreases v,
    via view_value_decreases
{
    match v {
        Value::Null => SpecValue::Null,
        Value::Bool(b) => SpecValue::Bool(b),
        Value::Num(t) => SpecValue::Num(t@),
        Value::Str(s) => SpecValue::Str(s@),
        Value::Arr(items) => SpecValue::Arr(view_items(items@)),
        Value::Obj(members) => SpecValue::Obj(view_members(members@)),
    }
}

/// The images of the elements of an array, in order.
pub open spec fn view_items(items: Seq<Value>) -> Seq<SpecValue>
    decreases items,
{
    if items.len() == 0 {
        Seq::empty()
    } else {
        view_items(items.drop_last()).push(view_value(items.last()))
    }
}

/// The images of the members of an object, in order.
pub open spec fn view_members(members: Seq<(String, Value)>) -> Seq<(Seq<char>, SpecValue)>
    decreases members,
{
    if members.len() == 0 {
        Seq::empty()
    } else {
        view_members(members.drop_last()).push(
            (members.last().0@, view_value(members.last().1)),
        )
    }
}

#[via_fn]
proof fn view_value_decreases(v: Value) {
    match v {
        Value::Arr(items) => {
            assert(decreases_to!(v => items));
            assert(decreases_to!(items => items@));
        }
        Value::Obj(members) => {
            assert(decreases_to!(v => members));
            assert(decreases_to!(members => members@));
        }
        _ => {}
    }
}

impl DeepView for Value {
    type V = SpecValue;

    open spec fn deep_view(&self) -> SpecValue {
        view_value(*self)
    }
}

impl View for Value {
    type V = SpecValue;

    open spec fn view(&self) -> SpecValue {
        view_value(*self)
    }
}

/// The length of an array's image equals the array's, and each element of the
/// image is the image of the element.
pub proof fn lemma_view_items(items: Seq<Value>)
    ensures
        view_items(items).len() == items.len(),
        forall|i: int| 0 <= i < items.len() ==> view_items(items)[i] == view_value(items[i]),
    decreases items.len(),
{
    if items.len() > 0 {
        lemma_view_items(items.drop_last());
    }
}

/// The length of an object's image equals the object's, and each member of
/// the image is the image of the member.
pub proof fn lemma_view_members(members: Seq<(String, Value)>)
    ensures
        view_members(members).len() == members.len(),
        forall|i: int| 0 <= i < members.len() ==> view_members(members)[i] == (
            members[i].0@,
            view_value(members[i].1),
        ),
    decreases members.len(),
{
    if members.len() > 0 {
        lemma_view_members(members.drop_last());
    }
}

/// No two members of the sequence share a key.
pub open spec fn obj_keys_unique(members: Seq<(Seq<char>, SpecValue)>) -> bool {
    forall|i: int, j: int| 0 <= i < j < members.len() ==> members[i].0 != members[j].0
}

/// A well-formed tree: every number literal obeys the number grammar and the
/// keys of every object are pairwise distinct. Parsing only ever builds
/// well-formed trees.
pub open spec fn wf_value(v: SpecValue) -> bool
    decreases v,
{
    match v {
        SpecValue::Null => true,
        SpecValue::Bool(_) => true,
        SpecValue::Num(t) => is_valid_number_literal(t),
        SpecValue::Str(_) => true,
        SpecValue::Arr(items) => forall|i: int|
            0 <= i < items.len() ==> wf_value(#[trigger] items[i]),
        SpecValue::Obj(members) => obj_keys_unique(members) && forall|i: int|
            0 <= i < members.len() ==> wf_value(#[trigger] members[i].1),
    }
}

} // verus!
