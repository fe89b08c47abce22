use vstd::prelude::*;
use vstd::string::StringExecFns;
use crate::value::{
    Value, SpecValue, view_value, view_items, view_members, lemma_view_items, lemma_view_members,
};

verus! {

broadcast use vstd::std_specs::vec::axiom_vec_decreases_to_view, vstd::seq::axiom_seq_index_decreases, vstd::seq::axiom_seq_subrange_decreases;

/// The canonical text of a tree: `null`, `true` and `false` for the keyword
/// values, a number's literal text as it stands, a string's raw content
/// between two quotes with no escaping, arrays between square braces and
/// objects between curly braces, members rendered as quoted key, colon,
/// space and value, and commas between elements with none after the last.
pub open spec fn spec_serialize(v: SpecValue) -> Seq<char>
    decreases v,
{
    match v {
        SpecValue::Null => "null"@,
        SpecValue::Bool(b) => if b {
            "true"@
        } else {
            "false"@
        },
        SpecValue::Num(t) => t,
        SpecValue::Str(s) => "\""@ + s + "\""@,
        SpecValue::Arr(items) => "["@ + spec_serialize_items(items) + "]"@,
        SpecValue::Obj(members) => "{"@ + spec_serialize_members(members) + "}"@,
    }
}

/// The elements of an array, serialized and joined by commas.
pub open spec fn spec_serialize_items(items: Seq<SpecValue>) -> Seq<char>
    decreases items,
{
    if items.len() == 0 {
        Seq::empty()
    } else if items.len() == 1 {
        spec_serialize(items.last())
    } else {
        spec_serialize_items(items.drop_last()) + ","@ + spec_serialize(items.last())
    }
}

/// The members of an object, serialized and joined by commas.
pub open spec fn spec_serialize_members(members: Seq<(Seq<char>, SpecValue)>) -> Seq<char>
    decreases members,
{
    if members.len() == 0 {
        Seq::empty()
    } else if members.len() == 1 {
        spec_serialize_member(members.last())
    } else {
        spec_serialize_members(members.drop_last()) + ","@ + spec_serialize_member(members.last())
    }
}

/// One object member: the quoted key, a colon and a space, then the value.
pub open spec fn spec_serialize_member(member: (Seq<char>, SpecValue)) -> Seq<char>
    decreases member,
{
    "\""@ + member.0 + "\""@ + ": "@ + spec_serialize(member.1)
}

/// Renders a tree as JSON text. The result is exactly [`spec_serialize`] of
/// the tree's image, so two calls on equal trees yield identical text.
#[verifier::loop_isolation(false)]
pub fn serialize_value(value: &Value) -> (res: String)
    ensures
        res@ == spec_serialize(value@),
    decreases value,
{
    match value {
        Value::Null => "null".to_owned(),
        Value::Bool(b) => {
            if *b {
                "true".to_owned()
            } else {
                "false".to_owned()
            }
        },
        Value::Num(t) => t.clone(),
        Value::Str(s) => {
            let mut r = "\"".to_owned();
            r.append(s.as_str());
            r.append("\"");
            r
        },
        Value::Arr(items) => {
            let ghost s: Seq<SpecValue> = view_items(items@);
            proof {
                lemma_view_items(items@);
            }
            let mut r = "[".to_owned();
            let n = items.len();
            let mut j: usize = 0;
            while j < n
                invariant
                    n == items@.len(),
                    s == view_items(items@),
                    s.len() == n,
                    forall|k: int| 0 <= k < n ==> s[k] == view_value(items@[k]),
                    j <= n,
                    r@ == "["@ + spec_serialize_items(s.take(j as int)),
                decreases n - j,
            {
                if j > 0 {
                    r.append(",");
                }
                proof {
                    assert(decreases_to!(*value => *items));
                    assert(decreases_to!(*items => items@));
                    assert(decreases_to!(items@ => items@[j as int]));
                    assert(decreases_to!(*value => items@[j as int]));
                }
                let piece = serialize_value(&items[j]);
                r.append(piece.as_str());
                proof {
                    assert(s.take(j + 1 as int).drop_last() =~= s.take(j as int));
                    assert(s.take(j + 1 as int).last() == s[j as int]);
                    assert(r@ =~= "["@ + spec_serialize_items(s.take(j + 1 as int)));
                }
                j = j + 1;
            }
            r.append("]");
            proof {
                assert(s.take(n as int) =~= s);
                assert(r@ =~= spec_serialize(value@));
            }
            r
        },
        Value::Obj(members) => {
            let ghost s: Seq<(Seq<char>, SpecValue)> = view_members(members@);
            proof {
                lemma_view_members(members@);
            }
            let mut r = "{".to_owned();
            let n = members.len();
            let mut j: usize = 0;
            while j < n
                invariant
                    n == members@.len(),
                    s == view_members(members@),
                    s.len() == n,
                    forall|k: int| 0 <= k < n ==> s[k] == (
                        members@[k].0@,
                        view_value(members@[k].1),
                    ),
                    j <= n,
                    r@ == "{"@ + spec_serialize_members(s.take(j as int)),
                decreases n - j,
            {
                if j > 0 {
                    r.append(",");
                }
                let member = &members[j];
                r.append("\"");
                r.append(member.0.as_str());
                r.append("\"");
                r.append(": ");
                proof {
                    assert(decreases_to!(*value => *members));
                    assert(decreases_to!(*members => members@));
                    assert(decreases_to!(members@ => members@[j as int]));
                    assert(decreases_to!(members@[j as int] => members@[j as int].1));
                    assert(decreases_to!(*value => members@[j as int].1));
                }
                let piece = serialize_value(&member.1);
                r.append(piece.as_str());
                proof {
                    let t = s.take(j + 1 as int);
                    assert(t.drop_last() =~= s.take(j as int));
                    assert(t.last() == s[j as int]);
                    assert(piece@ == spec_serialize(s[j as int].1));
                    assert(member.0@ == s[j as int].0);
                    assert(spec_serialize_member(s[j as int]) == "\""@ + s[j as int].0 + "\""@
                        + ": "@ + piece@);
                    if j > 0 {
                        assert(spec_serialize_members(t) == spec_serialize_members(
                            s.take(j as int),
                        ) + ","@ + spec_serialize_member(s[j as int]));
                    } else {
                        assert(spec_serialize_members(t) == spec_serialize_member(s[j as int]));
                    }
                    assert(r@ =~= "{"@ + spec_serialize_members(t));
                }
                j = j + 1;
            }
            r.append("}");
            proof {
                assert(s.take(n as int) =~= s);
                assert(r@ =~= spec_serialize(value@));
            }
            r
        },
    }
}

} // verus!
