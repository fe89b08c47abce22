use vstd::prelude::*;
use crate::errors::ParseError;
use crate::token::{
    SpecToken, SpecTokenKind, is_json_digit, digit_run, number_shape, is_valid_number_literal,
};
use crate::value::{SpecValue, wf_value, obj_keys_unique};
use crate::parser::{
    ParseOut, spec_parse_value, spec_parse_object, spec_parse_array, spec_parse_obj_items,
    spec_parse_arr_items, spec_parse_member, spec_parse_tokens,
};
use crate::scanner::{
    spec_scan, count_newlines, dist_to, match_run, sat_add,
};
use crate::serializer::{spec_serialize, spec_serialize_items, spec_serialize_members,
    spec_serialize_member};

verus! {

broadcast use vstd::std_specs::vec::axiom_vec_decreases_to_view, vstd::seq::axiom_seq_index_decreases, vstd::seq::axiom_seq_subrange_decreases;

/// The kinds of the tokens that a tree's canonical text scans into, in
/// order: the serializer and the scanner, composed, produce exactly these.
pub open spec fn token_kinds_of(v: SpecValue) -> Seq<SpecTokenKind>
    decreases v,
{
    match v {
        SpecValue::Null => seq![SpecTokenKind::Null],
        SpecValue::Bool(b) => if b {
            seq![SpecTokenKind::True]
        } else {
            seq![SpecTokenKind::False]
        },
        SpecValue::Num(t) => seq![SpecTokenKind::Num(t)],
        SpecValue::Str(s) => seq![SpecTokenKind::Str(s)],
        SpecValue::Arr(items) => seq![SpecTokenKind::LeftSquaredBrace] + arr_tail_kinds(
            items,
            false,
        ),
        SpecValue::Obj(members) => seq![SpecTokenKind::LeftCurlyBrace] + obj_tail_kinds(
            members,
            false,
        ),
    }
}

/// The token kinds of the rest of an array: a comma before each element
/// but the first, the elements themselves, then the closing brace.
pub open spec fn arr_tail_kinds(items: Seq<SpecValue>, prev: bool) -> Seq<SpecTokenKind>
    decreases items,
{
    if items.len() == 0 {
        seq![SpecTokenKind::RightSquaredBrace]
    } else {
        (if prev {
            seq![SpecTokenKind::Comma]
        } else {
            Seq::empty()
        }) + token_kinds_of(items[0]) + arr_tail_kinds(items.drop_first(), true)
    }
}

/// The token kinds of the rest of an object: a comma before each member
/// but the first, each member as key, colon and value, then the closing
/// brace.
pub open spec fn obj_tail_kinds(members: Seq<(Seq<char>, SpecValue)>, prev: bool) -> Seq<
    SpecTokenKind,
>
    decreases members,
{
    if members.len() == 0 {
        seq![SpecTokenKind::RightCurlyBrace]
    } else {
        (if prev {
            seq![SpecTokenKind::Comma]
        } else {
            Seq::empty()
        }) + seq![SpecTokenKind::Str(members[0].0), SpecTokenKind::Colon] + token_kinds_of(
            members[0].1,
        ) + obj_tail_kinds(members.drop_first(), true)
    }
}

/// A tree's token form is never empty, and its first token is one that can
/// begin a value: never a closing brace, comma, colon or end of input.
pub proof fn lemma_first_kind(v: SpecValue)
    ensures
        token_kinds_of(v).len() >= 1,
        !(token_kinds_of(v)[0] is RightSquaredBrace),
        !(token_kinds_of(v)[0] is RightCurlyBrace),
        !(token_kinds_of(v)[0] is Comma),
        !(token_kinds_of(v)[0] is Colon),
        !(token_kinds_of(v)[0] is Eof),
{
    match v {
        SpecValue::Arr(items) => {
            assert(token_kinds_of(v)[0] == SpecTokenKind::LeftSquaredBrace);
        },
        SpecValue::Obj(members) => {
            assert(token_kinds_of(v)[0] == SpecTokenKind::LeftCurlyBrace);
        },
        _ => {},
    }
}

/// Parsing a well-formed tree's token form from `pos` yields exactly that
/// tree, consumes exactly its tokens, and records no fault, whatever else
/// follows in the sequence.
pub proof fn lemma_parse_of_kinds(v: SpecValue, toks: Seq<SpecToken>, pos: int)
    requires
        wf_value(v),
        0 <= pos,
        pos + token_kinds_of(v).len() <= toks.len(),
        forall|j: int| 0 <= j < token_kinds_of(v).len() ==> (#[trigger] toks[pos + j]).kind
            == token_kinds_of(v)[j],
    ensures
        spec_parse_value(toks, pos) == (ParseOut {
            val: Some(v),
            next: pos + token_kinds_of(v).len(),
            errs: Seq::<ParseError>::empty(),
        }),
    decreases v,
{
    lemma_first_kind(v);
    assert(toks[pos + 0].kind == token_kinds_of(v)[0]);
    match v {
        SpecValue::Null => {
            assert(spec_parse_value(toks, pos) =~= ParseOut {
                val: Some(v),
                next: pos + 1,
                errs: Seq::<ParseError>::empty(),
            });
        },
        SpecValue::Bool(b) => {
            assert(spec_parse_value(toks, pos) =~= ParseOut {
                val: Some(v),
                next: pos + 1,
                errs: Seq::<ParseError>::empty(),
            });
        },
        SpecValue::Num(t) => {
            assert(spec_parse_value(toks, pos) =~= ParseOut {
                val: Some(v),
                next: pos + 1,
                errs: Seq::<ParseError>::empty(),
            });
        },
        SpecValue::Str(s) => {
            assert(spec_parse_value(toks, pos) =~= ParseOut {
                val: Some(v),
                next: pos + 1,
                errs: Seq::<ParseError>::empty(),
            });
        },
        SpecValue::Arr(items) => {
            assert(toks[pos + 0].kind == SpecTokenKind::LeftSquaredBrace);
            assert forall|j: int| 0 <= j < arr_tail_kinds(items, false).len() implies (
            #[trigger] toks[pos + 1 + j]).kind == arr_tail_kinds(items, false)[j] by {
                assert(toks[pos + (1 + j)].kind == token_kinds_of(v)[1 + j]);
                assert(token_kinds_of(v)[1 + j] == arr_tail_kinds(items, false)[j]);
            }
            lemma_parse_of_arr_kinds(items, Seq::empty(), toks, pos + 1, false);
            assert(Seq::empty() + items =~= items);
            assert(spec_parse_value(toks, pos) == spec_parse_array(toks, pos));
            assert(spec_parse_array(toks, pos) =~= ParseOut {
                val: Some(v),
                next: pos + token_kinds_of(v).len(),
                errs: Seq::<ParseError>::empty(),
            });
        },
        SpecValue::Obj(members) => {
            assert(toks[pos + 0].kind == SpecTokenKind::LeftCurlyBrace);
            assert forall|j: int| 0 <= j < obj_tail_kinds(members, false).len() implies (
            #[trigger] toks[pos + 1 + j]).kind == obj_tail_kinds(members, false)[j] by {
                assert(toks[pos + (1 + j)].kind == token_kinds_of(v)[1 + j]);
                assert(token_kinds_of(v)[1 + j] == obj_tail_kinds(members, false)[j]);
            }
            lemma_parse_of_obj_kinds(members, Seq::empty(), toks, pos + 1, false);
            assert(Seq::empty() + members =~= members);
            assert(spec_parse_value(toks, pos) == spec_parse_object(toks, pos));
            assert(spec_parse_object(toks, pos) =~= ParseOut {
                val: Some(v),
                next: pos + token_kinds_of(v).len(),
                errs: Seq::<ParseError>::empty(),
            });
        },
    }
}

/// Parsing the rest of an array's token form collects exactly the
/// remaining elements after those already read, and records no fault.
pub proof fn lemma_parse_of_arr_kinds(
    items: Seq<SpecValue>,
    acc: Seq<SpecValue>,
    toks: Seq<SpecToken>,
    pos: int,
    prev: bool,
)
    requires
        forall|k: int| 0 <= k < items.len() ==> wf_value(#[trigger] items[k]),
        0 <= pos,
        pos + arr_tail_kinds(items, prev).len() <= toks.len(),
        forall|j: int| 0 <= j < arr_tail_kinds(items, prev).len() ==> (#[trigger] toks[pos
            + j]).kind == arr_tail_kinds(items, prev)[j],
    ensures
        spec_parse_arr_items(toks, pos, acc, prev) == (ParseOut {
            val: Some(SpecValue::Arr(acc + items)),
            next: pos + arr_tail_kinds(items, prev).len(),
            errs: Seq::<ParseError>::empty(),
        }),
    decreases items,
{
    let tail = arr_tail_kinds(items, prev);
    if items.len() == 0 {
        assert(toks[pos + 0].kind == SpecTokenKind::RightSquaredBrace);
        assert(acc + items =~= acc);
        assert(spec_parse_arr_items(toks, pos, acc, prev) =~= ParseOut {
            val: Some(SpecValue::Arr(acc)),
            next: pos + 1,
            errs: Seq::<ParseError>::empty(),
        });
    } else {
        let head = items[0];
        let k0 = token_kinds_of(head);
        lemma_first_kind(head);
        let sep: int = if prev {
            1
        } else {
            0
        };
        let epos = pos + sep;
        if prev {
            assert(toks[pos + 0].kind == SpecTokenKind::Comma);
        }
        assert forall|j: int| 0 <= j < k0.len() implies (#[trigger] toks[epos + j]).kind
            == k0[j] by {
            assert(toks[pos + (sep + j)].kind == tail[sep + j]);
            assert(tail[sep + j] == k0[j]);
        }
        assert(toks[epos + 0].kind == k0[0]);
        lemma_parse_of_kinds(head, toks, epos);
        let vnext = epos + k0.len();
        let rest_tail = arr_tail_kinds(items.drop_first(), true);
        assert forall|j: int| 0 <= j < rest_tail.len() implies (#[trigger] toks[vnext
            + j]).kind == rest_tail[j] by {
            assert(toks[pos + (sep + k0.len() + j)].kind == tail[sep + k0.len() + j]);
            assert(tail[sep + k0.len() + j] == rest_tail[j]);
        }
        lemma_parse_of_arr_kinds(items.drop_first(), acc.push(head), toks, vnext, true);
        assert(acc.push(head) + items.drop_first() =~= acc + items);
        assert(spec_parse_arr_items(toks, pos, acc, prev) =~= ParseOut {
            val: Some(SpecValue::Arr(acc + items)),
            next: pos + tail.len(),
            errs: Seq::<ParseError>::empty(),
        });
    }
}

/// Parsing the rest of an object's token form collects exactly the
/// remaining members after those already read, in order, and records no
/// fault; with all keys distinct, the duplicate-key check never fires.
pub proof fn lemma_parse_of_obj_kinds(
    members: Seq<(Seq<char>, SpecValue)>,
    acc: Seq<(Seq<char>, SpecValue)>,
    toks: Seq<SpecToken>,
    pos: int,
    prev: bool,
)
    requires
        forall|k: int| 0 <= k < members.len() ==> wf_value(#[trigger] members[k].1),
        obj_keys_unique(acc + members),
        0 <= pos,
        pos + obj_tail_kinds(members, prev).len() <= toks.len(),
        forall|j: int| 0 <= j < obj_tail_kinds(members, prev).len() ==> (#[trigger] toks[pos
            + j]).kind == obj_tail_kinds(members, prev)[j],
    ensures
        spec_parse_obj_items(toks, pos, acc, prev) == (ParseOut {
            val: Some(SpecValue::Obj(acc + members)),
            next: pos + obj_tail_kinds(members, prev).len(),
            errs: Seq::<ParseError>::empty(),
        }),
    decreases members,
{
    let tail = obj_tail_kinds(members, prev);
    if members.len() == 0 {
        assert(toks[pos + 0].kind == SpecTokenKind::RightCurlyBrace);
        assert(acc + members =~= acc);
        assert(spec_parse_obj_items(toks, pos, acc, prev) =~= ParseOut {
            val: Some(SpecValue::Obj(acc)),
            next: pos + 1,
            errs: Seq::<ParseError>::empty(),
        });
    } else {
        let head = members[0];
        let k0 = token_kinds_of(head.1);
        lemma_first_kind(head.1);
        let sep: int = if prev {
            1
        } else {
            0
        };
        let mpos = pos + sep;
        if prev {
            assert(toks[pos + 0].kind == SpecTokenKind::Comma);
        }
        assert forall|j: int| 0 <= j < 2 + k0.len() implies (#[trigger] toks[mpos + j]).kind
            == (seq![
            SpecTokenKind::Str(head.0),
            SpecTokenKind::Colon,
        ] + k0)[j] by {
            assert(toks[pos + (sep + j)].kind == tail[sep + j]);
            assert(tail[sep + j] == (seq![
                SpecTokenKind::Str(head.0),
                SpecTokenKind::Colon,
            ] + k0)[j]);
        }
        assert(toks[mpos + 0].kind == SpecTokenKind::Str(head.0));
        assert(toks[mpos + 1].kind == SpecTokenKind::Colon);
        assert forall|j: int| 0 <= j < k0.len() implies (#[trigger] toks[mpos + 2 + j]).kind
            == k0[j] by {
            assert(toks[mpos + (2 + j)].kind == (seq![
                SpecTokenKind::Str(head.0),
                SpecTokenKind::Colon,
            ] + k0)[2 + j]);
        }
        lemma_parse_of_kinds(head.1, toks, mpos + 2);
        let m = spec_parse_member(toks, mpos);
        assert(mpos + 1 < toks.len());
        assert(m.res == Some((head.0, head.1)));
        assert(m.errs =~= Seq::<ParseError>::empty());
        // the new key differs from every key already read
        assert forall|t: int| 0 <= t < acc.len() implies acc[t].0 != head.0 by {
            assert((acc + members)[t] == acc[t]);
            assert((acc + members)[acc.len() as int] == head);
        }
        assert(!(exists|t: int| 0 <= t < acc.len() && acc[t].0 == (head.0, head.1).0));
        let vnext = mpos + 2 + k0.len();
        assert(m.next == vnext);
        let rest_tail = obj_tail_kinds(members.drop_first(), true);
        assert forall|j: int| 0 <= j < rest_tail.len() implies (#[trigger] toks[vnext
            + j]).kind == rest_tail[j] by {
            assert(toks[pos + (sep + 2 + k0.len() + j)].kind == tail[sep + 2 + k0.len() + j]);
            assert(tail[sep + 2 + k0.len() + j] == rest_tail[j]);
        }
        assert(acc.push(head) + members.drop_first() =~= acc + members);
        lemma_parse_of_obj_kinds(members.drop_first(), acc.push(head), toks, vnext, true);
        assert(spec_parse_obj_items(toks, pos, acc, prev) =~= ParseOut {
            val: Some(SpecValue::Obj(acc + members)),
            next: pos + tail.len(),
            errs: Seq::<ParseError>::empty(),
        });
    }
}

/// Parsing a whole token sequence that is a well-formed tree's token form
/// followed by the end-of-input token yields exactly that tree, with no
/// fault.
pub proof fn lemma_parse_tokens_of_kinds(v: SpecValue, toks: Seq<SpecToken>)
    requires
        wf_value(v),
        toks.len() == token_kinds_of(v).len() + 1,
        forall|j: int| 0 <= j < token_kinds_of(v).len() ==> toks[j].kind == token_kinds_of(v)[j],
        toks.last().kind is Eof,
    ensures
        spec_parse_tokens(toks).val == Some(v),
        spec_parse_tokens(toks).errs == Seq::<ParseError>::empty(),
{
    assert forall|j: int| 0 <= j < token_kinds_of(v).len() implies toks[0 + j].kind
        == token_kinds_of(v)[j] by {
        assert(toks[j].kind == token_kinds_of(v)[j]);
    }
    lemma_parse_of_kinds(v, toks, 0);
}

/// The kinds of a token sequence, in order.
pub open spec fn kinds_of(toks: Seq<SpecToken>) -> Seq<SpecTokenKind> {
    toks.map_values(|t: SpecToken| t.kind)
}

/// The text holds no quote character.
pub open spec fn no_quote(s: Seq<char>) -> bool {
    forall|k: int| 0 <= k < s.len() ==> s[k] != '"'
}

/// No string content and no object key in the tree holds a raw quote
/// character: the scanner interprets no escapes, so a quote inside a
/// string's content would end the literal early when the text is read back.
pub open spec fn quotes_ok(v: SpecValue) -> bool
    decreases v,
{
    match v {
        SpecValue::Str(s) => no_quote(s),
        SpecValue::Arr(items) => forall|k: int|
            0 <= k < items.len() ==> quotes_ok(#[trigger] items[k]),
        SpecValue::Obj(members) => forall|k: int|
            0 <= k < members.len() ==> no_quote(#[trigger] members[k].0) && quotes_ok(
                members[k].1,
            ),
        _ => true,
    }
}

/// The canonical text of the rest of an array, from after the element
/// already written: a comma before each further element, then the closing
/// brace.
pub open spec fn arr_tail_text(items: Seq<SpecValue>, prev: bool) -> Seq<char>
    decreases items,
{
    if items.len() == 0 {
        "]"@
    } else {
        (if prev {
            ","@
        } else {
            Seq::empty()
        }) + spec_serialize(items[0]) + arr_tail_text(items.drop_first(), true)
    }
}

/// The canonical text of the rest of an object, likewise.
pub open spec fn obj_tail_text(members: Seq<(Seq<char>, SpecValue)>, prev: bool) -> Seq<char>
    decreases members,
{
    if members.len() == 0 {
        "}"@
    } else {
        (if prev {
            ","@
        } else {
            Seq::empty()
        }) + spec_serialize_member(members[0]) + obj_tail_text(members.drop_first(), true)
    }
}

/// Peeling an array's first element off its serialized element list.
pub proof fn lemma_ser_items_left(items: Seq<SpecValue>)
    requires
        items.len() >= 1,
    ensures
        spec_serialize_items(items) == if items.len() == 1 {
            spec_serialize(items[0])
        } else {
            spec_serialize(items[0]) + ","@ + spec_serialize_items(items.drop_first())
        },
    decreases items.len(),
{
    if items.len() >= 2 {
        let dl = items.drop_last();
        lemma_ser_items_left(dl);
        assert(dl[0] == items[0]);
        if items.len() == 2 {
            assert(items.drop_first().len() == 1);
            assert(items.drop_first()[0] == items[1]);
            assert(dl.len() == 1);
            assert(spec_serialize_items(items.drop_first()) == spec_serialize(items[1]));
            assert(items.last() == items[1]);
            assert(spec_serialize_items(items) =~= spec_serialize(items[0]) + ","@
                + spec_serialize_items(items.drop_first()));
        } else {
            let df = items.drop_first();
            assert(df.drop_last() =~= dl.drop_first());
            assert(df.last() == items.last());
            assert(df.len() >= 2);
            assert(spec_serialize_items(df) == spec_serialize_items(df.drop_last()) + ","@
                + spec_serialize(df.last()));
            assert(spec_serialize_items(items) =~= spec_serialize(items[0]) + ","@
                + spec_serialize_items(df));
        }
    }
}

/// Peeling an object's first member off its serialized member list.
pub proof fn lemma_ser_members_left(members: Seq<(Seq<char>, SpecValue)>)
    requires
        members.len() >= 1,
    ensures
        spec_serialize_members(members) == if members.len() == 1 {
            spec_serialize_member(members[0])
        } else {
            spec_serialize_member(members[0]) + ","@ + spec_serialize_members(
                members.drop_first(),
            )
        },
    decreases members.len(),
{
    if members.len() >= 2 {
        let dl = members.drop_last();
        lemma_ser_members_left(dl);
        assert(dl[0] == members[0]);
        if members.len() == 2 {
            assert(members.drop_first().len() == 1);
            assert(members.drop_first()[0] == members[1]);
            assert(dl.len() == 1);
            assert(spec_serialize_members(members.drop_first()) == spec_serialize_member(
                members[1],
            ));
            assert(members.last() == members[1]);
            assert(spec_serialize_members(members) =~= spec_serialize_member(members[0]) + ","@
                + spec_serialize_members(members.drop_first()));
        } else {
            let df = members.drop_first();
            assert(df.drop_last() =~= dl.drop_first());
            assert(df.last() == members.last());
            assert(df.len() >= 2);
            assert(spec_serialize_members(df) == spec_serialize_members(df.drop_last()) + ","@
                + spec_serialize_member(df.last()));
            assert(spec_serialize_members(members) =~= spec_serialize_member(members[0]) + ","@
                + spec_serialize_members(df));
        }
    }
}

/// An array's canonical text is its opening brace followed by its tail
/// text; likewise from any later element on.
pub proof fn lemma_arr_text(items: Seq<SpecValue>)
    ensures
        arr_tail_text(items, false) == spec_serialize_items(items) + "]"@,
        items.len() > 0 ==> arr_tail_text(items, true) == ","@ + spec_serialize_items(items)
            + "]"@,
    decreases items.len(),
{
    reveal_with_fuel(arr_tail_text, 2);
    if items.len() == 0 {
        assert(arr_tail_text(items, false) =~= spec_serialize_items(items) + "]"@);
    } else {
        let rest = items.drop_first();
        lemma_arr_text(rest);
        lemma_ser_items_left(items);
        if items.len() == 1 {
            assert(rest.len() == 0);
            assert(items.last() == items[0]);
            assert(spec_serialize_items(items) == spec_serialize(items[0]));
            assert(arr_tail_text(items, false) =~= spec_serialize(items[0]) + "]"@);
        } else {
            assert(rest.len() > 0);
            assert(arr_tail_text(rest, true) == ","@ + spec_serialize_items(rest) + "]"@);
            assert(spec_serialize_items(items) == spec_serialize(items[0]) + ","@
                + spec_serialize_items(rest));
        }
        assert(arr_tail_text(items, false) =~= spec_serialize_items(items) + "]"@);
        assert(arr_tail_text(items, true) =~= ","@ + spec_serialize_items(items) + "]"@);
    }
}

/// An object's canonical text is its opening brace followed by its tail
/// text; likewise from any later member on.
pub proof fn lemma_obj_text(members: Seq<(Seq<char>, SpecValue)>)
    ensures
        obj_tail_text(members, false) == spec_serialize_members(members) + "}"@,
        members.len() > 0 ==> obj_tail_text(members, true) == ","@ + spec_serialize_members(
            members,
        ) + "}"@,
    decreases members.len(),
{
    reveal_with_fuel(obj_tail_text, 2);
    if members.len() == 0 {
        assert(obj_tail_text(members, false) =~= spec_serialize_members(members) + "}"@);
    } else {
        let rest = members.drop_first();
        lemma_obj_text(rest);
        lemma_ser_members_left(members);
        if members.len() == 1 {
            assert(rest.len() == 0);
            assert(members.last() == members[0]);
            assert(spec_serialize_members(members) == spec_serialize_member(members[0]));
            assert(obj_tail_text(members, false) =~= spec_serialize_member(members[0]) + "}"@);
        } else {
            assert(rest.len() > 0);
            assert(obj_tail_text(rest, true) == ","@ + spec_serialize_members(rest) + "}"@);
            assert(spec_serialize_members(members) == spec_serialize_member(members[0]) + ","@
                + spec_serialize_members(rest));
        }
        assert(obj_tail_text(members, false) =~= spec_serialize_members(members) + "}"@);
        assert(obj_tail_text(members, true) =~= ","@ + spec_serialize_members(members) + "}"@);
    }
}

/// Newline counts over adjacent ranges add up.
pub proof fn lemma_count_split(s: Seq<char>, a: int, b: int, c: int)
    requires
        a <= b <= c,
    ensures
        count_newlines(s, a, c) == count_newlines(s, a, b) + count_newlines(s, b, c),
    decreases b - a,
{
    if a < b {
        lemma_count_split(s, a + 1, b, c);
    }
}

/// A range without newline characters counts zero.
pub proof fn lemma_count_none(s: Seq<char>, a: int, b: int)
    requires
        a <= b,
        forall|k: int| a <= k < b ==> #[trigger] s[k] != '\n',
    ensures
        count_newlines(s, a, b) == 0,
    decreases b - a,
{
    if a < b {
        lemma_count_none(s, a + 1, b);
    }
}

/// The distance to a sought character is exact: `d` characters without it,
/// then the character itself.
pub proof fn lemma_dist_to_exact(s: Seq<char>, j: int, d: int, c: char)
    requires
        0 <= j,
        0 <= d,
        j + d < s.len(),
        forall|k: int| j <= k < j + d ==> #[trigger] s[k] != c,
        s[j + d] == c,
    ensures
        dist_to(s, j, c) == d,
    decreases d,
{
    if d > 0 {
        lemma_dist_to_exact(s, j + 1, d - 1, c);
    }
}

/// A word that stands character for character in the buffer matches whole.
pub proof fn lemma_match_run_full(s: Seq<char>, j: int, w: Seq<char>, k: int)
    requires
        0 <= j,
        0 <= k <= w.len(),
        j + (w.len() - k) <= s.len(),
        forall|p: int| k <= p < w.len() ==> #[trigger] s[j + (p - k)] == w[p],
    ensures
        match_run(s, j, w, k) == w.len() - k,
    decreases w.len() - k,
{
    if k < w.len() {
        assert(s[j + (k - k)] == w[k]);
        assert forall|p: int| k + 1 <= p < w.len() implies #[trigger] s[(j + 1) + (p - (k
            + 1))] == w[p] by {
            assert(s[j + (p - k)] == w[p]);
        }
        lemma_match_run_full(s, j + 1, w, k + 1);
    }
}

/// A digit run read inside the buffer equals the digit run of the stand-
/// alone lexeme, the character after the lexeme not being a digit.
pub proof fn lemma_digit_run_translate(s: Seq<char>, t: Seq<char>, i: int, x: int)
    requires
        0 <= i,
        0 <= x <= t.len(),
        i + t.len() <= s.len(),
        forall|p: int| 0 <= p < t.len() ==> #[trigger] s[i + p] == t[p],
        i + t.len() < s.len() ==> !is_json_digit(s[i + t.len()]),
    ensures
        digit_run(s, i + x) == digit_run(t, x),
    decreases t.len() - x,
{
    if x < t.len() {
        assert(s[i + x] == t[x]);
        if is_json_digit(t[x]) {
            lemma_digit_run_translate(s, t, i, x + 1);
        }
    }
}

/// A valid number lexeme standing in the buffer, with no digit, dot or
/// exponent letter directly after it, is read back exactly: the maximal
/// munch ends at its end and every sub-rule holds.
pub proof fn lemma_number_shape_translate(s: Seq<char>, t: Seq<char>, i: int)
    requires
        is_valid_number_literal(t),
        0 <= i,
        i + t.len() <= s.len(),
        forall|p: int| 0 <= p < t.len() ==> #[trigger] s[i + p] == t[p],
        i + t.len() < s.len() ==> !(is_json_digit(s[i + t.len()]) || s[i + t.len()] == '.' || s[i
            + t.len()] == 'e' || s[i + t.len()] == 'E'),
    ensures
        number_shape(s, i).end == i + t.len(),
        number_shape(s, i).int_ok,
        number_shape(s, i).frac_ok,
        number_shape(s, i).exp_ok,
{
    let sht = number_shape(t, 0);
    assert(s[i + 0] == t[0]);
    let ip_t: int = if t[0] == '-' {
        1
    } else {
        0
    };
    lemma_digit_run_translate(s, t, i, ip_t);
    let int_end_t = ip_t + digit_run(t, ip_t);
    assert(int_end_t <= t.len()) by {
        crate::scanner::lemma_digit_run(t, ip_t);
    }
    if int_end_t < t.len() {
        assert(s[i + int_end_t] == t[int_end_t]);
    }
    if int_end_t < t.len() && t[int_end_t] == '.' {
        lemma_digit_run_translate(s, t, i, int_end_t + 1);
    }
    let frac_end_t = if int_end_t < t.len() && t[int_end_t] == '.' {
        int_end_t + 1 + digit_run(t, int_end_t + 1)
    } else {
        int_end_t
    };
    assert(frac_end_t <= t.len()) by {
        if int_end_t < t.len() && t[int_end_t] == '.' {
            crate::scanner::lemma_digit_run(t, int_end_t + 1);
        }
    }
    if frac_end_t < t.len() {
        assert(s[i + frac_end_t] == t[frac_end_t]);
    }
    if frac_end_t < t.len() && (t[frac_end_t] == 'e' || t[frac_end_t] == 'E') {
        if frac_end_t + 1 < t.len() {
            assert(s[i + (frac_end_t + 1)] == t[frac_end_t + 1]);
        }
        let sp_t = if frac_end_t + 1 < t.len() && (t[frac_end_t + 1] == '+' || t[frac_end_t + 1]
            == '-') {
            frac_end_t + 2
        } else {
            frac_end_t + 1
        };
        assert(sp_t <= t.len());
        lemma_digit_run_translate(s, t, i, sp_t);
    }
}

/// Every character of a valid number lexeme is a digit, a sign, a dot or
/// an exponent letter: never a newline and never a quote.
pub proof fn lemma_number_chars(t: Seq<char>)
    requires
        is_valid_number_literal(t),
    ensures
        forall|p: int| 0 <= p < t.len() ==> #[trigger] t[p] != '\n' && t[p] != '"',
{
    let ip: int = if t[0] == '-' {
        1
    } else {
        0
    };
    let int_n = digit_run(t, ip);
    let int_end = ip + int_n;
    crate::scanner::lemma_digit_run(t, ip);
    let has_frac = int_end < t.len() && t[int_end] == '.';
    let frac_end = if has_frac {
        int_end + 1 + digit_run(t, int_end + 1)
    } else {
        int_end
    };
    if has_frac {
        crate::scanner::lemma_digit_run(t, int_end + 1);
    }
    let has_exp = frac_end < t.len() && (t[frac_end] == 'e' || t[frac_end] == 'E');
    if has_exp {
        let sp = if frac_end + 1 < t.len() && (t[frac_end + 1] == '+' || t[frac_end + 1] == '-') {
            frac_end + 2
        } else {
            frac_end + 1
        };
        crate::scanner::lemma_digit_run(t, sp);
        assert forall|p: int| 0 <= p < t.len() implies #[trigger] t[p] != '\n' && t[p]
            != '"' by {
            if p != 0 && p != int_end && p != frac_end && !(p == frac_end + 1 && sp == frac_end
                + 2) {
                assert(is_json_digit(t[p]));
            }
        }
    } else {
        assert forall|p: int| 0 <= p < t.len() implies #[trigger] t[p] != '\n' && t[p]
            != '"' by {
            if p != 0 && p != int_end {
                assert(is_json_digit(t[p]));
            }
        }
    }
}

/// One scan step, then the rest: the decomposition of a full scan from a
/// position inside the buffer.
pub proof fn lemma_scan_unfold(s: Seq<char>, i: int, line: usize)
    requires
        0 <= i < s.len(),
    ensures
        ({
            let st = crate::scanner::scan_step(s, i, line);
            &&& spec_scan(s, i, line).toks == st.toks + spec_scan(s, st.next, st.line).toks
            &&& spec_scan(s, i, line).errs == st.errs + spec_scan(s, st.next, st.line).errs
        }),
{
    crate::scanner::lemma_scan_step_bounds(s, i, line);
}

/// Token kinds distribute over concatenation.
pub proof fn lemma_kinds_concat(a: Seq<SpecToken>, b: Seq<SpecToken>)
    ensures
        kinds_of(a + b) == kinds_of(a) + kinds_of(b),
{
    assert(kinds_of(a + b) =~= kinds_of(a) + kinds_of(b));
}

/// Scanning a quoted string lexeme whose content holds no quote yields one
/// string token carrying that content, no fault, and the lines counted
/// through the content.
pub proof fn lemma_scan_string_lexeme(content: Seq<char>, s: Seq<char>, i: int, line: usize)
    requires
        no_quote(content),
        0 <= i,
        i + content.len() + 2 <= s.len(),
        s[i] == '"',
        s[i + content.len() + 1] == '"',
        forall|p: int| 0 <= p < content.len() ==> (#[trigger] s[i + 1 + p]) == content[p],
    ensures
        ({
            let l = content.len() + 2;
            let line2 = sat_add(line, count_newlines(s, i, i + l));
            &&& kinds_of(spec_scan(s, i, line).toks) == seq![SpecTokenKind::Str(content)]
                + kinds_of(spec_scan(s, i + l, line2).toks)
            &&& spec_scan(s, i, line).errs == spec_scan(s, i + l, line2).errs
        }),
{
    let l: int = content.len() as int + 2;
    let line2 = sat_add(line, count_newlines(s, i, i + l));
    lemma_scan_unfold(s, i, line);
    assert forall|k: int| i + 1 <= k < i + 1 + content.len() implies #[trigger] s[k] != '"' by {
        assert(s[i + 1 + (k - i - 1)] == content[k - i - 1]);
    }
    lemma_dist_to_exact(s, i + 1, content.len() as int, '"');
    let st = crate::scanner::scan_step(s, i, line);
    let q: int = i + 1 + content.len();
    assert(st.next == i + l);
    assert forall|p: int| 0 <= p < content.len() implies s.subrange(i + 1, q)[p]
        == content[p] by {
        assert(s[i + 1 + p] == content[p]);
    }
    assert(s.subrange(i + 1, q) =~= content);
    lemma_count_split(s, i, i + 1, i + l);
    lemma_count_split(s, i + 1, q, i + l);
    assert(count_newlines(s, i, i + 1) == 0) by {
        lemma_count_none(s, i, i + 1);
    }
    assert(count_newlines(s, q, i + l) == 0) by {
        lemma_count_none(s, q, i + l);
    }
    assert(st.line == line2);
    lemma_kinds_concat(st.toks, spec_scan(s, st.next, st.line).toks);
    assert(kinds_of(st.toks) =~= seq![SpecTokenKind::Str(content)]);
    assert(spec_scan(s, i, line).errs =~= spec_scan(s, i + l, line2).errs);
}

/// Scanning a keyword lexeme yields its token and no fault.
pub proof fn lemma_scan_null_lexeme(s: Seq<char>, i: int, line: usize)
    requires
        0 <= i,
        i + 4 <= s.len(),
        forall|p: int| 0 <= p < 4 ==> (#[trigger] s[i + p]) == "null"@[p],
    ensures
        count_newlines(s, i, i + 4) == 0,
        kinds_of(spec_scan(s, i, line).toks) == seq![SpecTokenKind::Null] + kinds_of(
            spec_scan(s, i + 4, line).toks,
        ),
        spec_scan(s, i, line).errs == spec_scan(s, i + 4, line).errs,
{
    reveal_strlit("null");
    assert(s[i + 0] == 'n');
    lemma_scan_unfold(s, i, line);
    let st = crate::scanner::scan_step(s, i, line);
    let w = seq!['u', 'l', 'l'];
    assert forall|p: int| 0 <= p < 3 implies #[trigger] s[(i + 1) + (p - 0)] == w[p] by {
        assert(s[i + (1 + p)] == "null"@[1 + p]);
        if p == 0 {
            assert(w[0] == 'u');
        } else if p == 1 {
            assert(w[1] == 'l');
        } else {
            assert(w[2] == 'l');
        }
    }
    lemma_match_run_full(s, i + 1, w, 0);
    assert(st.next == i + 4);
    assert forall|k: int| i <= k < i + 4 implies #[trigger] s[k] != '\n' by {
        assert(s[i + (k - i)] == "null"@[k - i]);
    }
    lemma_count_none(s, i, i + 4);
    lemma_kinds_concat(st.toks, spec_scan(s, st.next, st.line).toks);
    assert(kinds_of(st.toks) =~= seq![SpecTokenKind::Null]);
    assert(spec_scan(s, i, line).errs =~= spec_scan(s, i + 4, line).errs);
}

/// Scanning the `true` lexeme yields its token and no fault.
pub proof fn lemma_scan_true_lexeme(s: Seq<char>, i: int, line: usize)
    requires
        0 <= i,
        i + 4 <= s.len(),
        forall|p: int| 0 <= p < 4 ==> (#[trigger] s[i + p]) == "true"@[p],
    ensures
        count_newlines(s, i, i + 4) == 0,
        kinds_of(spec_scan(s, i, line).toks) == seq![SpecTokenKind::True] + kinds_of(
            spec_scan(s, i + 4, line).toks,
        ),
        spec_scan(s, i, line).errs == spec_scan(s, i + 4, line).errs,
{
    reveal_strlit("true");
    assert(s[i + 0] == 't');
    lemma_scan_unfold(s, i, line);
    let st = crate::scanner::scan_step(s, i, line);
    let w = seq!['r', 'u', 'e'];
    assert forall|p: int| 0 <= p < 3 implies #[trigger] s[(i + 1) + (p - 0)] == w[p] by {
        assert(s[i + (1 + p)] == "true"@[1 + p]);
        if p == 0 {
            assert(w[0] == 'r');
        } else if p == 1 {
            assert(w[1] == 'u');
        } else {
            assert(w[2] == 'e');
        }
    }
    lemma_match_run_full(s, i + 1, w, 0);
    assert(st.next == i + 4);
    assert forall|k: int| i <= k < i + 4 implies #[trigger] s[k] != '\n' by {
        assert(s[i + (k - i)] == "true"@[k - i]);
    }
    lemma_count_none(s, i, i + 4);
    lemma_kinds_concat(st.toks, spec_scan(s, st.next, st.line).toks);
    assert(kinds_of(st.toks) =~= seq![SpecTokenKind::True]);
    assert(spec_scan(s, i, line).errs =~= spec_scan(s, i + 4, line).errs);
}

/// Scanning the `false` lexeme yields its token and no fault.
pub proof fn lemma_scan_false_lexeme(s: Seq<char>, i: int, line: usize)
    requires
        0 <= i,
        i + 5 <= s.len(),
        forall|p: int| 0 <= p < 5 ==> (#[trigger] s[i + p]) == "false"@[p],
    ensures
        count_newlines(s, i, i + 5) == 0,
        kinds_of(spec_scan(s, i, line).toks) == seq![SpecTokenKind::False] + kinds_of(
            spec_scan(s, i + 5, line).toks,
        ),
        spec_scan(s, i, line).errs == spec_scan(s, i + 5, line).errs,
{
    reveal_strlit("false");
    assert(s[i + 0] == 'f');
    lemma_scan_unfold(s, i, line);
    let st = crate::scanner::scan_step(s, i, line);
    let w = seq!['a', 'l', 's', 'e'];
    assert forall|p: int| 0 <= p < 4 implies #[trigger] s[(i + 1) + (p - 0)] == w[p] by {
        assert(s[i + (1 + p)] == "false"@[1 + p]);
        if p == 0 {
            assert(w[0] == 'a');
        } else if p == 1 {
            assert(w[1] == 'l');
        } else if p == 2 {
            assert(w[2] == 's');
        } else {
            assert(w[3] == 'e');
        }
    }
    lemma_match_run_full(s, i + 1, w, 0);
    assert(st.next == i + 5);
    assert forall|k: int| i <= k < i + 5 implies #[trigger] s[k] != '\n' by {
        assert(s[i + (k - i)] == "false"@[k - i]);
    }
    lemma_count_none(s, i, i + 5);
    lemma_kinds_concat(st.toks, spec_scan(s, st.next, st.line).toks);
    assert(kinds_of(st.toks) =~= seq![SpecTokenKind::False]);
    assert(spec_scan(s, i, line).errs =~= spec_scan(s, i + 5, line).errs);
}

/// Scanning a valid number lexeme with nothing behind it that could extend
/// it yields one number token carrying the lexeme and no fault.
pub proof fn lemma_scan_num_lexeme(num: Seq<char>, s: Seq<char>, i: int, line: usize)
    requires
        is_valid_number_literal(num),
        0 <= i,
        i + num.len() <= s.len(),
        forall|p: int| 0 <= p < num.len() ==> (#[trigger] s[i + p]) == num[p],
        i + num.len() < s.len() ==> !(is_json_digit(s[i + num.len()]) || s[i + num.len()] == '.'
            || s[i + num.len()] == 'e' || s[i + num.len()] == 'E'),
    ensures
        count_newlines(s, i, i + num.len()) == 0,
        kinds_of(spec_scan(s, i, line).toks) == seq![SpecTokenKind::Num(num)] + kinds_of(
            spec_scan(s, i + num.len(), line).toks,
        ),
        spec_scan(s, i, line).errs == spec_scan(s, i + num.len(), line).errs,
{
    let l = num.len() as int;
    assert(s[i + 0] == num[0]);
    lemma_scan_unfold(s, i, line);
    let st = crate::scanner::scan_step(s, i, line);
    lemma_number_shape_translate(s, num, i);
    assert(st.next == i + l);
    assert forall|p: int| 0 <= p < num.len() implies s.subrange(i, i + l)[p] == num[p] by {
        assert(s[i + p] == num[p]);
    }
    assert(s.subrange(i, i + l) =~= num);
    lemma_number_chars(num);
    assert forall|k: int| i <= k < i + l implies #[trigger] s[k] != '\n' by {
        assert(s[i + (k - i)] == num[k - i]);
    }
    lemma_count_none(s, i, i + l);
    lemma_kinds_concat(st.toks, spec_scan(s, st.next, st.line).toks);
    assert(kinds_of(st.toks) =~= seq![SpecTokenKind::Num(num)]);
    assert(spec_scan(s, i, line).errs =~= spec_scan(s, i + l, line).errs);
}

/// Scanning the canonical text of a well-formed tree from `i` produces
/// exactly the tree's token kinds and no fault, and goes on after the text
/// on the line reached by counting its newlines; the character after the
/// text, if any, must not be able to extend a number lexeme.
#[verifier::rlimit(100)]
pub proof fn lemma_scan_of_serialized(v: SpecValue, s: Seq<char>, i: int, line: usize)
    requires
        wf_value(v),
        quotes_ok(v),
        0 <= i,
        i + spec_serialize(v).len() <= s.len(),
        forall|p: int| 0 <= p < spec_serialize(v).len() ==> (#[trigger] s[i + p])
            == spec_serialize(v)[p],
        i + spec_serialize(v).len() < s.len() ==> !(is_json_digit(s[i + spec_serialize(v).len()])
            || s[i + spec_serialize(v).len()] == '.' || s[i + spec_serialize(v).len()] == 'e'
            || s[i + spec_serialize(v).len()] == 'E'),
    ensures
        ({
            let l = spec_serialize(v).len() as int;
            let line2 = sat_add(line, count_newlines(s, i, i + l));
            &&& kinds_of(spec_scan(s, i, line).toks) == token_kinds_of(v) + kinds_of(
                spec_scan(s, i + l, line2).toks,
            )
            &&& spec_scan(s, i, line).errs == spec_scan(s, i + l, line2).errs
        }),
    decreases v,
{
    let t = spec_serialize(v);
    let l = t.len() as int;
    let line2 = sat_add(line, count_newlines(s, i, i + l));
    match v {
        SpecValue::Null => {
            reveal_strlit("null");
            assert(t == "null"@);
            assert forall|p: int| 0 <= p < 4 implies (#[trigger] s[i + p]) == "null"@[p] by {
                assert(s[i + p] == t[p]);
            }
            lemma_scan_null_lexeme(s, i, line);
            assert(line2 == line);
            assert(token_kinds_of(v) =~= seq![SpecTokenKind::Null]);
        },
        SpecValue::Bool(b) => {
            if b {
                reveal_strlit("true");
                assert(t == "true"@);
                assert forall|p: int| 0 <= p < 4 implies (#[trigger] s[i + p]) == "true"@[p] by {
                    assert(s[i + p] == t[p]);
                }
                lemma_scan_true_lexeme(s, i, line);
                assert(token_kinds_of(v) =~= seq![SpecTokenKind::True]);
            } else {
                reveal_strlit("false");
                assert(t == "false"@);
                assert forall|p: int| 0 <= p < 5 implies (#[trigger] s[i + p]) == "false"@[p] by {
                    assert(s[i + p] == t[p]);
                }
                lemma_scan_false_lexeme(s, i, line);
                assert(token_kinds_of(v) =~= seq![SpecTokenKind::False]);
            }
            assert(line2 == line);
        },
        SpecValue::Num(num) => {
            assert(t == num);
            assert forall|p: int| 0 <= p < num.len() implies (#[trigger] s[i + p]) == num[p] by {
                assert(s[i + p] == t[p]);
            }
            lemma_scan_num_lexeme(num, s, i, line);
            assert(line2 == line);
            assert(token_kinds_of(v) =~= seq![SpecTokenKind::Num(num)]);
        },
        SpecValue::Str(content) => {
            reveal_strlit("\"");
            assert(s[i + 0] == '"');
            assert(s[i + (l - 1)] == '"');
            assert forall|p: int| 0 <= p < content.len() implies (#[trigger] s[i + 1 + p])
                == content[p] by {
                assert(s[i + (1 + p)] == t[1 + p]);
            }
            lemma_scan_string_lexeme(content, s, i, line);
        },
        SpecValue::Arr(items) => {
            reveal_strlit("[");
            lemma_arr_text(items);
            assert(t =~= "["@ + arr_tail_text(items, false));
            assert(s[i + 0] == '[');
            lemma_scan_unfold(s, i, line);
            let st = crate::scanner::scan_step(s, i, line);
            assert(st.next == i + 1);
            assert(st.line == line);
            let tail = arr_tail_text(items, false);
            assert forall|p: int| 0 <= p < tail.len() implies (#[trigger] s[i + 1 + p])
                == tail[p] by {
                assert(s[i + (1 + p)] == t[1 + p]);
            }
            lemma_scan_arr_tail(items, s, i + 1, line, false);
            lemma_count_split(s, i, i + 1, i + l);
            lemma_count_none(s, i, i + 1);
            lemma_kinds_concat(st.toks, spec_scan(s, i + 1, line).toks);
            assert(kinds_of(st.toks) =~= seq![SpecTokenKind::LeftSquaredBrace]);
            assert(kinds_of(spec_scan(s, i, line).toks) =~= token_kinds_of(v) + kinds_of(
                spec_scan(s, i + l, line2).toks,
            ));
            assert(spec_scan(s, i, line).errs =~= spec_scan(s, i + l, line2).errs);
        },
        SpecValue::Obj(members) => {
            reveal_strlit("{");
            lemma_obj_text(members);
            assert(t =~= "{"@ + obj_tail_text(members, false));
            assert(s[i + 0] == '{');
            lemma_scan_unfold(s, i, line);
            let st = crate::scanner::scan_step(s, i, line);
            assert(st.next == i + 1);
            assert(st.line == line);
            let tail = obj_tail_text(members, false);
            assert forall|p: int| 0 <= p < tail.len() implies (#[trigger] s[i + 1 + p])
                == tail[p] by {
                assert(s[i + (1 + p)] == t[1 + p]);
            }
            lemma_scan_obj_tail(members, s, i + 1, line, false);
            lemma_count_split(s, i, i + 1, i + l);
            lemma_count_none(s, i, i + 1);
            lemma_kinds_concat(st.toks, spec_scan(s, i + 1, line).toks);
            assert(kinds_of(st.toks) =~= seq![SpecTokenKind::LeftCurlyBrace]);
            assert(kinds_of(spec_scan(s, i, line).toks) =~= token_kinds_of(v) + kinds_of(
                spec_scan(s, i + l, line2).toks,
            ));
            assert(spec_scan(s, i, line).errs =~= spec_scan(s, i + l, line2).errs);
        },
    }
}

/// Scanning the rest of an array's canonical text yields the remaining
/// elements' token kinds, the separating commas and the closing brace, and
/// no fault.
#[verifier::rlimit(100)]
pub proof fn lemma_scan_arr_tail(
    items: Seq<SpecValue>,
    s: Seq<char>,
    i: int,
    line: usize,
    prev: bool,
)
    requires
        forall|k: int| 0 <= k < items.len() ==> wf_value(#[trigger] items[k]) && quotes_ok(
            items[k],
        ),
        0 <= i,
        i + arr_tail_text(items, prev).len() <= s.len(),
        forall|p: int| 0 <= p < arr_tail_text(items, prev).len() ==> (#[trigger] s[i + p])
            == arr_tail_text(items, prev)[p],
    ensures
        ({
            let l = arr_tail_text(items, prev).len() as int;
            let line2 = sat_add(line, count_newlines(s, i, i + l));
            &&& kinds_of(spec_scan(s, i, line).toks) == arr_tail_kinds(items, prev) + kinds_of(
                spec_scan(s, i + l, line2).toks,
            )
            &&& spec_scan(s, i, line).errs == spec_scan(s, i + l, line2).errs
        }),
    decreases items,
{
    let t = arr_tail_text(items, prev);
    let l = t.len() as int;
    let line2 = sat_add(line, count_newlines(s, i, i + l));
    reveal_strlit("]");
    reveal_strlit(",");
    if items.len() == 0 {
        assert(s[i + 0] == ']');
        lemma_scan_unfold(s, i, line);
        let st = crate::scanner::scan_step(s, i, line);
        assert(st.next == i + 1);
        lemma_count_none(s, i, i + 1);
        lemma_kinds_concat(st.toks, spec_scan(s, st.next, st.line).toks);
        assert(kinds_of(st.toks) =~= seq![SpecTokenKind::RightSquaredBrace]);
        assert(spec_scan(s, i, line).errs =~= spec_scan(s, i + l, line2).errs);
    } else {
        let head = items[0];
        let ht = spec_serialize(head);
        let rest = items.drop_first();
        let rt = arr_tail_text(rest, true);
        let sep: int = if prev {
            1
        } else {
            0
        };
        let ep = i + sep;
        if prev {
            assert(s[i + 0] == ',');
            lemma_scan_unfold(s, i, line);
        }
        // the element's characters, and the character after it
        assert forall|p: int| 0 <= p < ht.len() implies (#[trigger] s[ep + p]) == ht[p] by {
            assert(s[i + (sep + p)] == t[sep + p]);
        }
        assert(rt.len() > 0) by {
            if rest.len() == 0 {
            } else {
            }
        }
        assert(s[ep + ht.len()] == rt[0]) by {
            assert(s[i + (sep + ht.len())] == t[sep + ht.len()]);
        }
        assert(rt[0] == ',' || rt[0] == ']') by {
            if rest.len() == 0 {
            } else {
                assert(rt[0] == ","@[0]);
            }
        }
        lemma_scan_of_serialized(head, s, ep, line);
        let le = ht.len() as int;
        let line_after = sat_add(line, count_newlines(s, ep, ep + le));
        assert forall|p: int| 0 <= p < rt.len() implies (#[trigger] s[ep + le + p])
            == rt[p] by {
            assert(s[i + (sep + le + p)] == t[sep + le + p]);
        }
        lemma_scan_arr_tail(rest, s, ep + le, line_after, true);
        // line bookkeeping over the three chunks
        lemma_count_split(s, i, ep, i + l);
        lemma_count_split(s, ep, ep + le, i + l);
        lemma_count_none(s, i, ep);
        let c1 = count_newlines(s, ep, ep + le);
        let c2 = count_newlines(s, ep + le, i + l);
        crate::scanner::lemma_sat_add_assoc(line, c1, c2);
        assert(sat_add(line_after, c2) == line2);
        // chain the decompositions
        if prev {
            let st = crate::scanner::scan_step(s, i, line);
            assert(st.next == ep);
            assert(st.line == line);
            lemma_kinds_concat(st.toks, spec_scan(s, ep, line).toks);
            assert(kinds_of(st.toks) =~= seq![SpecTokenKind::Comma]);
        }
        assert(kinds_of(spec_scan(s, i, line).toks) =~= arr_tail_kinds(items, prev) + kinds_of(
            spec_scan(s, i + l, line2).toks,
        ));
        assert(spec_scan(s, i, line).errs =~= spec_scan(s, i + l, line2).errs);
    }
}

/// Scanning the rest of an object's canonical text yields the remaining
/// members' token kinds, the separating commas and the closing brace, and
/// no fault; the space the serializer writes after each colon scans as
/// whitespace.
#[verifier::rlimit(100)]
pub proof fn lemma_scan_obj_tail(
    members: Seq<(Seq<char>, SpecValue)>,
    s: Seq<char>,
    i: int,
    line: usize,
    prev: bool,
)
    requires
        forall|k: int| 0 <= k < members.len() ==> wf_value(#[trigger] members[k].1)
            && quotes_ok(members[k].1) && no_quote(members[k].0),
        0 <= i,
        i + obj_tail_text(members, prev).len() <= s.len(),
        forall|p: int| 0 <= p < obj_tail_text(members, prev).len() ==> (#[trigger] s[i + p])
            == obj_tail_text(members, prev)[p],
    ensures
        ({
            let l = obj_tail_text(members, prev).len() as int;
            let line2 = sat_add(line, count_newlines(s, i, i + l));
            &&& kinds_of(spec_scan(s, i, line).toks) == obj_tail_kinds(members, prev)
                + kinds_of(spec_scan(s, i + l, line2).toks)
            &&& spec_scan(s, i, line).errs == spec_scan(s, i + l, line2).errs
        }),
    decreases members,
{
    let t = obj_tail_text(members, prev);
    let l = t.len() as int;
    let line2 = sat_add(line, count_newlines(s, i, i + l));
    reveal_strlit("}");
    reveal_strlit(",");
    reveal_strlit("\"");
    reveal_strlit(": ");
    if members.len() == 0 {
        assert(s[i + 0] == '}');
        lemma_scan_unfold(s, i, line);
        let st = crate::scanner::scan_step(s, i, line);
        assert(st.next == i + 1);
        lemma_count_none(s, i, i + 1);
        lemma_kinds_concat(st.toks, spec_scan(s, st.next, st.line).toks);
        assert(kinds_of(st.toks) =~= seq![SpecTokenKind::RightCurlyBrace]);
        assert(spec_scan(s, i, line).errs =~= spec_scan(s, i + l, line2).errs);
    } else {
        let head = members[0];
        let key = head.0;
        let mt = spec_serialize_member(head);
        let vt = spec_serialize(head.1);
        let rest = members.drop_first();
        let rt = obj_tail_text(rest, true);
        let sep: int = if prev {
            1
        } else {
            0
        };
        let kp = i + sep;  // the key's opening quote
        let kl: int = key.len() as int + 2;  // the quoted key
        let cp = kp + kl;  // the colon
        let vp = cp + 2;  // the value, after colon and space
        let le = vt.len() as int;
        assert forall|p: int| 0 <= p < mt.len() implies (#[trigger] s[kp + p]) == mt[p] by {
            assert(s[i + (sep + p)] == t[sep + p]);
        }
        // the member text's own structure
        assert(mt.len() == kl + 2 + le);
        assert(s[kp + 0] == '"') by {
            assert(mt[0] == '"');
        }
        assert(s[kp + (kl - 1)] == '"') by {
            assert(mt[kl - 1] == '"');
        }
        assert forall|p: int| 0 <= p < key.len() implies (#[trigger] s[kp + 1 + p])
            == key[p] by {
            assert(s[kp + (1 + p)] == mt[1 + p]);
        }
        assert(s[cp + 0] == ':') by {
            assert(s[kp + (kl + 0)] == mt[kl + 0]);
            assert(mt[kl + 0] == ": "@[0]);
        }
        assert(s[cp + 1] == ' ') by {
            assert(s[kp + (kl + 1)] == mt[kl + 1]);
            assert(mt[kl + 1] == ": "@[1]);
        }
        assert forall|p: int| 0 <= p < le implies (#[trigger] s[vp + p]) == vt[p] by {
            assert(s[kp + (kl + 2 + p)] == mt[kl + 2 + p]);
        }
        assert(rt.len() > 0) by {
            if rest.len() == 0 {
            } else {
            }
        }
        assert(s[vp + le] == rt[0]) by {
            assert(s[i + (sep + mt.len())] == t[sep + mt.len()]);
        }
        assert(rt[0] == ',' || rt[0] == '}') by {
            if rest.len() == 0 {
            } else {
                assert(rt[0] == ","@[0]);
            }
        }
        // scan the comma, if one is owed
        if prev {
            assert(s[i + 0] == ',');
            lemma_scan_unfold(s, i, line);
            let st = crate::scanner::scan_step(s, i, line);
            assert(st.next == kp);
            assert(st.line == line);
            lemma_kinds_concat(st.toks, spec_scan(s, kp, line).toks);
            assert(kinds_of(st.toks) =~= seq![SpecTokenKind::Comma]);
        }
        // scan the quoted key
        lemma_scan_string_lexeme(key, s, kp, line);
        let line_k = sat_add(line, count_newlines(s, kp, cp));
        // scan the colon
        lemma_scan_unfold(s, cp, line_k);
        let st_c = crate::scanner::scan_step(s, cp, line_k);
        assert(st_c.next == cp + 1);
        assert(st_c.line == line_k);
        lemma_kinds_concat(st_c.toks, spec_scan(s, cp + 1, line_k).toks);
        assert(kinds_of(st_c.toks) =~= seq![SpecTokenKind::Colon]);
        // scan the space
        lemma_scan_unfold(s, cp + 1, line_k);
        let st_s = crate::scanner::scan_step(s, cp + 1, line_k);
        assert(st_s.next == vp);
        assert(st_s.line == line_k);
        assert(st_s.toks =~= Seq::<SpecToken>::empty());
        assert(st_s.errs =~= Seq::<crate::errors::LexicalError>::empty());
        // scan the value
        lemma_scan_of_serialized(head.1, s, vp, line_k);
        let line_v = sat_add(line_k, count_newlines(s, vp, vp + le));
        // scan the rest of the object
        assert forall|p: int| 0 <= p < rt.len() implies (#[trigger] s[vp + le + p])
            == rt[p] by {
            assert(s[i + (sep + mt.len() + p)] == t[sep + mt.len() + p]);
        }
        lemma_scan_obj_tail(rest, s, vp + le, line_v, true);
        // line bookkeeping
        lemma_count_split(s, i, kp, i + l);
        lemma_count_split(s, kp, cp, i + l);
        lemma_count_split(s, cp, vp, i + l);
        lemma_count_split(s, vp, vp + le, i + l);
        lemma_count_none(s, i, kp);
        lemma_count_none(s, cp, vp);
        let ck = count_newlines(s, kp, cp);
        let cv = count_newlines(s, vp, vp + le);
        let cr = count_newlines(s, vp + le, i + l);
        crate::scanner::lemma_sat_add_assoc(line, ck, cv);
        crate::scanner::lemma_sat_add_assoc(line, ck + cv, cr);
        crate::scanner::lemma_sat_add_assoc(line_k, cv, cr);
        assert(sat_add(line_v, cr) == line2);
        // chain the decompositions
        assert(kinds_of(spec_scan(s, i, line).toks) =~= obj_tail_kinds(members, prev)
            + kinds_of(spec_scan(s, i + l, line2).toks));
        assert(spec_scan(s, i, line).errs =~= spec_scan(s, i + l, line2).errs);
    }
}

/// Round trip: serializing a well-formed tree whose strings hold no raw
/// quote, then deserializing the text, gives back exactly the tree.
pub proof fn lemma_round_trip(v: SpecValue)
    requires
        wf_value(v),
        quotes_ok(v),
    ensures
        crate::spec_deserialize(spec_serialize(v)) == Some(v),
{
    let s = spec_serialize(v);
    let l = s.len() as int;
    assert forall|p: int| 0 <= p < s.len() implies (#[trigger] s[0 + p]) == s[p] by {
    }
    lemma_scan_of_serialized(v, s, 0, 1);
    let line2 = sat_add(1, count_newlines(s, 0, l));
    let scanned = spec_scan(s, 0, 1);
    let eof = SpecToken { kind: SpecTokenKind::Eof, line: line2 };
    assert(spec_scan(s, l, line2).toks =~= seq![eof]);
    assert(spec_scan(s, l, line2).errs =~= Seq::<crate::errors::LexicalError>::empty());
    assert(kinds_of(scanned.toks) == token_kinds_of(v) + kinds_of(seq![eof]));
    assert(kinds_of(seq![eof]) =~= seq![SpecTokenKind::Eof]);
    assert(scanned.errs =~= Seq::<crate::errors::LexicalError>::empty());
    let toks = scanned.toks;
    assert(toks.len() == kinds_of(toks).len());
    assert(toks.len() == token_kinds_of(v).len() + 1);
    assert forall|j: int| 0 <= j < token_kinds_of(v).len() implies (#[trigger] toks[j]).kind
        == token_kinds_of(v)[j] by {
        assert(kinds_of(toks)[j] == toks[j].kind);
        assert((token_kinds_of(v) + seq![SpecTokenKind::Eof])[j] == token_kinds_of(v)[j]);
    }
    assert(toks.last().kind == (token_kinds_of(v) + seq![SpecTokenKind::Eof]).last());
    lemma_parse_tokens_of_kinds(v, toks);
}

/// Two token sequences with the same kinds parse alike: lines never steer
/// the parse. Whitespace between tokens changes only token lines, so text
/// that differs in such whitespace parses to the same value.
pub proof fn lemma_parse_kinds_only(t1: Seq<SpecToken>, t2: Seq<SpecToken>)
    requires
        t1.len() == t2.len(),
        forall|j: int| #![trigger t1[j], t2[j]] 0 <= j < t1.len() ==> t1[j].kind == t2[j].kind,
    ensures
        spec_parse_tokens(t1).val == spec_parse_tokens(t2).val,
        spec_parse_tokens(t1).next == spec_parse_tokens(t2).next,
        spec_parse_tokens(t1).errs.len() == spec_parse_tokens(t2).errs.len(),
{
    lemma_parse_kinds_only_value(t1, t2, 0);
}

/// One value production under the same token kinds.
pub proof fn lemma_parse_kinds_only_value(t1: Seq<SpecToken>, t2: Seq<SpecToken>, pos: int)
    requires
        t1.len() == t2.len(),
        forall|j: int| #![trigger t1[j], t2[j]] 0 <= j < t1.len() ==> t1[j].kind == t2[j].kind,
    ensures
        spec_parse_value(t1, pos).val == spec_parse_value(t2, pos).val,
        spec_parse_value(t1, pos).next == spec_parse_value(t2, pos).next,
        spec_parse_value(t1, pos).errs.len() == spec_parse_value(t2, pos).errs.len(),
    decreases t1.len() - pos, 3int,
{
    if 0 <= pos < t1.len() {
        match t1[pos].kind {
            SpecTokenKind::LeftCurlyBrace => {
                lemma_parse_kinds_only_obj_items(t1, t2, pos + 1, Seq::empty(), false);
            },
            SpecTokenKind::LeftSquaredBrace => {
                lemma_parse_kinds_only_arr_items(t1, t2, pos + 1, Seq::empty(), false);
            },
            _ => {},
        }
    }
}

/// The object-member production under the same token kinds.
pub proof fn lemma_parse_kinds_only_member(t1: Seq<SpecToken>, t2: Seq<SpecToken>, pos: int)
    requires
        t1.len() == t2.len(),
        forall|j: int| #![trigger t1[j], t2[j]] 0 <= j < t1.len() ==> t1[j].kind == t2[j].kind,
    ensures
        spec_parse_member(t1, pos).res == spec_parse_member(t2, pos).res,
        spec_parse_member(t1, pos).next == spec_parse_member(t2, pos).next,
        spec_parse_member(t1, pos).errs.len() == spec_parse_member(t2, pos).errs.len(),
    decreases t1.len() - pos, 1int,
{
    if 0 <= pos < t1.len() {
        match t1[pos].kind {
            SpecTokenKind::Str(k) => {
                if pos + 1 < t1.len() {
                    let has_colon = t1[pos + 1].kind is Colon;
                    let vpos = if has_colon {
                        pos + 2
                    } else {
                        pos + 1
                    };
                    lemma_parse_kinds_only_value(t1, t2, vpos);
                }
            },
            _ => {},
        }
    }
}

/// The object-tail production under the same token kinds.
pub proof fn lemma_parse_kinds_only_obj_items(
    t1: Seq<SpecToken>,
    t2: Seq<SpecToken>,
    pos: int,
    acc: Seq<(Seq<char>, SpecValue)>,
    prev: bool,
)
    requires
        t1.len() == t2.len(),
        forall|j: int| #![trigger t1[j], t2[j]] 0 <= j < t1.len() ==> t1[j].kind == t2[j].kind,
    ensures
        spec_parse_obj_items(t1, pos, acc, prev).val == spec_parse_obj_items(
            t2,
            pos,
            acc,
            prev,
        ).val,
        spec_parse_obj_items(t1, pos, acc, prev).next == spec_parse_obj_items(
            t2,
            pos,
            acc,
            prev,
        ).next,
        spec_parse_obj_items(t1, pos, acc, prev).errs.len() == spec_parse_obj_items(
            t2,
            pos,
            acc,
            prev,
        ).errs.len(),
    decreases t1.len() - pos, 4int,
{
    if 0 <= pos < t1.len() {
        if t1[pos].kind is RightCurlyBrace {
        } else if prev && !(t1[pos].kind is Comma) {
        } else {
            let mpos = if prev {
                pos + 1
            } else {
                pos
            };
            lemma_parse_kinds_only_member(t1, t2, mpos);
            let m = spec_parse_member(t1, mpos);
            match m.res {
                None => {},
                Some(kv) => {
                    if exists|t: int| 0 <= t < acc.len() && acc[t].0 == kv.0 {
                    } else {
                        let adv = if mpos + 1 <= m.next && m.next <= t1.len() {
                            m.next
                        } else if mpos + 1 <= t1.len() {
                            mpos + 1
                        } else {
                            t1.len() as int
                        };
                        lemma_parse_kinds_only_obj_items(t1, t2, adv, acc.push(kv), true);
                    }
                },
            }
        }
    }
}

/// The array-tail production under the same token kinds.
pub proof fn lemma_parse_kinds_only_arr_items(
    t1: Seq<SpecToken>,
    t2: Seq<SpecToken>,
    pos: int,
    acc: Seq<SpecValue>,
    prev: bool,
)
    requires
        t1.len() == t2.len(),
        forall|j: int| #![trigger t1[j], t2[j]] 0 <= j < t1.len() ==> t1[j].kind == t2[j].kind,
    ensures
        spec_parse_arr_items(t1, pos, acc, prev).val == spec_parse_arr_items(
            t2,
            pos,
            acc,
            prev,
        ).val,
        spec_parse_arr_items(t1, pos, acc, prev).next == spec_parse_arr_items(
            t2,
            pos,
            acc,
            prev,
        ).next,
        spec_parse_arr_items(t1, pos, acc, prev).errs.len() == spec_parse_arr_items(
            t2,
            pos,
            acc,
            prev,
        ).errs.len(),
    decreases t1.len() - pos, 4int,
{
    if 0 <= pos < t1.len() {
        if t1[pos].kind is RightSquaredBrace {
        } else if prev && !(t1[pos].kind is Comma) {
        } else {
            let epos = if prev {
                pos + 1
            } else {
                pos
            };
            lemma_parse_kinds_only_value(t1, t2, epos);
            let v = spec_parse_value(t1, epos);
            match v.val {
                None => {},
                Some(x) => {
                    let adv = if epos + 1 <= v.next && v.next <= t1.len() {
                        v.next
                    } else if epos + 1 <= t1.len() {
                        epos + 1
                    } else {
                        t1.len() as int
                    };
                    lemma_parse_kinds_only_arr_items(t1, t2, adv, acc.push(x), true);
                },
            }
        }
    }
}

} // verus!
