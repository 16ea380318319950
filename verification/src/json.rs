//! A JSON value as plain data, and the path-like strings a tool call's raw
//! input mentions.

use vstd::prelude::*;
use crate::text::{chars_of, is_whitespace_char, is_ws};

verus! {

broadcast use vstd::std_specs::vec::group_vec_axioms;

/// A number as `serde_json` holds it; the library carries it unread.
#[verifier::external_type_specification]
#[verifier::external_body]
pub struct ExJsonNumber(serde_json::Number);

/// A value as `serde_json` parses it; only the conversions to and from
/// `JsonValue` look inside it.
#[verifier::external_type_specification]
#[verifier::external_body]
pub struct ExSerdeValue(serde_json::Value);

/// A JSON value. Numbers are carried as `serde_json` holds them; nothing here
/// reads them.
#[derive(Debug)]
pub enum JsonValue {
    Null,
    Bool(bool),
    Num(serde_json::Number),
    Str(String),
    Array(Vec<JsonValue>),
    Object(Vec<(String, JsonValue)>),
}

/// Keys whose string values name a path.
pub open spec fn is_path_key(k: Seq<char>) -> bool {
    ||| k == "file_path"@
    ||| k == "filePath"@
    ||| k == "path"@
    ||| k == "abs_path"@
    ||| k == "notebook_path"@
    ||| k == "cwd"@
}

/// A string that reads as a path: it has a `/` and no whitespace.
pub open spec fn looks_like_path(t: Seq<char>) -> bool {
    &&& exists|i: int| 0 <= i < t.len() && t[i] == '/'
    &&& forall|i: int| 0 <= i < t.len() ==> !is_ws(#[trigger] t[i])
}

/// The path-like strings in `v`, in order: the string values of object
/// members under a path key, and every string (a member value, an array item
/// or `v` itself) that reads as a path; arrays and other member values are
/// searched in turn.
pub open spec fn input_paths(v: JsonValue) -> Seq<Seq<char>>
    decreases v, 2int,
{
    match v {
        JsonValue::Str(t) => if looks_like_path(t@) {
            seq![t@]
        } else {
            seq![]
        },
        JsonValue::Array(items) => items_paths(items@),
        JsonValue::Object(members) => members_paths(members@),
        _ => seq![],
    }
}

/// The path-like strings found in each array item, in order.
pub open spec fn items_paths(items: Seq<JsonValue>) -> Seq<Seq<char>>
    decreases items, 1int,
{
    if items.len() == 0 {
        seq![]
    } else {
        input_paths(items[0]) + items_paths(items.subrange(1, items.len() as int))
    }
}

/// The path-like strings found in an object's members, in order.
pub open spec fn members_paths(members: Seq<(String, JsonValue)>) -> Seq<Seq<char>>
    decreases members, 1int,
{
    if members.len() == 0 {
        seq![]
    } else {
        let m = members[0];
        (match m.1 {
            JsonValue::Str(t) => if is_path_key(m.0@) || looks_like_path(t@) {
                seq![t@]
            } else {
                seq![]
            },
            other => input_paths(other),
        }) + members_paths(members.subrange(1, members.len() as int))
    }
}

/// Every string member value that contains a `/` and no whitespace is
/// collected, whatever its key and whatever its first character (an absolute
/// path included).
pub proof fn lemma_member_paths_collected(members: Seq<(String, JsonValue)>, i: int)
    requires
        0 <= i < members.len(),
        members[i].1 is Str,
        exists|j: int| 0 <= j < members[i].1->Str_0@.len() && members[i].1->Str_0@[j] == '/',
        forall|j: int|
            0 <= j < members[i].1->Str_0@.len() ==> !is_ws(#[trigger] members[i].1->Str_0@[j]),
    ensures
        members_paths(members).contains(members[i].1->Str_0@),
    decreases members.len(),
{
    let t = members[i].1->Str_0@;
    let tail = members.subrange(1, members.len() as int);
    if i == 0 {
        let head = (match members[0].1 {
            JsonValue::Str(u) => if is_path_key(members[0].0@) || looks_like_path(u@) {
                seq![u@]
            } else {
                seq![]
            },
            other => input_paths(other),
        });
        assert(looks_like_path(t));
        assert(head == seq![t]);
        assert(members_paths(members) == head + members_paths(tail));
        assert(members_paths(members)[0] == t);
    } else {
        assert(tail[i - 1] == members[i]);
        lemma_member_paths_collected(tail, i - 1);
        let k = choose|k: int| 0 <= k < members_paths(tail).len() && members_paths(tail)[k] == t;
        let head = (match members[0].1 {
            JsonValue::Str(u) => if is_path_key(members[0].0@) || looks_like_path(u@) {
                seq![u@]
            } else {
                seq![]
            },
            other => input_paths(other),
        });
        assert(members_paths(members) == head + members_paths(tail));
        assert(members_paths(members)[head.len() + k] == t);
    }
}

/// Every array item that is a string containing a `/` and no whitespace is
/// collected.
pub proof fn lemma_item_paths_collected(items: Seq<JsonValue>, i: int)
    requires
        0 <= i < items.len(),
        items[i] is Str,
        exists|j: int| 0 <= j < items[i]->Str_0@.len() && items[i]->Str_0@[j] == '/',
        forall|j: int| 0 <= j < items[i]->Str_0@.len() ==> !is_ws(#[trigger] items[i]->Str_0@[j]),
    ensures
        items_paths(items).contains(items[i]->Str_0@),
    decreases items.len(),
{
    let t = items[i]->Str_0@;
    let tail = items.subrange(1, items.len() as int);
    if i == 0 {
        assert(looks_like_path(t));
        assert(input_paths(items[0]) == seq![t]);
        assert(items_paths(items)[0] == t);
    } else {
        assert(tail[i - 1] == items[i]);
        lemma_item_paths_collected(tail, i - 1);
        let k = choose|k: int| 0 <= k < items_paths(tail).len() && items_paths(tail)[k] == t;
        assert(items_paths(items)[input_paths(items[0]).len() + k] == t);
    }
}

/// The path-like strings of an object include every string member value with
/// a `/` and no whitespace, and those of an array every such string item.
pub proof fn lemma_slash_strings_collected(v: JsonValue, i: int)
    ensures
        v is Object && 0 <= i < v->Object_0@.len() && v->Object_0@[i].1 is Str
            && (exists|j: int|
            0 <= j < v->Object_0@[i].1->Str_0@.len() && v->Object_0@[i].1->Str_0@[j] == '/')
            && (forall|j: int|
            0 <= j < v->Object_0@[i].1->Str_0@.len() ==> !is_ws(
                #[trigger] v->Object_0@[i].1->Str_0@[j],
            )) ==> input_paths(v).contains(v->Object_0@[i].1->Str_0@),
        v is Array && 0 <= i < v->Array_0@.len() && v->Array_0@[i] is Str && (exists|j: int|
            0 <= j < v->Array_0@[i]->Str_0@.len() && v->Array_0@[i]->Str_0@[j] == '/') && (forall|
            j: int,
        |
            0 <= j < v->Array_0@[i]->Str_0@.len() ==> !is_ws(#[trigger] v->Array_0@[i]->Str_0@[j]))
            ==> input_paths(v).contains(v->Array_0@[i]->Str_0@),
{
    match v {
        JsonValue::Object(members) => {
            if 0 <= i < members@.len() && members@[i].1 is Str && (exists|j: int|
                0 <= j < members@[i].1->Str_0@.len() && members@[i].1->Str_0@[j] == '/') && (forall|
                j: int,
            |
                0 <= j < members@[i].1->Str_0@.len() ==> !is_ws(
                    #[trigger] members@[i].1->Str_0@[j],
                )) {
                lemma_member_paths_collected(members@, i);
            }
        },
        JsonValue::Array(items) => {
            if 0 <= i < items@.len() && items@[i] is Str && (exists|j: int|
                0 <= j < items@[i]->Str_0@.len() && items@[i]->Str_0@[j] == '/') && (forall|j: int|
                0 <= j < items@[i]->Str_0@.len() ==> !is_ws(#[trigger] items@[i]->Str_0@[j])) {
                lemma_item_paths_collected(items@, i);
            }
        },
        _ => {},
    }
}

/// The characters of each string.
pub open spec fn string_views(v: Seq<String>) -> Seq<Seq<char>> {
    v.map_values(|s: String| s@)
}

fn is_path_key_exec(k: &String) -> (r: bool)
    ensures
        r == is_path_key(k@),
{
    let v = chars_of(k.as_str());
    crate::text::chars_eq_str(&v, "file_path") || crate::text::chars_eq_str(&v, "filePath")
        || crate::text::chars_eq_str(&v, "path") || crate::text::chars_eq_str(&v, "abs_path")
        || crate::text::chars_eq_str(&v, "notebook_path") || crate::text::chars_eq_str(&v, "cwd")
}

fn looks_like_path_exec(t: &String) -> (r: bool)
    ensures
        r == looks_like_path(t@),
{
    let v = chars_of(t.as_str());
    let mut slash = false;
    let mut space = false;
    let mut i: usize = 0;
    while i < v.len()
        invariant
            v@ == t@,
            i <= v@.len(),
            slash == exists|j: int| 0 <= j < i && v@[j] == '/',
            space == exists|j: int| 0 <= j < i && is_ws(#[trigger] v@[j]),
        decreases v@.len() - i,
    {
        if v[i] == '/' {
            slash = true;
        }
        if is_whitespace_char(v[i]) {
            space = true;
        }
        i = i + 1;
    }
    slash && !space
}

/// Appends the path-like strings of `value` to `out`.
pub fn collect_input_paths(value: &JsonValue, out: &mut Vec<String>)
    ensures
        string_views(final(out)@) == string_views(old(out)@) + input_paths(*value),
    decreases value,
{
    match value {
        JsonValue::Array(items) => {
            let ghost start = string_views(out@);
            let mut i: usize = 0;
            assert(items@.subrange(0, items@.len() as int) =~= items@);
            assert(start + seq![] =~= start);
            #[verifier::loop_isolation(false)]
            while i < items.len()
                invariant
                    i <= items@.len(),
                    items_paths(items@) == string_views(out@).subrange(
                        start.len() as int,
                        string_views(out@).len() as int,
                    ) + items_paths(items@.subrange(i as int, items@.len() as int)),
                    string_views(out@).len() >= start.len(),
                    string_views(out@).subrange(0, start.len() as int) == start,
                decreases items@.len() - i,
            {
                let ghost before = string_views(out@);
                let ghost rest = items@.subrange(i as int, items@.len() as int);
                assert(rest[0] == items@[i as int]);
                assert(rest.subrange(1, rest.len() as int) =~= items@.subrange(
                    i + 1,
                    items@.len() as int,
                ));
                proof {
                    assert(decreases_to!(*items => items[i as int]));
                    assert(value->Array_0 == *items);
                    assert(decreases_to!(*value => value->Array_0));
                    assert(decreases_to!(*value => items[i as int]));
                }
                collect_input_paths(&items[i], out);
                proof {
                    let after = string_views(out@);
                    let added = input_paths(items@[i as int]);
                    assert(after =~= before + added);
                    assert(after.subrange(start.len() as int, after.len() as int) =~= before.subrange(
                        start.len() as int,
                        before.len() as int,
                    ) + added);
                    assert(after.subrange(0, start.len() as int) =~= before.subrange(
                        0,
                        start.len() as int,
                    ));
                }
                i = i + 1;
            }
            proof {
                let after = string_views(out@);
                assert(items@.subrange(i as int, items@.len() as int) =~= Seq::<JsonValue>::empty());
                assert(after =~= after.subrange(0, start.len() as int) + after.subrange(
                    start.len() as int,
                    after.len() as int,
                ));
            }
        },
        JsonValue::Object(members) => {
            let ghost start = string_views(out@);
            let mut i: usize = 0;
            assert(members@.subrange(0, members@.len() as int) =~= members@);
            #[verifier::loop_isolation(false)]
            while i < members.len()
                invariant
                    i <= members@.len(),
                    members_paths(members@) == string_views(out@).subrange(
                        start.len() as int,
                        string_views(out@).len() as int,
                    ) + members_paths(members@.subrange(i as int, members@.len() as int)),
                    string_views(out@).len() >= start.len(),
                    string_views(out@).subrange(0, start.len() as int) == start,
                decreases members@.len() - i,
            {
                let ghost before = string_views(out@);
                let ghost rest = members@.subrange(i as int, members@.len() as int);
                assert(rest[0] == members@[i as int]);
                assert(rest.subrange(1, rest.len() as int) =~= members@.subrange(
                    i + 1,
                    members@.len() as int,
                ));
                let (key, val) = &members[i];
                match val {
                    JsonValue::Str(text) => {
                        if is_path_key_exec(key) || looks_like_path_exec(text) {
                            out.push(text.clone());
                        }
                    },
                    _ => {
                        proof {
                            assert(decreases_to!(*members => members[i as int]));
                            assert(decreases_to!(members[i as int] => members[i as int].1));
                            assert(value->Object_0 == *members);
                            assert(decreases_to!(*value => value->Object_0));
                            assert(decreases_to!(*value => members[i as int].1));
                        }
                        collect_input_paths(val, out);
                    },
                }
                proof {
                    let after = string_views(out@);
                    let m = members@[i as int];
                    let added = match m.1 {
                        JsonValue::Str(t) => if is_path_key(m.0@) || looks_like_path(t@) {
                            seq![t@]
                        } else {
                            seq![]
                        },
                        other => input_paths(other),
                    };
                    assert(after =~= before + added);
                    assert(after.subrange(start.len() as int, after.len() as int) =~= before.subrange(
                        start.len() as int,
                        before.len() as int,
                    ) + added);
                    assert(after.subrange(0, start.len() as int) =~= before.subrange(
                        0,
                        start.len() as int,
                    ));
                }
                i = i + 1;
            }
            proof {
                let after = string_views(out@);
                assert(members@.subrange(i as int, members@.len() as int) =~= Seq::<
                    (String, JsonValue),
                >::empty());
                assert(after =~= after.subrange(0, start.len() as int) + after.subrange(
                    start.len() as int,
                    after.len() as int,
                ));
            }
        },
        JsonValue::Str(text) => {
            if looks_like_path_exec(text) {
                out.push(text.clone());
            } else {
                assert(string_views(out@) =~= string_views(out@) + seq![]);
            }
        },
        _ => {
            assert(string_views(out@) =~= string_views(out@) + seq![]);
        },
    }
}

} // verus!
