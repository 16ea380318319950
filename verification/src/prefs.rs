//! Flat key/value settings: a null value deletes its key, any other value
//! replaces what the key held.

use vstd::prelude::*;
use crate::git::opt_view;
use crate::json::JsonValue;
use crate::keyed::{distinct_keys, entries_map, KeyedMap};

verus! {

/// The settings after setting `key` to `value` (`None` standing for null).
pub open spec fn after_set<V>(m: Map<Seq<char>, V>, key: Seq<char>, value: Option<V>) -> Map<
    Seq<char>,
    V,
> {
    match value {
        Some(v) => m.insert(key, v),
        None => m.remove(key),
    }
}

/// The settings store.
pub struct Settings<V> {
    map: KeyedMap<V>,
}

impl<V> Settings<V> {
    /// The keys and their values.
    pub closed spec fn view(&self) -> Map<Seq<char>, V> {
        self.map.view()
    }

    /// Keys are distinct.
    pub closed spec fn wf(&self) -> bool {
        self.map.wf()
    }

    /// No settings.
    pub fn new() -> (s: Self)
        ensures
            s.wf(),
            s.view() == Map::<Seq<char>, V>::empty(),
    {
        Settings { map: KeyedMap::new() }
    }

    /// The value of `key`, if set.
    pub fn get(&self, key: &str) -> (r: Option<&V>)
        requires
            self.wf(),
        ensures
            match r {
                Some(v) => self.view().contains_key(key@) && *v == self.view()[key@],
                None => !self.view().contains_key(key@),
            },
    {
        self.map.get(key)
    }

    /// Sets `key` to `value`; `None` (a null value) removes the key.
    pub fn set(&mut self, key: String, value: Option<V>)
        requires
            old(self).wf(),
        ensures
            final(self).wf(),
            final(self).view() == after_set(old(self).view(), key@, value),
    {
        match value {
            Some(v) => {
                self.map.insert(key, v);
            },
            None => {
                self.map.remove(key.as_str());
            },
        }
    }

    /// Every setting, each key once.
    pub fn into_entries(self) -> (entries: Vec<(String, V)>)
        requires
            self.wf(),
        ensures
            distinct_keys(entries@),
            entries_map(entries@) == self.view(),
    {
        self.map.into_entries()
    }
}

/// Reading a key back after setting it gives what was written; a null
/// removes it; no other key changes.
pub proof fn lemma_read_after_set<V>(m: Map<Seq<char>, V>, key: Seq<char>, value: Option<V>)
    ensures
        match value {
            Some(v) => after_set(m, key, value).contains_key(key) && after_set(m, key, value)[key]
                == v,
            None => !after_set(m, key, value).contains_key(key),
        },
        forall|other: Seq<char>|
            other != key ==> (#[trigger] after_set(m, key, value).contains_key(other)
                == m.contains_key(other)) && (m.contains_key(other) ==> after_set(
                m,
                key,
                value,
            )[other] == m[other]),
{
}

/// Setting a key twice leaves what the second write wrote, whatever the
/// first wrote.
pub proof fn lemma_last_write_wins<V>(
    m: Map<Seq<char>, V>,
    key: Seq<char>,
    first: Option<V>,
    second: Option<V>,
)
    ensures
        after_set(after_set(m, key, first), key, second) == after_set(m, key, second),
{
    assert(after_set(after_set(m, key, first), key, second) =~= after_set(m, key, second));
}

/// The (key, value) pairs of an entry list, each key taken as its characters.
pub open spec fn pair_views<V>(s: Seq<(String, V)>) -> Seq<(Seq<char>, V)> {
    s.map_values(|p: (String, V)| (p.0@, p.1))
}

/// The map a list of members stands for: a later member replaces an earlier
/// one under the same key.
pub open spec fn members_map<V>(s: Seq<(Seq<char>, V)>) -> Map<Seq<char>, V>
    decreases s.len(),
{
    if s.len() == 0 {
        Map::empty()
    } else {
        members_map(s.drop_last()).insert(s.last().0, s.last().1)
    }
}

proof fn lemma_entries_map_views<V>(s: Seq<(String, V)>)
    ensures
        entries_map(s) == members_map(pair_views(s)),
    decreases s.len(),
{
    if s.len() > 0 {
        lemma_entries_map_views(s.drop_last());
        assert(pair_views(s.drop_last()) =~= pair_views(s).drop_last());
    }
}

/// The members of `text` read as a JSON object, in the order `serde_json`
/// gives them; `None` when the text is not a JSON object.
pub uninterp spec fn settings_object(text: Seq<char>) -> Option<Seq<(Seq<char>, JsonValue)>>;

/// What `serde_json::to_string_pretty` writes for the object collected from
/// these members; `None` when it reports an error.
pub uninterp spec fn pretty_settings(members: Seq<(Seq<char>, JsonValue)>) -> Option<Seq<char>>;

/// The settings that a file holding `text` stands for: the members' map when
/// the text is a JSON object, no settings otherwise.
pub open spec fn settings_of(text: Seq<char>) -> Map<Seq<char>, JsonValue> {
    match settings_object(text) {
        Some(m) => members_map(m),
        None => Map::empty(),
    }
}

/// A null value stands for no value.
pub open spec fn null_as_none(v: JsonValue) -> Option<JsonValue> {
    match v {
        JsonValue::Null => None,
        _ => Some(v),
    }
}

/// Only a JSON null deletes: setting a key to any other value (an empty
/// string, `false`, `0`, an empty array or object among them) makes the key
/// hold exactly that value, and setting it to null removes it.
pub proof fn lemma_only_null_deletes(m: Map<Seq<char>, JsonValue>, key: Seq<char>, value: JsonValue)
    ensures
        !(value is Null) ==> after_set(m, key, null_as_none(value)) == m.insert(key, value),
        value is Null ==> after_set(m, key, null_as_none(value)) == m.remove(key),
        !(value is Null) ==> after_set(m, key, null_as_none(value))[key] == value,
{
}

/// Converts a value that `serde_json` parsed into the library's model,
/// variant for variant, moving each field; it makes no other call.
#[verifier::external_body]
fn model_of(v: serde_json::Value) -> JsonValue {
    match v {
        serde_json::Value::Null => JsonValue::Null,
        serde_json::Value::Bool(b) => JsonValue::Bool(b),
        serde_json::Value::Number(n) => JsonValue::Num(n),
        serde_json::Value::String(s) => JsonValue::Str(s),
        serde_json::Value::Array(a) => JsonValue::Array(a.into_iter().map(model_of).collect()),
        serde_json::Value::Object(m) => JsonValue::Object(
            m.into_iter().map(|(k, v)| (k, model_of(v))).collect(),
        ),
    }
}

/// Converts the library's model of a JSON value into a `serde_json::Value`,
/// variant for variant, copying each field; it makes no other call.
#[verifier::external_body]
fn serde_of(v: &JsonValue) -> serde_json::Value {
    match v {
        JsonValue::Null => serde_json::Value::Null,
        JsonValue::Bool(b) => serde_json::Value::Bool(*b),
        JsonValue::Num(n) => serde_json::Value::Number(n.clone()),
        JsonValue::Str(s) => serde_json::Value::String(s.clone()),
        JsonValue::Array(a) => serde_json::Value::Array(a.iter().map(serde_of).collect()),
        JsonValue::Object(m) => serde_json::Value::Object(
            m.iter().map(|(k, v)| (k.clone(), serde_of(v))).collect(),
        ),
    }
}

/// Calls `serde_json::from_str` into a `serde_json::Map<String, Value>`:
/// `Some` with the object's members when the text is a JSON object, `None`
/// when `serde_json` reports an error. The members are `settings_object` of
/// the text; the map holds each key once.
#[verifier::external_body]
fn parse_settings_object(text: &str) -> (r: Option<Vec<(String, JsonValue)>>)
    ensures
        match r {
            Some(v) => settings_object(text@) == Some(pair_views(v@)) && distinct_keys(v@),
            None => settings_object(text@) is None,
        },
{
    match serde_json::from_str::<serde_json::Map<String, serde_json::Value>>(text) {
        Ok(map) => Some(map.into_iter().map(|(k, v)| (k, model_of(v))).collect()),
        Err(_) => None,
    }
}

/// Calls `serde_json::to_string_pretty` on the `serde_json::Map` collected
/// from `entries`; its result is `pretty_settings` of the entries. That map
/// is a `BTreeMap` here (no `preserve_order`): a later entry replaces an
/// earlier one under the same key and keys are written in order, so the text
/// depends only on the key/value map that the entries stand for.
#[verifier::external_body]
fn pretty_settings_text(entries: &Vec<(String, JsonValue)>) -> (r: Option<String>)
    ensures
        opt_view(r) == pretty_settings(pair_views(entries@)),
        forall|other: Seq<(Seq<char>, JsonValue)>|
            members_map(other) == members_map(pair_views(entries@)) ==> #[trigger] pretty_settings(
                other,
            ) == opt_view(r),
{
    let map: serde_json::Map<String, serde_json::Value> =
        entries.iter().map(|(k, v)| (k.clone(), serde_of(v))).collect();
    match serde_json::to_string_pretty(&map) {
        Ok(text) => Some(text),
        Err(_) => None,
    }
}

/// The settings in a file holding `text`: its members when the text is a
/// JSON object, none otherwise.
pub fn settings_from_text(text: &str) -> (s: Settings<JsonValue>)
    ensures
        s.wf(),
        s.view() == settings_of(text@),
{
    match parse_settings_object(text) {
        Some(members) => {
            proof {
                lemma_entries_map_views(members@);
            }
            Settings { map: KeyedMap::from_entries(members) }
        },
        None => Settings::new(),
    }
}

/// The pretty-printed JSON object that holds `settings`: the text of every
/// listing of its keys and values (they all give the same text); `None` when
/// `serde_json` reports an error.
pub fn settings_text(settings: Settings<JsonValue>) -> (r: Option<String>)
    requires
        settings.wf(),
    ensures
        forall|members: Seq<(Seq<char>, JsonValue)>|
            members_map(members) == settings.view() ==> #[trigger] pretty_settings(members)
                == opt_view(r),
        exists|members: Seq<(Seq<char>, JsonValue)>| #[trigger] members_map(members) == settings.view(),
{
    let ghost m = settings.view();
    let entries = settings.into_entries();
    proof {
        lemma_entries_map_views(entries@);
    }
    let r = pretty_settings_text(&entries);
    assert(members_map(pair_views(entries@)) == m);
    r
}

/// The text to write back after setting `key` to `value` in a file holding
/// `current`: a null `value` removes the key, any other replaces it; a file
/// that is not a JSON object counts as holding no settings.
pub fn updated_settings_text(current: &str, key: String, value: JsonValue) -> (r: Option<String>)
    ensures
        forall|members: Seq<(Seq<char>, JsonValue)>|
            members_map(members) == after_set(settings_of(current@), key@, null_as_none(value))
                ==> #[trigger] pretty_settings(members) == opt_view(r),
        exists|members: Seq<(Seq<char>, JsonValue)>|
            #[trigger] members_map(members) == after_set(
                settings_of(current@),
                key@,
                null_as_none(value),
            ),
{
    let mut settings = settings_from_text(current);
    let update = match value {
        JsonValue::Null => None,
        other => Some(other),
    };
    settings.set(key, update);
    settings_text(settings)
}

} // verus!
