//! JSON values as the library holds them, and their compact text.
use vstd::prelude::*;

use crate::text::same_str;

verus! {

/// A JSON value. A number holds its decimal text as the JSON writer renders
/// it; an object holds its entries in the order the writer emits them (by
/// key), each key once.
#[derive(Debug, PartialEq, Eq)]
pub enum Json {
    Null,
    Bool(bool),
    Number(String),
    Str(String),
    Array(Vec<Json>),
    Object(Vec<(String, Json)>),
}

/// The abstract value of a JSON value.
pub enum JsonView {
    Null,
    Bool(bool),
    Number(Seq<char>),
    Str(Seq<char>),
    Array(Seq<JsonView>),
    Object(Seq<(Seq<char>, JsonView)>),
}

pub open spec fn json_view(j: Json) -> JsonView
    decreases j,
{
    match j {
        Json::Null => JsonView::Null,
        Json::Bool(b) => JsonView::Bool(b),
        Json::Number(n) => JsonView::Number(n@),
        Json::Str(t) => JsonView::Str(t@),
        Json::Array(items) => JsonView::Array(items_view(items@)),
        Json::Object(entries) => JsonView::Object(entries_view(entries@)),
    }
}

pub open spec fn items_view(items: Seq<Json>) -> Seq<JsonView>
    decreases items,
{
    if items.len() == 0 {
        Seq::empty()
    } else {
        items_view(items.drop_last()).push(json_view(items.last()))
    }
}

pub open spec fn entries_view(entries: Seq<(String, Json)>) -> Seq<(Seq<char>, JsonView)>
    decreases entries,
{
    if entries.len() == 0 {
        Seq::empty()
    } else {
        entries_view(entries.drop_last()).push((entries.last().0@, json_view(entries.last().1)))
    }
}

impl View for Json {
    type V = JsonView;

    open spec fn view(&self) -> JsonView {
        json_view(*self)
    }
}

impl Json {
    /// A copy of the value, equal to it.
    pub fn deep_copy(&self) -> (r: Json)
        ensures
            r@ == self@,
        decreases self,
    {
        match self {
            Json::Null => Json::Null,
            Json::Bool(b) => Json::Bool(*b),
            Json::Number(n) => {
                let c = n.clone();
                assert(c == *n);
                Json::Number(c)
            },
            Json::Str(t) => {
                let c = t.clone();
                Json::Str(c)
            },
            Json::Array(items) => {
                let mut v: Vec<Json> = Vec::new();
                let mut i: usize = 0;
                while i < items.len()
                    invariant
                        *self == Json::Array(*items),
                        i <= items@.len(),
                        items_view(v@) == items_view(items@.take(i as int)),
                        v@.len() == i,
                    decreases items@.len() - i,
                {
                    assert(decreases_to!(*self => self->Array_0));
                    assert(decreases_to!(self->Array_0 => self->Array_0[i as int]));
                    assert(decreases_to!(*self => items[i as int]));
                    let c = items[i].deep_copy();
                    let ghost before = v@;
                    v.push(c);
                    assert(v@.drop_last() =~= before);
                    assert(items@.take(i + 1) =~= items@.take(i as int).push(items@[i as int]));
                    assert(items@.take(i + 1).drop_last() =~= items@.take(i as int));
                    i = i + 1;
                }
                assert(items@.take(items@.len() as int) =~= items@);
                Json::Array(v)
            },
            Json::Object(entries) => {
                let mut v: Vec<(String, Json)> = Vec::new();
                let mut i: usize = 0;
                while i < entries.len()
                    invariant
                        *self == Json::Object(*entries),
                        i <= entries@.len(),
                        entries_view(v@) == entries_view(entries@.take(i as int)),
                        v@.len() == i,
                    decreases entries@.len() - i,
                {
                    assert(decreases_to!(*self => self->Object_0));
                    assert(decreases_to!(self->Object_0 => self->Object_0[i as int]));
                    assert(decreases_to!(entries[i as int] => entries[i as int].1));
                    assert(decreases_to!(*self => entries[i as int].1));
                    let k = entries[i].0.clone();
                    let c = entries[i].1.deep_copy();
                    let ghost before = v@;
                    v.push((k, c));
                    assert(v@.drop_last() =~= before);
                    assert(entries@.take(i + 1) =~= entries@.take(i as int).push(entries@[i as int]));
                    assert(entries@.take(i + 1).drop_last() =~= entries@.take(i as int));
                    i = i + 1;
                }
                assert(entries@.take(entries@.len() as int) =~= entries@);
                Json::Object(v)
            },
        }
    }
}


// ---------------------------------------------------------------------------
// The JSON writer and reader of `serde_json`
// ---------------------------------------------------------------------------

#[verifier::external_type_specification]
#[verifier::external_body]
pub struct ExJsonValue(serde_json::Value);

/// What `serde_json::to_string` writes for a value: its compact JSON text.
pub uninterp spec fn serde_compact_text(v: JsonView) -> Seq<char>;

/// What `serde_json::from_str::<serde_json::Value>` reads from a text:
/// `None` where the text is not JSON.
pub uninterp spec fn serde_parsed(text: Seq<char>) -> Option<JsonView>;

/// The `serde_json` form of a value, entry for entry; a number is read back
/// from its text (`null` where the text is not a number).
#[verifier::external_body]
fn to_serde_value(j: &Json) -> serde_json::Value {
    match j {
        Json::Null => serde_json::Value::Null,
        Json::Bool(b) => serde_json::Value::Bool(*b),
        Json::Number(t) => t.parse::<serde_json::Number>().map_or(serde_json::Value::Null, serde_json::Value::Number),
        Json::Str(t) => serde_json::Value::String(t.clone()),
        Json::Array(items) => serde_json::Value::Array(items.iter().map(to_serde_value).collect()),
        Json::Object(entries) => serde_json::Value::Object(entries.iter().map(|(k, v)| (k.clone(), to_serde_value(v))).collect()),
    }
}

/// The library's form of a `serde_json` value, entry for entry; a number
/// keeps the text that `serde_json` writes for it.
#[verifier::external_body]
fn from_serde_value(v: &serde_json::Value) -> Json {
    match v {
        serde_json::Value::Null => Json::Null,
        serde_json::Value::Bool(b) => Json::Bool(*b),
        serde_json::Value::Number(n) => Json::Number(n.to_string()),
        serde_json::Value::String(t) => Json::Str(t.clone()),
        serde_json::Value::Array(items) => Json::Array(items.iter().map(from_serde_value).collect()),
        serde_json::Value::Object(map) => Json::Object(map.iter().map(|(k, v)| (k.clone(), from_serde_value(v))).collect()),
    }
}

/// Writes a value with `serde_json::to_string`. The contract claims that
/// the text is `serde_compact_text` of the value: the same value gives the
/// same text. Writing a `serde_json::Value` does not fail.
#[verifier::external_body]
fn compact_text(j: &Json) -> (r: String)
    ensures
        r@ == serde_compact_text(j@),
{
    serde_json::to_string(&to_serde_value(j)).unwrap_or_default()
}

/// Reads a text with `serde_json::from_str::<serde_json::Value>`. The
/// contract claims that the result is `serde_parsed` of the text.
#[verifier::external_body]
pub(crate) fn parse_json(text: &str) -> (r: Option<Json>)
    ensures
        match r {
            Some(j) => serde_parsed(text@) == Some(j@),
            None => serde_parsed(text@) is None,
        },
{
    serde_json::from_str::<serde_json::Value>(text).ok().map(|v| from_serde_value(&v))
}


pub proof fn lemma_items_view_len(items: Seq<Json>)
    ensures
        items_view(items).len() == items.len(),
    decreases items.len(),
{
    if items.len() > 0 {
        lemma_items_view_len(items.drop_last());
    }
}

pub proof fn lemma_entries_view_len(entries: Seq<(String, Json)>)
    ensures
        entries_view(entries).len() == entries.len(),
    decreases entries.len(),
{
    if entries.len() > 0 {
        lemma_entries_view_len(entries.drop_last());
    }
}

/// How a value reads in a table cell: nothing for `null`, `true`/`false`,
/// the number's text, the string itself, else the compact JSON text.
pub open spec fn cell_text(v: JsonView) -> Seq<char> {
    match v {
        JsonView::Null => Seq::empty(),
        JsonView::Bool(b) => if b {
            seq!['t', 'r', 'u', 'e']
        } else {
            seq!['f', 'a', 'l', 's', 'e']
        },
        JsonView::Number(t) => t,
        JsonView::Str(t) => t,
        _ => serde_compact_text(v),
    }
}

/// The text of a value for display.
pub fn stringify(val: &Json) -> (r: String)
    ensures
        r@ == cell_text(val@),
{
    match val {
        Json::Null => String::new(),
        Json::Bool(b) => {
            proof {
                reveal_strlit("true");
                reveal_strlit("false");
            }
            if *b {
                String::from_str("true")
            } else {
                String::from_str("false")
            }
        },
        Json::Number(t) => t.clone(),
        Json::Str(t) => t.clone(),
        other => compact_text(other),
    }
}

/// The value of the first entry under `key`.
pub open spec fn lookup(entries: Seq<(Seq<char>, JsonView)>, key: Seq<char>) -> Option<JsonView>
    decreases entries.len(),
{
    if entries.len() == 0 {
        None
    } else if entries[0].0 == key {
        Some(entries[0].1)
    } else {
        lookup(entries.drop_first(), key)
    }
}

/// The value under `key` when `v` is an object.
pub open spec fn get_key(v: JsonView, key: Seq<char>) -> Option<JsonView> {
    match v {
        JsonView::Object(entries) => lookup(entries, key),
        _ => None,
    }
}

proof fn lemma_lookup_step(entries: Seq<(String, Json)>, i: int, key: Seq<char>)
    requires
        0 <= i < entries.len(),
        forall|j: int| 0 <= j < i ==> entries[j].0@ != key,
    ensures
        lookup(entries_view(entries), key) == lookup(entries_view(entries).skip(i), key),
    decreases i,
{
    lemma_entries_view_len(entries);
    lemma_entries_view_index(entries);
    let ev = entries_view(entries);
    if i > 0 {
        lemma_lookup_step(entries, i - 1, key);
        assert(ev.skip(i - 1).drop_first() =~= ev.skip(i));
        assert(ev.skip(i - 1)[0] == ev[i - 1]);
    } else {
        assert(ev.skip(0) =~= ev);
    }
}

pub proof fn lemma_entries_view_index(entries: Seq<(String, Json)>)
    ensures
        entries_view(entries).len() == entries.len(),
        forall|i: int| 0 <= i < entries.len() ==> #[trigger] entries_view(entries)[i] == (entries[i].0@, json_view(entries[i].1)),
    decreases entries.len(),
{
    lemma_entries_view_len(entries);
    if entries.len() > 0 {
        lemma_entries_view_index(entries.drop_last());
    }
}

pub proof fn lemma_items_view_index(items: Seq<Json>)
    ensures
        items_view(items).len() == items.len(),
        forall|i: int| 0 <= i < items.len() ==> #[trigger] items_view(items)[i] == json_view(items[i]),
    decreases items.len(),
{
    lemma_items_view_len(items);
    if items.len() > 0 {
        lemma_items_view_index(items.drop_last());
    }
}

/// The value under `key` when `document` is an object.
pub fn get_value(document: &Json, key: &str) -> (r: Option<Json>)
    ensures
        match r {
            Some(v) => get_key(document@, key@) == Some(v@),
            None => get_key(document@, key@) is None,
        },
{
    match document {
        Json::Object(entries) => {
            proof { lemma_entries_view_index(entries@); }
            let mut i: usize = 0;
            while i < entries.len()
                invariant
                    *document == Json::Object(*entries),
                    i <= entries@.len(),
                    entries_view(entries@).len() == entries@.len(),
                    forall|j: int| 0 <= j < entries@.len() ==> #[trigger] entries_view(entries@)[j] == (entries@[j].0@, json_view(entries@[j].1)),
                    forall|j: int| 0 <= j < i ==> entries@[j].0@ != key@,
                decreases entries@.len() - i,
            {
                if same_str(entries[i].0.as_str(), key) {
                    proof {
                        lemma_lookup_step(entries@, i as int, key@);
                    }
                    return Some(entries[i].1.deep_copy());
                }
                i = i + 1;
            }
            proof {
                let ev = entries_view(entries@);
                assert forall|k: int| 0 <= k <= ev.len() implies lookup(ev.skip(k), key@) is None by {
                    lemma_lookup_none(ev, k, key@);
                }
                assert(ev.skip(0) =~= ev);
            }
            None
        },
        _ => None,
    }
}

proof fn lemma_lookup_none(ev: Seq<(Seq<char>, JsonView)>, k: int, key: Seq<char>)
    requires
        0 <= k <= ev.len(),
        forall|j: int| 0 <= j < ev.len() ==> ev[j].0 != key,
    ensures
        lookup(ev.skip(k), key) is None,
    decreases ev.len() - k,
{
    if k < ev.len() {
        lemma_lookup_none(ev, k + 1, key);
        assert(ev.skip(k).drop_first() =~= ev.skip(k + 1));
    }
}


// ---------------------------------------------------------------------------
// Setting an entry of an object
// ---------------------------------------------------------------------------

/// `a` sorts before `b` from position `i` on, comparing character by
/// character (as `String`'s order does).
pub open spec fn str_lt_from(a: Seq<char>, b: Seq<char>, i: nat) -> bool
    decreases a.len() - i,
{
    if i >= a.len() {
        i < b.len()
    } else if i >= b.len() {
        false
    } else if a[i as int] != b[i as int] {
        a[i as int] < b[i as int]
    } else {
        str_lt_from(a, b, i + 1)
    }
}

pub open spec fn str_lt(a: Seq<char>, b: Seq<char>) -> bool {
    str_lt_from(a, b, 0)
}

/// The first position at or after `i` whose entry has key `key`, or the
/// number of entries.
pub open spec fn key_pos_from(entries: Seq<(Seq<char>, JsonView)>, key: Seq<char>, i: nat) -> nat
    decreases entries.len() - i,
{
    if i >= entries.len() {
        entries.len()
    } else if entries[i as int].0 == key {
        i
    } else {
        key_pos_from(entries, key, i + 1)
    }
}

/// The first position at or after `i` whose key sorts after `key`, or the
/// number of entries.
pub open spec fn after_pos_from(entries: Seq<(Seq<char>, JsonView)>, key: Seq<char>, i: nat) -> nat
    decreases entries.len() - i,
{
    if i >= entries.len() {
        entries.len()
    } else if str_lt(key, entries[i as int].0) {
        i
    } else {
        after_pos_from(entries, key, i + 1)
    }
}

/// The entries after setting `key` to `value` as an ordered map does: an
/// entry with that key gets the new value in place; else the entry goes in
/// before the first entry whose key sorts after it.
pub open spec fn insert_entry(entries: Seq<(Seq<char>, JsonView)>, key: Seq<char>, value: JsonView) -> Seq<
    (Seq<char>, JsonView),
> {
    let i = key_pos_from(entries, key, 0);
    if i < entries.len() {
        entries.update(i as int, (key, value))
    } else {
        entries.insert(after_pos_from(entries, key, 0) as int, (key, value))
    }
}

proof fn lemma_key_pos_bound(entries: Seq<(Seq<char>, JsonView)>, key: Seq<char>, i: nat)
    ensures
        key_pos_from(entries, key, i) <= entries.len(),
        i <= entries.len() ==> i <= key_pos_from(entries, key, i),
    decreases entries.len() - i,
{
    if i < entries.len() {
        lemma_key_pos_bound(entries, key, i + 1);
    }
}

proof fn lemma_after_pos_bound(entries: Seq<(Seq<char>, JsonView)>, key: Seq<char>, i: nat)
    ensures
        after_pos_from(entries, key, i) <= entries.len(),
    decreases entries.len() - i,
{
    if i < entries.len() {
        lemma_after_pos_bound(entries, key, i + 1);
    }
}

/// Whether `a` sorts before `b`.
pub fn str_less(a: &str, b: &str) -> (r: bool)
    ensures
        r == str_lt(a@, b@),
{
    let na = a.unicode_len();
    let nb = b.unicode_len();
    let mut i: usize = 0;
    while i < na && i < nb
        invariant
            na == a@.len(),
            nb == b@.len(),
            i <= na,
            i <= nb,
            str_lt(a@, b@) == str_lt_from(a@, b@, i as nat),
        decreases na - i,
    {
        let x = a.get_char(i);
        let y = b.get_char(i);
        if x != y {
            return x < y;
        }
        i = i + 1;
    }
    i < nb
}

fn key_position(entries: &Vec<(String, Json)>, key: &str) -> (r: usize)
    ensures
        r as nat == key_pos_from(entries_view(entries@), key@, 0),
{
    proof { lemma_entries_view_index(entries@); }
    let ghost ev = entries_view(entries@);
    let mut i: usize = 0;
    while i < entries.len()
        invariant
            ev == entries_view(entries@),
            ev.len() == entries@.len(),
            forall|k: int| 0 <= k < entries@.len() ==> #[trigger] ev[k] == (entries@[k].0@, json_view(entries@[k].1)),
            i <= entries@.len(),
            key_pos_from(ev, key@, 0) == key_pos_from(ev, key@, i as nat),
        decreases entries@.len() - i,
    {
        if same_str(entries[i].0.as_str(), key) {
            return i;
        }
        i = i + 1;
    }
    i
}

fn after_position(entries: &Vec<(String, Json)>, key: &str) -> (r: usize)
    ensures
        r as nat == after_pos_from(entries_view(entries@), key@, 0),
{
    proof { lemma_entries_view_index(entries@); }
    let ghost ev = entries_view(entries@);
    let mut i: usize = 0;
    while i < entries.len()
        invariant
            ev == entries_view(entries@),
            ev.len() == entries@.len(),
            forall|k: int| 0 <= k < entries@.len() ==> #[trigger] ev[k] == (entries@[k].0@, json_view(entries@[k].1)),
            i <= entries@.len(),
            after_pos_from(ev, key@, 0) == after_pos_from(ev, key@, i as nat),
        decreases entries@.len() - i,
    {
        if str_less(key, entries[i].0.as_str()) {
            return i;
        }
        i = i + 1;
    }
    i
}

/// Sets `key` to `value` in the entries of an object, as an ordered map's
/// `insert` does.
pub fn object_insert(entries: &mut Vec<(String, Json)>, key: String, value: Json)
    ensures
        entries_view(final(entries)@) == insert_entry(entries_view(old(entries)@), key@, value@),
{
    proof { lemma_entries_view_index(entries@); }
    let ghost ev = entries_view(entries@);
    let ghost target = insert_entry(ev, key@, value@);
    let ghost kv = (key@, value@);
    proof {
        lemma_key_pos_bound(ev, key@, 0);
        lemma_after_pos_bound(ev, key@, 0);
    }
    let i = key_position(entries, key.as_str());
    if i < entries.len() {
        entries.set(i, (key, value));
        proof {
            lemma_entries_view_index(entries@);
            assert(entries_view(entries@) =~= target);
        }
    } else {
        let p = after_position(entries, key.as_str());
        entries.insert(p, (key, value));
        proof {
            lemma_entries_view_index(entries@);
            assert(entries_view(entries@) =~= target);
        }
    }
}


proof fn lemma_lookup_after_insert(
    entries: Seq<(Seq<char>, JsonView)>,
    p: int,
    key: Seq<char>,
    value: JsonView,
    other: Seq<char>,
)
    requires
        0 <= p <= entries.len(),
        forall|j: int| 0 <= j < p ==> entries[j].0 != key,
    ensures
        other == key ==> lookup(entries.insert(p, (key, value)), other) == Some(value),
        other != key ==> lookup(entries.insert(p, (key, value)), other) == lookup(entries, other),
    decreases p,
{
    let e2 = entries.insert(p, (key, value));
    if p == 0 {
        assert(e2[0] == (key, value));
        assert(e2.drop_first() =~= entries);
    } else {
        assert(e2[0] == entries[0]);
        assert(e2.drop_first() =~= entries.drop_first().insert(p - 1, (key, value)));
        lemma_lookup_after_insert(entries.drop_first(), p - 1, key, value, other);
    }
}

proof fn lemma_lookup_after_update(
    entries: Seq<(Seq<char>, JsonView)>,
    i: int,
    key: Seq<char>,
    value: JsonView,
    other: Seq<char>,
)
    requires
        0 <= i < entries.len(),
        entries[i].0 == key,
        forall|j: int| 0 <= j < i ==> entries[j].0 != key,
    ensures
        other == key ==> lookup(entries.update(i, (key, value)), other) == Some(value),
        other != key ==> lookup(entries.update(i, (key, value)), other) == lookup(entries, other),
    decreases i,
{
    let e2 = entries.update(i, (key, value));
    if i == 0 {
        assert(e2[0] == (key, value));
        assert(e2.drop_first() =~= entries.drop_first());
    } else {
        assert(e2[0] == entries[0]);
        assert(e2.drop_first() =~= entries.drop_first().update(i - 1, (key, value)));
        lemma_lookup_after_update(entries.drop_first(), i - 1, key, value, other);
    }
}

proof fn lemma_key_pos_first(entries: Seq<(Seq<char>, JsonView)>, key: Seq<char>, i: nat)
    requires
        i <= entries.len(),
        forall|j: int| 0 <= j < i ==> entries[j].0 != key,
    ensures
        key_pos_from(entries, key, i) <= entries.len(),
        forall|j: int| 0 <= j < key_pos_from(entries, key, i) ==> entries[j].0 != key,
        key_pos_from(entries, key, i) < entries.len() ==> entries[key_pos_from(entries, key, i) as int].0
            == key,
    decreases entries.len() - i,
{
    if i < entries.len() && entries[i as int].0 != key {
        lemma_key_pos_first(entries, key, i + 1);
    }
}

/// Setting a key of an object and reading it back gives the value set;
/// reading any other key gives what it gave before.
pub proof fn lemma_insert_entry_lookup(
    entries: Seq<(Seq<char>, JsonView)>,
    key: Seq<char>,
    value: JsonView,
    other: Seq<char>,
)
    ensures
        lookup(insert_entry(entries, key, value), key) == Some(value),
        other != key ==> lookup(insert_entry(entries, key, value), other) == lookup(entries, other),
{
    lemma_key_pos_first(entries, key, 0);
    lemma_after_pos_bound(entries, key, 0);
    let i = key_pos_from(entries, key, 0);
    if i < entries.len() {
        lemma_lookup_after_update(entries, i as int, key, value, key);
        lemma_lookup_after_update(entries, i as int, key, value, other);
    } else {
        let p = after_pos_from(entries, key, 0) as int;
        lemma_lookup_after_insert(entries, p, key, value, key);
        lemma_lookup_after_insert(entries, p, key, value, other);
    }
}


/// The keys of the entries increase strictly, as an ordered map keeps them.
pub open spec fn keys_sorted(entries: Seq<(Seq<char>, JsonView)>) -> bool {
    forall|i: int, j: int|
        #![trigger entries[i], entries[j]]
        0 <= i < j < entries.len() ==> str_lt(entries[i].0, entries[j].0)
}

proof fn lemma_str_lt_trans(a: Seq<char>, b: Seq<char>, c: Seq<char>, i: nat)
    requires
        str_lt_from(a, b, i),
        str_lt_from(b, c, i),
    ensures
        str_lt_from(a, c, i),
    decreases a.len() - i,
{
    if i < a.len() && i < b.len() && i < c.len() && a[i as int] == b[i as int] && b[i as int]
        == c[i as int] {
        lemma_str_lt_trans(a, b, c, i + 1);
    }
}

proof fn lemma_str_lt_total(a: Seq<char>, b: Seq<char>, i: nat)
    requires
        i <= a.len(),
        i <= b.len(),
        a.skip(i as int) != b.skip(i as int),
    ensures
        str_lt_from(a, b, i) || str_lt_from(b, a, i),
    decreases a.len() - i,
{
    if i < a.len() && i < b.len() {
        if a[i as int] == b[i as int] {
            assert(a.skip(i as int) =~= seq![a[i as int]] + a.skip(i + 1 as int));
            assert(b.skip(i as int) =~= seq![b[i as int]] + b.skip(i + 1 as int));
            lemma_str_lt_total(a, b, i + 1);
        }
    } else if i >= a.len() && i >= b.len() {
        assert(a.skip(i as int) =~= b.skip(i as int));
    }
}

proof fn lemma_after_pos(entries: Seq<(Seq<char>, JsonView)>, key: Seq<char>, i: nat)
    requires
        i <= entries.len(),
    ensures
        i <= after_pos_from(entries, key, i) <= entries.len(),
        forall|j: int| i <= j < after_pos_from(entries, key, i) ==> !str_lt(key, entries[j].0),
        after_pos_from(entries, key, i) < entries.len() ==> str_lt(
            key,
            entries[after_pos_from(entries, key, i) as int].0,
        ),
    decreases entries.len() - i,
{
    if i < entries.len() && !str_lt(key, entries[i as int].0) {
        lemma_after_pos(entries, key, i + 1);
    }
}

/// Setting an entry keeps the keys of an object in strictly increasing
/// order, each key once.
pub proof fn lemma_insert_entry_sorted(entries: Seq<(Seq<char>, JsonView)>, key: Seq<char>, value: JsonView)
    requires
        keys_sorted(entries),
    ensures
        keys_sorted(insert_entry(entries, key, value)),
{
    lemma_key_pos_first(entries, key, 0);
    let i = key_pos_from(entries, key, 0);
    let r = insert_entry(entries, key, value);
    if i < entries.len() {
        assert forall|a: int, b: int| 0 <= a < b < r.len() implies #[trigger] str_lt(r[a].0, r[b].0) by {
            assert(str_lt(entries[a].0, entries[b].0));
        }
    } else {
        lemma_after_pos(entries, key, 0);
        let p = after_pos_from(entries, key, 0) as int;
        assert forall|a: int, b: int| 0 <= a < b < r.len() implies #[trigger] str_lt(r[a].0, r[b].0) by {
            if a < p && b < p {
                assert(str_lt(entries[a].0, entries[b].0));
            } else if a < p && b == p {
                assert(!str_lt(key, entries[a].0));
                assert(entries[a].0 != key);
                if entries[a].0.skip(0) == key.skip(0) {
                    assert(entries[a].0 =~= entries[a].0.skip(0));
                    assert(key =~= key.skip(0));
                }
                lemma_str_lt_total(entries[a].0, key, 0);
            } else if a < p && b > p {
                assert(str_lt(entries[a].0, entries[b - 1].0));
            } else if a == p {
                if b - 1 > p {
                    assert(str_lt(entries[p].0, entries[b - 1].0));
                    lemma_str_lt_trans(key, entries[p].0, entries[b - 1].0, 0);
                }
            } else {
                assert(str_lt(entries[a - 1].0, entries[b - 1].0));
            }
        }
    }
}

} // verus!
