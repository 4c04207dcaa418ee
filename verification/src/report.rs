//! The JSON report of a query run: the columns, the headers where they were
//! renamed, the grouping key, and the rows (per group where grouped).
use vstd::prelude::*;

use crate::json::{
    entries_view, insert_entry, items_view, json_view, lemma_entries_view_index,
    lemma_items_view_index, object_insert, Json, JsonView,
};
use crate::text::{same_str, strings_view};

verus! {

/// A list of strings as a JSON array.
pub open spec fn strings_json(v: Seq<Seq<char>>) -> JsonView {
    JsonView::Array(v.map_values(|t: Seq<char>| JsonView::Str(t)))
}

/// Rows of cells as a JSON array of arrays.
pub open spec fn rows_json(rows: Seq<Seq<Seq<char>>>) -> JsonView {
    JsonView::Array(rows.map_values(|r: Seq<Seq<char>>| strings_json(r)))
}

pub open spec fn rows_view(rows: Seq<Vec<String>>) -> Seq<Seq<Seq<char>>> {
    rows.map_values(|r: Vec<String>| strings_view(r@))
}

/// Each group's rows under the group's name, in an object ordered by name.
pub open spec fn groups_json(groups: Seq<(Seq<char>, Seq<Seq<Seq<char>>>)>) -> Seq<(Seq<char>, JsonView)>
    decreases groups.len(),
{
    if groups.len() == 0 {
        Seq::empty()
    } else {
        insert_entry(groups_json(groups.drop_last()), groups.last().0, rows_json(groups.last().1))
    }
}

pub open spec fn key_columns() -> Seq<char> {
    seq!['c', 'o', 'l', 'u', 'm', 'n', 's']
}

pub open spec fn key_groupby() -> Seq<char> {
    seq!['g', 'r', 'o', 'u', 'p', 'b', 'y']
}

pub open spec fn key_headers() -> Seq<char> {
    seq!['h', 'e', 'a', 'd', 'e', 'r', 's']
}

pub open spec fn key_results() -> Seq<char> {
    seq!['r', 'e', 's', 'u', 'l', 't', 's']
}

/// The report: `columns`, `groupby` where grouped, `headers` where they
/// differ from the columns, and `results`, in the order of their keys.
pub open spec fn report(
    columns: Seq<Seq<char>>,
    headers: Seq<Seq<char>>,
    group: Option<Seq<char>>,
    results: JsonView,
) -> JsonView {
    let c = seq![(key_columns(), strings_json(columns))];
    let g = match group {
        Some(k) => seq![(key_groupby(), JsonView::Str(k))],
        None => Seq::empty(),
    };
    let h = if columns != headers {
        seq![(key_headers(), strings_json(headers))]
    } else {
        Seq::empty()
    };
    JsonView::Object(c + g + h + seq![(key_results(), results)])
}

fn strings_to_json(v: &Vec<String>) -> (r: Json)
    ensures
        r@ == strings_json(strings_view(v@)),
{
    let mut items: Vec<Json> = Vec::new();
    let mut i: usize = 0;
    while i < v.len()
        invariant
            i <= v@.len(),
            items@.len() == i,
            forall|k: int| 0 <= k < i ==> #[trigger] json_view(items@[k]) == JsonView::Str(v@[k]@),
        decreases v@.len() - i,
    {
        items.push(Json::Str(v[i].clone()));
        i = i + 1;
    }
    proof {
        lemma_items_view_index(items@);
        assert(items_view(items@) =~= strings_view(v@).map_values(|t: Seq<char>| JsonView::Str(t)));
    }
    Json::Array(items)
}

fn rows_to_json(rows: &Vec<Vec<String>>) -> (r: Json)
    ensures
        r@ == rows_json(rows_view(rows@)),
{
    let mut items: Vec<Json> = Vec::new();
    let mut i: usize = 0;
    while i < rows.len()
        invariant
            i <= rows@.len(),
            items@.len() == i,
            forall|k: int| 0 <= k < i ==> #[trigger] json_view(items@[k]) == strings_json(strings_view(rows@[k]@)),
        decreases rows@.len() - i,
    {
        items.push(strings_to_json(&rows[i]));
        i = i + 1;
    }
    proof {
        lemma_items_view_index(items@);
        assert(items_view(items@) =~= rows_view(rows@).map_values(|r: Seq<Seq<char>>| strings_json(r)));
    }
    Json::Array(items)
}

fn same_strings(a: &Vec<String>, b: &Vec<String>) -> (r: bool)
    ensures
        r == (strings_view(a@) == strings_view(b@)),
{
    if a.len() != b.len() {
        assert(strings_view(a@).len() != strings_view(b@).len());
        return false;
    }
    let mut i: usize = 0;
    while i < a.len()
        invariant
            a@.len() == b@.len(),
            i <= a@.len(),
            forall|k: int| 0 <= k < i ==> a@[k]@ == b@[k]@,
        decreases a@.len() - i,
    {
        if !same_str(a[i].as_str(), b[i].as_str()) {
            assert(strings_view(a@)[i as int] != strings_view(b@)[i as int]);
            return false;
        }
        i = i + 1;
    }
    assert(strings_view(a@) =~= strings_view(b@));
    true
}

fn report_of(columns: &Vec<String>, headers: &Vec<String>, group: Option<&str>, results: Json) -> (r: Json)
    ensures
        r@ == report(
            strings_view(columns@),
            strings_view(headers@),
            match group {
                Some(k) => Some(k@),
                None => None,
            },
            results@,
        ),
{
    proof {
        reveal_strlit("columns");
        reveal_strlit("groupby");
        reveal_strlit("headers");
        reveal_strlit("results");
    }
    let ghost rv = results@;
    let mut entries: Vec<(String, Json)> = Vec::new();
    let k = String::from_str("columns");
    assert(k@ =~= key_columns());
    entries.push((k, strings_to_json(columns)));
    match group {
        Some(g) => {
            let k = String::from_str("groupby");
            assert(k@ =~= key_groupby());
            entries.push((k, Json::Str(g.to_string())));
        },
        None => {},
    }
    if !same_strings(columns, headers) {
        let k = String::from_str("headers");
        assert(k@ =~= key_headers());
        entries.push((k, strings_to_json(headers)));
    }
    let k = String::from_str("results");
    assert(k@ =~= key_results());
    entries.push((k, results));
    proof {
        lemma_entries_view_index(entries@);
        let want = report(
            strings_view(columns@),
            strings_view(headers@),
            match group {
                Some(k) => Some(k@),
                None => None,
            },
            rv,
        );
        assert(entries_view(entries@) =~= want->Object_0);
    }
    Json::Object(entries)
}

/// The report of an ungrouped run: the table's rows under `results`.
pub fn table_report(columns: &Vec<String>, headers: &Vec<String>, rows: &Vec<Vec<String>>) -> (r: Json)
    ensures
        r@ == report(strings_view(columns@), strings_view(headers@), None, rows_json(rows_view(rows@))),
{
    let results = rows_to_json(rows);
    report_of(columns, headers, None, results)
}

pub open spec fn groups_view(groups: Seq<(String, Vec<Vec<String>>)>) -> Seq<(Seq<char>, Seq<Seq<Seq<char>>>)> {
    groups.map_values(|g: (String, Vec<Vec<String>>)| (g.0@, rows_view(g.1@)))
}

/// The report of a grouped run: under `results`, an object that holds each
/// group's rows under the group's name.
pub fn grouped_report(
    columns: &Vec<String>,
    headers: &Vec<String>,
    group_key: &str,
    groups: &Vec<(String, Vec<Vec<String>>)>,
) -> (r: Json)
    ensures
        r@ == report(
            strings_view(columns@),
            strings_view(headers@),
            Some(group_key@),
            JsonView::Object(groups_json(groups_view(groups@))),
        ),
{
    let ghost gv = groups_view(groups@);
    let mut entries: Vec<(String, Json)> = Vec::new();
    let mut i: usize = 0;
    while i < groups.len()
        invariant
            gv == groups_view(groups@),
            i <= groups@.len(),
            entries_view(entries@) == groups_json(gv.take(i as int)),
        decreases groups@.len() - i,
    {
        let rows = rows_to_json(&groups[i].1);
        object_insert(&mut entries, groups[i].0.clone(), rows);
        assert(gv.take(i + 1).drop_last() =~= gv.take(i as int));
        i = i + 1;
    }
    assert(gv.take(groups@.len() as int) =~= gv);
    report_of(columns, headers, Some(group_key), Json::Object(entries))
}

} // verus!
