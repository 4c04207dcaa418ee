//! Result rows as text: a drawn table for a terminal, CSV otherwise.
use vstd::prelude::*;

use crate::dataview::query::table_view;
use crate::text::strings_view;

verus! {

/// What the `csv` crate's writer (default settings) writes for these
/// records, one line per record.
pub uninterp spec fn csv_encoded(records: Seq<Seq<Seq<char>>>) -> Seq<char>;

/// All records have the same number of fields, as the `csv` writer
/// (default settings) demands.
pub open spec fn same_width(records: Seq<Vec<String>>) -> bool {
    forall|i: int, j: int|
        #![trigger records[i], records[j]]
        0 <= i < records.len() && 0 <= j < records.len() ==> records[i]@.len() == records[j]@.len()
}

/// Writes each record with `csv::Writer::write_record` into a writer made
/// by `csv::WriterBuilder::new().from_writer` over a byte vector, and
/// returns the bytes as text. The contract claims that the text is
/// `csv_encoded` of the records. With records of one width no write fails,
/// and the bytes of UTF-8 fields are UTF-8.
#[verifier::external_body]
fn csv_records(records: &Vec<Vec<String>>) -> (r: String)
    requires
        same_width(records@),
    ensures
        r@ == csv_encoded(table_view(records@)),
{
    let mut writer = csv::WriterBuilder::new().from_writer(vec![]);
    let written = records.iter().try_for_each(|record| writer.write_record(record));
    let bytes = writer.into_inner().unwrap_or_default();
    if written.is_err() {
        return String::new();
    }
    String::from_utf8(bytes).unwrap_or_default()
}

/// The CSV text of result rows, led by a header record where headers are
/// given. The headers and all rows have the same number of fields.
pub fn csv_output(rows: &Vec<Vec<String>>, headers: Option<&Vec<String>>) -> (r: String)
    requires
        same_width(rows@),
        headers matches Some(h) ==> forall|i: int| 0 <= i < rows@.len() ==> #[trigger] rows@[i]@.len() == h@.len(),
    ensures
        r@ == csv_encoded(
            match headers {
                Some(h) => seq![strings_view(h@)] + table_view(rows@),
                None => table_view(rows@),
            },
        ),
{
    let mut records: Vec<Vec<String>> = Vec::new();
    let ghost want = match headers {
        Some(h) => seq![strings_view(h@)] + table_view(rows@),
        None => table_view(rows@),
    };
    let ghost first: int = if headers is Some { 1 } else { 0 };
    match headers {
        Some(h) => {
            records.push(copy_strings(h));
        },
        None => {},
    }
    let mut i: usize = 0;
    while i < rows.len()
        invariant
            first == (if headers is Some { 1int } else { 0int }),
            want == (match headers {
                Some(h) => seq![strings_view(h@)] + table_view(rows@),
                None => table_view(rows@),
            }),
            i <= rows@.len(),
            records@.len() == first + i,
            forall|k: int| 0 <= k < records@.len() ==> #[trigger] strings_view(records@[k]@) == want[k],
            forall|k: int| 0 <= k < records@.len() ==> #[trigger] records@[k]@.len() == want[k].len(),
        decreases rows@.len() - i,
    {
        records.push(copy_strings(&rows[i]));
        i = i + 1;
    }
    proof {
        assert(table_view(records@) =~= want);
        assert forall|a: int, b: int| 0 <= a < records@.len() && 0 <= b < records@.len() implies #[trigger] records@[a]@.len()
            == #[trigger] records@[b]@.len() by {
            assert(records@[a]@.len() == want[a].len());
            assert(records@[b]@.len() == want[b].len());
            if first == 1 {
                if a >= 1 {
                    assert(want[a] == strings_view(rows@[a - 1]@));
                }
                if b >= 1 {
                    assert(want[b] == strings_view(rows@[b - 1]@));
                }
            } else {
                assert(want[a] == strings_view(rows@[a]@));
                assert(want[b] == strings_view(rows@[b]@));
            }
        }
    }
    csv_records(&records)
}

fn copy_strings(v: &Vec<String>) -> (r: Vec<String>)
    ensures
        strings_view(r@) == strings_view(v@),
        r@.len() == v@.len(),
{
    let mut out: Vec<String> = Vec::new();
    let mut i: usize = 0;
    while i < v.len()
        invariant
            i <= v@.len(),
            out@.len() == i,
            forall|k: int| 0 <= k < i ==> #[trigger] out@[k]@ == v@[k]@,
        decreases v@.len() - i,
    {
        out.push(v[i].clone());
        i = i + 1;
    }
    assert(strings_view(out@) =~= strings_view(v@));
    out
}


/// What the `comfy-table` crate draws for these headers and rows, with the
/// `UTF8_FULL_CONDENSED` preset and its default (content-sized) layout.
pub uninterp spec fn comfy_table_text(headers: Seq<Seq<char>>, rows: Seq<Seq<Seq<char>>>) -> Seq<char>;

/// Draws the headers and rows with `comfy_table::Table` (`set_header`,
/// `load_preset(UTF8_FULL_CONDENSED)`, `add_rows`) and returns what its
/// `Display` writes. With the default layout the columns are as wide as
/// their content and unstyled cells are written as they are, so the text
/// depends on the headers and rows alone; the contract claims that it is
/// `comfy_table_text` of them.
#[verifier::external_body]
fn table_text(headers: &Vec<String>, rows: &Vec<Vec<String>>) -> (r: String)
    ensures
        r@ == comfy_table_text(strings_view(headers@), table_view(rows@)),
{
    let mut table = comfy_table::Table::new();
    table.set_header(headers.clone());
    table.load_preset(comfy_table::presets::UTF8_FULL_CONDENSED);
    table.add_rows(rows.clone());
    table.to_string()
}

/// The table of result rows shown on a terminal; none where there are no
/// rows.
pub fn result_table(rows: &Vec<Vec<String>>, headers: &Vec<String>) -> (r: Option<String>)
    ensures
        rows@.len() == 0 ==> r is None,
        rows@.len() > 0 ==> (r matches Some(t) && t@ == comfy_table_text(strings_view(headers@), table_view(rows@))),
{
    if rows.len() == 0 {
        None
    } else {
        Some(table_text(headers, rows))
    }
}

} // verus!
