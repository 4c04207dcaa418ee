//! The command line's settings: the options as given, checked and put in
//! the shape that the query needs.
use vstd::prelude::*;

use crate::dataview::query::{decimal_value, digit_value, is_digit, lemma_decimal_grows};
use crate::json::{parse_json, serde_parsed, Json, JsonView};
use crate::text::chars_of;

verus! {

/// The settings of a run.
pub struct Args {
    pub root_dir: String,
    pub output_json: bool,
    pub no_header: bool,
    pub limit: usize,
    pub offset: usize,
    pub use_inline_tags: bool,
    pub extract_tasks: bool,
    pub sort_by: Option<String>,
    pub group_by: Option<String>,
    pub reversed: bool,
    pub columns: Vec<String>,
    pub headers: Vec<String>,
    pub filters: Json,
}

/// The options as the command line gives them: the counts as text, each
/// column as `key` or `key:header`, each filter as its JSON text.
pub struct RawArgs {
    pub root_dir: String,
    pub output_json: bool,
    pub no_header: bool,
    pub limit: String,
    pub offset: String,
    pub use_inline_tags: bool,
    pub extract_tasks: bool,
    pub sort_by: Option<String>,
    pub group_by: Option<String>,
    pub reversed: bool,
    pub columns: Vec<String>,
    pub filters: Vec<String>,
}

/// Why the options were refused: the limit or the offset is not a number,
/// or the filter at this position is not JSON.
#[derive(Debug, Clone, Copy, PartialEq, Eq, Structural)]
pub enum ArgsError {
    Limit,
    Offset,
    Filter(usize),
}

/// The count a text denotes, as `usize`'s `FromStr` reads it: an optional
/// `+`, then one or more ASCII digits, the value fitting in `usize`.
pub open spec fn count_value(t: Seq<char>) -> Option<usize> {
    let a: int = if t.len() > 0 && t[0] == '+' {
        1
    } else {
        0
    };
    if a >= t.len() || !(forall|i: int| a <= i < t.len() ==> #[trigger] is_digit(t[i]))
        || decimal_value(t, a, t.len() as int) > usize::MAX {
        None
    } else {
        Some(decimal_value(t, a, t.len() as int) as usize)
    }
}

/// Reads a count (a limit or an offset).
pub fn parse_count(text: &str) -> (r: Option<usize>)
    ensures
        r == count_value(text@),
{
    let s = chars_of(text);
    let n = s.len();
    let a: usize = if n > 0 && s[0] == '+' {
        1
    } else {
        0
    };
    if a >= n {
        return None;
    }
    let mut i = a;
    let mut v: usize = 0;
    while i < n
        invariant
            s@ == text@,
            n == s@.len(),
            a <= i <= n,
            a == (if n > 0 && s@[0] == '+' {
                1usize
            } else {
                0usize
            }),
            forall|j: int| a <= j < i ==> #[trigger] is_digit(s@[j]),
            v as nat == decimal_value(s@, a as int, i as int),
        decreases n - i,
    {
        let c = s[i];
        if !('0' <= c && c <= '9') {
            assert(!is_digit(s@[i as int]));
            return None;
        }
        let d = ((c as u32) - ('0' as u32)) as usize;
        let ghost next = decimal_value(s@, a as int, i + 1);
        assert(next == decimal_value(s@, a as int, i as int) * 10 + digit_value(s@[i as int]));
        proof { lemma_decimal_grows(s@, a as int, i + 1, n as int); }
        match v.checked_mul(10) {
            None => {
                assert(next > usize::MAX) by (nonlinear_arith)
                    requires
                        next == v * 10 + d,
                        v * 10 > usize::MAX,
                        d >= 0,
                ;
                return None;
            },
            Some(m) => match m.checked_add(d) {
                None => {
                    return None;
                },
                Some(w) => {
                    v = w;
                },
            },
        }
        i = i + 1;
    }
    Some(v)
}

/// The position of the first `:` in `t`, or its length.
pub open spec fn colon_pos(t: Seq<char>, i: int) -> int
    decreases t.len() - i,
{
    if i >= t.len() || i < 0 {
        t.len() as int
    } else if t[i] == ':' {
        i
    } else {
        colon_pos(t, i + 1)
    }
}

/// A column given as `key:header` names its key and its header; one
/// without `:` names both.
pub open spec fn column_spec(t: Seq<char>) -> (Seq<char>, Seq<char>) {
    let c = colon_pos(t, 0);
    if c < t.len() {
        (t.take(c), t.skip(c + 1))
    } else {
        (t, t)
    }
}

proof fn lemma_colon_pos(t: Seq<char>, i: int)
    requires
        0 <= i <= t.len(),
    ensures
        i <= colon_pos(t, i) <= t.len(),
        forall|j: int| i <= j < colon_pos(t, i) ==> t[j] != ':',
        colon_pos(t, i) < t.len() ==> t[colon_pos(t, i)] == ':',
    decreases t.len() - i,
{
    if i < t.len() && t[i] != ':' {
        lemma_colon_pos(t, i + 1);
    }
}

/// Splits a column option into its key and its header.
pub fn split_column(spec: &str) -> (r: (String, String))
    ensures
        (r.0@, r.1@) == column_spec(spec@),
{
    let n = spec.unicode_len();
    let mut i: usize = 0;
    proof { lemma_colon_pos(spec@, 0); }
    while i < n && spec.get_char(i) != ':'
        invariant
            n == spec@.len(),
            i <= colon_pos(spec@, 0) <= n,
            forall|j: int| 0 <= j < colon_pos(spec@, 0) ==> spec@[j] != ':',
            colon_pos(spec@, 0) < n ==> spec@[colon_pos(spec@, 0)] == ':',
        decreases n - i,
    {
        i = i + 1;
    }
    assert(i == colon_pos(spec@, 0));
    if i < n {
        let key = spec.substring_char(0, i).to_string();
        let header = spec.substring_char(i + 1, n).to_string();
        assert(spec@.subrange(0, i as int) =~= spec@.take(i as int));
        assert(spec@.subrange(i + 1, n as int) =~= spec@.skip(i + 1));
        (key, header)
    } else {
        (spec.to_string(), spec.to_string())
    }
}

/// The keys and the headers of the columns, in order.
pub fn columns_and_headers(specs: &Vec<String>) -> (r: (Vec<String>, Vec<String>))
    ensures
        r.0@.len() == specs@.len(),
        r.1@.len() == specs@.len(),
        forall|i: int|
            0 <= i < specs@.len() ==> (#[trigger] r.0@[i]@, r.1@[i]@) == column_spec(specs@[i]@),
{
    let mut columns: Vec<String> = Vec::new();
    let mut headers: Vec<String> = Vec::new();
    let mut i: usize = 0;
    while i < specs.len()
        invariant
            i <= specs@.len(),
            columns@.len() == i,
            headers@.len() == i,
            forall|k: int| 0 <= k < i ==> (#[trigger] columns@[k]@, headers@[k]@) == column_spec(specs@[k]@),
        decreases specs@.len() - i,
    {
        let (c, h) = split_column(specs[i].as_str());
        columns.push(c);
        headers.push(h);
        i = i + 1;
    }
    (columns, headers)
}

pub open spec fn and_key() -> Seq<char> {
    seq!['$', 'a', 'n', 'd']
}

/// One filter stands alone; none or several are joined under `$and`.
pub open spec fn combined_filters(fs: Seq<JsonView>) -> JsonView {
    if fs.len() == 1 {
        fs[0]
    } else {
        JsonView::Object(seq![(and_key(), JsonView::Array(fs))])
    }
}

/// The position of the first filter text at or after `i` that is not JSON,
/// or the number of filters.
pub open spec fn first_bad_filter(fs: Seq<String>, i: int) -> int
    decreases fs.len() - i,
{
    if i >= fs.len() || i < 0 {
        fs.len() as int
    } else if serde_parsed(fs[i]@) is None {
        i
    } else {
        first_bad_filter(fs, i + 1)
    }
}

/// The values of the filters.
pub open spec fn filter_values(fs: Seq<String>) -> Seq<JsonView> {
    fs.map_values(|t: String| serde_parsed(t@)->Some_0)
}

proof fn lemma_first_bad(fs: Seq<String>, i: int)
    requires
        0 <= i <= fs.len(),
    ensures
        i <= first_bad_filter(fs, i) <= fs.len(),
        forall|j: int| i <= j < first_bad_filter(fs, i) ==> serde_parsed(#[trigger] fs[j]@) is Some,
        first_bad_filter(fs, i) < fs.len() ==> serde_parsed(fs[first_bad_filter(fs, i)]@) is None,
    decreases fs.len() - i,
{
    if i < fs.len() && serde_parsed(fs[i]@) is Some {
        lemma_first_bad(fs, i + 1);
    }
}

pub open spec fn strings_opt_view(o: Option<String>) -> Option<Seq<char>> {
    match o {
        Some(t) => Some(t@),
        None => None,
    }
}

/// Checks the options and settles the run's settings: the limit, then the
/// offset, then each filter in turn must read (as JSON); columns are split
/// into keys and headers; the filters are combined. Options that all read
/// give settings.
pub fn build_args(raw: RawArgs) -> (r: Result<Args, ArgsError>)
    ensures
        count_value(raw.limit@) is None ==> r == Err::<Args, ArgsError>(ArgsError::Limit),
        count_value(raw.limit@) is Some && count_value(raw.offset@) is None ==> r == Err::<
            Args,
            ArgsError,
        >(ArgsError::Offset),
        count_value(raw.limit@) is Some && count_value(raw.offset@) is Some && first_bad_filter(
            raw.filters@,
            0,
        ) < raw.filters@.len() ==> r == Err::<Args, ArgsError>(
            ArgsError::Filter(first_bad_filter(raw.filters@, 0) as usize),
        ),
        r is Ok <==> count_value(raw.limit@) is Some && count_value(raw.offset@) is Some
            && first_bad_filter(raw.filters@, 0) == raw.filters@.len(),
        r matches Ok(a) ==> {
            &&& a.root_dir@ == raw.root_dir@
            &&& a.output_json == raw.output_json
            &&& a.no_header == raw.no_header
            &&& Some(a.limit) == count_value(raw.limit@)
            &&& Some(a.offset) == count_value(raw.offset@)
            &&& a.use_inline_tags == raw.use_inline_tags
            &&& a.extract_tasks == raw.extract_tasks
            &&& strings_opt_view(a.sort_by) == strings_opt_view(raw.sort_by)
            &&& strings_opt_view(a.group_by) == strings_opt_view(raw.group_by)
            &&& a.reversed == raw.reversed
            &&& a.columns@.len() == raw.columns@.len()
            &&& a.headers@.len() == raw.columns@.len()
            &&& forall|i: int|
                0 <= i < raw.columns@.len() ==> (#[trigger] a.columns@[i]@, a.headers@[i]@)
                    == column_spec(raw.columns@[i]@)
            &&& a.filters@ == combined_filters(filter_values(raw.filters@))
        },
{
    let limit = match parse_count(raw.limit.as_str()) {
        Some(l) => l,
        None => {
            return Err(ArgsError::Limit);
        },
    };
    let offset = match parse_count(raw.offset.as_str()) {
        Some(o) => o,
        None => {
            return Err(ArgsError::Offset);
        },
    };
    let (columns, headers) = columns_and_headers(&raw.columns);
    let ghost fs = raw.filters@;
    proof { lemma_first_bad(fs, 0); }
    let mut values: Vec<Json> = Vec::new();
    let mut i: usize = 0;
    while i < raw.filters.len()
        invariant
            fs == raw.filters@,
            count_value(raw.limit@) == Some(limit),
            count_value(raw.offset@) == Some(offset),
            i <= fs.len(),
            forall|j: int| 0 <= j < i ==> serde_parsed(#[trigger] fs[j]@) is Some,
            first_bad_filter(fs, 0) == first_bad_filter(fs, i as int),
            values@.len() == i,
            forall|j: int| 0 <= j < i ==> #[trigger] values@[j]@ == serde_parsed(fs[j]@)->Some_0,
        decreases fs.len() - i,
    {
        match parse_json(raw.filters[i].as_str()) {
            Some(f) => {
                values.push(f);
            },
            None => {
                return Err(ArgsError::Filter(i));
            },
        }
        i = i + 1;
    }
    proof {
        assert(first_bad_filter(fs, fs.len() as int) == fs.len());
    }
    let ghost vv = filter_values(fs);
    let filters = if values.len() == 1 {
        let f = values[0].deep_copy();
        assert(f@ == vv[0]);
        f
    } else {
        proof {
            crate::json::lemma_items_view_index(values@);
            assert forall|j: int| 0 <= j < vv.len() implies #[trigger] crate::json::items_view(values@)[j] == vv[j] by {
                assert(values@[j]@ == serde_parsed(fs[j]@)->Some_0);
            }
            assert(crate::json::items_view(values@) =~= vv);
        }
        proof { reveal_strlit("$and"); }
        let key = String::from_str("$and");
        assert(key@ =~= and_key());
        let mut entries: Vec<(String, Json)> = Vec::new();
        entries.push((key, Json::Array(values)));
        proof {
            reveal_with_fuel(crate::json::entries_view, 2);
            assert(crate::json::entries_view(entries@) =~= seq![(and_key(), JsonView::Array(vv))]);
        }
        Json::Object(entries)
    };
    let RawArgs {
        root_dir,
        output_json,
        no_header,
        use_inline_tags,
        extract_tasks,
        sort_by,
        group_by,
        reversed,
        ..
    } = raw;
    Ok(
        Args {
            root_dir,
            output_json,
            no_header,
            limit,
            offset,
            use_inline_tags,
            extract_tasks,
            sort_by,
            group_by,
            reversed,
            columns,
            headers,
            filters,
        },
    )
}

} // verus!
