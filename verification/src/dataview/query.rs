//! The dataview query language: `LIST|TABLE|TASK [selection] [FROM ...]
//! [WHERE ...] [SORT ...] [LIMIT n]`.
pub mod where_filter;

use std::collections::VecDeque;
use vstd::prelude::*;

use crate::index::{key_texts, lemma_window_items, window};
use crate::json::{stringify, Json};

use crate::text::{
    escape_pipes, escape_pipes_str, join, join_strings, same_str, strings_view,
    ascii_lower, chars_of, cut_keywords, is_multispace, is_unicode_ws, keyword_at, keyword_cut,
    kw_at, lemma_skip_ms, lemma_trim_bounds, multispace, skip_multispace, skip_ms, to_ascii_lower,
    trim_bounds, trim_end, trim_start, trimmed, unicode_ws,
};

verus! {

/// Why a parser did not produce a value: the input does not match, or the
/// input ended where the grammar wanted more.
#[derive(Debug, Clone, Copy, PartialEq, Eq, Structural)]
pub enum ParseError {
    Error,
    Incomplete,
}

#[derive(Debug, Clone, Copy, PartialEq, Eq, Structural)]
pub enum QueryKind {
    List,
    Table,
    Task,
}

#[derive(Debug, Clone, Copy, PartialEq, Eq, Structural)]
pub enum SortDirection {
    Asc,
    Desc,
}

#[derive(Debug, PartialEq, Eq)]
pub struct Selection {
    pub expr: String,
}

#[derive(Debug, PartialEq, Eq)]
pub struct SelectionField {
    pub expr: String,
    pub name: Option<String>,
}

#[derive(Debug, PartialEq, Eq)]
pub struct SelectionColumns {
    pub cols: VecDeque<SelectionField>,
}

#[derive(Debug, PartialEq, Eq, Clone)]
pub struct LimitClause {
    pub limit: u64,
}

#[derive(Debug, PartialEq, Eq)]
pub struct WhereClause {
    pub expr: String,
}

#[derive(Debug, PartialEq, Eq)]
pub enum FromSource {
    Folder(String),
    Tag(String),
}

#[derive(Debug, PartialEq, Eq, Clone)]
pub struct SortClause {
    pub expr: String,
    pub dir: SortDirection,
}

#[derive(Debug, PartialEq, Eq)]
pub struct DataviewQuery {
    pub kind: QueryKind,
    pub selection: Selection,
    pub from_clause: FromSource,
    pub sort_clause: Option<SortClause>,
    pub limit: Option<LimitClause>,
    pub where_clause: Option<WhereClause>,
}

#[derive(Debug)]
pub enum DataviewQueryResult {
    List(Vec<String>),
    Table(Vec<Vec<String>>, Vec<String>),
    Task,
}

// ---------------------------------------------------------------------------
// Abstract values
// ---------------------------------------------------------------------------

/// The abstract value of a `FROM` clause.
pub enum FromView {
    Folder(Seq<char>),
    Tag(Seq<char>),
}

/// The abstract value of a whole query.
pub struct QueryView {
    pub kind: QueryKind,
    pub selection: Seq<char>,
    pub from: FromView,
    pub sort: Option<(Seq<char>, SortDirection)>,
    pub limit: Option<u64>,
    pub filter: Option<Seq<char>>,
}

impl View for Selection {
    type V = Seq<char>;

    open spec fn view(&self) -> Seq<char> {
        self.expr@
    }
}

impl View for WhereClause {
    type V = Seq<char>;

    open spec fn view(&self) -> Seq<char> {
        self.expr@
    }
}

impl View for SortClause {
    type V = (Seq<char>, SortDirection);

    open spec fn view(&self) -> (Seq<char>, SortDirection) {
        (self.expr@, self.dir)
    }
}

impl View for FromSource {
    type V = FromView;

    open spec fn view(&self) -> FromView {
        match self {
            FromSource::Folder(f) => FromView::Folder(f@),
            FromSource::Tag(t) => FromView::Tag(t@),
        }
    }
}

impl View for SelectionField {
    type V = (Seq<char>, Option<Seq<char>>);

    open spec fn view(&self) -> (Seq<char>, Option<Seq<char>>) {
        (
            self.expr@,
            match self.name {
                Some(n) => Some(n@),
                None => None,
            },
        )
    }
}

impl View for SelectionColumns {
    type V = Seq<(Seq<char>, Option<Seq<char>>)>;

    open spec fn view(&self) -> Seq<(Seq<char>, Option<Seq<char>>)> {
        self.cols@.map_values(|f: SelectionField| f@)
    }
}

pub open spec fn opt_view<T: View>(o: Option<T>) -> Option<T::V> {
    match o {
        Some(x) => Some(x@),
        None => None,
    }
}

impl View for DataviewQuery {
    type V = QueryView;

    open spec fn view(&self) -> QueryView {
        QueryView {
            kind: self.kind,
            selection: self.selection@,
            from: self.from_clause@,
            sort: opt_view(self.sort_clause),
            limit: match self.limit {
                Some(l) => Some(l.limit),
                None => None,
            },
            filter: opt_view(self.where_clause),
        }
    }
}

// ---------------------------------------------------------------------------
// The grammar, over the characters of the input and positions in it
// ---------------------------------------------------------------------------

pub open spec fn kw_list() -> Seq<char> { seq!['l', 'i', 's', 't'] }
pub open spec fn kw_table() -> Seq<char> { seq!['t', 'a', 'b', 'l', 'e'] }
pub open spec fn kw_task() -> Seq<char> { seq!['t', 'a', 's', 'k'] }
pub open spec fn kw_from() -> Seq<char> { seq!['f', 'r', 'o', 'm'] }
pub open spec fn kw_where() -> Seq<char> { seq!['w', 'h', 'e', 'r', 'e'] }
pub open spec fn kw_sort() -> Seq<char> { seq!['s', 'o', 'r', 't'] }
pub open spec fn kw_limit() -> Seq<char> { seq!['l', 'i', 'm', 'i', 't'] }
pub open spec fn kw_asc() -> Seq<char> { seq!['a', 's', 'c'] }
pub open spec fn kw_desc() -> Seq<char> { seq!['d', 'e', 's', 'c'] }

/// The keywords that end a selection.
pub open spec fn selection_stops() -> Seq<Seq<char>> {
    seq![kw_from(), kw_where(), kw_sort(), kw_limit()]
}

/// The keywords that end a `WHERE` expression.
pub open spec fn where_stops() -> Seq<Seq<char>> {
    seq![kw_sort(), kw_limit(), kw_from()]
}

/// At least one multispace character at `p`, as `multispace1` demands.
pub open spec fn ms1_at(s: Seq<char>, p: int) -> bool {
    0 <= p < s.len() && is_multispace(s[p])
}

/// The kind keyword at `p`.
pub open spec fn spec_kind(s: Seq<char>, p: int) -> Result<(int, QueryKind), ParseError> {
    if kw_at(s, p, kw_list()) {
        Ok((p + 4, QueryKind::List))
    } else if kw_at(s, p, kw_table()) {
        Ok((p + 5, QueryKind::Table))
    } else if kw_at(s, p, kw_task()) {
        Ok((p + 4, QueryKind::Task))
    } else {
        Err(ParseError::Error)
    }
}

/// Where the selection that starts at `p` ends.
pub open spec fn selection_end(s: Seq<char>, p: int) -> int {
    cut_keywords(s, p, selection_stops())
}

/// The selection: everything up to the first stop keyword, trimmed.
pub open spec fn spec_selection(s: Seq<char>, p: int) -> (int, Seq<char>) {
    let e = selection_end(s, p);
    (e, trimmed(s, p, e))
}

/// The first position at or after `q` that holds `c`, or -1.
pub open spec fn find_char(s: Seq<char>, q: int, c: char) -> int
    decreases s.len() - q,
{
    if q < 0 || q >= s.len() {
        -1
    } else if s[q] == c {
        q
    } else {
        find_char(s, q + 1, c)
    }
}

/// The first position at or after `q` that holds Unicode whitespace, or -1.
pub open spec fn find_ws(s: Seq<char>, q: int) -> int
    decreases s.len() - q,
{
    if q < 0 || q >= s.len() {
        -1
    } else if is_unicode_ws(s[q]) {
        q
    } else {
        find_ws(s, q + 1)
    }
}

/// `FROM "folder"` or `FROM #tag`.
pub open spec fn spec_from(s: Seq<char>, p: int) -> Result<(int, FromView), ParseError> {
    let q = skip_ms(s, p);
    if !kw_at(s, q, kw_from()) || !ms1_at(s, q + 4) {
        Err(ParseError::Error)
    } else {
        let r = skip_ms(s, q + 4);
        if r >= s.len() {
            Err(ParseError::Incomplete)
        } else if s[r] == '"' {
            let close = find_char(s, r + 1, '"');
            if close < 0 {
                Err(ParseError::Incomplete)
            } else if close == r + 1 {
                Err(ParseError::Error)
            } else {
                Ok((close + 1, FromView::Folder(s.subrange(r + 1, close))))
            }
        } else if s[r] == '#' {
            let w = find_ws(s, r + 1);
            let e = if w < 0 { s.len() as int } else { w };
            if e == r + 1 {
                Err(ParseError::Error)
            } else {
                Ok((e, FromView::Tag(s.subrange(r + 1, e))))
            }
        } else {
            Err(ParseError::Error)
        }
    }
}

/// `WHERE expr`, the expression ending at the first stop keyword.
pub open spec fn spec_where(s: Seq<char>, p: int) -> Result<(int, Seq<char>), ParseError> {
    let q = skip_ms(s, p);
    if !kw_at(s, q, kw_where()) || !ms1_at(s, q + 5) {
        Err(ParseError::Error)
    } else {
        let r = skip_ms(s, q + 5);
        let e = cut_keywords(s, r, where_stops());
        let expr = trimmed(s, r, e);
        if expr.len() == 0 {
            Err(ParseError::Error)
        } else {
            Ok((e, expr))
        }
    }
}

/// `SORT expr [ASC|DESC]`, the expression running to the next space.
pub open spec fn spec_sort(s: Seq<char>, p: int) -> Result<(int, (Seq<char>, SortDirection)), ParseError> {
    let q = skip_ms(s, p);
    if !kw_at(s, q, kw_sort()) || !ms1_at(s, q + 4) {
        Err(ParseError::Error)
    } else {
        let r = skip_ms(s, q + 4);
        let sp = find_char(s, r, ' ');
        let e = if sp < 0 { s.len() as int } else { sp };
        if e == r {
            Err(ParseError::Error)
        } else {
            let expr = trimmed(s, r, e);
            if ms1_at(s, e) && kw_at(s, skip_ms(s, e), kw_asc()) {
                Ok((skip_ms(s, e) + 3, (expr, SortDirection::Asc)))
            } else if ms1_at(s, e) && kw_at(s, skip_ms(s, e), kw_desc()) {
                Ok((skip_ms(s, e) + 4, (expr, SortDirection::Desc)))
            } else {
                Ok((e, (expr, SortDirection::Asc)))
            }
        }
    }
}

pub open spec fn is_digit(c: char) -> bool {
    '0' <= c && c <= '9'
}

pub open spec fn digit_value(c: char) -> nat {
    ((c as u32) - ('0' as u32)) as nat
}

/// The end of the run of ASCII digits that starts at `q`.
pub open spec fn digits_end(s: Seq<char>, q: int) -> int
    decreases s.len() - q,
{
    if 0 <= q < s.len() && is_digit(s[q]) {
        digits_end(s, q + 1)
    } else {
        q
    }
}

/// The number that the digits `s[a..b]` denote.
pub open spec fn decimal_value(s: Seq<char>, a: int, b: int) -> nat
    decreases b - a,
{
    if b <= a {
        0
    } else {
        decimal_value(s, a, b - 1) * 10 + digit_value(s[b - 1])
    }
}

/// `LIMIT n` with `n` a decimal that fits in 64 bits.
pub open spec fn spec_limit(s: Seq<char>, p: int) -> Result<(int, u64), ParseError> {
    let q = skip_ms(s, p);
    if !kw_at(s, q, kw_limit()) || !ms1_at(s, q + 5) {
        Err(ParseError::Error)
    } else {
        let r = skip_ms(s, q + 5);
        let e = digits_end(s, r);
        if e == r || decimal_value(s, r, e) > u64::MAX {
            Err(ParseError::Error)
        } else {
            Ok((e, decimal_value(s, r, e) as u64))
        }
    }
}

/// Where an optional clause leaves the input: after it, or where it started.
pub open spec fn opt_end<T>(r: Result<(int, T), ParseError>, p: int) -> int {
    match r {
        Ok((e, _)) => e,
        Err(_) => p,
    }
}

pub open spec fn opt_value<T>(r: Result<(int, T), ParseError>) -> Option<T> {
    match r {
        Ok((_, v)) => Some(v),
        Err(_) => None,
    }
}

/// A whole query. The `FROM` clause defaults to the folder `/`.
pub open spec fn spec_query(s: Seq<char>) -> Result<(int, QueryView), ParseError> {
    let p0 = skip_ms(s, 0);
    match spec_kind(s, p0) {
        Err(e) => Err(e),
        Ok((p1, kind)) => {
            let p2 = skip_ms(s, p1);
            let (p3, selection) = spec_selection(s, p2);
            let from = spec_from(s, p3);
            if from == Err::<(int, FromView), ParseError>(ParseError::Incomplete) {
                Err(ParseError::Incomplete)
            } else {
                let p4 = opt_end(from, p3);
                let filter = spec_where(s, p4);
                let p5 = opt_end(filter, p4);
                let sort = spec_sort(s, p5);
                let p6 = opt_end(sort, p5);
                let limit = spec_limit(s, p6);
                let p7 = opt_end(limit, p6);
                Ok((
                    p7,
                    QueryView {
                        kind,
                        selection,
                        from: match from {
                            Ok((_, f)) => f,
                            Err(_) => FromView::Folder(seq!['/']),
                        },
                        sort: opt_value(sort),
                        limit: opt_value(limit),
                        filter: opt_value(filter),
                    },
                ))
            }
        },
    }
}

/// Inputs on which the case-insensitive match of `task` would take the Kelvin
/// sign (U+212A, whose lowercase is `k`) for its last letter; the byte offsets
/// of such a match do not fall on a character boundary.
pub open spec fn kelvin_task_at(s: Seq<char>, p: int) -> bool {
    &&& 0 <= p
    &&& p + 4 <= s.len()
    &&& ascii_lower(s[p]) == 't'
    &&& ascii_lower(s[p + 1]) == 'a'
    &&& ascii_lower(s[p + 2]) == 's'
    &&& s[p + 3] == '\u{212A}'
}



/// Whether the query keyword of `input` is `task` spelt with the Kelvin sign
/// for its `k`, where the keyword match cannot split the input.
pub fn kelvin_task_ahead(input: &str) -> (r: bool)
    ensures
        r == kelvin_task_at(input@, skip_ms(input@, 0)),
{
    let s = chars_of(input);
    let p = skip_multispace(&s, 0);
    if p > s.len() || s.len() - p < 4 {
        return false;
    }
    to_ascii_lower(s[p]) == 't' && to_ascii_lower(s[p + 1]) == 'a' && to_ascii_lower(s[p + 2]) == 's'
        && s[p + 3] == '\u{212A}'
}

// ---------------------------------------------------------------------------
// Scanning lemmas
// ---------------------------------------------------------------------------

pub proof fn lemma_find_char(s: Seq<char>, q: int, c: char)
    requires
        0 <= q,
    ensures
        find_char(s, q, c) == -1 || (q <= find_char(s, q, c) < s.len() && s[find_char(s, q, c)] == c),
        forall|i: int| q <= i < s.len() && (find_char(s, q, c) == -1 || i < find_char(s, q, c))
            ==> s[i] != c,
    decreases s.len() - q,
{
    if q < s.len() && s[q] != c {
        lemma_find_char(s, q + 1, c);
    }
}

pub proof fn lemma_find_ws(s: Seq<char>, q: int)
    requires
        0 <= q,
    ensures
        find_ws(s, q) == -1 || (q <= find_ws(s, q) < s.len() && is_unicode_ws(s[find_ws(s, q)])),
        forall|i: int| q <= i < s.len() && (find_ws(s, q) == -1 || i < find_ws(s, q))
            ==> !is_unicode_ws(s[i]),
    decreases s.len() - q,
{
    if q < s.len() && !is_unicode_ws(s[q]) {
        lemma_find_ws(s, q + 1);
    }
}

pub proof fn lemma_digits_end(s: Seq<char>, q: int)
    requires
        0 <= q <= s.len(),
    ensures
        q <= digits_end(s, q) <= s.len(),
        forall|i: int| q <= i < digits_end(s, q) ==> is_digit(#[trigger] s[i]),
        digits_end(s, q) < s.len() ==> !is_digit(s[digits_end(s, q)]),
    decreases s.len() - q,
{
    if q < s.len() && is_digit(s[q]) {
        lemma_digits_end(s, q + 1);
    }
}

/// Appending a digit never makes a decimal smaller.
pub proof fn lemma_decimal_grows(s: Seq<char>, a: int, b: int, c: int)
    requires
        a <= b <= c,
    ensures
        decimal_value(s, a, b) <= decimal_value(s, a, c),
    decreases c - b,
{
    if b < c {
        lemma_decimal_grows(s, a, b, c - 1);
    }
}

// ---------------------------------------------------------------------------
// Executable scanners over positions
// ---------------------------------------------------------------------------

fn find_char_from(s: &Vec<char>, q: usize, c: char) -> (r: Option<usize>)
    requires
        q <= s@.len(),
    ensures
        match r {
            Some(i) => i as int == find_char(s@, q as int, c),
            None => find_char(s@, q as int, c) == -1,
        },
{
    let mut i = q;
    while i < s.len()
        invariant
            q <= i <= s@.len(),
            find_char(s@, i as int, c) == find_char(s@, q as int, c),
        decreases s@.len() - i,
    {
        if s[i] == c {
            return Some(i);
        }
        i = i + 1;
    }
    None
}

fn find_ws_from(s: &Vec<char>, q: usize) -> (r: Option<usize>)
    requires
        q <= s@.len(),
    ensures
        match r {
            Some(i) => i as int == find_ws(s@, q as int),
            None => find_ws(s@, q as int) == -1,
        },
{
    let mut i = q;
    while i < s.len()
        invariant
            q <= i <= s@.len(),
            find_ws(s@, i as int) == find_ws(s@, q as int),
        decreases s@.len() - i,
    {
        if unicode_ws(s[i]) {
            return Some(i);
        }
        i = i + 1;
    }
    None
}

/// `multispace1` at `p`.
fn ms1(s: &Vec<char>, p: usize) -> (r: bool)
    ensures
        r == ms1_at(s@, p as int),
{
    p < s.len() && multispace(s[p])
}

/// The text `input[a..b]`, trimmed, as an owned string.
fn trimmed_text(input: &str, s: &Vec<char>, a: usize, b: usize) -> (r: String)
    requires
        s@ == input@,
        a <= b <= s@.len(),
    ensures
        r@ == trimmed(s@, a as int, b as int),
{
    let (x, y) = trim_bounds(s, a, b);
    String::from_str(input.substring_char(x, y))
}

fn kind_at(s: &Vec<char>, p: usize) -> (r: Result<(usize, QueryKind), ParseError>)
    requires
        p <= s@.len(),
    ensures
        r matches Ok((e, _)) ==> p <= e <= s@.len(),
        match r {
            Ok((e, k)) => spec_kind(s@, p as int) == Ok::<(int, QueryKind), ParseError>((e as int, k)),
            Err(err) => spec_kind(s@, p as int) == Err::<(int, QueryKind), ParseError>(err),
        },
{
    let list: [char; 4] = ['l', 'i', 's', 't'];
    let table: [char; 5] = ['t', 'a', 'b', 'l', 'e'];
    let task: [char; 4] = ['t', 'a', 's', 'k'];
    assert(list@ =~= kw_list());
    assert(table@ =~= kw_table());
    assert(task@ =~= kw_task());
    if keyword_at(s, p, &list) {
        Ok((p + 4, QueryKind::List))
    } else if keyword_at(s, p, &table) {
        Ok((p + 5, QueryKind::Table))
    } else if keyword_at(s, p, &task) {
        Ok((p + 4, QueryKind::Task))
    } else {
        Err(ParseError::Error)
    }
}

fn selection_end_at(s: &Vec<char>, p: usize) -> (e: usize)
    requires
        p <= s@.len(),
    ensures
        e as int == selection_end(s@, p as int),
        p <= e <= s@.len(),
{
    let from: [char; 4] = ['f', 'r', 'o', 'm'];
    let wh: [char; 5] = ['w', 'h', 'e', 'r', 'e'];
    let sort: [char; 4] = ['s', 'o', 'r', 't'];
    let limit: [char; 5] = ['l', 'i', 'm', 'i', 't'];
    assert(from@ =~= kw_from());
    assert(wh@ =~= kw_where());
    assert(sort@ =~= kw_sort());
    assert(limit@ =~= kw_limit());
    let c_from = keyword_cut(s, p, &from);
    let c_where = keyword_cut(s, p, &wh);
    let c_sort = keyword_cut(s, p, &sort);
    let c_limit = keyword_cut(s, p, &limit);
    let n = s.len();
    let m4 = if c_limit < n { c_limit } else { n };
    let m3 = if c_sort < m4 { c_sort } else { m4 };
    let m2 = if c_where < m3 { c_where } else { m3 };
    let m1 = if c_from < m2 { c_from } else { m2 };
    proof {
        let ks = selection_stops();
        assert(ks.drop_first() =~= seq![kw_where(), kw_sort(), kw_limit()]);
        assert(ks.drop_first().drop_first() =~= seq![kw_sort(), kw_limit()]);
        assert(ks.drop_first().drop_first().drop_first() =~= seq![kw_limit()]);
        assert(ks.drop_first().drop_first().drop_first().drop_first() =~= Seq::<Seq<char>>::empty());
        reveal_with_fuel(cut_keywords, 5);
    }
    m1
}

fn where_end_at(s: &Vec<char>, p: usize) -> (e: usize)
    requires
        p <= s@.len(),
    ensures
        e as int == cut_keywords(s@, p as int, where_stops()),
        p <= e <= s@.len(),
{
    let sort: [char; 4] = ['s', 'o', 'r', 't'];
    let limit: [char; 5] = ['l', 'i', 'm', 'i', 't'];
    let from: [char; 4] = ['f', 'r', 'o', 'm'];
    assert(from@ =~= kw_from());
    assert(sort@ =~= kw_sort());
    assert(limit@ =~= kw_limit());
    let c_sort = keyword_cut(s, p, &sort);
    let c_limit = keyword_cut(s, p, &limit);
    let c_from = keyword_cut(s, p, &from);
    let n = s.len();
    let m3 = if c_from < n { c_from } else { n };
    let m2 = if c_limit < m3 { c_limit } else { m3 };
    let m1 = if c_sort < m2 { c_sort } else { m2 };
    proof {
        let ks = where_stops();
        assert(ks.drop_first() =~= seq![kw_limit(), kw_from()]);
        assert(ks.drop_first().drop_first() =~= seq![kw_from()]);
        assert(ks.drop_first().drop_first().drop_first() =~= Seq::<Seq<char>>::empty());
        reveal_with_fuel(cut_keywords, 4);
    }
    m1
}

fn selection_at(input: &str, s: &Vec<char>, p: usize) -> (r: (usize, Selection))
    requires
        s@ == input@,
        p <= s@.len(),
    ensures
        (r.0 as int, r.1@) == spec_selection(s@, p as int),
        p <= r.0 <= s@.len(),
{
    let e = selection_end_at(s, p);
    let expr = trimmed_text(input, s, p, e);
    (e, Selection { expr })
}

fn from_at(input: &str, s: &Vec<char>, p: usize) -> (r: Result<(usize, FromSource), ParseError>)
    requires
        s@ == input@,
        p <= s@.len(),
    ensures
        r matches Ok((e, _)) ==> p <= e <= s@.len(),
        match r {
            Ok((e, f)) => spec_from(s@, p as int) == Ok::<(int, FromView), ParseError>((e as int, f@)),
            Err(err) => spec_from(s@, p as int) == Err::<(int, FromView), ParseError>(err),
        },
{
    let from: [char; 4] = ['f', 'r', 'o', 'm'];
    assert(from@ =~= kw_from());
    let q = skip_multispace(s, p);
    if !keyword_at(s, q, &from) || !ms1(s, q + 4) {
        return Err(ParseError::Error);
    }
    let r = skip_multispace(s, q + 4);
    if r >= s.len() {
        return Err(ParseError::Incomplete);
    }
    if s[r] == '"' {
        proof { lemma_find_char(s@, r + 1, '"'); }
        match find_char_from(s, r + 1, '"') {
            None => Err(ParseError::Incomplete),
            Some(close) => {
                if close == r + 1 {
                    Err(ParseError::Error)
                } else {
                    let name = String::from_str(input.substring_char(r + 1, close));
                    Ok((close + 1, FromSource::Folder(name)))
                }
            },
        }
    } else if s[r] == '#' {
        proof { lemma_find_ws(s@, r + 1); }
        let e = match find_ws_from(s, r + 1) {
            None => s.len(),
            Some(w) => w,
        };
        if e == r + 1 {
            Err(ParseError::Error)
        } else {
            let tag = String::from_str(input.substring_char(r + 1, e));
            Ok((e, FromSource::Tag(tag)))
        }
    } else {
        Err(ParseError::Error)
    }
}

fn where_at(input: &str, s: &Vec<char>, p: usize) -> (r: Result<(usize, WhereClause), ParseError>)
    requires
        s@ == input@,
        p <= s@.len(),
    ensures
        r matches Ok((e, _)) ==> p <= e <= s@.len(),
        match r {
            Ok((e, w)) => spec_where(s@, p as int) == Ok::<(int, Seq<char>), ParseError>((e as int, w@)),
            Err(err) => spec_where(s@, p as int) == Err::<(int, Seq<char>), ParseError>(err),
        },
{
    let wh: [char; 5] = ['w', 'h', 'e', 'r', 'e'];
    assert(wh@ =~= kw_where());
    let q = skip_multispace(s, p);
    if !keyword_at(s, q, &wh) || !ms1(s, q + 5) {
        return Err(ParseError::Error);
    }
    let r = skip_multispace(s, q + 5);
    let e = where_end_at(s, r);
    let (x, y) = trim_bounds(s, r, e);
    if x == y {
        return Err(ParseError::Error);
    }
    let expr = String::from_str(input.substring_char(x, y));
    Ok((e, WhereClause { expr }))
}

fn sort_at(input: &str, s: &Vec<char>, p: usize) -> (r: Result<(usize, SortClause), ParseError>)
    requires
        s@ == input@,
        p <= s@.len(),
    ensures
        r matches Ok((e, _)) ==> p <= e <= s@.len(),
        match r {
            Ok((e, c)) => spec_sort(s@, p as int) == Ok::<(int, (Seq<char>, SortDirection)), ParseError>((e as int, c@)),
            Err(err) => spec_sort(s@, p as int) == Err::<(int, (Seq<char>, SortDirection)), ParseError>(err),
        },
{
    let sort: [char; 4] = ['s', 'o', 'r', 't'];
    let asc: [char; 3] = ['a', 's', 'c'];
    let desc: [char; 4] = ['d', 'e', 's', 'c'];
    assert(sort@ =~= kw_sort());
    assert(asc@ =~= kw_asc());
    assert(desc@ =~= kw_desc());
    let q = skip_multispace(s, p);
    if !keyword_at(s, q, &sort) || !ms1(s, q + 4) {
        return Err(ParseError::Error);
    }
    let r = skip_multispace(s, q + 4);
    proof { lemma_find_char(s@, r as int, ' '); }
    let e = match find_char_from(s, r, ' ') {
        None => s.len(),
        Some(sp) => sp,
    };
    if e == r {
        return Err(ParseError::Error);
    }
    let expr = trimmed_text(input, s, r, e);
    if ms1(s, e) {
        let d = skip_multispace(s, e);
        if keyword_at(s, d, &asc) {
            return Ok((d + 3, SortClause { expr, dir: SortDirection::Asc }));
        } else if keyword_at(s, d, &desc) {
            return Ok((d + 4, SortClause { expr, dir: SortDirection::Desc }));
        }
    }
    Ok((e, SortClause { expr, dir: SortDirection::Asc }))
}

fn limit_at(s: &Vec<char>, p: usize) -> (r: Result<(usize, LimitClause), ParseError>)
    requires
        p <= s@.len(),
    ensures
        r matches Ok((e, _)) ==> p <= e <= s@.len(),
        match r {
            Ok((e, l)) => spec_limit(s@, p as int) == Ok::<(int, u64), ParseError>((e as int, l.limit)),
            Err(err) => spec_limit(s@, p as int) == Err::<(int, u64), ParseError>(err),
        },
{
    let limit: [char; 5] = ['l', 'i', 'm', 'i', 't'];
    assert(limit@ =~= kw_limit());
    let q = skip_multispace(s, p);
    if !keyword_at(s, q, &limit) || !ms1(s, q + 5) {
        return Err(ParseError::Error);
    }
    let r = skip_multispace(s, q + 5);
    proof { lemma_digits_end(s@, r as int); }
    let mut i = r;
    let mut v: u64 = 0;
    while i < s.len() && '0' <= s[i] && s[i] <= '9'
        invariant
            q as int == skip_ms(s@, p as int),
            kw_at(s@, q as int, kw_limit()),
            ms1_at(s@, q + 5),
            r as int == skip_ms(s@, q + 5),
            r <= i <= digits_end(s@, r as int) <= s@.len(),
            forall|j: int| r <= j < digits_end(s@, r as int) ==> is_digit(#[trigger] s@[j]),
            digits_end(s@, r as int) < s@.len() ==> !is_digit(s@[digits_end(s@, r as int)]),
            v as nat == decimal_value(s@, r as int, i as int),
        decreases s@.len() - i,
    {
        let d = ((s[i] as u32) - ('0' as u32)) as u64;
        assert(is_digit(s@[i as int]));
        assert(i < digits_end(s@, r as int));
        let ghost next = decimal_value(s@, r as int, i + 1);
        assert(next == decimal_value(s@, r as int, i as int) * 10 + digit_value(s@[i as int]));
        proof { lemma_decimal_grows(s@, r as int, i + 1, digits_end(s@, r as int)); }
        match v.checked_mul(10) {
            None => {
                assert(next > u64::MAX) by (nonlinear_arith)
                    requires next == v * 10 + d, v * 10 > u64::MAX, d >= 0;
                return Err(ParseError::Error);
            },
            Some(m) => match m.checked_add(d) {
                None => {
                    return Err(ParseError::Error);
                },
                Some(w) => {
                    v = w;
                },
            },
        }
        i = i + 1;
    }
    if i == r {
        return Err(ParseError::Error);
    }
    Ok((i, LimitClause { limit: v }))
}


fn query_at(input: &str, s: &Vec<char>) -> (r: Result<(usize, DataviewQuery), ParseError>)
    requires
        s@ == input@,
    ensures
        r matches Ok((e, _)) ==> e <= s@.len(),
        match r {
            Ok((e, q)) => spec_query(s@) == Ok::<(int, QueryView), ParseError>((e as int, q@)),
            Err(err) => spec_query(s@) == Err::<(int, QueryView), ParseError>(err),
        },
{
    let p0 = skip_multispace(s, 0);
    let (p1, kind) = match kind_at(s, p0) {
        Err(e) => return Err(e),
        Ok(x) => x,
    };
    let p2 = skip_multispace(s, p1);
    let (p3, selection) = selection_at(input, s, p2);
    proof { reveal_strlit("/"); }
    assert("/"@ =~= seq!['/']);
    let (p4, from_clause) = match from_at(input, s, p3) {
        Err(ParseError::Incomplete) => return Err(ParseError::Incomplete),
        Err(ParseError::Error) => (p3, FromSource::Folder(String::from_str("/"))),
        Ok(x) => x,
    };
    let (p5, where_clause) = match where_at(input, s, p4) {
        Err(_) => (p4, None),
        Ok((e, w)) => (e, Some(w)),
    };
    let (p6, sort_clause) = match sort_at(input, s, p5) {
        Err(_) => (p5, None),
        Ok((e, c)) => (e, Some(c)),
    };
    let (p7, limit) = match limit_at(s, p6) {
        Err(_) => (p6, None),
        Ok((e, l)) => (e, Some(l)),
    };
    let q = DataviewQuery { kind, selection, from_clause, sort_clause, limit, where_clause };
    Ok((p7, q))
}

impl QueryKind {
    /// `LIST`, `TABLE` or `TASK`, in any letter case.
    pub fn parse(input: &str) -> (r: Result<(&str, QueryKind), ParseError>)
        requires
            !kelvin_task_at(input@, 0),
        ensures
            match spec_kind(input@, 0) {
                Ok((e, k)) => r matches Ok((rest, kind)) && rest@ == input@.skip(e) && kind == k,
                Err(err) => r matches Err(x) && x == err,
            },
    {
        let s = chars_of(input);
        match kind_at(&s, 0) {
            Ok((e, k)) => Ok((input.substring_char(e, s.len()), k)),
            Err(err) => Err(err),
        }
    }
}

impl Selection {
    pub fn new(expr: &str) -> (r: Selection)
        ensures
            r@ == expr@,
    {
        Selection { expr: String::from_str(expr) }
    }

    /// Everything up to the first of `from`, `where`, `sort`, `limit` (in any
    /// ASCII letter case) whose first occurrence starts the input or follows
    /// ASCII whitespace; trimmed. Never fails.
    pub fn parse(input: &str) -> (r: Result<(&str, Selection), ParseError>)
        ensures
            r matches Ok((rest, sel)) && rest@ == input@.skip(spec_selection(input@, 0).0)
                && sel@ == spec_selection(input@, 0).1,
    {
        let s = chars_of(input);
        let (e, sel) = selection_at(input, &s, 0);
        Ok((input.substring_char(e, s.len()), sel))
    }
}

impl FromSource {
    /// `FROM "folder"` or `FROM #tag`.
    pub fn parse(input: &str) -> (r: Result<(&str, FromSource), ParseError>)
        ensures
            match spec_from(input@, 0) {
                Ok((e, f)) => r matches Ok((rest, v)) && rest@ == input@.skip(e) && v@ == f,
                Err(err) => r matches Err(x) && x == err,
            },
    {
        let s = chars_of(input);
        match from_at(input, &s, 0) {
            Ok((e, f)) => Ok((input.substring_char(e, s.len()), f)),
            Err(err) => Err(err),
        }
    }
}

impl WhereClause {
    pub fn new(expr: &str) -> (r: WhereClause)
        ensures
            r@ == expr@,
    {
        WhereClause { expr: String::from_str(expr) }
    }

    /// `WHERE expr`; the expression ends at the first of `sort`, `limit`,
    /// `from` that starts it or follows ASCII whitespace, and must not be empty.
    pub fn parse(input: &str) -> (r: Result<(&str, WhereClause), ParseError>)
        ensures
            match spec_where(input@, 0) {
                Ok((e, w)) => r matches Ok((rest, v)) && rest@ == input@.skip(e) && v@ == w,
                Err(err) => r matches Err(x) && x == err,
            },
    {
        let s = chars_of(input);
        match where_at(input, &s, 0) {
            Ok((e, w)) => Ok((input.substring_char(e, s.len()), w)),
            Err(err) => Err(err),
        }
    }
}

impl SortClause {
    /// `SORT expr [ASC|DESC]`; the direction defaults to ascending.
    pub fn parse(input: &str) -> (r: Result<(&str, SortClause), ParseError>)
        ensures
            match spec_sort(input@, 0) {
                Ok((e, c)) => r matches Ok((rest, v)) && rest@ == input@.skip(e) && v@ == c,
                Err(err) => r matches Err(x) && x == err,
            },
    {
        let s = chars_of(input);
        match sort_at(input, &s, 0) {
            Ok((e, c)) => Ok((input.substring_char(e, s.len()), c)),
            Err(err) => Err(err),
        }
    }
}

impl LimitClause {
    /// `LIMIT n`.
    pub fn parse(input: &str) -> (r: Result<(&str, LimitClause), ParseError>)
        ensures
            match spec_limit(input@, 0) {
                Ok((e, n)) => r matches Ok((rest, v)) && rest@ == input@.skip(e) && v.limit == n,
                Err(err) => r matches Err(x) && x == err,
            },
    {
        let s = chars_of(input);
        match limit_at(&s, 0) {
            Ok((e, l)) => Ok((input.substring_char(e, s.len()), l)),
            Err(err) => Err(err),
        }
    }
}

impl DataviewQuery {
    /// A whole query: the kind, then the selection, and the optional `FROM`,
    /// `WHERE`, `SORT` and `LIMIT` clauses in that order. Input that follows
    /// them is handed back unread.
    pub fn parse(input: &str) -> (r: Result<(&str, DataviewQuery), ParseError>)
        requires
            !kelvin_task_at(input@, skip_ms(input@, 0)),
        ensures
            match spec_query(input@) {
                Ok((e, v)) => r matches Ok((rest, q)) && rest@ == input@.skip(e) && q@ == v,
                Err(err) => r matches Err(x) && x == err,
            },
    {
        let s = chars_of(input);
        match query_at(input, &s) {
            Ok((e, q)) => Ok((input.substring_char(e, s.len()), q)),
            Err(err) => Err(err),
        }
    }
}


// ---------------------------------------------------------------------------
// Selection columns
// ---------------------------------------------------------------------------

/// One selection field: the text up to the next comma, trimmed. The alias
/// (`AS name`) is looked for after that text, where the comma stands, so no
/// alias is ever found; without a comma the input ends too soon.
pub open spec fn spec_field(s: Seq<char>, p: int) -> Result<(int, (Seq<char>, Option<Seq<char>>)), ParseError> {
    let c = find_char(s, p, ',');
    if c < 0 {
        Err(ParseError::Incomplete)
    } else {
        Ok((c, (trimmed(s, p, c), None)))
    }
}

fn field_at(input: &str, s: &Vec<char>, p: usize) -> (r: Result<(usize, SelectionField), ParseError>)
    requires
        s@ == input@,
        p <= s@.len(),
    ensures
        r matches Ok((e, _)) ==> p <= e < s@.len() && s@[e as int] == ',',
        match r {
            Ok((e, f)) => spec_field(s@, p as int) == Ok::<(int, (Seq<char>, Option<Seq<char>>)), ParseError>((e as int, f@)),
            Err(err) => spec_field(s@, p as int) == Err::<(int, (Seq<char>, Option<Seq<char>>)), ParseError>(err),
        },
{
    proof { lemma_find_char(s@, p as int, ','); }
    match find_char_from(s, p, ',') {
        None => Err(ParseError::Incomplete),
        Some(c) => {
            let expr = trimmed_text(input, s, p, c);
            Ok((c, SelectionField { expr, name: None }))
        },
    }
}

impl SelectionField {
    pub fn parse(input: &str) -> (r: Result<(&str, SelectionField), ParseError>)
        ensures
            match spec_field(input@, 0) {
                Ok((e, f)) => r matches Ok((rest, v)) && rest@ == input@.skip(e) && v@ == f,
                Err(err) => r matches Err(x) && x == err,
            },
    {
        let s = chars_of(input);
        match field_at(input, &s, 0) {
            Ok((e, f)) => Ok((input.substring_char(e, s.len()), f)),
            Err(err) => Err(err),
        }
    }
}

pub open spec fn file_name_expr() -> Seq<char> {
    seq!['f', 'i', 'l', 'e', '.', 'n', 'a', 'm', 'e']
}

pub open spec fn file_header() -> Seq<char> {
    seq!['F', 'i', 'l', 'e']
}

/// Columns with `file.name` (shown as `File`) put in front unless it is
/// already the first.
pub open spec fn with_first_col(cols: Seq<(Seq<char>, Option<Seq<char>>)>) -> Seq<(Seq<char>, Option<Seq<char>>)> {
    if cols.len() == 0 || cols[0].0 != file_name_expr() {
        seq![(file_name_expr(), Some(file_header()))] + cols
    } else {
        cols
    }
}

pub open spec fn header_of(f: (Seq<char>, Option<Seq<char>>)) -> Seq<char> {
    match f.1 {
        Some(h) => h,
        None => f.0,
    }
}

/// Putting `file.name` first is done once for all: the columns it gives
/// begin with `file.name`, and doing it again changes nothing.
pub proof fn lemma_first_col_idempotent(cols: Seq<(Seq<char>, Option<Seq<char>>)>)
    ensures
        with_first_col(cols).len() > 0,
        with_first_col(cols)[0].0 == file_name_expr(),
        with_first_col(with_first_col(cols)) == with_first_col(cols),
{
}

impl Default for SelectionColumns {
    fn default() -> (r: SelectionColumns)
        ensures
            r@ == Seq::<(Seq<char>, Option<Seq<char>>)>::empty(),
    {
        let r = SelectionColumns { cols: VecDeque::new() };
        assert(r@ =~= Seq::<(Seq<char>, Option<Seq<char>>)>::empty());
        r
    }
}

impl SelectionColumns {
    /// The expression of each column.
    pub fn columns(&self) -> (r: Vec<String>)
        ensures
            strings_view(r@) == self@.map_values(|f: (Seq<char>, Option<Seq<char>>)| f.0),
    {
        let mut r: Vec<String> = Vec::new();
        let mut i: usize = 0;
        while i < self.cols.len()
            invariant
                i <= self@.len(),
                self@.len() == self.cols@.len(),
                strings_view(r@) =~= self@.take(i as int).map_values(|f: (Seq<char>, Option<Seq<char>>)| f.0),
            decreases self@.len() - i,
        {
            let e = self.cols[i].expr.clone();
            let ghost before = r@;
            r.push(e);
            assert(self@[i as int] == self.cols@[i as int]@);
            assert(strings_view(r@) =~= strings_view(before).push(self@[i as int].0));
            assert(self@.take(i + 1) =~= self@.take(i as int).push(self@[i as int]));
            i = i + 1;
        }
        assert(self@.take(self@.len() as int) =~= self@);
        r
    }

    /// The columns, with `file.name` named `File` in front unless it is the
    /// first column already.
    pub fn ensure_first_col(self) -> (r: Self)
        ensures
            r@ == with_first_col(self@),
    {
        let mut this = self;
        proof { reveal_strlit("file.name"); reveal_strlit("File"); }
        assert("file.name"@ =~= file_name_expr());
        assert("File"@ =~= file_header());
        let needs = if this.cols.len() == 0 {
            true
        } else {
            !same_str(this.cols[0].expr.as_str(), "file.name")
        };
        if needs {
            let ghost before = this@;
            this.cols.push_front(SelectionField {
                expr: String::from_str("file.name"),
                name: Some(String::from_str("File")),
            });
            assert(this@ =~= seq![(file_name_expr(), Some(file_header()))] + before);
        }
        this
    }

    /// The header of each column: its name, or else its expression.
    pub fn headers(&self) -> (r: Vec<String>)
        ensures
            strings_view(r@) == self@.map_values(|f: (Seq<char>, Option<Seq<char>>)| header_of(f)),
    {
        let mut r: Vec<String> = Vec::new();
        let mut i: usize = 0;
        while i < self.cols.len()
            invariant
                i <= self@.len(),
                self@.len() == self.cols@.len(),
                strings_view(r@) =~= self@.take(i as int).map_values(|f: (Seq<char>, Option<Seq<char>>)| header_of(f)),
            decreases self@.len() - i,
        {
            let h = match &self.cols[i].name {
                Some(h) => h.clone(),
                None => self.cols[i].expr.clone(),
            };
            let ghost before = r@;
            r.push(h);
            assert(self@[i as int] == self.cols@[i as int]@);
            assert(strings_view(r@) =~= strings_view(before).push(header_of(self@[i as int])));
            assert(self@.take(i + 1) =~= self@.take(i as int).push(self@[i as int]));
            i = i + 1;
        }
        assert(self@.take(self@.len() as int) =~= self@);
        r
    }

    /// A comma-separated list of fields. Every field runs up to a comma, so
    /// the last field always finds the input ended: this never succeeds.
    pub fn parse(input: &str) -> (r: Result<(&str, SelectionColumns), ParseError>)
        ensures
            r matches Err(ParseError::Incomplete),
    {
        let s = chars_of(input);
        let mut cols: VecDeque<SelectionField> = VecDeque::new();
        let mut pos = match field_at(input, &s, 0) {
            Err(e) => return Err(e),
            Ok((e, f)) => {
                cols.push_back(f);
                e
            },
        };
        loop
            invariant
                s@ == input@,
                pos < s@.len(),
                s@[pos as int] == ',',
            decreases s@.len() - pos,
        {
            // separator: optional spaces, a comma, optional spaces
            let q = skip_multispace(&s, pos);
            if q >= s.len() || s[q] != ',' {
                return Ok((input.substring_char(pos, s.len()), SelectionColumns { cols }));
            }
            let next = skip_multispace(&s, q + 1);
            match field_at(input, &s, next) {
                Err(ParseError::Error) => {
                    return Ok((input.substring_char(pos, s.len()), SelectionColumns { cols }));
                },
                Err(ParseError::Incomplete) => return Err(ParseError::Incomplete),
                Ok((e, f)) => {
                    cols.push_back(f);
                    pos = e;
                },
            }
        }
    }
}

impl Selection {
    /// The selection's columns; their parser never succeeds, so this is
    /// always `None`.
    pub fn parse_expr(&self) -> (r: Option<SelectionColumns>)
        ensures
            r is None,
    {
        match SelectionColumns::parse(self.expr.as_str()) {
            Ok((_, c)) => Some(c),
            Err(_) => None,
        }
    }
}

impl Default for Selection {
    fn default() -> (r: Selection)
        ensures
            r@ == Seq::<char>::empty(),
    {
        Selection { expr: String::new() }
    }
}


// ---------------------------------------------------------------------------
// Results and their markdown
// ---------------------------------------------------------------------------

/// The abstract value of a query result.
pub enum ResultView {
    List(Seq<Seq<char>>),
    Table(Seq<Seq<Seq<char>>>, Seq<Seq<char>>),
    Task,
}

pub open spec fn table_view(rows: Seq<Vec<String>>) -> Seq<Seq<Seq<char>>> {
    rows.map_values(|r: Vec<String>| strings_view(r@))
}

impl View for DataviewQueryResult {
    type V = ResultView;

    open spec fn view(&self) -> ResultView {
        match self {
            DataviewQueryResult::List(l) => ResultView::List(strings_view(l@)),
            DataviewQueryResult::Table(rows, headers) => ResultView::Table(
                table_view(rows@),
                strings_view(headers@),
            ),
            DataviewQueryResult::Task => ResultView::Task,
        }
    }
}

/// One markdown table line: `| a | b |` and a line feed.
pub open spec fn md_line(cells: Seq<Seq<char>>) -> Seq<char> {
    seq!['|', ' '] + join(cells, seq![' ', '|', ' ']) + seq![' ', '|', '\n']
}

/// A table line whose cells have their pipes escaped.
pub open spec fn md_row(cells: Seq<Seq<char>>) -> Seq<char> {
    md_line(cells.map_values(|c: Seq<char>| escape_pipes(c)))
}

pub open spec fn dashes(n: nat) -> Seq<Seq<char>> {
    Seq::new(n, |i: int| seq!['-', '-', '-'])
}

pub open spec fn md_rows(rows: Seq<Seq<Seq<char>>>) -> Seq<char>
    decreases rows.len(),
{
    if rows.len() == 0 {
        Seq::empty()
    } else {
        md_rows(rows.drop_last()) + md_row(rows.last())
    }
}

pub open spec fn md_list(items: Seq<Seq<char>>) -> Seq<char>
    decreases items.len(),
{
    if items.len() == 0 {
        Seq::empty()
    } else {
        md_list(items.drop_last()) + seq!['-', ' '] + items.last() + seq!['\n']
    }
}

/// The markdown of a list or table result.
pub open spec fn markdown(r: ResultView) -> Seq<char> {
    match r {
        ResultView::List(items) => md_list(items),
        ResultView::Table(rows, headers) => md_row(headers) + md_line(dashes(headers.len())) + md_rows(rows),
        ResultView::Task => Seq::empty(),
    }
}

fn markdown_line(cells: &Vec<String>, escape: bool) -> (r: String)
    ensures
        escape ==> r@ == md_row(strings_view(cells@)),
        !escape ==> r@ == md_line(strings_view(cells@)),
{
    let mut parts: Vec<String> = Vec::new();
    let mut i: usize = 0;
    let ghost target = if escape {
        strings_view(cells@).map_values(|c: Seq<char>| escape_pipes(c))
    } else {
        strings_view(cells@)
    };
    while i < cells.len()
        invariant
            i <= cells@.len(),
            target.len() == cells@.len(),
            target == if escape {
                strings_view(cells@).map_values(|c: Seq<char>| escape_pipes(c))
            } else {
                strings_view(cells@)
            },
            strings_view(parts@) =~= target.take(i as int),
        decreases cells@.len() - i,
    {
        let c = if escape {
            escape_pipes_str(cells[i].as_str())
        } else {
            cells[i].clone()
        };
        let ghost before = parts@;
        parts.push(c);
        assert(strings_view(parts@) =~= strings_view(before).push(target[i as int]));
        assert(target.take(i + 1) =~= target.take(i as int).push(target[i as int]));
        i = i + 1;
    }
    assert(target.take(cells@.len() as int) =~= target);
    let mut r = String::new();
    proof {
        reveal_strlit("| ");
        reveal_strlit(" | ");
        reveal_strlit(" |\n");
    }
    assert("| "@ =~= seq!['|', ' ']);
    assert(" | "@ =~= seq![' ', '|', ' ']);
    assert(" |\n"@ =~= seq![' ', '|', '\n']);
    r.append("| ");
    let body = join_strings(&parts, " | ");
    r.append(body.as_str());
    r.append(" |\n");
    assert(r@ =~= seq!['|', ' '] + join(target, seq![' ', '|', ' ']) + seq![' ', '|', '\n']);
    r
}

impl DataviewQueryResult {
    /// A list as `- item` lines; a table as a markdown table whose cells have
    /// their pipes escaped.
    pub fn to_markdown(&self) -> (r: String)
        requires
            !(self is Task),
        ensures
            r@ == markdown(self@),
    {
        let mut ret = String::new();
        match self {
            DataviewQueryResult::List(lst) => {
                let mut i: usize = 0;
                proof {
                    reveal_strlit("- ");
                    reveal_strlit("\n");
                }
                assert("- "@ =~= seq!['-', ' ']);
                assert("\n"@ =~= seq!['\n']);
                while i < lst.len()
                    invariant
                        i <= lst@.len(),
                        ret@ == md_list(strings_view(lst@).take(i as int)),
                        "- "@ == seq!['-', ' '],
                        "\n"@ == seq!['\n'],
                    decreases lst@.len() - i,
                {
                    ret.append("- ");
                    ret.append(lst[i].as_str());
                    ret.append("\n");
                    assert(strings_view(lst@).take(i + 1).last() == lst@[i as int]@);
                    assert(strings_view(lst@).take(i + 1).drop_last() =~= strings_view(lst@).take(i as int));
                    i = i + 1;
                }
                assert(strings_view(lst@).take(lst@.len() as int) =~= strings_view(lst@));
            },
            DataviewQueryResult::Table(rows, headers) => {
                let head = markdown_line(headers, true);
                ret.append(head.as_str());
                let mut dash: Vec<String> = Vec::new();
                let mut k: usize = 0;
                proof { reveal_strlit("---"); }
                assert("---"@ =~= seq!['-', '-', '-']);
                while k < headers.len()
                    invariant
                        k <= headers@.len(),
                        strings_view(dash@) =~= dashes(k as nat),
                        "---"@ == seq!['-', '-', '-'],
                    decreases headers@.len() - k,
                {
                    let d = String::from_str("---");
                    let ghost before = dash@;
                    dash.push(d);
                    assert(strings_view(dash@) =~= strings_view(before).push(d@));
                    assert(strings_view(dash@) =~= dashes((k + 1) as nat));
                    k = k + 1;
                }
                assert(dash@.len() == headers@.len());
                let sep = markdown_line(&dash, false);
                ret.append(sep.as_str());
                let ghost prefix = ret@;
                let mut i: usize = 0;
                while i < rows.len()
                    invariant
                        i <= rows@.len(),
                        ret@ == prefix + md_rows(table_view(rows@).take(i as int)),
                    decreases rows@.len() - i,
                {
                    let line = markdown_line(&rows[i], true);
                    ret.append(line.as_str());
                    assert(table_view(rows@).take(i + 1).drop_last() =~= table_view(rows@).take(i as int));
                    i = i + 1;
                }
                assert(table_view(rows@).take(rows@.len() as int) =~= table_view(rows@));
            },
            DataviewQueryResult::Task => {},
        }
        ret
    }
}

// ---------------------------------------------------------------------------
// Running a query
// ---------------------------------------------------------------------------

/// What a query asks of an index: the columns to show and their headers,
/// how many documents at most (0: all), the key to sort by and whether the
/// order is reversed.
pub struct QueryPlan {
    pub columns: Vec<String>,
    pub headers: Vec<String>,
    pub limit: usize,
    pub sort: Option<String>,
    pub descending: bool,
}

impl DataviewQuery {
    /// The plan of the query. The selection's columns never parse, so the
    /// columns are always `file.name` alone, headed `File`.
    pub fn plan(&self) -> (r: QueryPlan)
        ensures
            strings_view(r.columns@) == seq![file_name_expr()],
            strings_view(r.headers@) == seq![file_header()],
            r.limit == match self.limit {
                Some(l) => l.limit as usize,
                None => 0usize,
            },
            match r.sort {
                Some(k) => self.sort_clause matches Some(c) && k@ == c.expr@,
                None => self.sort_clause is None,
            },
            r.descending == (self.sort_clause matches Some(c) && c.dir == SortDirection::Desc),
    {
        let selection = match self.selection.parse_expr() {
            Some(c) => c,
            None => SelectionColumns::default(),
        }.ensure_first_col();
        let columns = selection.columns();
        let headers = selection.headers();
        let sort = match &self.sort_clause {
            Some(c) => Some(c.expr.clone()),
            None => None,
        };
        let limit = match &self.limit {
            Some(l) => l.limit as usize,
            None => 0,
        };
        let descending = match &self.sort_clause {
            Some(c) => c.dir == SortDirection::Desc,
            None => false,
        };
        assert(strings_view(columns@) =~= seq![file_name_expr()]);
        assert(strings_view(headers@) =~= seq![file_header()]);
        QueryPlan { columns, headers, limit, sort, descending }
    }

    /// The result of the query from the table of the selected documents:
    /// a list of all cells row by row, the table with its headers, or a task
    /// result.
    pub fn finish(&self, data: Vec<Vec<String>>, headers: Vec<String>) -> (r: DataviewQueryResult)
        ensures
            match self.kind {
                QueryKind::List => r@ == ResultView::List(table_view(data@).flatten()),
                QueryKind::Table => r@ == ResultView::Table(table_view(data@), strings_view(headers@)),
                QueryKind::Task => r is Task,
            },
    {
        match self.kind {
            QueryKind::List => {
                let mut out: Vec<String> = Vec::new();
                let mut i: usize = 0;
                let ghost rows = table_view(data@);
                let mut data = data;
                while i < data.len()
                    invariant
                        i <= data@.len(),
                        rows == table_view(data@),
                        strings_view(out@) =~= rows.take(i as int).flatten_alt(),
                    decreases data@.len() - i,
                {
                    let mut j: usize = 0;
                    let ghost start = strings_view(out@);
                    while j < data[i].len()
                        invariant
                            i < data@.len(),
                            j <= data@[i as int]@.len(),
                            rows == table_view(data@),
                            strings_view(out@) =~= start + strings_view(data@[i as int]@).take(j as int),
                        decreases data@[i as int]@.len() - j,
                    {
                        let c = data[i][j].clone();
                        let ghost before = strings_view(out@);
                        out.push(c);
                        assert(strings_view(out@) =~= before.push(data@[i as int]@[j as int]@));
                        assert(strings_view(data@[i as int]@).take(j + 1) =~= strings_view(data@[i as int]@).take(j as int).push(data@[i as int]@[j as int]@));
                        j = j + 1;
                    }
                    assert(strings_view(data@[i as int]@).take(data@[i as int]@.len() as int) =~= strings_view(data@[i as int]@));
                    assert(rows.take(i + 1).drop_last() =~= rows.take(i as int));
                    assert(rows.take(i + 1).last() == strings_view(data@[i as int]@));
                    i = i + 1;
                }
                assert(rows.take(data@.len() as int) =~= rows);
                proof { rows.lemma_flatten_and_flatten_alt_are_equivalent(); }
                DataviewQueryResult::List(out)
            },
            QueryKind::Table => DataviewQueryResult::Table(data, headers),
            QueryKind::Task => DataviewQueryResult::Task,
        }
    }
}


/// The display texts of each row of cells.
pub open spec fn rows_text(cells: Seq<Vec<Json>>) -> Seq<Seq<Seq<char>>> {
    cells.map_values(|row: Vec<Json>| key_texts(row@))
}

/// The rows of the first page of `limit` rows (0: all), taken from the end
/// when `reverse`, as display texts.
fn page_rows(cells: &Vec<Vec<Json>>, limit: usize, reverse: bool) -> (r: Vec<Vec<String>>)
    ensures
        table_view(r@) == window(
            if reverse {
                rows_text(cells@).reverse()
            } else {
                rows_text(cells@)
            },
            0,
            limit as nat,
        ),
{
    let n = cells.len();
    let ghost base = if reverse {
        rows_text(cells@).reverse()
    } else {
        rows_text(cells@)
    };
    let ghost target = window(base, 0, limit as nat);
    let count = if limit == 0 || limit >= n {
        n
    } else {
        limit
    };
    assert(base.skip(0) =~= base);
    let mut out: Vec<Vec<String>> = Vec::new();
    let mut k: usize = 0;
    while k < count
        invariant
            n == cells@.len(),
            count <= n,
            k <= count,
            base == (if reverse {
                rows_text(cells@).reverse()
            } else {
                rows_text(cells@)
            }),
            target == window(base, 0, limit as nat),
            target.len() == count,
            forall|j: int| 0 <= j < count ==> #[trigger] target[j] == base[j],
            table_view(out@) == target.take(k as int),
        decreases count - k,
    {
        let idx = if reverse {
            n - 1 - k
        } else {
            k
        };
        let mut row: Vec<String> = Vec::new();
        let mut j: usize = 0;
        while j < cells[idx].len()
            invariant
                idx < cells@.len(),
                j <= cells@[idx as int]@.len(),
                strings_view(row@) == key_texts(cells@[idx as int]@).take(j as int),
            decreases cells@[idx as int]@.len() - j,
        {
            let t = stringify(&cells[idx][j]);
            let ghost before = row@;
            row.push(t);
            assert(strings_view(row@) =~= strings_view(before).push(t@));
            assert(key_texts(cells@[idx as int]@).take(j + 1) =~= key_texts(cells@[idx as int]@).take(
                j as int,
            ).push(t@));
            j = j + 1;
        }
        assert(key_texts(cells@[idx as int]@).take(j as int) =~= key_texts(cells@[idx as int]@));
        assert(base[k as int] == rows_text(cells@)[idx as int]);
        let ghost before = out@;
        out.push(row);
        assert(table_view(out@) =~= table_view(before).push(strings_view(row@)));
        assert(target.take(k + 1) =~= target.take(k as int).push(target[k as int]));
        k = k + 1;
    }
    assert(target.take(count as int) =~= target);
    out
}

impl DataviewQuery {
    /// The result of the query on the documents of an index, given, for each
    /// document in the order the plan's sort key gives them, the values of
    /// the plan's columns: the first `limit` rows (all for none), from the
    /// end of that order when the sort is descending. Where each document
    /// has one value for the plan's one column, each table row has one cell
    /// per header.
    pub fn run_on(&self, cells: &Vec<Vec<Json>>) -> (r: DataviewQueryResult)
        ensures
            ({
                let limit: usize = match self.limit {
                    Some(l) => l.limit as usize,
                    None => 0usize,
                };
                let descending = self.sort_clause matches Some(c) && c.dir == SortDirection::Desc;
                let rows = window(
                    if descending {
                        rows_text(cells@).reverse()
                    } else {
                        rows_text(cells@)
                    },
                    0,
                    limit as nat,
                );
                match self.kind {
                    QueryKind::List => r@ == ResultView::List(rows.flatten()),
                    QueryKind::Table => r@ == ResultView::Table(rows, seq![file_header()]),
                    QueryKind::Task => r is Task,
                }
            }),
            (forall|i: int| 0 <= i < cells@.len() ==> #[trigger] cells@[i]@.len() == 1) ==> (r@ matches ResultView::Table(
                rows,
                hs,
            ) ==> forall|k: int| 0 <= k < rows.len() ==> #[trigger] rows[k].len() == hs.len()),
    {
        let plan = self.plan();
        let ghost lim = plan.limit as nat;
        let ghost desc = plan.descending;
        let rows = page_rows(cells, plan.limit, plan.descending);
        proof { lemma_run_rows(cells@, lim, desc); }
        self.finish(rows, plan.headers)
    }
}


/// The rows of a query run: at most `limit` of them where a limit is set,
/// never more than there are documents, each the display texts of one
/// document's cells (from the end of the sorted order when descending).
pub proof fn lemma_run_rows(cells: Seq<Vec<Json>>, limit: nat, descending: bool)
    ensures
        ({
            let all = if descending { rows_text(cells).reverse() } else { rows_text(cells) };
            let rows = window(all, 0, limit);
            &&& rows.len() <= cells.len()
            &&& limit > 0 ==> rows.len() <= limit
            &&& forall|k: int| 0 <= k < rows.len() ==> #[trigger] rows[k] == key_texts(
                (if descending { cells[cells.len() - 1 - k] } else { cells[k] })@,
            )
        }),
{
    let all = if descending { rows_text(cells).reverse() } else { rows_text(cells) };
    lemma_window_items(all, 0, limit);
}


/// The direction of a `SORT` clause is what its text says: a clause read as
/// descending ends with the word `desc` (any letter case), and a clause that
/// ends with the word `asc` is ascending.
pub proof fn lemma_sort_direction_from_text(s: Seq<char>, p: int)
    ensures
        spec_sort(s, p) matches Ok((e, (_, d))) ==> (d == SortDirection::Desc ==> e >= 4 && kw_at(
            s,
            e - 4,
            kw_desc(),
        )),
        spec_sort(s, p) matches Ok((e, (_, d))) ==> (e >= 3 && kw_at(s, e - 3, kw_asc()) ==> d
            == SortDirection::Asc),
{
    let q = skip_ms(s, p);
    if kw_at(s, q, kw_sort()) && ms1_at(s, q + 4) {
        let r = skip_ms(s, q + 4);
        let sp = find_char(s, r, ' ');
        let e = if sp < 0 { s.len() as int } else { sp };
        if e != r && ms1_at(s, e) {
            let d = skip_ms(s, e);
            if kw_at(s, d, kw_asc()) {
                // the last four characters read `?asc`, never `desc`
                assert(ascii_lower(s[d + 0]) == kw_asc()[0]);
                assert(kw_asc()[0] == 'a' && kw_desc()[1] == 'e');
                if kw_at(s, d + 3 - 4, kw_desc()) {
                    assert(ascii_lower(s[(d + 3 - 4) + 1]) == kw_desc()[1]);
                    assert(false);
                }
            } else if kw_at(s, d, kw_desc()) {
                assert(ascii_lower(s[d + 1]) == kw_desc()[1]);
                assert(kw_asc()[0] == 'a' && kw_desc()[1] == 'e');
                if kw_at(s, d + 4 - 3, kw_asc()) {
                    assert(ascii_lower(s[(d + 4 - 3) + 0]) == kw_asc()[0]);
                    assert(false);
                }
            }
        }
    }
}


/// A `SORT` clause whose expression is followed, after a space, by the word
/// `desc` (any letter case) is descending. (An expression that itself ends
/// with `desc`, as in `SORT desc`, names a key and is ascending.)
pub proof fn lemma_sort_desc_word_is_descending(s: Seq<char>, p: int)
    ensures
        spec_sort(s, p) matches Ok((e, (x, d))) ==> (e >= 5 && s[e - 5] == ' ' && kw_at(s, e - 4, kw_desc())
            && !(x.len() >= 4 && kw_at(x, x.len() - 4, kw_desc())) ==> d == SortDirection::Desc),
{
    let q = skip_ms(s, p);
    if 0 <= p <= s.len() && kw_at(s, q, kw_sort()) && ms1_at(s, q + 4) {
        lemma_skip_ms(s, p);
        lemma_skip_ms(s, q + 4);
        let r = skip_ms(s, q + 4);
        lemma_find_char(s, r, ' ');
        let sp = find_char(s, r, ' ');
        let e = if sp < 0 { s.len() as int } else { sp };
        let x = trimmed(s, r, e);
        assert(kw_desc()[0] == 'd' && kw_asc()[0] == 'a' && kw_desc()[1] == 'e');
        assert(kw_sort()[2] == 'r' && kw_sort()[3] == 't');
        if e != r {
            let asc_word = ms1_at(s, e) && kw_at(s, skip_ms(s, e), kw_asc());
            let desc_word = ms1_at(s, e) && kw_at(s, skip_ms(s, e), kw_desc());
            if asc_word {
                let d0 = skip_ms(s, e);
                assert(ascii_lower(s[d0 + 0]) == kw_asc()[0]);
                if kw_at(s, d0 + 3 - 4, kw_desc()) {
                    assert(ascii_lower(s[(d0 + 3 - 4) + 1]) == kw_desc()[1]);
                }
            } else if !desc_word {
                // the clause ends where the expression does
                if e >= 5 && s[e - 5] == ' ' && kw_at(s, e - 4, kw_desc()) {
                    assert(ascii_lower(s[(e - 4) + 0]) == kw_desc()[0]);
                    if e - 5 >= r {
                        assert(s[e - 5] != ' ');
                    } else if e - 4 == r {
                        lemma_trim_bounds(s, r, e);
                        assert(!is_unicode_ws(s[r]));
                        assert(ascii_lower(s[(e - 4) + 3]) == kw_desc()[3]);
                        assert(!is_unicode_ws(s[e - 1]));
                        assert(trim_start(s, r, e) == r);
                        assert(trim_end(s, r, e) == e);
                        assert(x =~= s.subrange(r, e));
                        assert forall|i: int| 0 <= i < kw_desc().len() implies ascii_lower(
                            #[trigger] x[x.len() - 4 + i],
                        ) == kw_desc()[i] by {
                            assert(x[x.len() - 4 + i] == s[(e - 4) + i]);
                        }
                    } else {
                        // the `d` would stand among the keyword and the spaces before the expression
                        if e - 4 >= q + 4 {
                            assert(is_multispace(s[e - 4]));
                        } else {
                            assert(e - 4 == q + 2 || e - 4 == q + 3);
                            assert(ascii_lower(s[q + 2]) == kw_sort()[2]);
                            assert(ascii_lower(s[q + 3]) == kw_sort()[3]);
                        }
                    }
                }
            }
        }
    }
}

} // verus!
