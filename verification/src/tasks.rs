//! Task list items of a markdown document (`- [ ] open`, `- [x] done`), and
//! the `tasks`, `tasks_done` and `tasks_open` fields made from them.
use vstd::prelude::*;

use crate::dataview::query::{digits_end, is_digit, lemma_digits_end};
use crate::json::{insert_entry, items_view, json_view, lemma_items_view_index, object_insert, Json, JsonView};
use crate::text::{chars_of, trim_bounds, trimmed};

verus! {

/// Space or tab.
pub open spec fn is_blank(c: char) -> bool {
    c == ' ' || c == '\t'
}

/// The first position at or after `i` that is not a space or tab.
pub open spec fn skip_blank(l: Seq<char>, i: int) -> int
    decreases l.len() - i,
{
    if 0 <= i < l.len() && is_blank(l[i]) {
        skip_blank(l, i + 1)
    } else {
        i
    }
}

/// Where a list item marker that starts at `i` ends: `-`, `*`, `+`, or one
/// to nine digits followed by `.` or `)`; -1 where there is none.
pub open spec fn marker_end(l: Seq<char>, i: int) -> int {
    if 0 <= i < l.len() && (l[i] == '-' || l[i] == '*' || l[i] == '+') {
        i + 1
    } else {
        let d = digits_end(l, i);
        if 0 <= i && d > i && d - i <= 9 && d < l.len() && (l[d] == '.' || l[d] == ')') {
            d + 1
        } else {
            -1
        }
    }
}

/// The task of a line, where the line is a list item opening with a task
/// box: whether it is checked (`[x]` or `[X]`) and its text (after the box,
/// trimmed).
pub open spec fn task_of_line(l: Seq<char>) -> Option<(bool, Seq<char>)> {
    let m = marker_end(l, skip_blank(l, 0));
    if m < 0 || !(m < l.len() && is_blank(l[m])) {
        None
    } else {
        let b = skip_blank(l, m);
        if b + 3 <= l.len() && l[b] == '[' && l[b + 2] == ']' && (l[b + 1] == ' ' || l[b + 1] == 'x'
            || l[b + 1] == 'X') && (b + 3 == l.len() || is_blank(l[b + 3])) {
            Some((l[b + 1] != ' ', trimmed(l, b + 3, l.len() as int)))
        } else {
            None
        }
    }
}

/// A line that opens or closes a fenced code block: ```` ``` ```` or `~~~`
/// after spaces or tabs.
pub open spec fn is_fence_line(l: Seq<char>) -> bool {
    let i = skip_blank(l, 0);
    &&& 0 <= i
    &&& i + 3 <= l.len()
    &&& ((l[i] == '`' && l[i + 1] == '`' && l[i + 2] == '`') || (l[i] == '~' && l[i + 1] == '~' && l[i
        + 2] == '~'))
}

/// The end of the line that starts at `p`: the next line feed, or the end.
pub open spec fn line_end(s: Seq<char>, p: int) -> int
    decreases s.len() - p,
{
    if p < 0 || p >= s.len() || s[p] == '\n' {
        p
    } else {
        line_end(s, p + 1)
    }
}

/// The tasks of the lines from position `p` on, where `fenced` tells whether
/// a fenced code block is open there; lines inside fenced code blocks hold
/// no tasks.
pub open spec fn tasks_from(s: Seq<char>, p: int, fenced: bool) -> Seq<(bool, Seq<char>)>
    decreases s.len() - p,
{
    if p < 0 || p >= s.len() {
        Seq::empty()
    } else {
        proof { lemma_line_end(s, p); }
        let e = line_end(s, p);
        let l = s.subrange(p, e);
        let next = next_line(s, p);
        if is_fence_line(l) {
            tasks_from(s, next, !fenced)
        } else {
            match task_of_line(l) {
                Some(t) => if fenced {
                    tasks_from(s, next, fenced)
                } else {
                    seq![t] + tasks_from(s, next, fenced)
                },
                None => tasks_from(s, next, fenced),
            }
        }
    }
}

/// Where the line after the one that starts at `p` starts.
pub open spec fn next_line(s: Seq<char>, p: int) -> int {
    let e = line_end(s, p);
    if e < s.len() {
        e + 1
    } else {
        s.len() as int
    }
}

/// The task list items of a markdown text, in order.
pub open spec fn tasks_of(markdown: Seq<char>) -> Seq<(bool, Seq<char>)> {
    tasks_from(markdown, 0, false)
}

proof fn lemma_skip_blank(l: Seq<char>, i: int)
    requires
        0 <= i <= l.len(),
    ensures
        i <= skip_blank(l, i) <= l.len(),
    decreases l.len() - i,
{
    if i < l.len() && is_blank(l[i]) {
        lemma_skip_blank(l, i + 1);
    }
}

pub proof fn lemma_line_end(s: Seq<char>, p: int)
    requires
        0 <= p <= s.len(),
    ensures
        p <= line_end(s, p) <= s.len(),
    decreases s.len() - p,
{
    if p < s.len() && s[p] != '\n' {
        lemma_line_end(s, p + 1);
    }
}

fn skip_blanks(l: &Vec<char>, i: usize) -> (r: usize)
    requires
        i <= l@.len(),
    ensures
        r as int == skip_blank(l@, i as int),
        i <= r <= l@.len(),
{
    proof { lemma_skip_blank(l@, i as int); }
    let mut j = i;
    while j < l.len() && (l[j] == ' ' || l[j] == '\t')
        invariant
            i <= j <= l@.len(),
            skip_blank(l@, j as int) == skip_blank(l@, i as int),
        decreases l@.len() - j,
    {
        j = j + 1;
    }
    j
}

fn marker_end_at(l: &Vec<char>, i: usize) -> (r: Option<usize>)
    requires
        i <= l@.len(),
    ensures
        match r {
            Some(m) => m as int == marker_end(l@, i as int) && i < m <= l@.len(),
            None => marker_end(l@, i as int) == -1,
        },
{
    if i < l.len() && (l[i] == '-' || l[i] == '*' || l[i] == '+') {
        return Some(i + 1);
    }
    proof { lemma_digits_end(l@, i as int); }
    let mut d = i;
    while d < l.len() && '0' <= l[d] && l[d] <= '9'
        invariant
            i <= d <= digits_end(l@, i as int) <= l@.len(),
            forall|j: int| i <= j < digits_end(l@, i as int) ==> is_digit(#[trigger] l@[j]),
            digits_end(l@, i as int) < l@.len() ==> !is_digit(l@[digits_end(l@, i as int)]),
        decreases l@.len() - d,
    {
        d = d + 1;
    }
    if d > i && d - i <= 9 && d < l.len() && (l[d] == '.' || l[d] == ')') {
        Some(d + 1)
    } else {
        None
    }
}

/// The task that a line holds, if any.
pub fn line_task(line: &str) -> (r: Option<(bool, String)>)
    ensures
        match r {
            Some((done, text)) => task_of_line(line@) == Some((done, text@)),
            None => task_of_line(line@) is None,
        },
{
    let l = chars_of(line);
    let i0 = skip_blanks(&l, 0);
    let m = match marker_end_at(&l, i0) {
        Some(m) => m,
        None => {
            return None;
        },
    };
    if !(m < l.len() && (l[m] == ' ' || l[m] == '\t')) {
        return None;
    }
    let b = skip_blanks(&l, m);
    if l.len() - b >= 3 && l[b] == '[' && l[b + 2] == ']' && (l[b + 1] == ' ' || l[b + 1] == 'x' || l[b
        + 1] == 'X') && (b + 3 == l.len() || l[b + 3] == ' ' || l[b + 3] == '\t') {
        let (x, y) = trim_bounds(&l, b + 3, l.len());
        let text = line.substring_char(x, y).to_string();
        Some((l[b + 1] != ' ', text))
    } else {
        None
    }
}

fn fence_line(line: &str) -> (r: bool)
    ensures
        r == is_fence_line(line@),
{
    let l = chars_of(line);
    let i = skip_blanks(&l, 0);
    if l.len() - i < 3 {
        return false;
    }
    (l[i] == '`' && l[i + 1] == '`' && l[i + 2] == '`') || (l[i] == '~' && l[i + 1] == '~' && l[i + 2]
        == '~')
}

/// The task list items of a markdown text, in order: each whether it is
/// done, and its text.
pub fn extract_tasks(markdown: &str) -> (r: Vec<(bool, String)>)
    ensures
        r@.len() == tasks_of(markdown@).len(),
        forall|k: int|
            0 <= k < r@.len() ==> (#[trigger] r@[k].0, r@[k].1@) == tasks_of(markdown@)[k],
{
    let s = chars_of(markdown);
    let n = s.len();
    let mut out: Vec<(bool, String)> = Vec::new();
    let ghost done_view = Seq::<(bool, Seq<char>)>::empty();
    let mut p: usize = 0;
    let mut fenced = false;
    while p < n
        invariant
            s@ == markdown@,
            n == s@.len(),
            p <= n,
            out@.len() == done_view.len(),
            forall|k: int| 0 <= k < out@.len() ==> (#[trigger] out@[k].0, out@[k].1@) == done_view[k],
            done_view + tasks_from(s@, p as int, fenced) == tasks_of(markdown@),
        decreases n - p,
    {
        proof { lemma_line_end(s@, p as int); }
        let mut e = p;
        while e < n && s[e] != '\n'
            invariant
                p <= e <= line_end(s@, p as int) <= n,
                n == s@.len(),
                line_end(s@, e as int) == line_end(s@, p as int),
            decreases n - e,
        {
            proof { lemma_line_end(s@, e + 1); }
            e = e + 1;
        }
        assert(e == line_end(s@, p as int));
        let line = markdown.substring_char(p, e);
        assert(line@ == s@.subrange(p as int, e as int));
        let next = if e < n { e + 1 } else { n };
        assert(next == next_line(s@, p as int));
        let ghost rest = tasks_from(s@, next as int, fenced);
        if fence_line(line) {
            fenced = !fenced;
        } else {
            match line_task(line) {
                Some((done, text)) => {
                    if !fenced {
                        proof {
                            done_view = done_view.push((done, text@));
                            assert(done_view.drop_last() + (seq![(done, text@)] + rest) =~= done_view + rest);
                        }
                        out.push((done, text));
                    }
                },
                None => {},
            }
        }
        p = next;
    }
    assert(done_view + Seq::<(bool, Seq<char>)>::empty() =~= done_view);
    out
}


// ---------------------------------------------------------------------------
// The task fields of a frontmatter
// ---------------------------------------------------------------------------

/// The decimal digits of `n`.
pub open spec fn decimal_text(n: nat) -> Seq<char>
    decreases n,
{
    if n < 10 {
        seq![digit_char(n)]
    } else {
        decimal_text(n / 10).push(digit_char(n % 10))
    }
}

pub open spec fn digit_char(d: nat) -> char {
    seq!['0', '1', '2', '3', '4', '5', '6', '7', '8', '9'][d as int]
}

fn push_decimal(out: &mut String, n: usize)
    ensures
        final(out)@ == old(out)@ + decimal_text(n as nat),
    decreases n,
{
    if n >= 10 {
        push_decimal(out, n / 10);
    }
    proof { reveal_strlit("0123456789"); }
    let digits = "0123456789";
    let d = n % 10;
    out.append(digits.substring_char(d, d + 1));
    assert(digits@.subrange(d as int, d + 1) =~= seq![digit_char(d as nat)]);
}

/// The decimal text of a count.
pub fn decimal_string(n: usize) -> (r: String)
    ensures
        r@ == decimal_text(n as nat),
{
    let mut r = String::new();
    push_decimal(&mut r, n);
    r
}

/// How many of the tasks are done.
pub open spec fn count_done(ts: Seq<(bool, Seq<char>)>) -> nat
    decreases ts.len(),
{
    if ts.len() == 0 {
        0
    } else {
        count_done(ts.drop_last()) + if ts.last().0 {
            1nat
        } else {
            0nat
        }
    }
}

/// A task as a JSON object: `{"done": ..., "text": ...}`.
pub open spec fn task_value(t: (bool, Seq<char>)) -> JsonView {
    JsonView::Object(seq![(seq!['d', 'o', 'n', 'e'], JsonView::Bool(t.0)), (seq!['t', 'e', 'x', 't'], JsonView::Str(t.1))])
}

pub open spec fn tasks_key() -> Seq<char> {
    seq!['t', 'a', 's', 'k', 's']
}

pub open spec fn tasks_done_key() -> Seq<char> {
    seq!['t', 'a', 's', 'k', 's', '_', 'd', 'o', 'n', 'e']
}

pub open spec fn tasks_open_key() -> Seq<char> {
    seq!['t', 'a', 's', 'k', 's', '_', 'o', 'p', 'e', 'n']
}

/// The frontmatter entries with the task fields of a markdown text set:
/// `tasks` (each task as an object), `tasks_done` and `tasks_open` (counts).
pub open spec fn with_task_fields(entries: Seq<(Seq<char>, JsonView)>, markdown: Seq<char>) -> Seq<
    (Seq<char>, JsonView),
> {
    let ts = tasks_of(markdown);
    let done = count_done(ts);
    insert_entry(
        insert_entry(
            insert_entry(entries, tasks_key(), JsonView::Array(ts.map_values(|t: (bool, Seq<char>)| task_value(t)))),
            tasks_done_key(),
            JsonView::Number(decimal_text(done)),
        ),
        tasks_open_key(),
        JsonView::Number(decimal_text((ts.len() - done) as nat)),
    )
}

/// The frontmatter with the task fields of the document set. The
/// frontmatter is an object.
pub fn with_tasks(fm: Json, markdown: &str) -> (r: Json)
    requires
        fm@ is Object,
    ensures
        r@ == JsonView::Object(with_task_fields(fm@->Object_0, markdown@)),
{
    let tasks = extract_tasks(markdown);
    let ghost ts = tasks_of(markdown@);
    let mut values: Vec<Json> = Vec::new();
    let mut done: usize = 0;
    let mut i: usize = 0;
    proof {
        reveal_strlit("done");
        reveal_strlit("text");
        reveal_strlit("tasks");
        reveal_strlit("tasks_done");
        reveal_strlit("tasks_open");
    }
    while i < tasks.len()
        invariant
            tasks@.len() == ts.len(),
            forall|k: int| 0 <= k < tasks@.len() ==> (#[trigger] tasks@[k].0, tasks@[k].1@) == ts[k],
            i <= tasks@.len(),
            values@.len() == i,
            forall|k: int| 0 <= k < i ==> #[trigger] json_view(values@[k]) == task_value(ts[k]),
            done as nat == count_done(ts.take(i as int)),
            done <= i,
            "done"@ == seq!['d', 'o', 'n', 'e'],
            "text"@ == seq!['t', 'e', 'x', 't'],
        decreases tasks@.len() - i,
    {
        let (d, t) = (tasks[i].0, tasks[i].1.clone());
        let mut entries: Vec<(String, Json)> = Vec::new();
        entries.push((String::from_str("done"), Json::Bool(d)));
        entries.push((String::from_str("text"), Json::Str(t)));
        proof {
            reveal_with_fuel(crate::json::entries_view, 3);
            assert(crate::json::entries_view(entries@) =~= seq![
                (seq!['d', 'o', 'n', 'e'], JsonView::Bool(ts[i as int].0)),
                (seq!['t', 'e', 'x', 't'], JsonView::Str(ts[i as int].1)),
            ]);
        }
        values.push(Json::Object(entries));
        assert(ts.take(i + 1).drop_last() =~= ts.take(i as int));
        if d {
            done = done + 1;
        }
        i = i + 1;
    }
    assert(ts.take(tasks@.len() as int) =~= ts);
    proof {
        lemma_items_view_index(values@);
        assert(items_view(values@) =~= ts.map_values(|t: (bool, Seq<char>)| task_value(t)));
    }
    let open = tasks.len() - done;
    let done_text = decimal_string(done);
    let open_text = decimal_string(open);
    let k1 = String::from_str("tasks");
    let k2 = String::from_str("tasks_done");
    let k3 = String::from_str("tasks_open");
    assert(k1@ =~= tasks_key());
    assert(k2@ =~= tasks_done_key());
    assert(k3@ =~= tasks_open_key());
    match fm {
        Json::Object(entries) => {
            let mut entries = entries;
            object_insert(&mut entries, k1, Json::Array(values));
            object_insert(&mut entries, k2, Json::Number(done_text));
            object_insert(&mut entries, k3, Json::Number(open_text));
            Json::Object(entries)
        },
        other => other,
    }
}


proof fn lemma_line_end_with_newline(m: Seq<char>, p: int)
    requires
        0 <= p <= m.len(),
    ensures
        line_end(m.push('\n'), p) == line_end(m, p),
    decreases m.len() - p,
{
    let m2 = m.push('\n');
    if p < m.len() {
        assert(m2[p] == m[p]);
        if m[p] != '\n' {
            lemma_line_end_with_newline(m, p + 1);
        }
    } else {
        assert(m2[p] == '\n');
    }
}

proof fn lemma_tasks_from_with_newline(m: Seq<char>, p: int, fenced: bool)
    requires
        0 <= p <= m.len(),
    ensures
        tasks_from(m.push('\n'), p, fenced) == tasks_from(m, p, fenced),
    decreases m.len() - p,
{
    let m2 = m.push('\n');
    lemma_line_end(m2, p);
    if p == m.len() {
        assert(line_end(m2, p) == p);
        let l = m2.subrange(p, p);
        assert(l.len() == 0);
        assert(!is_fence_line(l));
        assert(digits_end(l, 0) == 0);
        assert(task_of_line(l) is None);
        assert(next_line(m2, p) == m2.len());
        assert(tasks_from(m2, m2.len() as int, fenced) =~= Seq::<(bool, Seq<char>)>::empty());
        assert(tasks_from(m2, m2.len() as int, !fenced) =~= Seq::<(bool, Seq<char>)>::empty());
        assert(tasks_from(m, p, fenced) =~= Seq::<(bool, Seq<char>)>::empty());
    } else {
        lemma_line_end(m, p);
        lemma_line_end_with_newline(m, p);
        let e = line_end(m, p);
        assert(m2.subrange(p, e) =~= m.subrange(p, e));
        if e < m.len() {
            assert(next_line(m2, p) == next_line(m, p));
            lemma_tasks_from_with_newline(m, e + 1, true);
            lemma_tasks_from_with_newline(m, e + 1, false);
        } else {
            assert(next_line(m, p) == m.len());
            assert(next_line(m2, p) == m2.len());
            assert(tasks_from(m2, m2.len() as int, true) =~= Seq::<(bool, Seq<char>)>::empty());
            assert(tasks_from(m2, m2.len() as int, false) =~= Seq::<(bool, Seq<char>)>::empty());
            assert(tasks_from(m, m.len() as int, true) =~= Seq::<(bool, Seq<char>)>::empty());
            assert(tasks_from(m, m.len() as int, false) =~= Seq::<(bool, Seq<char>)>::empty());
        }
    }
}

/// A task list item on the last line counts whether or not a line feed
/// ends the text: a text and the same text with a line feed added hold the
/// same tasks.
pub proof fn lemma_tasks_ignore_final_line_feed(markdown: Seq<char>)
    ensures
        tasks_of(markdown.push('\n')) == tasks_of(markdown),
{
    lemma_tasks_from_with_newline(markdown, 0, false);
}


/// A `- [ ] ` item is an open task and a `- [x] ` or `- [X] ` item a done
/// one, whatever text follows the box; the task's text is that text,
/// trimmed.
pub proof fn lemma_task_box(box_mark: char, text: Seq<char>)
    requires
        box_mark == ' ' || box_mark == 'x' || box_mark == 'X',
    ensures
        ({
            let l = seq!['-', ' ', '[', box_mark, ']', ' '] + text;
            task_of_line(l) == Some((box_mark != ' ', trimmed(l, 5, l.len() as int)))
        }),
{
    let l = seq!['-', ' ', '[', box_mark, ']', ' '] + text;
    assert(l[0] == '-' && l[1] == ' ' && l[2] == '[' && l[3] == box_mark && l[4] == ']' && l[5] == ' ');
    assert(skip_blank(l, 0) == 0);
    assert(marker_end(l, 0) == 1);
    assert(skip_blank(l, 2) == 2);
    assert(skip_blank(l, 1) == 2);
}

} // verus!
