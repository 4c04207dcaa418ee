//! The index of markdown documents: each document's path and frontmatter,
//! and the operations that select, order, group and tabulate them.
use vstd::prelude::*;

use crate::json::{cell_text, stringify, Json, JsonView};
use crate::text::{same_str, strings_view};

verus! {

/// A single markdown document: its path and its frontmatter.
#[derive(Debug)]
pub struct Document {
    pub path: String,
    pub frontmatter: Json,
}

impl View for Document {
    type V = (Seq<char>, JsonView);

    open spec fn view(&self) -> (Seq<char>, JsonView) {
        (self.path@, self.frontmatter@)
    }
}

/// An indexed collection of markdown documents, in scan order.
#[derive(Debug)]
pub struct Index {
    pub documents: Vec<Document>,
}

pub open spec fn docs_view(docs: Seq<Document>) -> Seq<(Seq<char>, JsonView)> {
    docs.map_values(|d: Document| d@)
}

impl View for Index {
    type V = Seq<(Seq<char>, JsonView)>;

    open spec fn view(&self) -> Seq<(Seq<char>, JsonView)> {
        docs_view(self.documents@)
    }
}

impl Document {
    /// A copy of the document, equal to it.
    pub fn deep_copy(&self) -> (r: Document)
        ensures
            r@ == self@,
    {
        let path = self.path.clone();
        Document { path, frontmatter: self.frontmatter.deep_copy() }
    }
}

/// The part of `s` that a page of `limit` items (0: no limit) starting
/// after `offset` items covers.
pub open spec fn window<A>(s: Seq<A>, offset: nat, limit: nat) -> Seq<A> {
    let rest = if offset < s.len() {
        s.skip(offset as int)
    } else {
        Seq::empty()
    };
    if limit == 0 || limit >= rest.len() {
        rest
    } else {
        rest.take(limit as int)
    }
}

/// A page holds `limit` items (all that remain for a `limit` of 0, fewer at
/// the end), the items that follow the first `offset`, in order.
pub proof fn lemma_window_items<A>(s: Seq<A>, offset: nat, limit: nat)
    ensures
        ({
            let rest: int = if offset < s.len() { s.len() - offset } else { 0 };
            window(s, offset, limit).len() == if limit == 0 || limit >= rest { rest } else { limit as int }
        }),
        forall|j: int| 0 <= j < window(s, offset, limit).len() ==> #[trigger] window(s, offset, limit)[j] == s[offset + j],
{
}

/// The items of `s` whose flag is set, in order.
pub open spec fn keep<A>(s: Seq<A>, flags: Seq<bool>) -> Seq<A>
    decreases s.len(),
{
    if s.len() == 0 {
        Seq::empty()
    } else {
        let before = keep(s.drop_last(), flags);
        if flags[s.len() - 1] {
            before.push(s.last())
        } else {
            before
        }
    }
}

/// `s` with every item dropped that already occurred before it: each item
/// once, where it first appears.
pub open spec fn dedup<A>(s: Seq<A>) -> Seq<A>
    decreases s.len(),
{
    if s.len() == 0 {
        Seq::empty()
    } else {
        let before = dedup(s.drop_last());
        if before.contains(s.last()) {
            before
        } else {
            before.push(s.last())
        }
    }
}

/// For each position of `s`, whether its item occurs there for the first time.
pub open spec fn first_flags<A>(s: Seq<A>) -> Seq<bool> {
    Seq::new(s.len(), |k: int| !s.take(k).contains(s[k]))
}

/// Deduplication keeps exactly the items of the input.
pub proof fn lemma_dedup_contains<A>(s: Seq<A>)
    ensures
        forall|x: A| dedup(s).contains(x) <==> s.contains(x),
    decreases s.len(),
{
    if s.len() > 0 {
        let p = s.drop_last();
        lemma_dedup_contains(p);
        assert forall|x: A| dedup(s).contains(x) <==> s.contains(x) by {
            if s.contains(x) {
                let k = choose|k: int| 0 <= k < s.len() && s[k] == x;
                if k < s.len() - 1 {
                    assert(p[k] == x);
                }
            }
            if p.contains(x) {
                let k = choose|k: int| 0 <= k < p.len() && p[k] == x;
                assert(s[k] == x);
            }
            if dedup(s).contains(x) && !dedup(p).contains(x) {
                assert(dedup(s) == dedup(p).push(s.last()));
                let k = choose|k: int| 0 <= k < dedup(s).len() && dedup(s)[k] == x;
                assert(k == dedup(p).len());
            }
            if x == s.last() && !dedup(p).contains(x) {
                assert(dedup(s)[dedup(p).len() as int] == x);
            }
            if dedup(p).contains(x) && dedup(s) != dedup(p) {
                let k = choose|k: int| 0 <= k < dedup(p).len() && dedup(p)[k] == x;
                assert(dedup(s)[k] == x);
            }
        }
    }
}

/// Deduplication leaves no item twice.
pub proof fn lemma_dedup_no_duplicates<A>(s: Seq<A>)
    ensures
        dedup(s).no_duplicates(),
    decreases s.len(),
{
    if s.len() > 0 {
        lemma_dedup_no_duplicates(s.drop_last());
    }
}

proof fn lemma_keep_prefix<A>(s: Seq<A>, f: Seq<bool>, g: Seq<bool>)
    requires
        forall|k: int| 0 <= k < s.len() ==> f[k] == g[k],
    ensures
        keep(s, f) == keep(s, g),
    decreases s.len(),
{
    if s.len() > 0 {
        lemma_keep_prefix(s.drop_last(), f, g);
    }
}

/// Deduplication keeps the first occurrence of each item and drops the
/// later ones, in the input's order.
pub proof fn lemma_dedup_first_occurrences<A>(s: Seq<A>)
    ensures
        dedup(s) == keep(s, first_flags(s)),
    decreases s.len(),
{
    if s.len() > 0 {
        let p = s.drop_last();
        lemma_dedup_first_occurrences(p);
        assert forall|k: int| 0 <= k < p.len() implies first_flags(p)[k] == first_flags(s)[k] by {
            assert(p.take(k) =~= s.take(k));
        }
        lemma_keep_prefix(p, first_flags(p), first_flags(s));
        lemma_dedup_contains(p);
        assert(s.take(s.len() - 1) =~= p);
    }
}

/// Deduplicating a longer sequence leaves the deduplication of its start in
/// front, unchanged.
pub proof fn lemma_dedup_prefix<A>(a: Seq<A>, b: Seq<A>)
    ensures
        dedup(a).len() <= dedup(a + b).len(),
        dedup(a + b).take(dedup(a).len() as int) == dedup(a),
    decreases b.len(),
{
    if b.len() == 0 {
        assert(a + b =~= a);
        assert(dedup(a).take(dedup(a).len() as int) =~= dedup(a));
    } else {
        let b2 = b.drop_last();
        lemma_dedup_prefix(a, b2);
        assert((a + b).drop_last() =~= a + b2);
        let d2 = dedup(a + b2);
        if !d2.contains((a + b).last()) {
            assert(d2.push((a + b).last()).take(dedup(a).len() as int) =~= d2.take(dedup(a).len() as int));
        }
    }
}

/// The strings of `v`, each once, in order of first appearance.
pub fn dedup_strings(v: &Vec<String>) -> (r: Vec<String>)
    ensures
        strings_view(r@) == dedup(strings_view(v@)),
{
    let ghost sv = strings_view(v@);
    let mut out: Vec<String> = Vec::new();
    let mut i: usize = 0;
    while i < v.len()
        invariant
            sv == strings_view(v@),
            i <= v@.len(),
            strings_view(out@) == dedup(sv.take(i as int)),
        decreases v@.len() - i,
    {
        let ghost d = strings_view(out@);
        let mut found = false;
        let mut j: usize = 0;
        while j < out.len()
            invariant
                d == strings_view(out@),
                i < v@.len(),
                j <= out@.len(),
                found <==> exists|m: int| 0 <= m < j && d[m] == v@[i as int]@,
            decreases out@.len() - j,
        {
            if same_str(out[j].as_str(), v[i].as_str()) {
                found = true;
                assert(d[j as int] == v@[i as int]@);
            }
            j = j + 1;
        }
        assert(sv.take(i + 1).drop_last() =~= sv.take(i as int));
        assert(sv.take(i + 1).last() == v@[i as int]@);
        if !found {
            out.push(v[i].clone());
            assert(strings_view(out@) =~= d.push(v@[i as int]@));
            assert(!d.contains(v@[i as int]@));
        } else {
            assert(d.contains(v@[i as int]@));
        }
        i = i + 1;
    }
    assert(sv.take(v@.len() as int) =~= sv);
    out
}

/// The display text of each grouping key.
pub open spec fn key_texts(keys: Seq<Json>) -> Seq<Seq<char>> {
    keys.map_values(|k: Json| cell_text(k@))
}

/// For each position, whether its text is `t`.
pub open spec fn matches_text(texts: Seq<Seq<char>>, t: Seq<char>) -> Seq<bool> {
    texts.map_values(|x: Seq<char>| x == t)
}

/// Every document lands in exactly one group: the one named by its key text.
pub proof fn lemma_groups_partition(texts: Seq<Seq<char>>, j: int)
    requires
        0 <= j < texts.len(),
    ensures
        exists|g: int| 0 <= g < dedup(texts).len() && dedup(texts)[g] == texts[j],
        forall|g: int, h: int|
            0 <= g < dedup(texts).len() && 0 <= h < dedup(texts).len() && dedup(texts)[g] == texts[j]
                && dedup(texts)[h] == texts[j] ==> g == h,
{
    lemma_dedup_contains(texts);
    lemma_dedup_no_duplicates(texts);
    assert(texts.contains(texts[j]));
}

impl Index {
    /// The documents in the given order (reversed when `reverse`), then
    /// `offset` of them skipped, then at most `limit` of them kept; a
    /// `limit` of 0 keeps all. The documents come sorted, where a sort key
    /// was asked for, by the caller.
    pub fn apply(&self, limit: usize, offset: usize, reverse: bool) -> (r: Index)
        ensures
            r@ == window(
                if reverse {
                    self@.reverse()
                } else {
                    self@
                },
                offset as nat,
                limit as nat,
            ),
    {
        let n = self.documents.len();
        let ghost base = if reverse {
            self@.reverse()
        } else {
            self@
        };
        let ghost target = window(base, offset as nat, limit as nat);
        let mut out: Vec<Document> = Vec::new();
        if offset < n {
            let avail = n - offset;
            let count = if limit == 0 || limit >= avail {
                avail
            } else {
                limit
            };
            assert(target.len() == count);
            let mut k: usize = 0;
            while k < count
                invariant
                    n == self.documents@.len(),
                    offset < n,
                    count <= n - offset,
                    k <= count,
                    base == (if reverse {
                        self@.reverse()
                    } else {
                        self@
                    }),
                    target.len() == count,
                    forall|j: int| 0 <= j < count ==> #[trigger] target[j] == base[offset + j],
                    docs_view(out@) == target.take(k as int),
                decreases count - k,
            {
                let pos = offset + k;
                let idx = if reverse {
                    n - 1 - pos
                } else {
                    pos
                };
                let d = self.documents[idx].deep_copy();
                let ghost before = out@;
                out.push(d);
                assert(target[k as int] == base[pos as int]);
                assert(docs_view(out@) =~= docs_view(before).push(d@));
                assert(target.take(k + 1) =~= target.take(k as int).push(target[k as int]));
                k = k + 1;
            }
            assert(target.take(count as int) =~= target);
        } else {
            assert(target =~= Seq::<(Seq<char>, JsonView)>::empty());
            assert(docs_view(out@) =~= target);
        }
        Index { documents: out }
    }

    /// The documents for which the filter's verdict (one per document, in
    /// order) is `true`.
    pub fn filter_documents(&self, verdicts: &Vec<bool>) -> (r: Index)
        requires
            verdicts@.len() == self.documents@.len(),
        ensures
            r@ == keep(self@, verdicts@),
    {
        let mut out: Vec<Document> = Vec::new();
        let mut i: usize = 0;
        while i < self.documents.len()
            invariant
                verdicts@.len() == self.documents@.len(),
                i <= self.documents@.len(),
                docs_view(out@) == keep(self@.take(i as int), verdicts@),
            decreases self.documents@.len() - i,
        {
            let ghost before = out@;
            if verdicts[i] {
                out.push(self.documents[i].deep_copy());
                assert(docs_view(out@) =~= docs_view(before).push(self@[i as int]));
            }
            assert(self@.take(i + 1).drop_last() =~= self@.take(i as int));
            i = i + 1;
        }
        assert(self@.take(self.documents@.len() as int) =~= self@);
        Index { documents: out }
    }

    /// The documents grouped by the display text of their key values (one
    /// value per document, in order): one group per distinct text, in order
    /// of first appearance, each holding its documents in order.
    pub fn group_by(&self, keys: &Vec<Json>) -> (r: Vec<(String, Index)>)
        requires
            keys@.len() == self.documents@.len(),
        ensures
            r@.len() == dedup(key_texts(keys@)).len(),
            forall|g: int|
                0 <= g < r@.len() ==> #[trigger] r@[g].0@ == dedup(key_texts(keys@))[g] && r@[g].1@
                    == keep(self@, matches_text(key_texts(keys@), r@[g].0@)),
    {
        let ghost kt = key_texts(keys@);
        let mut texts: Vec<String> = Vec::new();
        let mut i: usize = 0;
        while i < keys.len()
            invariant
                kt == key_texts(keys@),
                i <= keys@.len(),
                strings_view(texts@) == kt.take(i as int),
            decreases keys@.len() - i,
        {
            let t = stringify(&keys[i]);
            let ghost before = texts@;
            texts.push(t);
            assert(strings_view(texts@) =~= strings_view(before).push(t@));
            assert(kt.take(i + 1) =~= kt.take(i as int).push(kt[i as int]));
            i = i + 1;
        }
        assert(kt.take(keys@.len() as int) =~= kt);
        let names = dedup_strings(&texts);
        let ghost nv = strings_view(names@);
        let mut out: Vec<(String, Index)> = Vec::new();
        let mut g: usize = 0;
        while g < names.len()
            invariant
                kt == key_texts(keys@),
                strings_view(texts@) == kt,
                texts@.len() == self.documents@.len(),
                nv == strings_view(names@),
                nv == dedup(kt),
                g <= names@.len(),
                out@.len() == g,
                forall|h: int|
                    0 <= h < g ==> #[trigger] out@[h].0@ == nv[h] && out@[h].1@ == keep(
                        self@,
                        matches_text(kt, out@[h].0@),
                    ),
            decreases names@.len() - g,
        {
            let mut flags: Vec<bool> = Vec::new();
            let mut j: usize = 0;
            while j < texts.len()
                invariant
                    strings_view(texts@) == kt,
                    g < names@.len(),
                    j <= texts@.len(),
                    flags@ == matches_text(kt, names@[g as int]@).take(j as int),
                decreases texts@.len() - j,
            {
                let m = same_str(texts[j].as_str(), names[g].as_str());
                flags.push(m);
                assert(matches_text(kt, names@[g as int]@).take(j + 1) =~= matches_text(
                    kt,
                    names@[g as int]@,
                ).take(j as int).push(m));
                j = j + 1;
            }
            assert(flags@ =~= matches_text(kt, names@[g as int]@));
            let group = self.filter_documents(&flags);
            let name = names[g].clone();
            out.push((name, group));
            g = g + 1;
        }
        out
    }

    /// The table of display texts of the given cells: one row per document,
    /// one cell per column, each the value that the column's key has for
    /// that document.
    pub fn create_table_data(&self, cells: &Vec<Vec<Json>>) -> (r: Vec<Vec<String>>)
        requires
            cells@.len() == self.documents@.len(),
        ensures
            r@.len() == cells@.len(),
            forall|i: int|
                0 <= i < r@.len() ==> #[trigger] strings_view(r@[i]@) == key_texts(cells@[i]@),
    {
        let mut out: Vec<Vec<String>> = Vec::new();
        let mut i: usize = 0;
        while i < cells.len()
            invariant
                i <= cells@.len(),
                out@.len() == i,
                forall|k: int|
                    0 <= k < i ==> #[trigger] strings_view(out@[k]@) == key_texts(cells@[k]@),
            decreases cells@.len() - i,
        {
            let mut row: Vec<String> = Vec::new();
            let mut j: usize = 0;
            while j < cells[i].len()
                invariant
                    i < cells@.len(),
                    j <= cells@[i as int]@.len(),
                    strings_view(row@) == key_texts(cells@[i as int]@).take(j as int),
                decreases cells@[i as int]@.len() - j,
            {
                let t = stringify(&cells[i][j]);
                let ghost before = row@;
                row.push(t);
                assert(strings_view(row@) =~= strings_view(before).push(t@));
                assert(key_texts(cells@[i as int]@).take(j + 1) =~= key_texts(cells@[i as int]@).take(
                    j as int,
                ).push(t@));
                j = j + 1;
            }
            assert(key_texts(cells@[i as int]@).take(j as int) =~= key_texts(cells@[i as int]@));
            out.push(row);
            i = i + 1;
        }
        out
    }
}


// ---------------------------------------------------------------------------
// Which files are indexed
// ---------------------------------------------------------------------------

/// The position of the last `.` before position `i` of `name`, or -1.
pub open spec fn last_dot_before(name: Seq<char>, i: int) -> int
    decreases i,
{
    if i <= 0 {
        -1
    } else if name[i - 1] == '.' {
        i - 1
    } else {
        last_dot_before(name, i - 1)
    }
}

/// The extension of a file name as `Path::extension` defines it: the part
/// after the last `.`; none where there is no `.`, where the only `.` opens
/// the name, or for `..`.
pub open spec fn extension(name: Seq<char>) -> Option<Seq<char>> {
    let d = last_dot_before(name, name.len() as int);
    if name == seq!['.', '.'] || d <= 0 {
        None
    } else {
        Some(name.skip(d + 1))
    }
}

proof fn lemma_last_dot(name: Seq<char>, i: int)
    requires
        0 <= i <= name.len(),
    ensures
        -1 <= last_dot_before(name, i) < i,
        last_dot_before(name, i) >= 0 ==> name[last_dot_before(name, i)] == '.',
    decreases i,
{
    if i > 0 {
        lemma_last_dot(name, i - 1);
    }
}

/// Whether a file with this name is a markdown document: its extension is
/// exactly `md`.
pub fn has_md_extension(file_name: &str) -> (r: bool)
    ensures
        r == (extension(file_name@) == Some(seq!['m', 'd'])),
{
    let n = file_name.unicode_len();
    let mut i: usize = n;
    let mut found = false;
    while i > 0 && !found
        invariant
            n == file_name@.len(),
            i <= n,
            found ==> i > 0 && file_name@[i - 1] == '.',
            last_dot_before(file_name@, n as int) == (if found {
                i - 1
            } else {
                last_dot_before(file_name@, i as int)
            }),
        decreases i + (if found { 0int } else { 1int }),
    {
        if file_name.get_char(i - 1) == '.' {
            found = true;
        } else {
            i = i - 1;
        }
    }
    proof { lemma_last_dot(file_name@, n as int); }
    if !found || i <= 1 {
        return false;
    }
    if n == 2 && file_name.get_char(0) == '.' && file_name.get_char(1) == '.' {
        assert(file_name@ =~= seq!['.', '.']);
        return false;
    }
    proof {
        if file_name@ == seq!['.', '.'] {
            assert(file_name@[0] == '.' && file_name@[1] == '.');
        }
    }
    if n - i != 2 {
        assert(file_name@.skip(i as int).len() != 2);
        return false;
    }
    let ok = file_name.get_char(i) == 'm' && file_name.get_char(i + 1) == 'd';
    proof {
        if ok {
            assert(file_name@.skip(i as int) =~= seq!['m', 'd']);
        } else {
            assert(file_name@.skip(i as int)[0] != 'm' || file_name@.skip(i as int)[1] != 'd');
        }
    }
    ok
}

} // verus!
