//! Character classes and small string scans shared by the parsers.
use vstd::prelude::*;

verus! {

/// The characters that the multispace parsers skip: space, tab, carriage return, line feed.
pub open spec fn is_multispace(c: char) -> bool {
    c == ' ' || c == '\t' || c == '\r' || c == '\n'
}

pub fn multispace(c: char) -> (r: bool)
    ensures
        r == is_multispace(c),
{
    c == ' ' || c == '\t' || c == '\r' || c == '\n'
}

/// ASCII whitespace as `u8::is_ascii_whitespace` defines it.
pub open spec fn is_ascii_ws(c: char) -> bool {
    c == ' ' || c == '\t' || c == '\n' || c == '\x0C' || c == '\r'
}

/// The characters with the Unicode `White_Space` property (what `char::is_whitespace` tests).
pub open spec fn is_unicode_ws(c: char) -> bool {
    ||| c == '\t' || c == '\n' || c == '\x0B' || c == '\x0C' || c == '\r' || c == ' '
    ||| c == '\u{85}' || c == '\u{A0}' || c == '\u{1680}'
    ||| ('\u{2000}' <= c && c <= '\u{200A}')
    ||| c == '\u{2028}' || c == '\u{2029}' || c == '\u{202F}' || c == '\u{205F}' || c == '\u{3000}'
}

pub fn unicode_ws(c: char) -> (r: bool)
    ensures
        r == is_unicode_ws(c),
{
    c == '\t' || c == '\n' || c == '\x0B' || c == '\x0C' || c == '\r' || c == ' ' || c == '\u{85}'
        || c == '\u{A0}' || c == '\u{1680}' || ('\u{2000}' <= c && c <= '\u{200A}') || c
        == '\u{2028}' || c == '\u{2029}' || c == '\u{202F}' || c == '\u{205F}' || c == '\u{3000}'
}

/// The input as a vector of its characters.
pub fn chars_of(s: &str) -> (v: Vec<char>)
    ensures
        v@ == s@,
{
    let n = s.unicode_len();
    let mut v: Vec<char> = Vec::new();
    let mut i: usize = 0;
    while i < n
        invariant
            n == s@.len(),
            i <= n,
            v@ == s@.subrange(0, i as int),
        decreases n - i,
    {
        v.push(s.get_char(i));
        i = i + 1;
    }
    assert(v@ == s@);
    v
}


/// ASCII lowercase of one character (`char::to_ascii_lowercase`).
pub open spec fn ascii_lower(c: char) -> char {
    if 'A' <= c && c <= 'Z' {
        ((c as u8) + 32) as char
    } else {
        c
    }
}

pub fn to_ascii_lower(c: char) -> (r: char)
    ensures
        r == ascii_lower(c),
{
    if 'A' <= c && c <= 'Z' {
        ((c as u8) + 32) as char
    } else {
        c
    }
}

/// The first position at or after `p` that holds no multispace character.
pub open spec fn skip_ms(s: Seq<char>, p: int) -> int
    decreases s.len() - p,
{
    if p < 0 || p >= s.len() {
        p
    } else if is_multispace(s[p]) {
        skip_ms(s, p + 1)
    } else {
        p
    }
}

pub proof fn lemma_skip_ms(s: Seq<char>, p: int)
    requires
        0 <= p <= s.len(),
    ensures
        p <= skip_ms(s, p) <= s.len(),
        forall|i: int| p <= i < skip_ms(s, p) ==> is_multispace(#[trigger] s[i]),
        skip_ms(s, p) < s.len() ==> !is_multispace(s[skip_ms(s, p)]),
    decreases s.len() - p,
{
    if p < s.len() && is_multispace(s[p]) {
        lemma_skip_ms(s, p + 1);
    }
}

pub fn skip_multispace(s: &Vec<char>, p: usize) -> (q: usize)
    requires
        p <= s@.len(),
    ensures
        q as int == skip_ms(s@, p as int),
        p <= q <= s@.len(),
{
    let mut q = p;
    while q < s.len() && multispace(s[q])
        invariant
            p <= q <= s@.len(),
            skip_ms(s@, q as int) == skip_ms(s@, p as int),
        decreases s@.len() - q,
    {
        q = q + 1;
    }
    q
}

/// `kw` (ASCII lowercase) occurs at `p` when the input is ASCII-lowercased.
pub open spec fn kw_at(s: Seq<char>, p: int, kw: Seq<char>) -> bool {
    &&& 0 <= p
    &&& p + kw.len() <= s.len()
    &&& forall|i: int| 0 <= i < kw.len() ==> ascii_lower(#[trigger] s[p + i]) == kw[i]
}

pub fn keyword_at<const N: usize>(s: &Vec<char>, p: usize, kw: &[char; N]) -> (r: bool)
    ensures
        r == kw_at(s@, p as int, kw@),
        r ==> p + N <= s.len(),
        kw@.len() == N,
{
    if p > s.len() || N > s.len() - p {
        return false;
    }
    let mut i: usize = 0;
    while i < N
        invariant
            p + kw@.len() <= s.len(),
            kw@.len() == N,
            i <= kw@.len(),
            forall|j: int| 0 <= j < i ==> ascii_lower(#[trigger] s@[p + j]) == kw@[j],
        decreases kw@.len() - i,
    {
        if to_ascii_lower(s[p + i]) != kw[i] {
            return false;
        }
        i = i + 1;
    }
    true
}

/// The first position at or after `q` where `kw` occurs, or -1 (`str::find`).
pub open spec fn find_kw(s: Seq<char>, q: int, kw: Seq<char>) -> int
    decreases s.len() - q,
{
    if q < 0 || q + kw.len() > s.len() {
        -1
    } else if kw_at(s, q, kw) {
        q
    } else {
        find_kw(s, q + 1, kw)
    }
}

pub fn find_keyword<const N: usize>(s: &Vec<char>, q: usize, kw: &[char; N]) -> (r: Option<usize>)
    requires
        q <= s@.len(),
    ensures
        match r {
            Some(i) => i as int == find_kw(s@, q as int, kw@),
            None => find_kw(s@, q as int, kw@) == -1,
        },
{
    let mut i = q;
    while N <= s.len() && i <= s.len() - N
        invariant
            kw@.len() == N,
            q <= i,
            find_kw(s@, i as int, kw@) == find_kw(s@, q as int, kw@),
        decreases s@.len() - i,
    {
        if keyword_at(s, i, kw) {
            return Some(i);
        }
        i = i + 1;
    }
    None
}

/// Where a keyword ends the text that starts at `p`: at the first occurrence of
/// `kw` after `p`, when that occurrence starts the text or follows ASCII
/// whitespace; otherwise at the end of the input.
pub open spec fn kw_cut(s: Seq<char>, p: int, kw: Seq<char>) -> int {
    let i = find_kw(s, p, kw);
    if i >= 0 && (i == p || is_ascii_ws(s[i - 1])) {
        i
    } else {
        s.len() as int
    }
}

/// The earliest cut among several keywords.
pub open spec fn cut_keywords(s: Seq<char>, p: int, kws: Seq<Seq<char>>) -> int
    decreases kws.len(),
{
    if kws.len() == 0 {
        s.len() as int
    } else {
        let rest = cut_keywords(s, p, kws.drop_first());
        let here = kw_cut(s, p, kws[0]);
        if here < rest {
            here
        } else {
            rest
        }
    }
}

pub proof fn lemma_find_kw(s: Seq<char>, q: int, kw: Seq<char>)
    requires
        0 <= q,
        kw.len() > 0,
    ensures
        find_kw(s, q, kw) == -1 || (q <= find_kw(s, q, kw) && find_kw(s, q, kw) + kw.len() <= s.len()),
    decreases s.len() - q,
{
    if q + kw.len() <= s.len() && !kw_at(s, q, kw) {
        lemma_find_kw(s, q + 1, kw);
    }
}

pub fn keyword_cut<const N: usize>(s: &Vec<char>, p: usize, kw: &[char; N]) -> (r: usize)
    requires
        p <= s@.len(),
        kw@.len() > 0,
    ensures
        r as int == kw_cut(s@, p as int, kw@),
        p <= r <= s@.len(),
{
    proof { lemma_find_kw(s@, p as int, kw@); }
    match find_keyword(s, p, kw) {
        Some(i) => {
            if i == p {
                i
            } else {
                let c = s[i - 1];
                if c == ' ' || c == '\t' || c == '\n' || c == '\x0C' || c == '\r' {
                    i
                } else {
                    s.len()
                }
            }
        },
        None => s.len(),
    }
}

/// The first position in `[a, b)` that holds no Unicode whitespace, or `b`.
pub open spec fn trim_start(s: Seq<char>, a: int, b: int) -> int
    decreases b - a,
{
    if a < b && is_unicode_ws(s[a]) {
        trim_start(s, a + 1, b)
    } else {
        a
    }
}

/// The end of `[a, b)` once trailing Unicode whitespace is dropped.
pub open spec fn trim_end(s: Seq<char>, a: int, b: int) -> int
    decreases b - a,
{
    if a < b && is_unicode_ws(s[b - 1]) {
        trim_end(s, a, b - 1)
    } else {
        b
    }
}

/// `s[a..b]` with leading and trailing Unicode whitespace removed (`str::trim`).
pub open spec fn trimmed(s: Seq<char>, a: int, b: int) -> Seq<char> {
    let t = trim_start(s, a, b);
    s.subrange(t, trim_end(s, t, b))
}

pub proof fn lemma_trim_bounds(s: Seq<char>, a: int, b: int)
    requires
        0 <= a <= b <= s.len(),
    ensures
        a <= trim_start(s, a, b) <= b,
        trim_start(s, a, b) <= trim_end(s, trim_start(s, a, b), b) <= b,
    decreases b - a,
{
    if a < b && is_unicode_ws(s[a]) {
        lemma_trim_bounds(s, a + 1, b);
    } else {
        lemma_trim_end_bounds(s, a, b);
    }
}

pub proof fn lemma_trim_end_bounds(s: Seq<char>, a: int, b: int)
    requires
        0 <= a <= b <= s.len(),
    ensures
        a <= trim_end(s, a, b) <= b,
    decreases b - a,
{
    if a < b && is_unicode_ws(s[b - 1]) {
        lemma_trim_end_bounds(s, a, b - 1);
    }
}

/// The bounds of `s[a..b]` once trimmed.
pub fn trim_bounds(s: &Vec<char>, a: usize, b: usize) -> (r: (usize, usize))
    requires
        a <= b <= s@.len(),
    ensures
        r.0 as int == trim_start(s@, a as int, b as int),
        r.1 as int == trim_end(s@, r.0 as int, b as int),
        a <= r.0 <= r.1 <= b,
{
    proof { lemma_trim_bounds(s@, a as int, b as int); }
    let mut x = a;
    while x < b && unicode_ws(s[x])
        invariant
            a <= x <= b <= s@.len(),
            trim_start(s@, x as int, b as int) == trim_start(s@, a as int, b as int),
        decreases b - x,
    {
        x = x + 1;
    }
    let mut y = b;
    while y > x && unicode_ws(s[y - 1])
        invariant
            x <= y <= b <= s@.len(),
            trim_end(s@, x as int, y as int) == trim_end(s@, x as int, b as int),
        decreases y - x,
    {
        y = y - 1;
    }
    (x, y)
}


/// Whether two strings hold the same characters.
pub fn same_str(a: &str, b: &str) -> (r: bool)
    ensures
        r == (a@ == b@),
{
    let n = a.unicode_len();
    if n != b.unicode_len() {
        return false;
    }
    let mut i: usize = 0;
    while i < n
        invariant
            n == a@.len() == b@.len(),
            i <= n,
            forall|j: int| 0 <= j < i ==> a@[j] == b@[j],
        decreases n - i,
    {
        if a.get_char(i) != b.get_char(i) {
            return false;
        }
        i = i + 1;
    }
    assert(a@ =~= b@);
    true
}

/// `parts` joined by `sep` (`[T]::join`).
pub open spec fn join(parts: Seq<Seq<char>>, sep: Seq<char>) -> Seq<char>
    decreases parts.len(),
{
    if parts.len() == 0 {
        Seq::empty()
    } else if parts.len() == 1 {
        parts[0]
    } else {
        join(parts.drop_last(), sep) + sep + parts.last()
    }
}

pub open spec fn strings_view(v: Seq<String>) -> Seq<Seq<char>> {
    v.map_values(|x: String| x@)
}

pub fn join_strings(parts: &Vec<String>, sep: &str) -> (r: String)
    ensures
        r@ == join(strings_view(parts@), sep@),
{
    let mut r = String::new();
    let ghost all = strings_view(parts@);
    let mut i: usize = 0;
    while i < parts.len()
        invariant
            all == strings_view(parts@),
            i <= parts@.len(),
            r@ == join(all.take(i as int), sep@),
        decreases parts@.len() - i,
    {
        if i != 0 {
            r.append(sep);
        }
        r.append(parts[i].as_str());
        assert(all.take(i + 1).drop_last() =~= all.take(i as int));
        i = i + 1;
    }
    assert(all.take(parts@.len() as int) =~= all);
    r
}

/// Every `|` preceded by a backslash (`str::replace("|", "\\|")`).
pub open spec fn escape_pipes(s: Seq<char>) -> Seq<char>
    decreases s.len(),
{
    if s.len() == 0 {
        Seq::empty()
    } else {
        escape_pipes(s.drop_last()) + if s.last() == '|' {
            seq!['\\', '|']
        } else {
            seq![s.last()]
        }
    }
}

pub fn escape_pipes_str(s: &str) -> (r: String)
    ensures
        r@ == escape_pipes(s@),
{
    let n = s.unicode_len();
    let mut r = String::new();
    let mut i: usize = 0;
    proof { reveal_strlit("\\|"); }
    while i < n
        invariant
            n == s@.len(),
            i <= n,
            r@ == escape_pipes(s@.take(i as int)),
            "\\|"@ == seq!['\\', '|'],
        decreases n - i,
    {
        let c = s.get_char(i);
        if c == '|' {
            r.append("\\|");
        } else {
            r.append(s.substring_char(i, i + 1));
        }
        assert(s@.take(i + 1).drop_last() =~= s@.take(i as int));
        assert(s@.subrange(i as int, i + 1) =~= seq![c]);
        i = i + 1;
    }
    assert(s@.take(n as int) =~= s@);
    r
}

} // verus!
