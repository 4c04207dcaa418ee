//! The expressions of `WHERE` clauses.
use vstd::prelude::*;

use crate::dataview::query::{decimal_value, digits_end, is_digit, lemma_decimal_grows, lemma_digits_end, ParseError};
use crate::json::{get_key, get_value, Json};
use crate::text::{ascii_lower, chars_of, lemma_skip_ms, skip_ms, skip_multispace};

verus! {

#[derive(Debug, Clone, Copy, PartialEq, Eq, Structural)]
pub enum UnaryOp {
    Not,
}

#[derive(Debug, Clone, Copy, PartialEq, Eq, Structural)]
pub enum BinaryOp {
    And,
    Or,
    Eq,
    Neq,
    Lt,
    Lte,
    Gt,
    Gte,
    Add,
    Sub,
    Mul,
    Div,
}

#[derive(Debug, Clone, PartialEq, Eq)]
pub enum Literal {
    Null,
    Bool(bool),
    Int(i64),
    Float(String),
    Str(String),
}

#[derive(Debug, PartialEq, Eq)]
pub enum Expr {
    Literal(Literal),
    Identifier(String),
    FunctionCall { name: String, args: Vec<Expr> },
    UnaryOp { op: UnaryOp, expr: Box<Expr> },
    BinaryOp { left: Box<Expr>, op: BinaryOp, right: Box<Expr> },
}

pub enum LitView {
    Null,
    Bool(bool),
    Int(i64),
    Float(Seq<char>),
    Str(Seq<char>),
}

pub enum ExprView {
    Literal(LitView),
    Identifier(Seq<char>),
    Call(Seq<char>, Seq<ExprView>),
    Not(Box<ExprView>),
    Binary(Box<ExprView>, BinaryOp, Box<ExprView>),
}

pub open spec fn lit_view(l: Literal) -> LitView {
    match l {
        Literal::Null => LitView::Null,
        Literal::Bool(b) => LitView::Bool(b),
        Literal::Int(n) => LitView::Int(n),
        Literal::Float(t) => LitView::Float(t@),
        Literal::Str(t) => LitView::Str(t@),
    }
}

pub open spec fn expr_view(e: Expr) -> ExprView
    decreases e,
{
    match e {
        Expr::Literal(l) => ExprView::Literal(lit_view(l)),
        Expr::Identifier(i) => ExprView::Identifier(i@),
        Expr::FunctionCall { name, args } => ExprView::Call(name@, args_view(args@)),
        Expr::UnaryOp { op, expr } => ExprView::Not(Box::new(expr_view(*expr))),
        Expr::BinaryOp { left, op, right } => ExprView::Binary(
            Box::new(expr_view(*left)),
            op,
            Box::new(expr_view(*right)),
        ),
    }
}

pub open spec fn args_view(args: Seq<Expr>) -> Seq<ExprView>
    decreases args,
{
    if args.len() == 0 {
        Seq::empty()
    } else {
        args_view(args.drop_last()).push(expr_view(args.last()))
    }
}


#[derive(Debug, PartialEq, Eq)]
pub struct WhereFilter {
    pub expression: Expr,
}

/// Why an expression could not be evaluated.
pub enum ExpressionError {
    NoSuchIdent(String),
    General,
}

// ---------------------------------------------------------------------------
// Character classes
// ---------------------------------------------------------------------------

/// What `char::is_alphabetic` answers (the Unicode `Alphabetic` property).
pub uninterp spec fn unicode_alphabetic(c: char) -> bool;

/// What `char::is_alphanumeric` answers (Unicode `Alphabetic` or `Numeric`).
pub uninterp spec fn unicode_alphanumeric(c: char) -> bool;

/// Calls `char::is_alphabetic`; its answer is named `unicode_alphabetic`.
#[verifier::external_body]
fn is_alphabetic(c: char) -> (r: bool)
    ensures
        r == unicode_alphabetic(c),
{
    c.is_alphabetic()
}

/// Calls `char::is_alphanumeric`; its answer is named `unicode_alphanumeric`.
#[verifier::external_body]
fn is_alphanumeric(c: char) -> (r: bool)
    ensures
        r == unicode_alphanumeric(c),
{
    c.is_alphanumeric()
}

/// The classes of characters that the expression scanner takes runs of.
#[derive(Clone, Copy, PartialEq, Eq, Structural)]
pub enum CharClass {
    /// letters, digits, `_` and `.`
    Ident,
    /// letters
    Alpha,
    /// letters, digits and `_`
    Name,
    /// anything but `"`
    NotQuote,
    /// ASCII digits, `.` and `-`
    Numeric,
}

pub open spec fn in_class(c: char, k: CharClass) -> bool {
    match k {
        CharClass::Ident => unicode_alphanumeric(c) || c == '_' || c == '.',
        CharClass::Alpha => unicode_alphabetic(c),
        CharClass::Name => unicode_alphanumeric(c) || c == '_',
        CharClass::NotQuote => c != '"',
        CharClass::Numeric => is_digit(c) || c == '.' || c == '-',
    }
}

fn char_in_class(c: char, k: CharClass) -> (r: bool)
    ensures
        r == in_class(c, k),
{
    match k {
        CharClass::Ident => is_alphanumeric(c) || c == '_' || c == '.',
        CharClass::Alpha => is_alphabetic(c),
        CharClass::Name => is_alphanumeric(c) || c == '_',
        CharClass::NotQuote => c != '"',
        CharClass::Numeric => ('0' <= c && c <= '9') || c == '.' || c == '-',
    }
}

/// The end of the run of class-`k` characters that starts at `p`.
pub open spec fn class_end(s: Seq<char>, p: int, k: CharClass) -> int
    decreases s.len() - p,
{
    if 0 <= p < s.len() && in_class(s[p], k) {
        class_end(s, p + 1, k)
    } else {
        p
    }
}

pub proof fn lemma_class_end(s: Seq<char>, p: int, k: CharClass)
    requires
        0 <= p <= s.len(),
    ensures
        p <= class_end(s, p, k) <= s.len(),
        forall|i: int| p <= i < class_end(s, p, k) ==> in_class(#[trigger] s[i], k),
        class_end(s, p, k) < s.len() ==> !in_class(s[class_end(s, p, k)], k),
    decreases s.len() - p,
{
    if p < s.len() && in_class(s[p], k) {
        lemma_class_end(s, p + 1, k);
    }
}

fn class_run_end(s: &Vec<char>, p: usize, k: CharClass) -> (e: usize)
    requires
        p <= s@.len(),
    ensures
        e as int == class_end(s@, p as int, k),
        p <= e <= s@.len(),
{
    proof { lemma_class_end(s@, p as int, k); }
    let mut e = p;
    while e < s.len() && char_in_class(s[e], k)
        invariant
            p <= e <= s@.len(),
            class_end(s@, e as int, k) == class_end(s@, p as int, k),
        decreases s@.len() - e,
    {
        e = e + 1;
    }
    e
}

// ---------------------------------------------------------------------------
// Number syntax
// ---------------------------------------------------------------------------

/// What `i64::from_str` accepts: an optional `+` or `-`, then at least one
/// ASCII digit and nothing else, within the range of `i64`.
pub open spec fn spec_parse_i64(t: Seq<char>) -> Option<i64> {
    let signed = t.len() > 0 && (t[0] == '+' || t[0] == '-');
    let start: int = if signed { 1 } else { 0 };
    if t.len() <= start || digits_end(t, start) != t.len() {
        None
    } else {
        let v = decimal_value(t, start, t.len() as int);
        if t[0] == '-' {
            if v > 0x8000_0000_0000_0000 {
                None
            } else {
                Some((0 - v) as i64)
            }
        } else if v > i64::MAX {
            None
        } else {
            Some(v as i64)
        }
    }
}

/// Whether `t` (ASCII-lowercased) spells one of the given word.
pub open spec fn is_word(t: Seq<char>, a: int, w: Seq<char>) -> bool {
    &&& t.len() - a == w.len()
    &&& forall|i: int| 0 <= i < w.len() ==> ascii_lower(#[trigger] t[a + i]) == w[i]
}

/// The exponent part `e[sign]digits` that must run to the end of `t`.
pub open spec fn exponent_ok(t: Seq<char>, q: int) -> bool {
    &&& q < t.len()
    &&& ascii_lower(t[q]) == 'e'
    &&& {
        let d = if q + 1 < t.len() && (t[q + 1] == '+' || t[q + 1] == '-') { q + 2 } else { q + 1 };
        d < t.len() && digits_end(t, d) == t.len()
    }
}

/// The number part of a float: digits with at most one `.`, at least one
/// digit, then an optional exponent.
pub open spec fn number_ok(t: Seq<char>, a: int) -> bool {
    let d1 = digits_end(t, a);
    if d1 < t.len() && t[d1] == '.' {
        let d2 = digits_end(t, d1 + 1);
        (d1 > a || d2 > d1 + 1) && (d2 == t.len() || exponent_ok(t, d2))
    } else {
        d1 > a && (d1 == t.len() || exponent_ok(t, d1))
    }
}

/// What the standard library's binary floating point `from_str` accepts, as its
/// documentation gives the grammar: an optional sign, then `inf`,
/// `infinity`, `nan` or a number, letter case ignored.
pub open spec fn float_syntax(t: Seq<char>) -> bool {
    let a: int = if t.len() > 0 && (t[0] == '+' || t[0] == '-') { 1 } else { 0 };
    ||| is_word(t, a, seq!['i', 'n', 'f'])
    ||| is_word(t, a, seq!['i', 'n', 'f', 'i', 'n', 'i', 't', 'y'])
    ||| is_word(t, a, seq!['n', 'a', 'n'])
    ||| number_ok(t, a)
}

/// The literal that a matched text denotes: an integer if it reads as one,
/// else a float if it reads as one, else `true`, `false`, `null`, else the
/// text itself.
pub open spec fn classify(t: Seq<char>) -> LitView {
    match spec_parse_i64(t) {
        Some(n) => LitView::Int(n),
        None => if float_syntax(t) {
            LitView::Float(t)
        } else if t == seq!['t', 'r', 'u', 'e'] {
            LitView::Bool(true)
        } else if t == seq!['f', 'a', 'l', 's', 'e'] {
            LitView::Bool(false)
        } else if t == seq!['n', 'u', 'l', 'l'] {
            LitView::Null
        } else {
            LitView::Str(t)
        },
    }
}


fn digits_run_end(t: &Vec<char>, q: usize) -> (e: usize)
    requires
        q <= t@.len(),
    ensures
        e as int == digits_end(t@, q as int),
        q <= e <= t@.len(),
{
    proof { lemma_digits_end(t@, q as int); }
    let mut e = q;
    while e < t.len() && '0' <= t[e] && t[e] <= '9'
        invariant
            q <= e <= t@.len(),
            digits_end(t@, e as int) == digits_end(t@, q as int),
        decreases t@.len() - e,
    {
        e = e + 1;
    }
    e
}

fn parse_i64(t: &Vec<char>) -> (r: Option<i64>)
    ensures
        r == spec_parse_i64(t@),
{
    let n = t.len();
    let signed = n > 0 && (t[0] == '+' || t[0] == '-');
    let start: usize = if signed { 1 } else { 0 };
    if n <= start || digits_run_end(t, start) != n {
        return None;
    }
    proof { lemma_digits_end(t@, start as int); }
    let mut v: u64 = 0;
    let mut i = start;
    while i < n
        invariant
            n == t@.len(),
            start as int == (if t@.len() > 0 && (t@[0] == '+' || t@[0] == '-') { 1int } else { 0int }),
            n > start,
            start <= i <= n,
            digits_end(t@, start as int) == n,
            forall|j: int| start <= j < n ==> is_digit(#[trigger] t@[j]),
            v as nat == decimal_value(t@, start as int, i as int),
        decreases n - i,
    {
        assert(is_digit(t@[i as int]));
        let d = ((t[i] as u32) - ('0' as u32)) as u64;
        let ghost next = decimal_value(t@, start as int, i + 1);
        assert(next == decimal_value(t@, start as int, i as int) * 10 + ((t@[i as int] as u32) - ('0' as u32)));
        proof { lemma_decimal_grows(t@, start as int, i + 1, n as int); }
        match v.checked_mul(10) {
            None => {
                assert(next > u64::MAX) by (nonlinear_arith)
                    requires next == v * 10 + d, v * 10 > u64::MAX, d >= 0;
                assert(decimal_value(t@, start as int, n as int) > u64::MAX);
                return None;
            },
            Some(m) => match m.checked_add(d) {
                None => {
                    assert(decimal_value(t@, start as int, n as int) > u64::MAX);
                    return None;
                },
                Some(w) => { v = w; },
            },
        }
        i = i + 1;
    }
    if t[0] == '-' {
        if v > 0x8000_0000_0000_0000 {
            None
        } else if v == 0x8000_0000_0000_0000 {
            Some(i64::MIN)
        } else {
            Some(0 - (v as i64))
        }
    } else if v > 0x7fff_ffff_ffff_ffff {
        None
    } else {
        Some(v as i64)
    }
}

fn is_word_at<const N: usize>(t: &Vec<char>, a: usize, w: &[char; N]) -> (r: bool)
    requires
        a <= t@.len(),
    ensures
        r == is_word(t@, a as int, w@),
{
    if t.len() - a != N {
        return false;
    }
    let mut i: usize = 0;
    while i < N
        invariant
            a + N == t.len(),
            w@.len() == N,
            i <= N,
            forall|j: int| 0 <= j < i ==> ascii_lower(#[trigger] t@[a + j]) == w@[j],
        decreases N - i,
    {
        if crate::text::to_ascii_lower(t[a + i]) != w[i] {
            return false;
        }
        i = i + 1;
    }
    true
}

fn exponent_at(t: &Vec<char>, q: usize) -> (r: bool)
    requires
        q <= t@.len(),
    ensures
        r == exponent_ok(t@, q as int),
{
    if q >= t.len() || crate::text::to_ascii_lower(t[q]) != 'e' {
        return false;
    }
    let d = if q + 1 < t.len() && (t[q + 1] == '+' || t[q + 1] == '-') { q + 2 } else { q + 1 };
    d < t.len() && digits_run_end(t, d) == t.len()
}

fn number_at(t: &Vec<char>, a: usize) -> (r: bool)
    requires
        a <= t@.len(),
    ensures
        r == number_ok(t@, a as int),
{
    let d1 = digits_run_end(t, a);
    if d1 < t.len() && t[d1] == '.' {
        let d2 = digits_run_end(t, d1 + 1);
        (d1 > a || d2 > d1 + 1) && (d2 == t.len() || exponent_at(t, d2))
    } else {
        d1 > a && (d1 == t.len() || exponent_at(t, d1))
    }
}

fn is_float_text(t: &Vec<char>) -> (r: bool)
    ensures
        r == float_syntax(t@),
{
    let a: usize = if t.len() > 0 && (t[0] == '+' || t[0] == '-') { 1 } else { 0 };
    let inf: [char; 3] = ['i', 'n', 'f'];
    let infinity: [char; 8] = ['i', 'n', 'f', 'i', 'n', 'i', 't', 'y'];
    let nan: [char; 3] = ['n', 'a', 'n'];
    assert(inf@ =~= seq!['i', 'n', 'f']);
    assert(infinity@ =~= seq!['i', 'n', 'f', 'i', 'n', 'i', 't', 'y']);
    assert(nan@ =~= seq!['n', 'a', 'n']);
    is_word_at(t, a, &inf) || is_word_at(t, a, &infinity) || is_word_at(t, a, &nan) || number_at(t, a)
}

fn same_chars<const N: usize>(t: &Vec<char>, w: &[char; N]) -> (r: bool)
    ensures
        r == (t@ == w@),
{
    if t.len() != N {
        return false;
    }
    let mut i: usize = 0;
    while i < N
        invariant
            t@.len() == N,
            w@.len() == N,
            i <= N,
            forall|j: int| 0 <= j < i ==> t@[j] == w@[j],
        decreases N - i,
    {
        if t[i] != w[i] {
            return false;
        }
        i = i + 1;
    }
    assert(t@ =~= w@);
    true
}

/// The literal that the text `txt` denotes.
fn classify_text(txt: &str) -> (r: Literal)
    ensures
        lit_view(r) == classify(txt@),
{
    let t = chars_of(txt);
    match parse_i64(&t) {
        Some(n) => Literal::Int(n),
        None => {
            let tr: [char; 4] = ['t', 'r', 'u', 'e'];
            let fa: [char; 5] = ['f', 'a', 'l', 's', 'e'];
            let nu: [char; 4] = ['n', 'u', 'l', 'l'];
            assert(tr@ =~= seq!['t', 'r', 'u', 'e']);
            assert(fa@ =~= seq!['f', 'a', 'l', 's', 'e']);
            assert(nu@ =~= seq!['n', 'u', 'l', 'l']);
            if is_float_text(&t) {
                Literal::Float(String::from_str(txt))
            } else if same_chars(&t, &tr) {
                Literal::Bool(true)
            } else if same_chars(&t, &fa) {
                Literal::Bool(false)
            } else if same_chars(&t, &nu) {
                Literal::Null
            } else {
                Literal::Str(String::from_str(txt))
            }
        },
    }
}


// ---------------------------------------------------------------------------
// The expression grammar
// ---------------------------------------------------------------------------

/// `w` stands exactly at `p`.
pub open spec fn tag_at(s: Seq<char>, p: int, w: Seq<char>) -> bool {
    0 <= p && p + w.len() <= s.len() && s.subrange(p, p + w.len()) == w
}

pub open spec fn spec_literal(s: Seq<char>, p: int) -> Option<(int, LitView)> {
    let qe = class_end(s, p + 1, CharClass::NotQuote);
    let ne = class_end(s, p, CharClass::Numeric);
    if 0 <= p < s.len() && s[p] == '"' && qe > p + 1 && qe < s.len() {
        Some((qe + 1, classify(s.subrange(p + 1, qe))))
    } else if 0 <= p && ne > p {
        Some((ne, classify(s.subrange(p, ne))))
    } else if tag_at(s, p, seq!['t', 'r', 'u', 'e']) {
        Some((p + 4, classify(seq!['t', 'r', 'u', 'e'])))
    } else if tag_at(s, p, seq!['f', 'a', 'l', 's', 'e']) {
        Some((p + 5, classify(seq!['f', 'a', 'l', 's', 'e'])))
    } else if tag_at(s, p, seq!['n', 'u', 'l', 'l']) {
        Some((p + 4, classify(seq!['n', 'u', 'l', 'l'])))
    } else {
        None
    }
}

pub open spec fn spec_ident(s: Seq<char>, p: int) -> Option<(int, ExprView)> {
    let e = class_end(s, p, CharClass::Ident);
    if 0 <= p && e > p {
        Some((e, ExprView::Identifier(s.subrange(p, e))))
    } else {
        None
    }
}

/// An operator, after optional multispace; the operators are tried in this
/// order, so `<=` is read before `<`.
pub open spec fn spec_binop(s: Seq<char>, p: int) -> Option<(int, BinaryOp)> {
    let q = skip_ms(s, p);
    if tag_at(s, q, seq!['A', 'N', 'D']) {
        Some((q + 3, BinaryOp::And))
    } else if tag_at(s, q, seq!['O', 'R']) {
        Some((q + 2, BinaryOp::Or))
    } else if tag_at(s, q, seq!['<', '=']) {
        Some((q + 2, BinaryOp::Lte))
    } else if tag_at(s, q, seq!['>', '=']) {
        Some((q + 2, BinaryOp::Gte))
    } else if tag_at(s, q, seq!['!', '=']) {
        Some((q + 2, BinaryOp::Neq))
    } else if tag_at(s, q, seq!['=']) {
        Some((q + 1, BinaryOp::Eq))
    } else if tag_at(s, q, seq!['<']) {
        Some((q + 1, BinaryOp::Lt))
    } else if tag_at(s, q, seq!['>']) {
        Some((q + 1, BinaryOp::Gt))
    } else if tag_at(s, q, seq!['+']) {
        Some((q + 1, BinaryOp::Add))
    } else if tag_at(s, q, seq!['-']) {
        Some((q + 1, BinaryOp::Sub))
    } else if tag_at(s, q, seq!['*']) {
        Some((q + 1, BinaryOp::Mul))
    } else if tag_at(s, q, seq!['/']) {
        Some((q + 1, BinaryOp::Div))
    } else {
        None
    }
}

/// A primary: `!primary`, a function call, a literal, an identifier or a
/// parenthesized expression, after optional multispace; tried in that order.
pub open spec fn spec_primary(s: Seq<char>, p: int) -> Option<(int, ExprView)>
    decreases s.len() - p, 2int,
{
    if p < 0 || p > s.len() {
        None
    } else {
        proof { lemma_skip_ms(s, p); }
        let q = skip_ms(s, p);
        let bang = if q < s.len() && s[q] == '!' {
            match spec_primary(s, q + 1) {
                Some((e, x)) => Some((e, ExprView::Not(Box::new(x)))),
                None => None,
            }
        } else {
            None
        };
        if bang is Some {
            bang
        } else {
            match spec_call(s, q) {
                Some(r) => Some(r),
                None => match spec_literal(s, q) {
                    Some((e, l)) => Some((e, ExprView::Literal(l))),
                    None => match spec_ident(s, q) {
                        Some(r) => Some(r),
                        None => if q < s.len() && s[q] == '(' {
                            match spec_expr(s, q + 1) {
                                Some((e, x)) => if 0 <= e < s.len() && s[e] == ')' {
                                    Some((e + 1, x))
                                } else {
                                    None
                                },
                                None => None,
                            }
                        } else {
                            None
                        },
                    },
                },
            }
        }
    }
}

/// `name(args)`: a letter followed by letters, digits or `_`, then `(`, a
/// comma-separated list of expressions (possibly empty), `)`.
pub open spec fn spec_call(s: Seq<char>, q: int) -> Option<(int, ExprView)>
    decreases s.len() - q, 0int,
{
    if q < 0 || q >= s.len() || !unicode_alphabetic(s[q]) {
        None
    } else {
        proof { lemma_class_end(s, q + 1, CharClass::Name); }
        let e = class_end(s, q + 1, CharClass::Name);
        if !(e < s.len() && s[e] == '(') {
            None
        } else {
            match spec_args(s, e + 1) {
                None => None,
                Some((a, args)) => if 0 <= a < s.len() && s[a] == ')' {
                    Some((a + 1, ExprView::Call(s.subrange(q, e), args)))
                } else {
                    None
                },
            }
        }
    }
}

/// The arguments of a call: none, or expressions separated by commas with
/// optional multispace around them.
pub open spec fn spec_args(s: Seq<char>, p: int) -> Option<(int, Seq<ExprView>)>
    decreases s.len() - p, 10int,
{
    if p < 0 || p > s.len() {
        None
    } else {
        match spec_expr(s, p) {
            None => Some((p, Seq::empty())),
            Some((q, x)) => if p < q <= s.len() {
                spec_args_more(s, q, seq![x])
            } else {
                None
            },
        }
    }
}

pub open spec fn spec_args_more(s: Seq<char>, q: int, acc: Seq<ExprView>) -> Option<(int, Seq<ExprView>)>
    decreases s.len() - q, 11int,
{
    if q < 0 || q > s.len() {
        None
    } else {
        proof { lemma_skip_ms(s, q); }
        let a = skip_ms(s, q);
        if a < s.len() && s[a] == ',' {
            proof { lemma_skip_ms(s, a + 1); }
            let b = skip_ms(s, a + 1);
            match spec_expr(s, b) {
                None => Some((q, acc)),
                Some((c, x)) => if b < c <= s.len() {
                    spec_args_more(s, c, acc.push(x))
                } else {
                    None
                },
            }
        } else {
            Some((q, acc))
        }
    }
}

/// How tightly an operator binds: `OR` loosest, then `AND`, then the
/// comparisons, then `+` and `-`, then `*` and `/`.
pub open spec fn op_level(op: BinaryOp) -> nat {
    match op {
        BinaryOp::Or => 0,
        BinaryOp::And => 1,
        BinaryOp::Eq | BinaryOp::Neq | BinaryOp::Lt | BinaryOp::Lte | BinaryOp::Gt | BinaryOp::Gte => 2,
        BinaryOp::Add | BinaryOp::Sub => 3,
        BinaryOp::Mul | BinaryOp::Div => 4,
    }
}

/// The level at which an operand is a primary.
pub open spec fn primary_level() -> nat {
    5
}

/// The operator at `p`, where it binds at level `lvl`.
pub open spec fn binop_of_level(s: Seq<char>, p: int, lvl: nat) -> Option<(int, BinaryOp)> {
    match spec_binop(s, p) {
        Some((e, op)) => if op_level(op) == lvl {
            Some((e, op))
        } else {
            None
        },
        None => None,
    }
}

pub open spec fn level_rank(lvl: nat) -> int {
    if lvl >= primary_level() {
        3
    } else {
        8 - lvl
    }
}

/// An expression: a comparison (an operand of the comparison level, whose
/// operators bind tighter than `AND`), then either `OR` and a whole
/// expression as its right side, or any number of `AND comparison`
/// grouped to the left. An `AND` chain is not continued by `OR`; what
/// follows it is left unread. An operator whose operand is missing makes
/// the whole expression fail.
pub open spec fn spec_expr(s: Seq<char>, p: int) -> Option<(int, ExprView)>
    decreases s.len() - p, 9int,
{
    if p < 0 || p > s.len() {
        None
    } else {
        match spec_level(s, p, 2) {
            None => None,
            Some((q, l)) => if p < q <= s.len() {
                match binop_of_level(s, q, 0) {
                    Some((q1, op)) => if q < q1 <= s.len() {
                        match spec_expr(s, q1) {
                            None => None,
                            Some((q2, r)) => if q1 < q2 <= s.len() {
                                Some((q2, ExprView::Binary(Box::new(l), op, Box::new(r))))
                            } else {
                                None
                            },
                        }
                    } else {
                        None
                    },
                    None => spec_chain(s, q, l, 1),
                }
            } else {
                None
            },
        }
    }
}

/// An expression whose operators bind at level `lvl` or tighter.
pub open spec fn spec_level(s: Seq<char>, p: int, lvl: nat) -> Option<(int, ExprView)>
    decreases s.len() - p, level_rank(lvl),
{
    if p < 0 || p > s.len() {
        None
    } else if lvl >= primary_level() {
        spec_primary(s, p)
    } else {
        match spec_level(s, p, lvl + 1) {
            None => None,
            Some((q, l)) => if p < q <= s.len() {
                spec_chain(s, q, l, lvl)
            } else {
                None
            },
        }
    }
}

/// After an operand ending at `q`: further `operator operand` pairs of
/// level `lvl`, grouped to the left onto `node`.
pub open spec fn spec_chain(s: Seq<char>, q: int, node: ExprView, lvl: nat) -> Option<(int, ExprView)>
    decreases s.len() - q, 1int,
{
    if q < 0 || q > s.len() || lvl >= primary_level() {
        None
    } else {
        match binop_of_level(s, q, lvl) {
            None => Some((q, node)),
            Some((q1, op)) => if q < q1 <= s.len() {
                match spec_level(s, q1, lvl + 1) {
                    None => None,
                    Some((q2, r)) => if q1 < q2 <= s.len() {
                        spec_chain(s, q2, ExprView::Binary(Box::new(node), op, Box::new(r)), lvl)
                    } else {
                        None
                    },
                }
            } else {
                None
            },
        }
    }
}


// ---------------------------------------------------------------------------
// Executable expression parser
// ---------------------------------------------------------------------------

fn exact_at<const N: usize>(s: &Vec<char>, p: usize, w: &[char; N]) -> (r: bool)
    ensures
        r == tag_at(s@, p as int, w@),
        r ==> p + N <= s.len(),
        w@.len() == N,
{
    if p > s.len() || N > s.len() - p {
        return false;
    }
    let mut i: usize = 0;
    while i < N
        invariant
            p + N <= s.len(),
            w@.len() == N,
            i <= N,
            forall|j: int| 0 <= j < i ==> s@[p + j] == w@[j],
        decreases N - i,
    {
        if s[p + i] != w[i] {
            assert(s@.subrange(p as int, p + N)[i as int] != w@[i as int]);
            return false;
        }
        i = i + 1;
    }
    assert(s@.subrange(p as int, p + N) =~= w@);
    true
}

fn binop_at(s: &Vec<char>, p: usize) -> (r: Option<(usize, BinaryOp)>)
    requires
        p <= s@.len(),
    ensures
        match r {
            Some((e, op)) => spec_binop(s@, p as int) == Some((e as int, op)) && p < e <= s@.len(),
            None => spec_binop(s@, p as int) is None,
        },
{
    let q = skip_multispace(s, p);
    let w0: [char; 3] = ['A', 'N', 'D'];
    assert(w0@ =~= seq!['A', 'N', 'D']);
    if exact_at(s, q, &w0) {
        return Some((q + 3, BinaryOp::And));
    }
    let w1: [char; 2] = ['O', 'R'];
    assert(w1@ =~= seq!['O', 'R']);
    if exact_at(s, q, &w1) {
        return Some((q + 2, BinaryOp::Or));
    }
    let w2: [char; 2] = ['<', '='];
    assert(w2@ =~= seq!['<', '=']);
    if exact_at(s, q, &w2) {
        return Some((q + 2, BinaryOp::Lte));
    }
    let w3: [char; 2] = ['>', '='];
    assert(w3@ =~= seq!['>', '=']);
    if exact_at(s, q, &w3) {
        return Some((q + 2, BinaryOp::Gte));
    }
    let w4: [char; 2] = ['!', '='];
    assert(w4@ =~= seq!['!', '=']);
    if exact_at(s, q, &w4) {
        return Some((q + 2, BinaryOp::Neq));
    }
    let w5: [char; 1] = ['='];
    assert(w5@ =~= seq!['=']);
    if exact_at(s, q, &w5) {
        return Some((q + 1, BinaryOp::Eq));
    }
    let w6: [char; 1] = ['<'];
    assert(w6@ =~= seq!['<']);
    if exact_at(s, q, &w6) {
        return Some((q + 1, BinaryOp::Lt));
    }
    let w7: [char; 1] = ['>'];
    assert(w7@ =~= seq!['>']);
    if exact_at(s, q, &w7) {
        return Some((q + 1, BinaryOp::Gt));
    }
    let w8: [char; 1] = ['+'];
    assert(w8@ =~= seq!['+']);
    if exact_at(s, q, &w8) {
        return Some((q + 1, BinaryOp::Add));
    }
    let w9: [char; 1] = ['-'];
    assert(w9@ =~= seq!['-']);
    if exact_at(s, q, &w9) {
        return Some((q + 1, BinaryOp::Sub));
    }
    let w10: [char; 1] = ['*'];
    assert(w10@ =~= seq!['*']);
    if exact_at(s, q, &w10) {
        return Some((q + 1, BinaryOp::Mul));
    }
    let w11: [char; 1] = ['/'];
    assert(w11@ =~= seq!['/']);
    if exact_at(s, q, &w11) {
        return Some((q + 1, BinaryOp::Div));
    }
    None
}

fn literal_at(input: &str, s: &Vec<char>, p: usize) -> (r: Option<(usize, Literal)>)
    requires
        s@ == input@,
        p <= s@.len(),
    ensures
        match r {
            Some((e, l)) => spec_literal(s@, p as int) == Some((e as int, lit_view(l))) && p < e <= s@.len(),
            None => spec_literal(s@, p as int) is None,
        },
{
    if p < s.len() && s[p] == '"' {
        let qe = class_run_end(s, p + 1, CharClass::NotQuote);
        if qe > p + 1 && qe < s.len() {
            let lit = classify_text(input.substring_char(p + 1, qe));
            return Some((qe + 1, lit));
        }
    }
    let ne = class_run_end(s, p, CharClass::Numeric);
    if ne > p {
        let lit = classify_text(input.substring_char(p, ne));
        return Some((ne, lit));
    }
    let tr: [char; 4] = ['t', 'r', 'u', 'e'];
    let fa: [char; 5] = ['f', 'a', 'l', 's', 'e'];
    let nu: [char; 4] = ['n', 'u', 'l', 'l'];
    assert(tr@ =~= seq!['t', 'r', 'u', 'e']);
    assert(fa@ =~= seq!['f', 'a', 'l', 's', 'e']);
    assert(nu@ =~= seq!['n', 'u', 'l', 'l']);
    if exact_at(s, p, &tr) {
        assert(s@.subrange(p as int, p + 4) == tr@);
        let lit = classify_text(input.substring_char(p, p + 4));
        Some((p + 4, lit))
    } else if exact_at(s, p, &fa) {
        assert(s@.subrange(p as int, p + 5) == fa@);
        let lit = classify_text(input.substring_char(p, p + 5));
        Some((p + 5, lit))
    } else if exact_at(s, p, &nu) {
        assert(s@.subrange(p as int, p + 4) == nu@);
        let lit = classify_text(input.substring_char(p, p + 4));
        Some((p + 4, lit))
    } else {
        None
    }
}

fn ident_at(input: &str, s: &Vec<char>, p: usize) -> (r: Option<(usize, Expr)>)
    requires
        s@ == input@,
        p <= s@.len(),
    ensures
        match r {
            Some((e, x)) => spec_ident(s@, p as int) == Some((e as int, expr_view(x))) && p < e <= s@.len(),
            None => spec_ident(s@, p as int) is None,
        },
{
    let e = class_run_end(s, p, CharClass::Ident);
    if e > p {
        Some((e, Expr::Identifier(String::from_str(input.substring_char(p, e)))))
    } else {
        None
    }
}

fn primary_at(input: &str, s: &Vec<char>, p: usize) -> (r: Option<(usize, Expr)>)
    requires
        s@ == input@,
        p <= s@.len(),
    ensures
        match r {
            Some((e, x)) => spec_primary(s@, p as int) == Some((e as int, expr_view(x))),
            None => spec_primary(s@, p as int) is None,
        },
        r matches Some((e, _)) ==> p < e <= s@.len(),
    decreases s@.len() - p, 2int,
{
    proof { lemma_skip_ms(s@, p as int); }
    let q = skip_multispace(s, p);
    if q < s.len() && s[q] == '!' {
        match primary_at(input, s, q + 1) {
            Some((e, x)) => {
                return Some((e, Expr::UnaryOp { op: UnaryOp::Not, expr: Box::new(x) }));
            },
            None => {},
        }
    }
    match call_at(input, s, q) {
        Some(r) => return Some(r),
        None => {},
    }
    match literal_at(input, s, q) {
        Some((e, l)) => return Some((e, Expr::Literal(l))),
        None => {},
    }
    match ident_at(input, s, q) {
        Some(r) => return Some(r),
        None => {},
    }
    if q < s.len() && s[q] == '(' {
        match expr_at(input, s, q + 1) {
            Some((e, x)) => {
                if e < s.len() && s[e] == ')' {
                    return Some((e + 1, x));
                }
            },
            None => {},
        }
    }
    None
}

fn call_at(input: &str, s: &Vec<char>, q: usize) -> (r: Option<(usize, Expr)>)
    requires
        s@ == input@,
        q <= s@.len(),
    ensures
        match r {
            Some((e, x)) => spec_call(s@, q as int) == Some((e as int, expr_view(x))),
            None => spec_call(s@, q as int) is None,
        },
        r matches Some((e, _)) ==> q < e <= s@.len(),
    decreases s@.len() - q, 0int,
{
    if q >= s.len() || !is_alphabetic(s[q]) {
        return None;
    }
    let e = class_run_end(s, q + 1, CharClass::Name);
    if !(e < s.len() && s[e] == '(') {
        return None;
    }
    match args_at(input, s, e + 1) {
        None => None,
        Some((a, args)) => {
            if a < s.len() && s[a] == ')' {
                let name = String::from_str(input.substring_char(q, e));
                Some((a + 1, Expr::FunctionCall { name, args }))
            } else {
                None
            }
        },
    }
}

fn args_at(input: &str, s: &Vec<char>, p: usize) -> (r: Option<(usize, Vec<Expr>)>)
    requires
        s@ == input@,
        p <= s@.len(),
    ensures
        match r {
            Some((e, xs)) => spec_args(s@, p as int) == Some((e as int, args_view(xs@))),
            None => spec_args(s@, p as int) is None,
        },
        r matches Some((e, _)) ==> p <= e <= s@.len(),
    decreases s@.len() - p, 10int,
{
    let mut args: Vec<Expr> = Vec::new();
    let mut q = match expr_at(input, s, p) {
        None => {
            assert(args_view(args@) =~= Seq::<ExprView>::empty());
            return Some((p, args));
        },
        Some((q, x)) => {
            let ghost xv = expr_view(x);
            args.push(x);
            assert(args@.drop_last() =~= Seq::<Expr>::empty());
            assert(args_view(args@.drop_last()) =~= Seq::<ExprView>::empty());
            assert(args_view(args@) =~= seq![xv]);
            q
        },
    };
    loop
        invariant
            s@ == input@,
            p < q <= s@.len(),
            spec_args(s@, p as int) == spec_args_more(s@, q as int, args_view(args@)),
        decreases s@.len() - q,
    {
        proof { lemma_skip_ms(s@, q as int); }
        let a = skip_multispace(s, q);
        if !(a < s.len() && s[a] == ',') {
            return Some((q, args));
        }
        proof { lemma_skip_ms(s@, a + 1); }
        let b = skip_multispace(s, a + 1);
        match expr_at(input, s, b) {
            None => return Some((q, args)),
            Some((c, x)) => {
                let ghost before = args@;
                args.push(x);
                assert(args@.drop_last() =~= before);
                assert(args_view(args@) =~= args_view(before).push(expr_view(x)));
                q = c;
            },
        }
    }
}

fn expr_at(input: &str, s: &Vec<char>, p: usize) -> (r: Option<(usize, Expr)>)
    requires
        s@ == input@,
        p <= s@.len(),
    ensures
        match r {
            Some((e, x)) => spec_expr(s@, p as int) == Some((e as int, expr_view(x))),
            None => spec_expr(s@, p as int) is None,
        },
        r matches Some((e, _)) ==> p < e <= s@.len(),
    decreases s@.len() - p, 9int,
{
    let (mut q, mut node) = match level_at(input, s, p, 2) {
        None => return None,
        Some(x) => x,
    };
    match binop_at(s, q) {
        Some((q1, op)) => {
            if level_of(op) == 0 {
                return match expr_at(input, s, q1) {
                    None => None,
                    Some((q2, r)) => Some((q2, Expr::BinaryOp { left: Box::new(node), op, right: Box::new(r) })),
                };
            }
        },
        None => {},
    }
    loop
        invariant
            s@ == input@,
            p < q <= s@.len(),
            spec_expr(s@, p as int) == spec_chain(s@, q as int, expr_view(node), 1),
        decreases s@.len() - q,
    {
        match binop_at(s, q) {
            None => return Some((q, node)),
            Some((q1, op)) => {
                if level_of(op) != 1 {
                    return Some((q, node));
                }
                match level_at(input, s, q1, 2) {
                    None => return None,
                    Some((q2, r)) => {
                        node = Expr::BinaryOp { left: Box::new(node), op, right: Box::new(r) };
                        q = q2;
                    },
                }
            },
        }
    }
}

/// The level at which an operator binds.
fn level_of(op: BinaryOp) -> (r: u8)
    ensures
        r as nat == op_level(op),
{
    match op {
        BinaryOp::Or => 0,
        BinaryOp::And => 1,
        BinaryOp::Eq | BinaryOp::Neq | BinaryOp::Lt | BinaryOp::Lte | BinaryOp::Gt | BinaryOp::Gte => 2,
        BinaryOp::Add | BinaryOp::Sub => 3,
        BinaryOp::Mul | BinaryOp::Div => 4,
    }
}

fn level_at(input: &str, s: &Vec<char>, p: usize, lvl: u8) -> (r: Option<(usize, Expr)>)
    requires
        s@ == input@,
        p <= s@.len(),
        lvl <= 5,
    ensures
        match r {
            Some((e, x)) => spec_level(s@, p as int, lvl as nat) == Some((e as int, expr_view(x))),
            None => spec_level(s@, p as int, lvl as nat) is None,
        },
        r matches Some((e, _)) ==> p < e <= s@.len(),
    decreases s@.len() - p, level_rank(lvl as nat),
{
    if lvl >= 5 {
        return primary_at(input, s, p);
    }
    let (mut q, mut node) = match level_at(input, s, p, lvl + 1) {
        None => return None,
        Some(x) => x,
    };
    loop
        invariant
            s@ == input@,
            lvl < 5,
            p < q <= s@.len(),
            spec_level(s@, p as int, lvl as nat) == spec_chain(s@, q as int, expr_view(node), lvl as nat),
        decreases s@.len() - q,
    {
        match binop_at(s, q) {
            None => return Some((q, node)),
            Some((q1, op)) => {
                if level_of(op) != lvl {
                    return Some((q, node));
                }
                match level_at(input, s, q1, lvl + 1) {
                    None => return None,
                    Some((q2, r)) => {
                        node = Expr::BinaryOp { left: Box::new(node), op, right: Box::new(r) };
                        q = q2;
                    },
                }
            },
        }
    }
}

impl WhereFilter {
    pub fn new(expr: Expr) -> (r: WhereFilter)
        ensures
            r.expression == expr,
    {
        WhereFilter { expression: expr }
    }

    /// An expression at the start of the input; what follows it is handed
    /// back unread.
    pub fn parse(input: &str) -> (r: Result<(&str, WhereFilter), ParseError>)
        ensures
            match spec_expr(input@, 0) {
                Some((e, x)) => r matches Ok((rest, f)) && rest@ == input@.skip(e)
                    && expr_view(f.expression) == x,
                None => r matches Err(ParseError::Error),
            },
    {
        let s = chars_of(input);
        match expr_at(input, &s, 0) {
            Some((e, x)) => Ok((input.substring_char(e, s.len()), WhereFilter { expression: x })),
            None => Err(ParseError::Error),
        }
    }
}


/// The value that an identifier names in a document: the entry under that
/// name, where the document is an object that has one.
pub fn get_ident(ident: &str, document: &Json) -> (r: Option<Json>)
    ensures
        match r {
            Some(v) => get_key(document@, ident@) == Some(v@),
            None => get_key(document@, ident@) is None,
        },
{
    get_value(document, ident)
}


proof fn lemma_chain_ends(s: Seq<char>, q: int, node: ExprView, lvl: nat)
    requires
        spec_binop(s, q) matches Some((_, op)) ==> op_level(op) <= lvl,
    ensures
        spec_chain(s, q, node, lvl) matches Some((e, _)) ==> (spec_binop(s, e) matches Some((_, op))
            ==> op_level(op) < lvl),
    decreases s.len() - q, 0int,
{
    if 0 <= q <= s.len() && lvl < primary_level() {
        match binop_of_level(s, q, lvl) {
            None => {},
            Some((q1, op)) => {
                if q < q1 <= s.len() {
                    lemma_level_ends(s, q1, lvl + 1);
                    match spec_level(s, q1, lvl + 1) {
                        None => {},
                        Some((q2, r)) => {
                            if q1 < q2 <= s.len() {
                                lemma_chain_ends(
                                    s,
                                    q2,
                                    ExprView::Binary(Box::new(node), op, Box::new(r)),
                                    lvl,
                                );
                            }
                        },
                    }
                }
            },
        }
    }
}

proof fn lemma_level_ends(s: Seq<char>, p: int, lvl: nat)
    ensures
        spec_level(s, p, lvl) matches Some((e, _)) ==> (spec_binop(s, e) matches Some((_, op))
            ==> op_level(op) < lvl),
    decreases s.len() - p, level_rank(lvl),
{
    if 0 <= p <= s.len() && lvl < primary_level() {
        lemma_level_ends(s, p, lvl + 1);
        match spec_level(s, p, lvl + 1) {
            None => {},
            Some((q, l)) => {
                if p < q <= s.len() {
                    lemma_chain_ends(s, q, l, lvl);
                }
            },
        }
    }
}

/// An expression reads every operator that follows it but an `OR` after an
/// `AND` chain: where it ends, either no operator (after optional
/// whitespace) is left, or an `OR`.
pub proof fn lemma_no_operator_after_expression(s: Seq<char>, p: int)
    ensures
        spec_expr(s, p) matches Some((e, _)) ==> (spec_binop(s, e) is None || spec_binop(s, e) matches Some(
            (_, BinaryOp::Or),
        )),
    decreases s.len() - p,
{
    if 0 <= p <= s.len() {
        lemma_level_ends(s, p, 2);
        match spec_level(s, p, 2) {
            None => {},
            Some((q, l)) => {
                if p < q <= s.len() {
                    match binop_of_level(s, q, 0) {
                        Some((q1, op)) => {
                            if q < q1 <= s.len() {
                                lemma_no_operator_after_expression(s, q1);
                            }
                        },
                        None => {
                            lemma_chain_ends(s, q, l, 1);
                        },
                    }
                }
            },
        }
    }
}


/// The text of each operator.
pub open spec fn op_token(op: BinaryOp) -> Seq<char> {
    match op {
        BinaryOp::And => seq!['A', 'N', 'D'],
        BinaryOp::Or => seq!['O', 'R'],
        BinaryOp::Eq => seq!['='],
        BinaryOp::Neq => seq!['!', '='],
        BinaryOp::Lt => seq!['<'],
        BinaryOp::Lte => seq!['<', '='],
        BinaryOp::Gt => seq!['>'],
        BinaryOp::Gte => seq!['>', '='],
        BinaryOp::Add => seq!['+'],
        BinaryOp::Sub => seq!['-'],
        BinaryOp::Mul => seq!['*'],
        BinaryOp::Div => seq!['/'],
    }
}

/// An operator is read from its own text: what stands between the
/// whitespace and the end of the operator is that operator's token, and
/// distinct operators have distinct tokens.
pub proof fn lemma_operator_tokens(s: Seq<char>, p: int)
    ensures
        spec_binop(s, p) matches Some((e, op)) ==> (skip_ms(s, p) + op_token(op).len() == e && s.subrange(
            skip_ms(s, p),
            e,
        ) == op_token(op)),
        forall|a: BinaryOp, b: BinaryOp| #[trigger] op_token(a) == #[trigger] op_token(b) ==> a == b,
{
    assert forall|a: BinaryOp, b: BinaryOp| #[trigger] op_token(a) == #[trigger] op_token(b) implies a == b by {
        if a != b {
            let ta = op_token(a);
            let tb = op_token(b);
            if ta.len() == tb.len() {
                assert(ta[0] != tb[0] || (ta.len() > 1 && ta[1] != tb[1]));
            }
        }
    }
}

} // verus!
