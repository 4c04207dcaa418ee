//! The pieces of rewriting a document whose `dataview` code blocks are
//! replaced by their rendered results: which code blocks are queries, and
//! how the frontmatter is set apart and put back.
use vstd::prelude::*;

use crate::text::{chars_of, strings_view, trim_bounds, trimmed};

verus! {

pub open spec fn kw_dataview() -> Seq<char> {
    seq!['d', 'a', 't', 'a', 'v', 'i', 'e', 'w']
}

/// A code block is a query when its info string, trimmed, starts with
/// `dataview`.
pub open spec fn is_query_info(info: Seq<char>) -> bool {
    let t = trimmed(info, 0, info.len() as int);
    t.len() >= 8 && t.take(8) == kw_dataview()
}

/// Whether a code block with this info string holds a dataview query.
pub fn is_dataview_block(info: &str) -> (r: bool)
    ensures
        r == is_query_info(info@),
{
    let s = chars_of(info);
    let (a, b) = trim_bounds(&s, 0, s.len());
    let kw: [char; 8] = ['d', 'a', 't', 'a', 'v', 'i', 'e', 'w'];
    assert(kw@ =~= kw_dataview());
    let ghost t = trimmed(info@, 0, info@.len() as int);
    assert(t =~= s@.subrange(a as int, b as int));
    if b - a < 8 {
        return false;
    }
    let mut i: usize = 0;
    while i < 8
        invariant
            a + 8 <= b <= s@.len(),
            t == s@.subrange(a as int, b as int),
            t == trimmed(info@, 0, info@.len() as int),
            kw@ == kw_dataview(),
            i <= 8,
            forall|j: int| 0 <= j < i ==> #[trigger] t[j] == kw_dataview()[j],
        decreases 8 - i,
    {
        if s[a + i] != kw[i] {
            assert(t.take(8)[i as int] != kw_dataview()[i as int]);
            return false;
        }
        i = i + 1;
    }
    assert(t.take(8) =~= kw_dataview());
    true
}

// ---------------------------------------------------------------------------
// Frontmatter
// ---------------------------------------------------------------------------

pub open spec fn fence() -> Seq<char> {
    seq!['-', '-', '-']
}

/// A line that is exactly `---` starts at position `k`.
pub open spec fn fence_line_at(md: Seq<char>, k: int) -> bool {
    &&& 0 <= k
    &&& k + 3 <= md.len()
    &&& (k == 0 || md[k - 1] == '\n')
    &&& md.subrange(k, k + 3) == fence()
    &&& (k + 3 == md.len() || md[k + 3] == '\n')
}

/// The first position at or after `k` where a `---` line starts, or -1.
pub open spec fn next_fence_line(md: Seq<char>, k: int) -> int
    decreases md.len() - k,
{
    if k < 0 || k >= md.len() {
        -1
    } else if fence_line_at(md, k) {
        k
    } else {
        next_fence_line(md, k + 1)
    }
}

/// A document that opens with a `---` line and has a later `---` line
/// splits into its frontmatter (the lines between, without the last line
/// break) and its body (what follows the closing line).
pub open spec fn frontmatter_split(md: Seq<char>) -> Option<(Seq<char>, Seq<char>)> {
    if md.len() < 4 || md.take(4) != fence().push('\n') {
        None
    } else {
        let k = next_fence_line(md, 4);
        if k < 0 {
            None
        } else {
            let fm = if k == 4 {
                Seq::empty()
            } else {
                md.subrange(4, k - 1)
            };
            let body = if k + 3 == md.len() {
                Seq::empty()
            } else {
                md.skip(k + 4)
            };
            Some((fm, body))
        }
    }
}

proof fn lemma_next_fence(md: Seq<char>, k: int)
    requires
        0 <= k,
    ensures
        next_fence_line(md, k) == -1 || (k <= next_fence_line(md, k) && fence_line_at(md, next_fence_line(md, k))),
    decreases md.len() - k,
{
    if k < md.len() && !fence_line_at(md, k) {
        lemma_next_fence(md, k + 1);
    }
}

fn fence_line(s: &Vec<char>, k: usize) -> (r: bool)
    requires
        k < s@.len(),
    ensures
        r == fence_line_at(s@, k as int),
{
    if s.len() - k < 3 {
        return false;
    }
    if k != 0 && s[k - 1] != '\n' {
        return false;
    }
    if !(s[k] == '-' && s[k + 1] == '-' && s[k + 2] == '-') {
        assert(s@.subrange(k as int, k + 3) != fence()) by {
            let t = s@.subrange(k as int, k + 3);
            assert(t[0] == s@[k as int] && t[1] == s@[k + 1] && t[2] == s@[k + 2]);
        }
        return false;
    }
    assert(s@.subrange(k as int, k + 3) =~= fence());
    k + 3 == s.len() || s[k + 3] == '\n'
}

/// Sets the frontmatter of a document apart from its body.
pub fn split_frontmatter(md: &str) -> (r: Option<(String, String)>)
    ensures
        match r {
            Some((fm, body)) => frontmatter_split(md@) == Some((fm@, body@)),
            None => frontmatter_split(md@) is None,
        },
{
    let s = chars_of(md);
    let n = s.len();
    if n < 4 || !(s[0] == '-' && s[1] == '-' && s[2] == '-' && s[3] == '\n') {
        proof {
            if n >= 4 && md@.take(4) == fence().push('\n') {
                assert(md@.take(4)[0] == '-' && md@.take(4)[1] == '-' && md@.take(4)[2] == '-'
                    && md@.take(4)[3] == '\n');
            }
        }
        return None;
    }
    assert(md@.take(4) =~= fence().push('\n'));
    let mut k: usize = 4;
    while k < n && !fence_line(&s, k)
        invariant
            s@ == md@,
            n == s@.len(),
            4 <= k <= n,
            next_fence_line(md@, 4) == next_fence_line(md@, k as int),
        decreases n - k,
    {
        k = k + 1;
    }
    if k >= n {
        return None;
    }
    proof { lemma_next_fence(md@, 4); }
    let fm = if k == 4 {
        String::new()
    } else {
        md.substring_char(4, k - 1).to_string()
    };
    let body = if k + 3 == n {
        String::new()
    } else {
        md.substring_char(k + 4, n).to_string()
    };
    proof {
        if k + 3 != n {
            assert(md@.subrange(k + 4, n as int) =~= md@.skip(k + 4));
        }
    }
    Some((fm, body))
}

/// The document text with its frontmatter put back in front of the body.
pub open spec fn with_frontmatter_text(fm: Seq<char>, body: Seq<char>) -> Seq<char> {
    fence().push('\n') + fm + seq!['\n'] + fence().push('\n') + body
}

/// Puts the frontmatter (if any) back in front of a rewritten body.
pub fn with_frontmatter(fm: Option<String>, body: String) -> (r: String)
    ensures
        r@ == match fm {
            Some(f) => with_frontmatter_text(f@, body@),
            None => body@,
        },
{
    match fm {
        Some(f) => {
            proof {
                reveal_strlit("---\n");
                reveal_strlit("\n---\n");
            }
            let mut out = String::from_str("---\n");
            out.append(f.as_str());
            out.append("\n---\n");
            out.append(body.as_str());
            assert(out@ =~= with_frontmatter_text(f@, body@));
            out
        },
        None => body,
    }
}


/// Putting a frontmatter that holds text back in front of its body gives
/// the document it was set apart from, where the document ends with a line
/// break.
pub proof fn lemma_frontmatter_round_trip(md: Seq<char>, fm: Seq<char>, body: Seq<char>)
    requires
        frontmatter_split(md) == Some((fm, body)),
        fm.len() > 0,
        md.len() > 0 && md.last() == '\n',
    ensures
        with_frontmatter_text(fm, body) == md,
{
    let k = next_fence_line(md, 4);
    lemma_next_fence(md, 4);
    assert(fence_line_at(md, k));
    assert(k > 4);
    assert(k + 3 < md.len());
    assert(md =~= md.take(4) + md.subrange(4, k - 1) + seq![md[k - 1]] + md.subrange(k, k + 3) + seq![md[k + 3]] + md.skip(k + 4));
    assert(with_frontmatter_text(fm, body) =~= md);
}


// ---------------------------------------------------------------------------
// Rendering the query blocks of a document
// ---------------------------------------------------------------------------

/// The code blocks that `comrak` finds in a markdown text, in document
/// order: each block's info string and its literal text.
pub uninterp spec fn commonmark_code_blocks(md: Seq<char>) -> Seq<(Seq<char>, Seq<char>)>;

/// What `comrak` writes back as commonmark for a markdown text whose code
/// blocks (in document order) are replaced, where a replacement is given,
/// by a paragraph holding that raw text.
pub uninterp spec fn commonmark_with_raw(md: Seq<char>, replacements: Seq<Option<Seq<char>>>) -> Seq<char>;

pub open spec fn pairs_view(v: Seq<(String, String)>) -> Seq<(Seq<char>, Seq<char>)> {
    v.map_values(|p: (String, String)| (p.0@, p.1@))
}

pub open spec fn opt_texts_view(v: Seq<Option<String>>) -> Seq<Option<Seq<char>>> {
    v.map_values(
        |o: Option<String>|
            match o {
                Some(t) => Some(t@),
                None => None,
            },
    )
}

/// Parses a markdown text with `comrak::parse_document` (default options)
/// and lists the info and literal of each code block node, in the order of
/// `descendants`. The contract claims that the list is
/// `commonmark_code_blocks` of the text.
#[verifier::external_body]
fn code_blocks(md: &str) -> (r: Vec<(String, String)>)
    ensures
        pairs_view(r@) == commonmark_code_blocks(md@),
{
    let arena = comrak::Arena::new();
    let root = comrak::parse_document(&arena, md, &comrak::Options::default());
    root.descendants().filter_map(|n| match &n.data.borrow().value {
        comrak::nodes::NodeValue::CodeBlock(cb) => Some((cb.info.clone(), cb.literal.clone())),
        _ => None,
    }).collect()
}

/// Parses a markdown text with `comrak::parse_document`, turns the code
/// block nodes that have a replacement into paragraphs holding that raw
/// text, and writes the tree with `comrak::format_commonmark` (default
/// options). The contract claims that the text is `commonmark_with_raw` of
/// the arguments. Writing into a `String` does not fail.
#[verifier::external_body]
fn render_with_raw(md: &str, replacements: &Vec<Option<String>>) -> (r: String)
    ensures
        r@ == commonmark_with_raw(md@, opt_texts_view(replacements@)),
{
    let arena = comrak::Arena::new();
    let root = comrak::parse_document(&arena, md, &comrak::Options::default());
    let blocks: Vec<_> = root.descendants().filter(|n| matches!(n.data.borrow().value, comrak::nodes::NodeValue::CodeBlock(_))).collect();
    for (node, text) in blocks.into_iter().zip(replacements.iter()) {
        if let Some(t) = text {
            node.data.borrow_mut().value = comrak::nodes::NodeValue::Paragraph;
            node.append(arena.alloc(comrak::nodes::NodeValue::Raw(t.clone()).into()));
        }
    }
    let mut out = String::new();
    comrak::format_commonmark(root, &comrak::Options::default(), &mut out).unwrap_or_default();
    out
}

/// The body of a document: what follows its frontmatter, or all of it.
pub open spec fn body_of(md: Seq<char>) -> Seq<char> {
    match frontmatter_split(md) {
        Some((_, body)) => body,
        None => md,
    }
}

/// The literals of the code blocks that hold queries, in order.
pub open spec fn query_blocks(blocks: Seq<(Seq<char>, Seq<char>)>) -> Seq<Seq<char>>
    decreases blocks.len(),
{
    if blocks.len() == 0 {
        Seq::empty()
    } else {
        let before = query_blocks(blocks.drop_last());
        if is_query_info(blocks.last().0) {
            before.push(blocks.last().1)
        } else {
            before
        }
    }
}

/// For each code block, the rendered result that replaces it: the query
/// blocks take the results in order; other blocks, and query blocks beyond
/// the results, stay.
pub open spec fn block_replacements(blocks: Seq<(Seq<char>, Seq<char>)>, results: Seq<Seq<char>>) -> Seq<
    Option<Seq<char>>,
> {
    Seq::new(
        blocks.len(),
        |i: int|
            {
                let k = query_blocks(blocks.take(i)).len();
                if is_query_info(blocks[i].0) && k < results.len() {
                    Some(results[k as int])
                } else {
                    None
                }
            },
    )
}

/// The queries of a document: the literals of the code blocks of its body
/// whose info string starts with `dataview`, in document order.
pub fn dataview_queries(md: &str) -> (r: Vec<String>)
    ensures
        strings_view(r@) == query_blocks(commonmark_code_blocks(body_of(md@))),
{
    let body = match split_frontmatter(md) {
        Some((_, b)) => b,
        None => md.to_string(),
    };
    let blocks = code_blocks(body.as_str());
    let ghost bv = pairs_view(blocks@);
    let mut out: Vec<String> = Vec::new();
    let mut i: usize = 0;
    while i < blocks.len()
        invariant
            bv == pairs_view(blocks@),
            i <= blocks@.len(),
            strings_view(out@) == query_blocks(bv.take(i as int)),
        decreases blocks@.len() - i,
    {
        let ghost before = out@;
        if is_dataview_block(blocks[i].0.as_str()) {
            out.push(blocks[i].1.clone());
            assert(strings_view(out@) =~= strings_view(before).push(blocks@[i as int].1@));
        }
        assert(bv.take(i + 1).drop_last() =~= bv.take(i as int));
        i = i + 1;
    }
    assert(bv.take(blocks@.len() as int) =~= bv);
    out
}

/// The document with each query block of its body replaced by the query's
/// rendered result (given in the order of `dataview_queries`), the body
/// written back as commonmark and the frontmatter put back in front.
pub fn render_dataview(md: &str, results: &Vec<String>) -> (r: String)
    ensures
        ({
            let body = body_of(md@);
            let rendered = commonmark_with_raw(
                body,
                block_replacements(commonmark_code_blocks(body), strings_view(results@)),
            );
            r@ == match frontmatter_split(md@) {
                Some((fm, _)) => with_frontmatter_text(fm, rendered),
                None => rendered,
            }
        }),
{
    let (fm, body) = match split_frontmatter(md) {
        Some((f, b)) => (Some(f), b),
        None => (None, md.to_string()),
    };
    let blocks = code_blocks(body.as_str());
    let ghost bv = pairs_view(blocks@);
    let ghost rv = strings_view(results@);
    let ghost target = block_replacements(bv, rv);
    let mut repl: Vec<Option<String>> = Vec::new();
    let mut k: usize = 0;
    let mut i: usize = 0;
    while i < blocks.len()
        invariant
            bv == pairs_view(blocks@),
            rv == strings_view(results@),
            target == block_replacements(bv, rv),
            i <= blocks@.len(),
            k as nat == query_blocks(bv.take(i as int)).len(),
            k <= i,
            opt_texts_view(repl@) == target.take(i as int),
        decreases blocks@.len() - i,
    {
        assert(bv.take(i + 1).drop_last() =~= bv.take(i as int));
        let q = is_dataview_block(blocks[i].0.as_str());
        let ghost before = repl@;
        if q && k < results.len() {
            repl.push(Some(results[k].clone()));
        } else {
            repl.push(None);
        }
        assert(opt_texts_view(repl@) =~= opt_texts_view(before).push(target[i as int]));
        assert(target.take(i + 1) =~= target.take(i as int).push(target[i as int]));
        if q {
            k = k + 1;
        }
        i = i + 1;
    }
    assert(target.take(blocks@.len() as int) =~= target);
    let rendered = render_with_raw(body.as_str(), &repl);
    with_frontmatter(fm, rendered)
}


proof fn lemma_query_blocks_prefix(blocks: Seq<(Seq<char>, Seq<char>)>, j: int, n: int)
    requires
        0 <= j <= n <= blocks.len(),
    ensures
        query_blocks(blocks.take(j)).len() <= query_blocks(blocks.take(n)).len(),
        query_blocks(blocks.take(n)).take(query_blocks(blocks.take(j)).len() as int) == query_blocks(
            blocks.take(j),
        ),
    decreases n - j,
{
    if n == j {
        assert(query_blocks(blocks.take(n)).take(query_blocks(blocks.take(n)).len() as int) =~= query_blocks(
            blocks.take(n),
        ));
    } else {
        lemma_query_blocks_prefix(blocks, j, n - 1);
        assert(blocks.take(n).drop_last() =~= blocks.take(n - 1));
        let a = query_blocks(blocks.take(n - 1));
        let k = query_blocks(blocks.take(j)).len() as int;
        assert(a.push(blocks[n - 1].1).take(k) =~= a.take(k));
    }
}

/// In a rendered document each query block takes the result at its own
/// query's position: the `k`-th query block of the body (its literal being
/// the `k`-th of `dataview_queries`) is replaced by the `k`-th result, or
/// kept where there is none; every other code block is kept.
pub proof fn lemma_blocks_take_their_own_results(
    blocks: Seq<(Seq<char>, Seq<char>)>,
    results: Seq<Seq<char>>,
)
    ensures
        block_replacements(blocks, results).len() == blocks.len(),
        forall|i: int|
            0 <= i < blocks.len() && !is_query_info(#[trigger] blocks[i].0) ==> block_replacements(
                blocks,
                results,
            )[i] is None,
        forall|i: int|
            0 <= i < blocks.len() && is_query_info(#[trigger] blocks[i].0) ==> {
                let k = query_blocks(blocks.take(i)).len();
                &&& k < query_blocks(blocks).len()
                &&& query_blocks(blocks)[k as int] == blocks[i].1
                &&& (k < results.len() ==> block_replacements(blocks, results)[i] == Some(results[k as int]))
                &&& (k >= results.len() ==> block_replacements(blocks, results)[i] is None)
            },
{
    assert forall|i: int| 0 <= i < blocks.len() && is_query_info(#[trigger] blocks[i].0) implies {
        let k = query_blocks(blocks.take(i)).len();
        &&& k < query_blocks(blocks).len()
        &&& query_blocks(blocks)[k as int] == blocks[i].1
    } by {
        lemma_query_blocks_prefix(blocks, i + 1, blocks.len() as int);
        assert(blocks.take(i + 1).drop_last() =~= blocks.take(i));
        assert(blocks.take(blocks.len() as int) =~= blocks);
        let k = query_blocks(blocks.take(i)).len() as int;
        let qi = query_blocks(blocks.take(i + 1));
        assert(qi == query_blocks(blocks.take(i)).push(blocks[i].1));
        assert(query_blocks(blocks).take(qi.len() as int) == qi);
        assert(query_blocks(blocks).take(qi.len() as int)[k] == query_blocks(blocks)[k]);
    }
}

} // verus!
