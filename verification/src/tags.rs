//! Tags of a markdown document: the `tags` list of its frontmatter and the
//! inline `#tags` of its body, merged without repeats.
use vstd::prelude::*;

use crate::index::{dedup, lemma_dedup_contains, lemma_dedup_no_duplicates, lemma_dedup_prefix};
use crate::index::dedup_strings;
use crate::json::{
    get_key, get_value, insert_entry, items_view, json_view, lemma_insert_entry_lookup,
    lemma_items_view_index, object_insert, Json, JsonView,
};
use crate::text::strings_view;

verus! {

// ---------------------------------------------------------------------------
// Inline tags
// ---------------------------------------------------------------------------

/// The pattern of an inline tag: `#` and a run of word characters, the run
/// captured as group 1.
pub open spec fn tag_pattern() -> Seq<char> {
    seq!['#', '(', '\\', 'w', '+', ')']
}

/// An ASCII letter, digit or `_`: the ASCII characters that the `regex`
/// crate's `\w` matches (it matches no other ASCII character).
pub open spec fn is_ascii_word(c: char) -> bool {
    ('a' <= c && c <= 'z') || ('A' <= c && c <= 'Z') || ('0' <= c && c <= '9') || c == '_'
}

/// The end of the run of ASCII word characters that starts at `i`.
pub open spec fn ascii_word_end(t: Seq<char>, i: int) -> int
    decreases t.len() - i,
{
    if 0 <= i < t.len() && is_ascii_word(t[i]) {
        ascii_word_end(t, i + 1)
    } else {
        i
    }
}

/// A text that holds one tag and nothing that could lengthen it: `#`, a
/// run of ASCII word characters, then a rest with no `#` that is empty or
/// starts with an ASCII character (which, ending the run, is no word
/// character). The tag is the whole run.
pub open spec fn lone_ascii_tag(t: Seq<char>) -> Option<Seq<char>> {
    let e = ascii_word_end(t, 1);
    if t.len() > 1 && t[0] == '#' && e > 1 && (e == t.len() || t[e] <= '\x7f') && !t.skip(e).contains(
        '#',
    ) {
        Some(t.subrange(1, e))
    } else {
        None
    }
}

/// The regular expression `#(\w+)`: `#`, then a greedy run of one or more
/// word characters, captured as group 1.
pub open spec fn word_run_regex() -> Seq<char> {
    seq!['#', '\u{28}', '\u{5c}', 'w', '+', '\u{29}']
}

/// The captures of a lone tag text: its one tag.
pub open spec fn lone_tag_captures(t: Seq<char>) -> Seq<Option<Seq<char>>> {
    seq![Some(lone_ascii_tag(t)->Some_0)]
}

/// What the `regex` crate finds for `pattern` in `text`: `None` where the
/// pattern does not compile, else, for each successive non-overlapping
/// match, the text of capture group `group` (`None` where the group did not
/// take part in the match).
pub uninterp spec fn regex_captures(pattern: Seq<char>, text: Seq<char>, group: nat) -> Option<
    Seq<Option<Seq<char>>>,
>;

pub open spec fn opt_strings_view(v: Seq<Option<String>>) -> Seq<Option<Seq<char>>> {
    v.map_values(
        |o: Option<String>|
            match o {
                Some(t) => Some(t@),
                None => None,
            },
    )
}

/// Compiles `pattern` with `regex::Regex::new` and lists, over
/// `Regex::captures_iter` on `text`, the text of capture group `group` of each
/// match. The contract claims that the result is `regex_captures` of the
/// arguments: the same arguments give the same result. It also claims, of
/// the pattern `#(\w+)` alone, what the crate's documented syntax gives: the
/// pattern compiles, `\w` matches ASCII letters, digits and `_` and no other
/// ASCII character, and `+` is greedy; so on a text that is `#`, such a run
/// and a rest without `#` that starts with another ASCII character (or is
/// empty), the one match's group 1 is the whole run.
#[verifier::external_body]
fn capture_group(pattern: &str, text: &str, group: usize) -> (r: Option<Vec<Option<String>>>)
    ensures
        match r {
            Some(v) => regex_captures(pattern@, text@, group as nat) == Some(opt_strings_view(v@)),
            None => regex_captures(pattern@, text@, group as nat) is None,
        },
        r is None ==> !(pattern@ == word_run_regex() && group == 1 && lone_ascii_tag(text@) is Some),
        r is Some && pattern@ == word_run_regex() && group == 1 && lone_ascii_tag(text@) is Some
            ==> opt_strings_view((r->Some_0)@) == lone_tag_captures(text@),
{
    let re = regex::Regex::new(pattern).ok()?;
    Some(re.captures_iter(text).map(|c| c.get(group).map(|m| m.as_str().to_string())).collect())
}

/// The present texts of `s`, in order.
pub open spec fn somes(s: Seq<Option<Seq<char>>>) -> Seq<Seq<char>>
    decreases s.len(),
{
    if s.len() == 0 {
        Seq::empty()
    } else {
        let before = somes(s.drop_last());
        match s.last() {
            Some(t) => before.push(t),
            None => before,
        }
    }
}

/// The inline tags of a markdown text, in order of appearance (empty should
/// the tag pattern not compile).
pub open spec fn inline_tags(markdown: Seq<char>) -> Seq<Seq<char>> {
    match regex_captures(tag_pattern(), markdown, 1) {
        Some(found) => somes(found),
        None => Seq::empty(),
    }
}

/// The tags that the captures of the tag pattern hold: the present group
/// texts, in order.
pub fn tags_of_captures(found: &Vec<Option<String>>) -> (r: Vec<String>)
    ensures
        strings_view(r@) == somes(opt_strings_view(found@)),
{
    let ghost fv = opt_strings_view(found@);
    let mut out: Vec<String> = Vec::new();
    let mut i: usize = 0;
    while i < found.len()
        invariant
            fv == opt_strings_view(found@),
            i <= found@.len(),
            strings_view(out@) == somes(fv.take(i as int)),
        decreases found@.len() - i,
    {
        let ghost before = out@;
        match &found[i] {
            Some(t) => {
                out.push(t.clone());
                assert(strings_view(out@) =~= strings_view(before).push(t@));
            },
            None => {},
        }
        assert(fv.take(i + 1).drop_last() =~= fv.take(i as int));
        i = i + 1;
    }
    assert(fv.take(found@.len() as int) =~= fv);
    out
}

/// Extracts the inline `#tags` of a markdown text, in order of appearance,
/// repeats included.
pub fn get_inline_tags(markdown: &str) -> (r: Vec<String>)
    ensures
        strings_view(r@) == inline_tags(markdown@),
        lone_ascii_tag(markdown@) matches Some(w) ==> strings_view(r@) == seq![w],
{
    proof { reveal_strlit("#(\\w+)"); }
    let pattern = "#(\\w+)";
    assert(pattern@ =~= tag_pattern());
    match capture_group(pattern, markdown, 1) {
        Some(found) => {
            let r = tags_of_captures(&found);
            proof {
                if lone_ascii_tag(markdown@) is Some {
                    let w = lone_ascii_tag(markdown@)->Some_0;
                    let f = lone_tag_captures(markdown@);
                    assert(f.drop_last() =~= Seq::<Option<Seq<char>>>::empty());
                    assert(somes(f.drop_last()) =~= Seq::<Seq<char>>::empty());
                    assert(f.last() == Some(w));
                    assert(somes(f) =~= seq![w]);
                }
            }
            r
        },
        None => Vec::new(),
    }
}

// ---------------------------------------------------------------------------
// Frontmatter tags
// ---------------------------------------------------------------------------

pub open spec fn tags_key() -> Seq<char> {
    seq!['t', 'a', 'g', 's']
}

/// The strings among `items`, in order (other values are passed over).
pub open spec fn string_items(items: Seq<JsonView>) -> Seq<Seq<char>>
    decreases items.len(),
{
    if items.len() == 0 {
        Seq::empty()
    } else {
        let before = string_items(items.drop_last());
        match items.last() {
            JsonView::Str(t) => before.push(t),
            _ => before,
        }
    }
}

/// The tags that a frontmatter lists: the strings of its `tags` array.
pub open spec fn frontmatter_tags(fm: JsonView) -> Seq<Seq<char>> {
    match get_key(fm, tags_key()) {
        Some(JsonView::Array(items)) => string_items(items),
        _ => Seq::empty(),
    }
}

/// The strings listed under `tags` in a frontmatter.
pub fn frontmatter_tag_list(fm: &Json) -> (r: Vec<String>)
    ensures
        strings_view(r@) == frontmatter_tags(fm@),
{
    proof { reveal_strlit("tags"); }
    assert("tags"@ =~= tags_key());
    let mut out: Vec<String> = Vec::new();
    match get_value(fm, "tags") {
        Some(Json::Array(items)) => {
            proof { lemma_items_view_index(items@); }
            let ghost iv = items_view(items@);
            let mut i: usize = 0;
            while i < items.len()
                invariant
                    iv == items_view(items@),
                    iv.len() == items@.len(),
                    forall|k: int| 0 <= k < items@.len() ==> #[trigger] iv[k] == json_view(items@[k]),
                    i <= items@.len(),
                    strings_view(out@) == string_items(iv.take(i as int)),
                decreases items@.len() - i,
            {
                let ghost before = out@;
                match &items[i] {
                    Json::Str(t) => {
                        out.push(t.clone());
                        assert(strings_view(out@) =~= strings_view(before).push(t@));
                    },
                    _ => {},
                }
                assert(iv.take(i + 1).drop_last() =~= iv.take(i as int));
                assert(iv.take(i + 1).last() == json_view(items@[i as int]));
                i = i + 1;
            }
            assert(iv.take(items@.len() as int) =~= iv);
        },
        _ => {},
    }
    out
}


// ---------------------------------------------------------------------------
// Merging
// ---------------------------------------------------------------------------

/// The tags of a document: those its frontmatter lists, then those inline in
/// its body, each once, where it first appears.
pub open spec fn merged_tags(fm: JsonView, markdown: Seq<char>) -> Seq<Seq<char>> {
    dedup(frontmatter_tags(fm) + inline_tags(markdown))
}

pub open spec fn str_values(ts: Seq<Seq<char>>) -> Seq<JsonView> {
    ts.map_values(|t: Seq<char>| JsonView::Str(t))
}

/// The frontmatter with its `tags` entry set to the merged tags of the
/// document. The frontmatter is an object.
pub fn with_inline_tags(fm: Json, markdown: &str) -> (r: Json)
    requires
        fm@ is Object,
    ensures
        r@ == JsonView::Object(
            insert_entry(fm@->Object_0, tags_key(), JsonView::Array(str_values(merged_tags(fm@, markdown@)))),
        ),
{
    let listed = frontmatter_tag_list(&fm);
    let inline = get_inline_tags(markdown);
    let mut all: Vec<String> = Vec::new();
    let ghost want = frontmatter_tags(fm@) + inline_tags(markdown@);
    let mut i: usize = 0;
    while i < listed.len()
        invariant
            strings_view(listed@) == frontmatter_tags(fm@),
            i <= listed@.len(),
            strings_view(all@) == strings_view(listed@).take(i as int),
        decreases listed@.len() - i,
    {
        let ghost before = all@;
        all.push(listed[i].clone());
        assert(strings_view(all@) =~= strings_view(before).push(listed@[i as int]@));
        assert(strings_view(listed@).take(i + 1) =~= strings_view(listed@).take(i as int).push(listed@[i as int]@));
        i = i + 1;
    }
    assert(strings_view(listed@).take(listed@.len() as int) =~= strings_view(listed@));
    let mut j: usize = 0;
    while j < inline.len()
        invariant
            strings_view(listed@) == frontmatter_tags(fm@),
            strings_view(inline@) == inline_tags(markdown@),
            j <= inline@.len(),
            strings_view(all@) == strings_view(listed@) + strings_view(inline@).take(j as int),
        decreases inline@.len() - j,
    {
        let ghost before = all@;
        all.push(inline[j].clone());
        assert(strings_view(all@) =~= strings_view(before).push(inline@[j as int]@));
        assert(strings_view(inline@).take(j + 1) =~= strings_view(inline@).take(j as int).push(inline@[j as int]@));
        j = j + 1;
    }
    assert(strings_view(inline@).take(inline@.len() as int) =~= strings_view(inline@));
    assert(strings_view(all@) =~= want);
    let unique = dedup_strings(&all);
    let mut values: Vec<Json> = Vec::new();
    let mut k: usize = 0;
    while k < unique.len()
        invariant
            k <= unique@.len(),
            values@.len() == k,
            forall|m: int| 0 <= m < k ==> #[trigger] json_view(values@[m]) == JsonView::Str(unique@[m]@),
        decreases unique@.len() - k,
    {
        values.push(Json::Str(unique[k].clone()));
        k = k + 1;
    }
    proof {
        lemma_items_view_index(values@);
        assert(items_view(values@) =~= str_values(strings_view(unique@)));
    }
    let arr = Json::Array(values);
    proof { reveal_strlit("tags"); }
    let key = String::from_str("tags");
    assert(key@ =~= tags_key());
    match fm {
        Json::Object(entries) => {
            let mut entries = entries;
            object_insert(&mut entries, key, arr);
            Json::Object(entries)
        },
        other => other,
    }
}


/// The merged tags hold each tag of the frontmatter or of the body exactly
/// once, and open with the frontmatter's own tags in their order.
pub proof fn lemma_merged_tags(fm: JsonView, markdown: Seq<char>)
    ensures
        merged_tags(fm, markdown).no_duplicates(),
        forall|t: Seq<char>|
            merged_tags(fm, markdown).contains(t) <==> (frontmatter_tags(fm).contains(t)
                || inline_tags(markdown).contains(t)),
        merged_tags(fm, markdown).take(dedup(frontmatter_tags(fm)).len() as int) == dedup(
            frontmatter_tags(fm),
        ),
{
    let a = frontmatter_tags(fm);
    let b = inline_tags(markdown);
    lemma_dedup_no_duplicates(a + b);
    lemma_dedup_contains(a + b);
    lemma_dedup_prefix(a, b);
    assert forall|t: Seq<char>| (a + b).contains(t) <==> (a.contains(t) || b.contains(t)) by {
        if (a + b).contains(t) {
            let k = choose|k: int| 0 <= k < (a + b).len() && (a + b)[k] == t;
            if k < a.len() {
                assert(a[k] == t);
            } else {
                assert(b[k - a.len()] == t);
            }
        }
        if a.contains(t) {
            let k = choose|k: int| 0 <= k < a.len() && a[k] == t;
            assert((a + b)[k] == t);
        }
        if b.contains(t) {
            let k = choose|k: int| 0 <= k < b.len() && b[k] == t;
            assert((a + b)[a.len() + k] == t);
        }
    }
}


/// Merging inline tags sets the frontmatter's `tags` field to the merged
/// tags and leaves every other field as it was.
pub proof fn lemma_inline_tags_field(fm: JsonView, markdown: Seq<char>, other: Seq<char>)
    requires
        fm is Object,
    ensures
        ({
            let merged = JsonView::Object(
                insert_entry(fm->Object_0, tags_key(), JsonView::Array(str_values(merged_tags(fm, markdown)))),
            );
            &&& get_key(merged, tags_key()) == Some(JsonView::Array(str_values(merged_tags(fm, markdown))))
            &&& other != tags_key() ==> get_key(merged, other) == get_key(fm, other)
        }),
{
    lemma_insert_entry_lookup(
        fm->Object_0,
        tags_key(),
        JsonView::Array(str_values(merged_tags(fm, markdown))),
        other,
    );
}

} // verus!
