//! Indexing: scanning the finished tree for keyword occurrences.
//!
//! The vocabulary is compiled into one regular expression of the shape
//! `\b(k1|k2|...|kn)\b`, case-insensitive, with the alternatives sorted by
//! decreasing length so that the longest applicable keyword wins, and every
//! alternative escaped for literal matching. The indexer walks every inline
//! unit of the tree in document order, records explicit keyword tags, adds
//! implicit tags for scan hits that touch no existing keyword tag, and
//! builds per-keyword occurrence lists.

use vstd::prelude::*;
use crate::ast::{
    Document, Section, SectionContent, BlockElement, List, ListItem, InlineElement, TaggedRange,
    InlineTag, InlineIndex, tag_is_keyword, tag_linked_text, ranges_disjoint,
    inline_wf,
    list_wf, item_wf, block_wf, section_content_wf, section_wf, units_of_item, units_of_items,
    units_of_list, units_of_block, units_of_blocks, units_of_sections, units_of_section,
    units_of_content,
};
use crate::vocab::{
    KeywordSet, fold_of, vocab_wf, spec_contains_fold, spec_index_of,
};
use crate::parse::units_indexed;
use crate::bytes::{append_slice, subrange_vec, clone_bytes, clone_vec_copy};
use vstd::seq_lib::to_multiset_insert;
use vstd::seq_lib::to_multiset_build;

verus! {

/// A failure while indexing the document.
#[derive(Clone, Copy, Debug, PartialEq, Eq, Structural)]
pub enum IndexError {
    /// A scan hit overlapped a keyword tag without coinciding exactly with
    /// an explicit one; the resolution of such partial overlaps is left
    /// undefined, so they are rejected.
    OverlappingMatch { unit: InlineIndex, start: usize, end: usize },
    /// The keyword matcher could not be compiled.
    MatcherBuild,
}

#[verifier::external_type_specification]
#[verifier::external_body]
pub struct ExRegex(regex::bytes::Regex);

/// The matches that a compiled matcher finds in a text: a function of the
/// matcher and the text alone. Left uninterpreted; what is known of it is
/// stated where `find_matches` is declared.
pub uninterp spec fn matches_in(re: regex::bytes::Regex, text: Seq<u8>) -> Seq<(usize, usize)>;

/// Whether a pattern compiles (under the fixed case-insensitive, Unicode
/// configuration): a function of the pattern bytes alone.
pub uninterp spec fn builds(pattern: Seq<u8>) -> bool;

/// The matches the engine finds for a compiled pattern in a text: a
/// function of the pattern and the text alone.
pub uninterp spec fn matches_of(pattern: Seq<u8>, text: Seq<u8>) -> Seq<(usize, usize)>;

/// Relies on `regex::bytes::RegexBuilder`: compiles the pattern with
/// case-insensitive, Unicode-aware matching. Compilation succeeds or fails
/// as a function of the pattern alone (named `builds`), and the compiled
/// matcher's matches are a function of the pattern and the text alone
/// (named `matches_of`).
#[verifier::external_body]
fn build_matcher(pattern: &Vec<u8>) -> (r: Option<regex::bytes::Regex>)
    ensures
        r is Some <==> builds(pattern@),
        r matches Some(re) ==> forall|t: Seq<u8>|
            #[trigger] matches_in(re, t) == matches_of(pattern@, t),
{
    match core::str::from_utf8(pattern.as_slice()) {
        Ok(p) => regex::bytes::RegexBuilder::new(p)
            .case_insensitive(true)
            .unicode(true)
            .build()
            .ok(),
        Err(_) => None,
    }
}

/// Relies on `regex::bytes::Regex::find_iter`: it yields successive
/// non-overlapping matches, left to right, each given by byte offsets into
/// the haystack with start at most end. The match list depends on the
/// matcher and the haystack alone, so it is named by `matches_in`.
#[verifier::external_body]
fn find_matches(re: &regex::bytes::Regex, text: &[u8]) -> (r: Vec<(usize, usize)>)
    ensures
        r@ == matches_in(*re, text@),
        forall|i: int|
            0 <= i < r@.len() ==> (#[trigger] r@[i]).0 <= r@[i].1 && r@[i].1 <= text@.len(),
        forall|i: int, j: int|
            0 <= i < j < r@.len() ==> (#[trigger] r@[i]).1 <= (#[trigger] r@[j]).0,
{
    re.find_iter(text).map(|m| (m.start(), m.end())).collect()
}

/// The bytes that must be escaped to stand for themselves in a pattern:
/// the regular-expression meta characters, all of them ASCII.
pub open spec fn is_meta_byte(b: u8) -> bool {
    ||| b == 92u8  // backslash
    ||| b == 46u8  // .
    ||| b == 43u8  // +
    ||| b == 42u8  // *
    ||| b == 63u8  // ?
    ||| b == 40u8  // (
    ||| b == 41u8  // )
    ||| b == 124u8  // |
    ||| b == 91u8  // [
    ||| b == 93u8  // ]
    ||| b == 123u8  // {
    ||| b == 125u8  // }
    ||| b == 94u8  // ^
    ||| b == 36u8  // $
    ||| b == 35u8  // #
    ||| b == 38u8  // &
    ||| b == 45u8  // -
    ||| b == 126u8  // ~
}

/// The first `upto` bytes of `s` escaped for literal matching: a backslash
/// before every meta byte.
pub open spec fn escape_bytes_upto(s: Seq<u8>, upto: int) -> Seq<u8>
    decreases upto,
{
    if upto <= 0 {
        Seq::empty()
    } else {
        escape_bytes_upto(s, upto - 1) + if is_meta_byte(s[upto - 1]) {
            seq![92u8, s[upto - 1]]
        } else {
            seq![s[upto - 1]]
        }
    }
}

/// All of `s` escaped for literal matching.
pub open spec fn escape_bytes(s: Seq<u8>) -> Seq<u8> {
    escape_bytes_upto(s, s.len() as int)
}

/// Escape a keyword so that every byte of it stands for itself in a
/// pattern.
fn escape_literal(src: &Vec<u8>) -> (r: Vec<u8>)
    ensures
        r@ == escape_bytes(src@),
{
    let n = src.len();
    let mut r: Vec<u8> = Vec::new();
    let mut i: usize = 0;
    while i < n
        invariant
            n == src@.len(),
            i <= n,
            r@ == escape_bytes_upto(src@, i as int),
        decreases n - i,
    {
        let b = src[i];
        if b == 92u8 || b == 46u8 || b == 43u8 || b == 42u8 || b == 63u8 || b == 40u8
            || b == 41u8 || b == 124u8 || b == 91u8 || b == 93u8 || b == 123u8 || b == 125u8
            || b == 94u8 || b == 36u8 || b == 35u8 || b == 38u8 || b == 45u8 || b == 126u8 {
            r.push(92u8);
            r.push(b);
            proof {
                assert(r@ =~= escape_bytes_upto(src@, i + 1));
            }
        } else {
            r.push(b);
            proof {
                assert(r@ =~= escape_bytes_upto(src@, i + 1));
            }
        }
        i = i + 1;
    }
    r
}

/// The first `upto` parts joined with `sep` between them.
pub open spec fn join_views(parts: Seq<Seq<u8>>, sep: Seq<u8>, upto: int) -> Seq<u8>
    decreases upto,
{
    if upto <= 0 {
        Seq::empty()
    } else if upto == 1 {
        parts[0]
    } else {
        join_views(parts, sep, upto - 1) + sep + parts[upto - 1]
    }
}

/// Join byte strings with a separator between consecutive parts.
pub fn join(parts: &Vec<Vec<u8>>, sep: &Vec<u8>) -> (r: Vec<u8>)
    ensures
        r@ == join_views(
            parts@.map_values(|e: Vec<u8>| e@),
            sep@,
            parts@.len() as int,
        ),
{
    let n = parts.len();
    let mut r: Vec<u8> = Vec::new();
    let mut i: usize = 0;
    while i < n
        invariant
            n == parts@.len(),
            i <= n,
            r@ == join_views(parts@.map_values(|e: Vec<u8>| e@), sep@, i as int),
        decreases n - i,
    {
        if i > 0 {
            append_slice(&mut r, sep.as_slice());
        }
        append_slice(&mut r, parts[i].as_slice());
        proof {
            assert(r@ =~= join_views(parts@.map_values(|e: Vec<u8>| e@), sep@, i + 1));
        }
        i = i + 1;
    }
    r
}

/// `e` inserted into a length-descending list, before the first strictly
/// shorter entry: entries of equal length keep their relative order.
pub open spec fn spec_sort_insert(sorted: Seq<Seq<u8>>, e: Seq<u8>) -> Seq<Seq<u8>>
    decreases sorted.len(),
{
    if sorted.len() == 0 {
        seq![e]
    } else if sorted[0].len() < e.len() {
        seq![e] + sorted
    } else {
        seq![sorted[0]] + spec_sort_insert(sorted.drop_first(), e)
    }
}

/// The first `upto` entries sorted by decreasing length, stably: the
/// reference the executable sort is held to, and the order the matcher
/// pattern lists its alternatives in.
pub open spec fn spec_sort_by_len(entries: Seq<Seq<u8>>, upto: int) -> Seq<Seq<u8>>
    decreases upto,
{
    if upto <= 0 {
        Seq::empty()
    } else {
        spec_sort_insert(spec_sort_by_len(entries, upto - 1), entries[upto - 1])
    }
}

/// Inserting at the first strictly-shorter position is what
/// `spec_sort_insert` does.
proof fn lemma_sort_insert_at(sorted: Seq<Seq<u8>>, e: Seq<u8>, p: int)
    requires
        0 <= p <= sorted.len(),
        forall|i: int| 0 <= i < p ==> (#[trigger] sorted[i]).len() >= e.len(),
        p < sorted.len() ==> sorted[p].len() < e.len(),
    ensures
        sorted.insert(p, e) == spec_sort_insert(sorted, e),
    decreases p,
{
    if sorted.len() == 0 {
        assert(sorted.insert(0, e) =~= seq![e]);
    } else if p == 0 {
        if sorted[0].len() < e.len() {
            assert(sorted.insert(0, e) =~= seq![e] + sorted);
        } else {
            assert(false);
        }
    } else {
        lemma_sort_insert_at(sorted.drop_first(), e, p - 1);
        assert(sorted.insert(p, e) =~= seq![sorted[0]] + sorted.drop_first().insert(p - 1, e));
    }
}

/// Sort byte strings by decreasing length; equal lengths keep their input
/// order, so the result is exactly the stable reference sort of the input.
fn sort_by_length_desc(entries: Vec<Vec<u8>>) -> (r: Vec<Vec<u8>>)
    ensures
        r@.len() == entries@.len(),
        r@.map_values(|e: Vec<u8>| e@).to_multiset()
            == entries@.map_values(|e: Vec<u8>| e@).to_multiset(),
        forall|i: int, j: int|
            0 <= i < j < r@.len() ==> (#[trigger] r@[i])@.len() >= (#[trigger] r@[j])@.len(),
        r@.map_values(|e: Vec<u8>| e@) == spec_sort_by_len(
            entries@.map_values(|e: Vec<u8>| e@),
            entries@.len() as int,
        ),
{
    let n = entries.len();
    let mut out: Vec<Vec<u8>> = Vec::new();
    let mut rest = entries;
    let ghost all = rest@;
    let mut taken: usize = 0;
    proof {
        assert(out@ =~= all.subrange(0, 0));
    }
    while taken < n
        invariant
            n == all.len(),
            taken <= n,
            rest@ == all.subrange(taken as int, n as int),
            out@.len() == taken,
            out@.map_values(|e: Vec<u8>| e@).to_multiset()
                == all.subrange(0, taken as int).map_values(|e: Vec<u8>| e@).to_multiset(),
            forall|i: int, j: int|
                0 <= i < j < out@.len()
                    ==> (#[trigger] out@[i])@.len() >= (#[trigger] out@[j])@.len(),
            out@.map_values(|e: Vec<u8>| e@) == spec_sort_by_len(
                all.map_values(|e: Vec<u8>| e@),
                taken as int,
            ),
        decreases n - taken,
    {
        let e = rest.remove(0);
        proof {
            assert(rest@ =~= all.subrange(taken + 1, n as int));
            assert(all.subrange(0, taken as int).push(all[taken as int])
                =~= all.subrange(0, taken + 1));
        }
        // find the first position whose entry is strictly shorter
        let mut p: usize = 0;
        while p < out.len()
            invariant
                p <= out@.len(),
                forall|i: int| 0 <= i < p ==> (#[trigger] out@[i])@.len() >= e@.len(),
            ensures
                p <= out@.len(),
                forall|i: int| 0 <= i < p ==> (#[trigger] out@[i])@.len() >= e@.len(),
                p < out@.len() ==> out@[p as int]@.len() < e@.len(),
            decreases out@.len() - p,
        {
            if out[p].len() < e.len() {
                break;
            }
            p = p + 1;
        }
        let ghost out_pre = out@;
        proof {
            to_multiset_insert(out@.map_values(|x: Vec<u8>| x@), p as int, e@);
            to_multiset_build(all.subrange(0, taken as int).map_values(|x: Vec<u8>| x@), e@);
            lemma_sort_insert_at(out_pre.map_values(|x: Vec<u8>| x@), e@, p as int);
            assert(all.map_values(|x: Vec<u8>| x@)[taken as int] == e@);
        }
        out.insert(p, e);
        proof {
            assert(out@.map_values(|x: Vec<u8>| x@)
                =~= out_pre.map_values(|x: Vec<u8>| x@).insert(p as int, e@));
            assert(all.subrange(0, taken + 1).map_values(|x: Vec<u8>| x@)
                =~= all.subrange(0, taken as int).map_values(|x: Vec<u8>| x@).push(e@));
            let q = p as int;
            assert forall|i: int, j: int| 0 <= i < j < out@.len()
                implies (#[trigger] out@[i])@.len() >= (#[trigger] out@[j])@.len() by {
                if i < q {
                    assert(out@[i] == out_pre[i]);
                } else if i == q {
                    assert(out@[i] == e);
                } else {
                    assert(out@[i] == out_pre[i - 1]);
                }
                if j < q {
                    assert(out@[j] == out_pre[j]);
                } else if j == q {
                    assert(out@[j] == e);
                } else {
                    assert(out@[j] == out_pre[j - 1]);
                }
            }
        }
        taken = taken + 1;
    }
    proof {
        assert(all.subrange(0, n as int) =~= all);
    }
    out
}

/// The matcher pattern a vocabulary compiles to: its entries sorted by
/// decreasing length (stably, so ties keep vocabulary order), each escaped
/// for literal matching, joined with `|`, and wrapped in word-boundary
/// anchors.
pub open spec fn spec_pattern(v: Seq<Seq<u8>>) -> Seq<u8> {
    seq![92u8, 98u8, 40u8] + join_views(
        spec_sort_by_len(v, v.len() as int).map_values(|x: Seq<u8>| escape_bytes(x)),
        seq![124u8],
        v.len() as int,
    ) + seq![41u8, 92u8, 98u8]
}

/// Build the matcher used to find keywords in linear time, of the shape
/// `\b( k1 | k2 | ... | kn )\b` with the keywords escaped and sorted by
/// decreasing length (so the longest applicable alternative wins), matched
/// case-insensitively on word boundaries. `Ok(None)` reports "no matcher":
/// the vocabulary is empty or holds the empty string.
fn keyword_search_regex(keywords: &KeywordSet) -> (r: Result<Option<regex::bytes::Regex>, IndexError>)
    requires
        vocab_wf(keywords@),
    ensures
        r matches Ok(opt) ==> ((opt is None) <==> keywords@.len() == 0),
        keywords@.len() == 0 ==> r is Ok,
        r is Err <==> (keywords@.len() > 0 && !builds(spec_pattern(keywords@))),
        r matches Ok(Some(re)) ==> forall|t: Seq<u8>|
            #[trigger] matches_in(re, t) == matches_of(spec_pattern(keywords@), t),
{
    let n = keywords.len();
    if n == 0 {
        return Ok(None);
    }
    let mut entries: Vec<Vec<u8>> = Vec::new();
    let mut i: usize = 0;
    while i < n
        invariant
            n == keywords@.len(),
            i <= n,
            vocab_wf(keywords@),
            entries@.len() == i,
            forall|j: int| 0 <= j < i ==> (#[trigger] entries@[j])@ == keywords@[j],
        decreases n - i,
    {
        let entry = keywords.get(i);
        if entry.len() == 0 {
            // never reached for a well-formed vocabulary, which holds no
            // empty entry; kept as the documented "no matcher" condition
            return Ok(None);
        }
        entries.push(clone_bytes(entry));
        i = i + 1;
    }
    let sorted = sort_by_length_desc(entries);
    let mut escaped: Vec<Vec<u8>> = Vec::new();
    let mut i: usize = 0;
    while i < sorted.len()
        invariant
            i <= sorted@.len(),
            escaped@.len() == i,
            forall|j: int| 0 <= j < i ==> (#[trigger] escaped@[j])@ == escape_bytes(sorted@[j]@),
        decreases sorted@.len() - i,
    {
        escaped.push(escape_literal(&sorted[i]));
        i = i + 1;
    }
    let mut sep: Vec<u8> = Vec::new();
    sep.push(124u8);  // |
    let joined = join(&escaped, &sep);
    let mut pattern: Vec<u8> = Vec::new();
    pattern.push(92u8);  // backslash
    pattern.push(98u8);  // b
    pattern.push(40u8);  // (
    append_slice(&mut pattern, joined.as_slice());
    pattern.push(41u8);  // )
    pattern.push(92u8);  // backslash
    pattern.push(98u8);  // b
    proof {
        assert(entries@.map_values(|x: Vec<u8>| x@) =~= keywords@);
        assert(sep@ =~= seq![124u8]);
        assert(escaped@.map_values(|x: Vec<u8>| x@) =~= spec_sort_by_len(
            keywords@,
            keywords@.len() as int,
        ).map_values(|x: Seq<u8>| escape_bytes(x)));
        assert(pattern@ =~= spec_pattern(keywords@));
    }
    match build_matcher(&pattern) {
        Some(re) => Ok(Some(re)),
        None => Err(IndexError::MatcherBuild),
    }
}

} // verus!

verus! {

/// Whether some explicit-keyword tag covers exactly `[s, en)`.
pub open spec fn match_exact_explicit(tags: Seq<TaggedRange>, s: int, en: int) -> bool {
    exists|i: int|
        0 <= i < tags.len() && (#[trigger] tags[i]).tag is ExplicitKeyword && tags[i].start == s
            && tags[i].end == en
}

/// Whether some keyword tag overlaps `[s, en)`.
pub open spec fn match_overlaps_keyword(tags: Seq<TaggedRange>, s: int, en: int) -> bool {
    exists|i: int|
        0 <= i < tags.len() && tag_is_keyword((#[trigger] tags[i]).tag) && tags[i].start < en
            && s < tags[i].end
}

/// Every scan hit either coincides exactly with an explicit-keyword tag or
/// touches no keyword tag at all. Partial overlaps are rejected.
pub open spec fn scan_hits_ok(tags: Seq<TaggedRange>, ms: Seq<(usize, usize)>) -> bool {
    forall|i: int|
        0 <= i < ms.len() ==> {
            ||| match_exact_explicit(tags, (#[trigger] ms[i]).0 as int, ms[i].1 as int)
            ||| !match_overlaps_keyword(tags, ms[i].0 as int, ms[i].1 as int)
        }
}

/// The implicit-keyword tags the indexer appends to a unit for the first
/// `upto` scan hits: one tag per hit that does not coincide with an
/// explicit tag and whose text is a known keyword, carrying that keyword's
/// index.
pub open spec fn added_tags_upto(
    e: InlineElement,
    ms: Seq<(usize, usize)>,
    upto: int,
    v: Seq<Seq<u8>>,
) -> Seq<TaggedRange>
    decreases upto,
{
    if upto <= 0 {
        Seq::empty()
    } else {
        let rest = added_tags_upto(e, ms, upto - 1, v);
        let s = ms[upto - 1].0;
        let en = ms[upto - 1].1;
        if match_exact_explicit(e.tags@, s as int, en as int) {
            rest
        } else if spec_contains_fold(v, e.string@.subrange(s as int, en as int)) {
            rest.push(TaggedRange {
                start: s,
                end: en,
                tag: InlineTag::ImplicitKeyword(
                    spec_index_of(v, e.string@.subrange(s as int, en as int)) as usize,
                ),
            })
        } else {
            rest
        }
    }
}

/// All implicit-keyword tags the indexer appends to a unit for its scan hits.
pub open spec fn added_tags(e: InlineElement, ms: Seq<(usize, usize)>, v: Seq<Seq<u8>>) -> Seq<
    TaggedRange,
> {
    added_tags_upto(e, ms, ms.len() as int, v)
}

/// How many of the first `upto` tags mark an explicit occurrence of
/// keyword `k`.
pub open spec fn count_explicit_upto(tags: Seq<TaggedRange>, upto: int, k: int) -> int
    decreases upto,
{
    if upto <= 0 {
        0
    } else {
        count_explicit_upto(tags, upto - 1, k) + if tags[upto - 1].tag matches
            InlineTag::ExplicitKeyword(kk) && kk == k {
            1int
        } else {
            0int
        }
    }
}

/// How many of the first `upto` tags mark an implicit occurrence of
/// keyword `k`.
pub open spec fn count_implicit_upto(tags: Seq<TaggedRange>, upto: int, k: int) -> int
    decreases upto,
{
    if upto <= 0 {
        0
    } else {
        count_implicit_upto(tags, upto - 1, k) + if tags[upto - 1].tag matches
            InlineTag::ImplicitKeyword(kk) && kk == k {
            1int
        } else {
            0int
        }
    }
}

/// The unit index `idx` repeated `n` times (empty for negative `n`).
pub open spec fn repeat_index(idx: usize, n: int) -> Seq<usize> {
    Seq::new(if n >= 0 { n as nat } else { 0nat }, |j: int| idx)
}

/// Tag counts are never negative.
proof fn lemma_count_explicit_nonneg(tags: Seq<TaggedRange>, upto: int, k: int)
    ensures
        count_explicit_upto(tags, upto, k) >= 0,
    decreases upto,
{
    if upto > 0 {
        lemma_count_explicit_nonneg(tags, upto - 1, k);
    }
}

/// Tag counts are never negative.
proof fn lemma_count_implicit_nonneg(tags: Seq<TaggedRange>, upto: int, k: int)
    ensures
        count_implicit_upto(tags, upto, k) >= 0,
    decreases upto,
{
    if upto > 0 {
        lemma_count_implicit_nonneg(tags, upto - 1, k);
    }
}

/// The counts agree when two tag lists agree on their first `upto` entries.
proof fn lemma_count_explicit_agree(s1: Seq<TaggedRange>, s2: Seq<TaggedRange>, upto: int, k: int)
    requires
        forall|i: int| 0 <= i < upto ==> s1[i] == s2[i],
    ensures
        count_explicit_upto(s1, upto, k) == count_explicit_upto(s2, upto, k),
    decreases upto,
{
    if upto > 0 {
        lemma_count_explicit_agree(s1, s2, upto - 1, k);
    }
}

/// The counts agree when two tag lists agree on their first `upto` entries.
proof fn lemma_count_implicit_agree(s1: Seq<TaggedRange>, s2: Seq<TaggedRange>, upto: int, k: int)
    requires
        forall|i: int| 0 <= i < upto ==> s1[i] == s2[i],
    ensures
        count_implicit_upto(s1, upto, k) == count_implicit_upto(s2, upto, k),
    decreases upto,
{
    if upto > 0 {
        lemma_count_implicit_agree(s1, s2, upto - 1, k);
    }
}

/// Append one unit index to the occurrence list of keyword `k`.
fn push_occurrence(lists: &mut Vec<Vec<usize>>, k: usize, val: usize)
    requires
        k < old(lists)@.len(),
    ensures
        final(lists)@.len() == old(lists)@.len(),
        final(lists)@[k as int]@ == old(lists)@[k as int]@.push(val),
        forall|j: int|
            0 <= j < old(lists)@.len() && j != k ==> final(lists)@[j] == #[trigger] old(
                lists,
            )@[j],
{
    let mut row = clone_vec_copy(&lists[k]);
    row.push(val);
    lists.set(k, row);
}

/// Whether some explicit tag covers exactly `[s, en)`.
fn find_exact_explicit(tags: &Vec<TaggedRange>, s: usize, en: usize) -> (r: bool)
    ensures
        r == match_exact_explicit(tags@, s as int, en as int),
{
    let n = tags.len();
    let mut i: usize = 0;
    while i < n
        invariant
            n == tags@.len(),
            i <= n,
            forall|j: int|
                0 <= j < i ==> !((#[trigger] tags@[j]).tag is ExplicitKeyword && tags@[j].start
                    == s && tags@[j].end == en),
        decreases n - i,
    {
        let t = tags[i];
        if matches!(t.tag, InlineTag::ExplicitKeyword(_)) && t.start == s && t.end == en {
            return true;
        }
        i = i + 1;
    }
    false
}

/// Whether some keyword tag overlaps `[s, en)`.
fn find_overlap_keyword(tags: &Vec<TaggedRange>, s: usize, en: usize) -> (r: bool)
    ensures
        r == match_overlaps_keyword(tags@, s as int, en as int),
{
    let n = tags.len();
    let mut i: usize = 0;
    while i < n
        invariant
            n == tags@.len(),
            i <= n,
            forall|j: int|
                0 <= j < i ==> !(tag_is_keyword((#[trigger] tags@[j]).tag) && tags@[j].start < en
                    && s < tags@[j].end),
        decreases n - i,
    {
        let t = tags[i];
        let is_kw = match t.tag {
            InlineTag::ExplicitKeyword(_) => true,
            InlineTag::ImplicitKeyword(_) => true,
            InlineTag::Highlight => false,
        };
        if is_kw && t.start < en && s < t.end {
            return true;
        }
        i = i + 1;
    }
    false
}

} // verus!

verus! {

/// Scan one inline unit: record its explicit keyword tags in the explicit
/// occurrence lists, then walk the scan hits `ms` and, for each hit that
/// does not coincide exactly with an explicit tag, either reject it when
/// it overlaps a keyword tag, or append an implicit tag and record the
/// occurrence when its text is a known keyword. Text content, existing
/// tags and the unit index are never altered.
fn scan_inline(
    e: &InlineElement,
    ms: &Vec<(usize, usize)>,
    keywords: &KeywordSet,
    explicit: &mut Vec<Vec<usize>>,
    implicit: &mut Vec<Vec<usize>>,
) -> (r: Result<InlineElement, IndexError>)
    requires
        vocab_wf(keywords@),
        inline_wf(*e, keywords@),
        old(explicit)@.len() == keywords@.len(),
        old(implicit)@.len() == keywords@.len(),
        forall|i: int|
            0 <= i < ms@.len() ==> (#[trigger] ms@[i]).0 <= ms@[i].1 && ms@[i].1
                <= e.string@.len(),
        forall|i: int, j: int|
            0 <= i < j < ms@.len() ==> (#[trigger] ms@[i]).1 <= (#[trigger] ms@[j]).0,
    ensures
        final(explicit)@.len() == keywords@.len(),
        final(implicit)@.len() == keywords@.len(),
        forall|k: int|
            0 <= k < keywords@.len() ==> (#[trigger] final(explicit)@[k])@ == old(explicit)@[k]@
                + repeat_index(e.index, count_explicit_upto(e.tags@, e.tags@.len() as int, k)),
        r is Ok <==> scan_hits_ok(e.tags@, ms@),
        r matches Ok(e2) ==> {
            &&& e2.index == e.index
            &&& e2.string@ == e.string@
            &&& e2.tags@ == e.tags@ + added_tags(*e, ms@, keywords@)
            &&& inline_wf(e2, keywords@)
            &&& forall|k: int|
                0 <= k < keywords@.len() ==> (#[trigger] final(implicit)@[k])@ == old(
                    implicit,
                )@[k]@ + repeat_index(
                    e.index,
                    count_implicit_upto(
                        added_tags(*e, ms@, keywords@),
                        added_tags(*e, ms@, keywords@).len() as int,
                        k,
                    ),
                )
        },
{
    let ghost v = keywords@;
    let ghost ex0 = explicit@;
    // record the explicit occurrences, one per explicit tag, in tag order
    let nt = e.tags.len();
    let mut i: usize = 0;
    while i < nt
        invariant
            nt == e.tags@.len(),
            i <= nt,
            v == keywords@,
            ex0 == old(explicit)@,
            inline_wf(*e, v),
            explicit@.len() == v.len(),
            implicit@ == old(implicit)@,
            forall|k: int|
                0 <= k < v.len() ==> (#[trigger] explicit@[k])@ == ex0[k]@ + repeat_index(
                    e.index,
                    count_explicit_upto(e.tags@, i as int, k),
                ),
        decreases nt - i,
    {
        let t = e.tags[i];
        match t.tag {
            InlineTag::ExplicitKeyword(k) => {
                proof {
                    assert(tag_linked_text(e.string@, e.tags@[i as int], v));
                    assert(k < v.len());
                }
                let ghost rows = explicit@;
                push_occurrence(explicit, k, e.index);
                proof {
                    assert forall|k2: int| 0 <= k2 < v.len()
                        implies (#[trigger] explicit@[k2])@ == ex0[k2]@ + repeat_index(
                            e.index,
                            count_explicit_upto(e.tags@, i + 1, k2),
                        ) by {
                        lemma_count_explicit_nonneg(e.tags@, i as int, k2);
                        if k2 == k {
                            assert(explicit@[k2]@ == rows[k2]@.push(e.index));
                            assert(rows[k2]@ == ex0[k2]@ + repeat_index(
                                e.index,
                                count_explicit_upto(e.tags@, i as int, k2),
                            ));
                            assert(count_explicit_upto(e.tags@, i + 1, k2)
                                == count_explicit_upto(e.tags@, i as int, k2) + 1);
                            assert(ex0[k2]@ + repeat_index(
                                e.index,
                                count_explicit_upto(e.tags@, i + 1, k2),
                            ) =~= (ex0[k2]@ + repeat_index(
                                e.index,
                                count_explicit_upto(e.tags@, i as int, k2),
                            )).push(e.index));
                        } else {
                            assert(explicit@[k2] == rows[k2]);
                            assert(count_explicit_upto(e.tags@, i + 1, k2)
                                == count_explicit_upto(e.tags@, i as int, k2));
                        }
                    }
                }
            },
            _ => {
                proof {
                    assert forall|k2: int| 0 <= k2 < v.len()
                        implies count_explicit_upto(e.tags@, i + 1, k2) == count_explicit_upto(
                            e.tags@,
                            i as int,
                            k2,
                        ) by {
                        assert(!(e.tags@[i as int].tag is ExplicitKeyword));
                    }
                }
            },
        }
        i = i + 1;
    }
    // walk the scan hits, adding implicit tags and occurrences
    let ghost exmid = explicit@;
    let ghost im0 = implicit@;
    let mut new_tags: Vec<TaggedRange> = clone_vec_copy(&e.tags);
    let nm = ms.len();
    let mut j: usize = 0;
    while j < nm
        invariant
            nm == ms@.len(),
            j <= nm,
            v == keywords@,
            vocab_wf(v),
            inline_wf(*e, v),
            ex0 == old(explicit)@,
            im0 == old(implicit)@,
            explicit@ == exmid,
            explicit@.len() == v.len(),
            forall|k: int|
                0 <= k < v.len() ==> (#[trigger] exmid[k])@ == ex0[k]@ + repeat_index(
                    e.index,
                    count_explicit_upto(e.tags@, e.tags@.len() as int, k),
                ),
            implicit@.len() == v.len(),
            forall|i2: int|
                0 <= i2 < ms@.len() ==> (#[trigger] ms@[i2]).0 <= ms@[i2].1 && ms@[i2].1
                    <= e.string@.len(),
            forall|i2: int, j2: int|
                0 <= i2 < j2 < ms@.len() ==> (#[trigger] ms@[i2]).1 <= (#[trigger] ms@[j2]).0,
            new_tags@ == e.tags@ + added_tags_upto(*e, ms@, j as int, v),
            forall|k: int|
                0 <= k < v.len() ==> (#[trigger] implicit@[k])@ == im0[k]@ + repeat_index(
                    e.index,
                    count_implicit_upto(
                        added_tags_upto(*e, ms@, j as int, v),
                        added_tags_upto(*e, ms@, j as int, v).len() as int,
                        k,
                    ),
                ),
            forall|i2: int|
                0 <= i2 < j ==> {
                    ||| match_exact_explicit(e.tags@, (#[trigger] ms@[i2]).0 as int, ms@[i2].1 as int)
                    ||| !match_overlaps_keyword(e.tags@, ms@[i2].0 as int, ms@[i2].1 as int)
                },
            forall|i2: int|
                0 <= i2 < new_tags@.len() ==> {
                    &&& (#[trigger] new_tags@[i2]).start <= new_tags@[i2].end
                    &&& new_tags@[i2].end <= e.string@.len()
                    &&& tag_linked_text(e.string@, new_tags@[i2], v)
                },
            forall|i2: int, j2: int|
                0 <= i2 < j2 < new_tags@.len() && tag_is_keyword(new_tags@[i2].tag)
                    && tag_is_keyword(new_tags@[j2].tag) ==> ranges_disjoint(
                    #[trigger] new_tags@[i2],
                    #[trigger] new_tags@[j2],
                ),
            forall|i2: int, j2: int|
                0 <= i2 < j2 < new_tags@.len() && new_tags@[i2].tag is Highlight
                    && new_tags@[j2].tag is Highlight ==> ranges_disjoint(
                    #[trigger] new_tags@[i2],
                    #[trigger] new_tags@[j2],
                ),
            forall|i2: int|
                e.tags@.len() <= i2 < new_tags@.len() ==> (j >= nm || (#[trigger] new_tags@[i2]).end
                    <= ms@[j as int].0),
        decreases nm - j,
    {
        let (s, en) = ms[j];
        let ghost added_pre = added_tags_upto(*e, ms@, j as int, v);
        if find_exact_explicit(&e.tags, s, en) {
            proof {
                assert(added_tags_upto(*e, ms@, j + 1, v) == added_pre);
                assert forall|i2: int|
                    e.tags@.len() <= i2 < new_tags@.len()
                    implies (j + 1 >= nm || (#[trigger] new_tags@[i2]).end
                        <= ms@[j + 1].0) by {
                    if j + 1 < nm {
                        assert(new_tags@[i2].end <= ms@[j as int].0);
                        assert(ms@[j as int].0 <= ms@[j as int].1);
                        assert(ms@[j as int].1 <= ms@[j + 1].0);
                    }
                }
            }
        } else if find_overlap_keyword(&e.tags, s, en) {
            proof {
                assert(!scan_hits_ok(e.tags@, ms@));
            }
            return Err(IndexError::OverlappingMatch { unit: e.index, start: s, end: en });
        } else {
            let kb = subrange_vec(&e.string, s, en);
            match keywords.lookup(kb.as_slice()) {
                Some(k) => {
                    let t = TaggedRange { start: s, end: en, tag: InlineTag::ImplicitKeyword(k) };
                    let ghost tags_pre = new_tags@;
                    new_tags.push(t);
                    let ghost rows = implicit@;
                    push_occurrence(implicit, k, e.index);
                    proof {
                        let added_new = added_tags_upto(*e, ms@, j + 1, v);
                        assert(spec_contains_fold(v, e.string@.subrange(s as int, en as int)));
                        assert(added_new == added_pre.push(t));
                        assert(new_tags@ =~= e.tags@ + added_new);
                        assert forall|k2: int| 0 <= k2 < v.len()
                            implies (#[trigger] implicit@[k2])@ == im0[k2]@ + repeat_index(
                                e.index,
                                count_implicit_upto(added_new, added_new.len() as int, k2),
                            ) by {
                            lemma_count_implicit_agree(
                                added_new,
                                added_pre,
                                added_pre.len() as int,
                                k2,
                            );
                            lemma_count_implicit_nonneg(added_pre, added_pre.len() as int, k2);
                            if k2 == k {
                                assert(implicit@[k2]@ == rows[k2]@.push(e.index));
                                assert(count_implicit_upto(added_new, added_new.len() as int, k2)
                                    == count_implicit_upto(added_pre, added_pre.len() as int, k2)
                                    + 1);
                                assert(im0[k2]@ + repeat_index(
                                    e.index,
                                    count_implicit_upto(added_new, added_new.len() as int, k2),
                                ) =~= (im0[k2]@ + repeat_index(
                                    e.index,
                                    count_implicit_upto(added_pre, added_pre.len() as int, k2),
                                )).push(e.index));
                            } else {
                                assert(implicit@[k2] == rows[k2]);
                                assert(count_implicit_upto(added_new, added_new.len() as int, k2)
                                    == count_implicit_upto(added_pre, added_pre.len() as int, k2));
                            }
                        }
                        // the new tag overlaps no keyword tag already present
                        assert forall|i2: int, j2: int|
                            0 <= i2 < j2 < new_tags@.len() && tag_is_keyword(new_tags@[i2].tag)
                                && tag_is_keyword(new_tags@[j2].tag)
                            implies ranges_disjoint(
                                #[trigger] new_tags@[i2],
                                #[trigger] new_tags@[j2],
                            ) by {
                            if j2 == new_tags@.len() - 1 {
                                if i2 < e.tags@.len() {
                                    assert(!(tag_is_keyword(e.tags@[i2].tag) && e.tags@[i2].start
                                        < en && s < e.tags@[i2].end));
                                } else {
                                    assert(tags_pre[i2].end <= ms@[j as int].0);
                                }
                            } else {
                                assert(ranges_disjoint(tags_pre[i2], tags_pre[j2]));
                            }
                        }
                        assert forall|i2: int|
                            e.tags@.len() <= i2 < new_tags@.len()
                            implies (j + 1 >= nm || (#[trigger] new_tags@[i2]).end
                                <= ms@[j + 1].0) by {
                            if j + 1 < nm {
                                assert(ms@[j as int].1 <= ms@[j + 1].0);
                                if i2 < new_tags@.len() - 1 {
                                    assert(tags_pre[i2].end <= ms@[j as int].0);
                                    assert(ms@[j as int].0 <= ms@[j as int].1);
                                }
                            }
                        }
                    }
                },
                None => {
                    proof {
                        assert(added_tags_upto(*e, ms@, j + 1, v) == added_pre);
                        assert forall|i2: int|
                            e.tags@.len() <= i2 < new_tags@.len()
                            implies (j + 1 >= nm || (#[trigger] new_tags@[i2]).end
                                <= ms@[j + 1].0) by {
                            if j + 1 < nm {
                                assert(new_tags@[i2].end <= ms@[j as int].0);
                                assert(ms@[j as int].0 <= ms@[j as int].1);
                                assert(ms@[j as int].1 <= ms@[j + 1].0);
                            }
                        }
                    }
                },
            }
        }
        j = j + 1;
    }
    let e2 = InlineElement { index: e.index, string: clone_bytes(&e.string), tags: new_tags };
    proof {
        assert(inline_wf(e2, v));
    }
    Ok(e2)
}

} // verus!

verus! {

/// The scan hits for a text: what the matcher finds, or nothing when there
/// is no matcher.
pub open spec fn opt_matches(m: Option<regex::bytes::Regex>, text: Seq<u8>) -> Seq<(usize, usize)> {
    match m {
        Some(re) => matches_in(re, text),
        None => Seq::empty(),
    }
}

/// How many explicit occurrences of keyword `k` a unit carries.
pub open spec fn unit_explicit_count(e: InlineElement, k: int) -> int {
    count_explicit_upto(e.tags@, e.tags@.len() as int, k)
}

/// How many implicit occurrences of keyword `k` indexing adds to a unit.
pub open spec fn unit_implicit_count(
    e: InlineElement,
    k: int,
    m: Option<regex::bytes::Regex>,
    v: Seq<Seq<u8>>,
) -> int {
    count_implicit_upto(
        added_tags(e, opt_matches(m, e.string@), v),
        added_tags(e, opt_matches(m, e.string@), v).len() as int,
        k,
    )
}

/// `b` is `a` after indexing: same index, same text, the old tags followed
/// by exactly the implicit tags the scan hits call for.
pub open spec fn scanned_unit(
    a: InlineElement,
    b: InlineElement,
    m: Option<regex::bytes::Regex>,
    v: Seq<Seq<u8>>,
) -> bool {
    &&& b.index == a.index
    &&& b.string@ == a.string@
    &&& b.tags@ == a.tags@ + added_tags(a, opt_matches(m, a.string@), v)
}

/// `ws` is `us` after indexing, unit by unit.
pub open spec fn units_scanned(
    us: Seq<InlineElement>,
    ws: Seq<InlineElement>,
    m: Option<regex::bytes::Regex>,
    v: Seq<Seq<u8>>,
) -> bool {
    &&& ws.len() == us.len()
    &&& forall|i: int| 0 <= i < us.len() ==> scanned_unit(#[trigger] us[i], ws[i], m, v)
}

/// Every unit's scan hits are acceptable: no hit partially overlaps a
/// keyword tag.
pub open spec fn units_hits_ok(us: Seq<InlineElement>, m: Option<regex::bytes::Regex>) -> bool {
    forall|i: int|
        0 <= i < us.len() ==> scan_hits_ok(
            (#[trigger] us[i]).tags@,
            opt_matches(m, us[i].string@),
        )
}

/// `b` is `a` after indexing, item for item: same text-unit run, and the
/// same nested list, recursively.
pub open spec fn item_scanned(
    a: ListItem,
    b: ListItem,
    m: Option<regex::bytes::Regex>,
    v: Seq<Seq<u8>>,
) -> bool
    decreases a,
{
    &&& units_scanned(a.text_content@, b.text_content@, m, v)
    &&& match (a.sub_list, b.sub_list) {
        (None, None) => true,
        (Some(x), Some(y)) => list_scanned(x, y, m, v),
        _ => false,
    }
}

/// `b` is `a` after indexing: same orderedness, same items, each scanned.
pub open spec fn list_scanned(
    a: List,
    b: List,
    m: Option<regex::bytes::Regex>,
    v: Seq<Seq<u8>>,
) -> bool
    decreases a,
{
    &&& b.ordered == a.ordered
    &&& b.items@.len() == a.items@.len()
    &&& forall|i: int|
        0 <= i < a.items@.len() ==> item_scanned(#[trigger] a.items@[i], b.items@[i], m, v)
}

/// `b` is `a` after indexing: the same kind of block, with its content
/// scanned.
pub open spec fn block_scanned(
    a: BlockElement,
    b: BlockElement,
    m: Option<regex::bytes::Regex>,
    v: Seq<Seq<u8>>,
) -> bool
    decreases a,
{
    match (a, b) {
        (BlockElement::Paragraph(x), BlockElement::Paragraph(y)) => units_scanned(x@, y@, m, v),
        (BlockElement::Rule, BlockElement::Rule) => true,
        (BlockElement::List(x), BlockElement::List(y)) => list_scanned(x, y, m, v),
        _ => false,
    }
}

/// `b` is `a` after indexing: title scanned, content scanned.
pub open spec fn section_scanned(
    a: Section,
    b: Section,
    m: Option<regex::bytes::Regex>,
    v: Seq<Seq<u8>>,
) -> bool
    decreases a,
{
    &&& scanned_unit(a.title, b.title, m, v)
    &&& content_scanned(a.content, b.content, m, v)
}

/// `b` is `a` after indexing, node for node: the same blocks in the same
/// order and of the same kinds, and the same sub-section tree, each part
/// scanned. Indexing never rearranges the document.
pub open spec fn content_scanned(
    a: SectionContent,
    b: SectionContent,
    m: Option<regex::bytes::Regex>,
    v: Seq<Seq<u8>>,
) -> bool
    decreases a,
{
    &&& b.blocks@.len() == a.blocks@.len()
    &&& forall|i: int|
        0 <= i < a.blocks@.len() ==> block_scanned(#[trigger] a.blocks@[i], b.blocks@[i], m, v)
    &&& b.sub_sections@.len() == a.sub_sections@.len()
    &&& forall|i: int|
        0 <= i < a.sub_sections@.len() ==> section_scanned(
            #[trigger] a.sub_sections@[i],
            b.sub_sections@[i],
            m,
            v,
        )
}

/// The explicit occurrence list of keyword `k` over the first `upto`
/// units, in document order: each unit's index, repeated once per explicit
/// tag of `k`.
pub open spec fn units_explicit_occs(us: Seq<InlineElement>, upto: int, k: int) -> Seq<usize>
    decreases upto,
{
    if upto <= 0 {
        Seq::empty()
    } else {
        units_explicit_occs(us, upto - 1, k) + repeat_index(
            us[upto - 1].index,
            unit_explicit_count(us[upto - 1], k),
        )
    }
}

/// The implicit occurrence list of keyword `k` over the first `upto`
/// units, in document order: each unit's index, repeated once per implicit
/// tag of `k` that indexing adds.
pub open spec fn units_implicit_occs(
    us: Seq<InlineElement>,
    upto: int,
    k: int,
    m: Option<regex::bytes::Regex>,
    v: Seq<Seq<u8>>,
) -> Seq<usize>
    decreases upto,
{
    if upto <= 0 {
        Seq::empty()
    } else {
        units_implicit_occs(us, upto - 1, k, m, v) + repeat_index(
            us[upto - 1].index,
            unit_implicit_count(us[upto - 1], k, m, v),
        )
    }
}

/// Occurrence lists agree when the unit lists agree on their prefix.
proof fn lemma_units_explicit_occs_agree(
    s1: Seq<InlineElement>,
    s2: Seq<InlineElement>,
    upto: int,
    k: int,
)
    requires
        forall|i: int| 0 <= i < upto ==> s1[i] == s2[i],
    ensures
        units_explicit_occs(s1, upto, k) == units_explicit_occs(s2, upto, k),
    decreases upto,
{
    if upto > 0 {
        lemma_units_explicit_occs_agree(s1, s2, upto - 1, k);
    }
}

/// Occurrence lists agree when the unit lists agree on their prefix.
proof fn lemma_units_implicit_occs_agree(
    s1: Seq<InlineElement>,
    s2: Seq<InlineElement>,
    upto: int,
    k: int,
    m: Option<regex::bytes::Regex>,
    v: Seq<Seq<u8>>,
)
    requires
        forall|i: int| 0 <= i < upto ==> s1[i] == s2[i],
    ensures
        units_implicit_occs(s1, upto, k, m, v) == units_implicit_occs(s2, upto, k, m, v),
    decreases upto,
{
    if upto > 0 {
        lemma_units_implicit_occs_agree(s1, s2, upto - 1, k, m, v);
    }
}

/// Occurrence lists distribute over concatenation of unit runs.
proof fn lemma_units_explicit_occs_concat(a: Seq<InlineElement>, b: Seq<InlineElement>, k: int)
    ensures
        units_explicit_occs(a + b, (a + b).len() as int, k) == units_explicit_occs(
            a,
            a.len() as int,
            k,
        ) + units_explicit_occs(b, b.len() as int, k),
    decreases b.len(),
{
    if b.len() == 0 {
        assert(a + b =~= a);
        assert(units_explicit_occs(a, a.len() as int, k) + units_explicit_occs(b, 0, k)
            =~= units_explicit_occs(a, a.len() as int, k));
    } else {
        let b1 = b.drop_last();
        lemma_units_explicit_occs_concat(a, b1, k);
        lemma_units_explicit_occs_agree(a + b, a + b1, (a + b1).len() as int, k);
        lemma_units_explicit_occs_agree(b, b1, b1.len() as int, k);
        assert((a + b)[(a + b).len() - 1] == b[b.len() - 1]);
        assert(units_explicit_occs(a + b, (a + b).len() as int, k) =~= units_explicit_occs(
            a,
            a.len() as int,
            k,
        ) + units_explicit_occs(b, b.len() as int, k));
    }
}

/// Occurrence lists distribute over concatenation of unit runs.
proof fn lemma_units_implicit_occs_concat(
    a: Seq<InlineElement>,
    b: Seq<InlineElement>,
    k: int,
    m: Option<regex::bytes::Regex>,
    v: Seq<Seq<u8>>,
)
    ensures
        units_implicit_occs(a + b, (a + b).len() as int, k, m, v) == units_implicit_occs(
            a,
            a.len() as int,
            k,
            m,
            v,
        ) + units_implicit_occs(b, b.len() as int, k, m, v),
    decreases b.len(),
{
    if b.len() == 0 {
        assert(a + b =~= a);
        assert(units_implicit_occs(a, a.len() as int, k, m, v) + units_implicit_occs(
            b,
            0,
            k,
            m,
            v,
        ) =~= units_implicit_occs(a, a.len() as int, k, m, v));
    } else {
        let b1 = b.drop_last();
        lemma_units_implicit_occs_concat(a, b1, k, m, v);
        lemma_units_implicit_occs_agree(a + b, a + b1, (a + b1).len() as int, k, m, v);
        lemma_units_implicit_occs_agree(b, b1, b1.len() as int, k, m, v);
        assert((a + b)[(a + b).len() - 1] == b[b.len() - 1]);
        assert(units_implicit_occs(a + b, (a + b).len() as int, k, m, v)
            =~= units_implicit_occs(a, a.len() as int, k, m, v) + units_implicit_occs(
            b,
            b.len() as int,
            k,
            m,
            v,
        ));
    }
}

/// The scanned relation joins over concatenation.
proof fn lemma_units_scanned_concat(
    a1: Seq<InlineElement>,
    a2: Seq<InlineElement>,
    b1: Seq<InlineElement>,
    b2: Seq<InlineElement>,
    m: Option<regex::bytes::Regex>,
    v: Seq<Seq<u8>>,
)
    requires
        units_scanned(a1, b1, m, v),
        units_scanned(a2, b2, m, v),
    ensures
        units_scanned(a1 + a2, b1 + b2, m, v),
{
    assert forall|i: int| 0 <= i < (a1 + a2).len()
        implies scanned_unit(#[trigger] (a1 + a2)[i], (b1 + b2)[i], m, v) by {
        if i < a1.len() {
            assert((a1 + a2)[i] == a1[i]);
            assert((b1 + b2)[i] == b1[i]);
        } else {
            assert((a1 + a2)[i] == a2[i - a1.len()]);
            assert((b1 + b2)[i] == b2[i - a1.len()]);
        }
    }
}

/// Acceptable scan hits join and split over concatenation.
proof fn lemma_units_hits_ok_concat(
    a: Seq<InlineElement>,
    b: Seq<InlineElement>,
    m: Option<regex::bytes::Regex>,
)
    ensures
        units_hits_ok(a + b, m) <==> (units_hits_ok(a, m) && units_hits_ok(b, m)),
{
    if units_hits_ok(a + b, m) {
        assert forall|i: int| 0 <= i < a.len()
            implies scan_hits_ok((#[trigger] a[i]).tags@, opt_matches(m, a[i].string@)) by {
            assert((a + b)[i] == a[i]);
        }
        assert forall|i: int| 0 <= i < b.len()
            implies scan_hits_ok((#[trigger] b[i]).tags@, opt_matches(m, b[i].string@)) by {
            assert((a + b)[a.len() + i] == b[i]);
        }
    }
    if units_hits_ok(a, m) && units_hits_ok(b, m) {
        assert forall|i: int| 0 <= i < (a + b).len()
            implies scan_hits_ok(
                (#[trigger] (a + b)[i]).tags@,
                opt_matches(m, (a + b)[i].string@),
            ) by {
            if i < a.len() {
                assert((a + b)[i] == a[i]);
            } else {
                assert((a + b)[i] == b[i - a.len()]);
            }
        }
    }
}

/// Scan one unit: run the matcher over its text (when there is one) and
/// apply the indexing scan to the hits.
fn scan_unit(
    e: &InlineElement,
    m: &Option<regex::bytes::Regex>,
    keywords: &KeywordSet,
    explicit: &mut Vec<Vec<usize>>,
    implicit: &mut Vec<Vec<usize>>,
) -> (r: Result<InlineElement, IndexError>)
    requires
        vocab_wf(keywords@),
        inline_wf(*e, keywords@),
        old(explicit)@.len() == keywords@.len(),
        old(implicit)@.len() == keywords@.len(),
    ensures
        final(explicit)@.len() == keywords@.len(),
        final(implicit)@.len() == keywords@.len(),
        r is Ok <==> scan_hits_ok(e.tags@, opt_matches(*m, e.string@)),
        r matches Ok(e2) ==> {
            &&& scanned_unit(*e, e2, *m, keywords@)
            &&& inline_wf(e2, keywords@)
            &&& forall|k: int|
                0 <= k < keywords@.len() ==> (#[trigger] final(explicit)@[k])@ == old(
                    explicit,
                )@[k]@ + repeat_index(e.index, unit_explicit_count(*e, k))
            &&& forall|k: int|
                0 <= k < keywords@.len() ==> (#[trigger] final(implicit)@[k])@ == old(
                    implicit,
                )@[k]@ + repeat_index(e.index, unit_implicit_count(*e, k, *m, keywords@))
        },
{
    match m {
        Some(re) => {
            let ms = find_matches(re, e.string.as_slice());
            scan_inline(e, &ms, keywords, explicit, implicit)
        },
        None => {
            let ms: Vec<(usize, usize)> = Vec::new();
            proof {
                assert(ms@ =~= opt_matches(*m, e.string@));
            }
            scan_inline(e, &ms, keywords, explicit, implicit)
        },
    }
}

} // verus!

verus! {

/// Scan a run of inline units in order.
fn scan_inlines(
    v_in: &Vec<InlineElement>,
    m: &Option<regex::bytes::Regex>,
    keywords: &KeywordSet,
    explicit: &mut Vec<Vec<usize>>,
    implicit: &mut Vec<Vec<usize>>,
) -> (r: Result<Vec<InlineElement>, IndexError>)
    requires
        vocab_wf(keywords@),
        forall|i: int| 0 <= i < v_in@.len() ==> inline_wf(#[trigger] v_in@[i], keywords@),
        old(explicit)@.len() == keywords@.len(),
        old(implicit)@.len() == keywords@.len(),
    ensures
        final(explicit)@.len() == keywords@.len(),
        final(implicit)@.len() == keywords@.len(),
        r is Ok <==> units_hits_ok(v_in@, *m),
        r matches Ok(w) ==> {
            &&& units_scanned(v_in@, w@, *m, keywords@)
            &&& forall|i: int| 0 <= i < w@.len() ==> inline_wf(#[trigger] w@[i], keywords@)
            &&& forall|k: int|
                0 <= k < keywords@.len() ==> (#[trigger] final(explicit)@[k])@ == old(
                    explicit,
                )@[k]@ + units_explicit_occs(v_in@, v_in@.len() as int, k)
            &&& forall|k: int|
                0 <= k < keywords@.len() ==> (#[trigger] final(implicit)@[k])@ == old(
                    implicit,
                )@[k]@ + units_implicit_occs(v_in@, v_in@.len() as int, k, *m, keywords@)
        },
{
    let ghost v = keywords@;
    let ghost ex0 = explicit@;
    let ghost im0 = implicit@;
    let n = v_in.len();
    let mut out: Vec<InlineElement> = Vec::new();
    let mut i: usize = 0;
    while i < n
        invariant
            v == keywords@,
            ex0 == old(explicit)@,
            im0 == old(implicit)@,
            n == v_in@.len(),
            i <= n,
            vocab_wf(v),
            forall|j: int| 0 <= j < n ==> inline_wf(#[trigger] v_in@[j], v),
            out@.len() == i,
            explicit@.len() == v.len(),
            implicit@.len() == v.len(),
            forall|j: int| 0 <= j < i ==> scanned_unit(#[trigger] v_in@[j], out@[j], *m, v),
            forall|j: int| 0 <= j < i ==> inline_wf(#[trigger] out@[j], v),
            forall|j: int|
                0 <= j < i ==> scan_hits_ok(
                    (#[trigger] v_in@[j]).tags@,
                    opt_matches(*m, v_in@[j].string@),
                ),
            forall|k: int|
                0 <= k < v.len() ==> (#[trigger] explicit@[k])@ == ex0[k]@ + units_explicit_occs(
                    v_in@,
                    i as int,
                    k,
                ),
            forall|k: int|
                0 <= k < v.len() ==> (#[trigger] implicit@[k])@ == im0[k]@ + units_implicit_occs(
                    v_in@,
                    i as int,
                    k,
                    *m,
                    v,
                ),
        decreases n - i,
    {
        let ghost expre = explicit@;
        let ghost impre = implicit@;
        match scan_unit(&v_in[i], m, keywords, explicit, implicit) {
            Ok(e2) => {
                proof {
                    assert forall|k: int| 0 <= k < v.len()
                        implies (#[trigger] explicit@[k])@ == ex0[k]@ + units_explicit_occs(
                            v_in@,
                            i + 1,
                            k,
                        ) by {
                        assert(explicit@[k]@ == expre[k]@ + repeat_index(
                            v_in@[i as int].index,
                            unit_explicit_count(v_in@[i as int], k),
                        ));
                        assert(ex0[k]@ + units_explicit_occs(v_in@, i + 1, k)
                            =~= (ex0[k]@ + units_explicit_occs(v_in@, i as int, k)) + repeat_index(
                            v_in@[i as int].index,
                            unit_explicit_count(v_in@[i as int], k),
                        ));
                    }
                    assert forall|k: int| 0 <= k < v.len()
                        implies (#[trigger] implicit@[k])@ == im0[k]@ + units_implicit_occs(
                            v_in@,
                            i + 1,
                            k,
                            *m,
                            v,
                        ) by {
                        assert(implicit@[k]@ == impre[k]@ + repeat_index(
                            v_in@[i as int].index,
                            unit_implicit_count(v_in@[i as int], k, *m, v),
                        ));
                        assert(im0[k]@ + units_implicit_occs(v_in@, i + 1, k, *m, v)
                            =~= (im0[k]@ + units_implicit_occs(v_in@, i as int, k, *m, v))
                            + repeat_index(
                            v_in@[i as int].index,
                            unit_implicit_count(v_in@[i as int], k, *m, v),
                        ));
                    }
                }
                out.push(e2);
            },
            Err(er) => {
                proof {
                    assert(!scan_hits_ok(
                        v_in@[i as int].tags@,
                        opt_matches(*m, v_in@[i as int].string@),
                    ));
                }
                return Err(er);
            },
        }
        i = i + 1;
    }
    Ok(out)
}

} // verus!

verus! {

/// Scan one list item: its text content, then its nested list, if any.
fn scan_item(
    it: &ListItem,
    m: &Option<regex::bytes::Regex>,
    keywords: &KeywordSet,
    explicit: &mut Vec<Vec<usize>>,
    implicit: &mut Vec<Vec<usize>>,
) -> (r: Result<ListItem, IndexError>)
    requires
        vocab_wf(keywords@),
        item_wf(*it, keywords@),
        old(explicit)@.len() == keywords@.len(),
        old(implicit)@.len() == keywords@.len(),
    ensures
        final(explicit)@.len() == keywords@.len(),
        final(implicit)@.len() == keywords@.len(),
        r is Ok <==> units_hits_ok(units_of_item(*it), *m),
        r matches Ok(out) ==> {
            &&& item_wf(out, keywords@)
            &&& item_scanned(*it, out, *m, keywords@)
            &&& units_scanned(units_of_item(*it), units_of_item(out), *m, keywords@)
            &&& forall|k: int|
                0 <= k < keywords@.len() ==> (#[trigger] final(explicit)@[k])@ == old(
                    explicit,
                )@[k]@ + units_explicit_occs(
                    units_of_item(*it),
                    units_of_item(*it).len() as int,
                    k,
                )
            &&& forall|k: int|
                0 <= k < keywords@.len() ==> (#[trigger] final(implicit)@[k])@ == old(
                    implicit,
                )@[k]@ + units_implicit_occs(
                    units_of_item(*it),
                    units_of_item(*it).len() as int,
                    k,
                    *m,
                    keywords@,
                )
        },
    decreases *it,
{
    let ghost v = keywords@;
    let ghost ua = it.text_content@;
    let tc2 = match scan_inlines(&it.text_content, m, keywords, explicit, implicit) {
        Ok(w) => w,
        Err(e) => {
            proof {
                match &it.sub_list {
                    Some(sub) => {
                        assert(units_of_item(*it) == ua + units_of_list(*sub));
                        lemma_units_hits_ok_concat(ua, units_of_list(*sub), *m);
                    },
                    None => {
                        assert(units_of_item(*it) == ua + Seq::<InlineElement>::empty());
                        lemma_units_hits_ok_concat(ua, Seq::<InlineElement>::empty(), *m);
                    },
                }
            }
            return Err(e);
        },
    };
    match &it.sub_list {
        None => {
            let out = ListItem { text_content: tc2, sub_list: None };
            proof {
                assert(units_of_item(*it) =~= ua);
                assert(units_of_item(out) =~= tc2@);
                assert forall|k: int| 0 <= k < v.len()
                    implies (#[trigger] explicit@[k])@ == old(explicit)@[k]@
                        + units_explicit_occs(
                        units_of_item(*it),
                        units_of_item(*it).len() as int,
                        k,
                    ) by {
                    lemma_units_explicit_occs_agree(
                        units_of_item(*it),
                        ua,
                        ua.len() as int,
                        k,
                    );
                }
                assert forall|k: int| 0 <= k < v.len()
                    implies (#[trigger] implicit@[k])@ == old(implicit)@[k]@
                        + units_implicit_occs(
                        units_of_item(*it),
                        units_of_item(*it).len() as int,
                        k,
                        *m,
                        v,
                    ) by {
                    lemma_units_implicit_occs_agree(
                        units_of_item(*it),
                        ua,
                        ua.len() as int,
                        k,
                        *m,
                        v,
                    );
                }
                assert forall|i: int| 0 <= i < units_of_item(*it).len()
                    implies scanned_unit(
                        #[trigger] units_of_item(*it)[i],
                        units_of_item(out)[i],
                        *m,
                        v,
                    ) by {
                    assert(units_of_item(*it)[i] == ua[i]);
                    assert(units_of_item(out)[i] == tc2@[i]);
                }
                assert forall|i: int| 0 <= i < ua.len()
                    implies scan_hits_ok(
                        (#[trigger] units_of_item(*it)[i]).tags@,
                        opt_matches(*m, units_of_item(*it)[i].string@),
                    ) by {
                    assert(units_of_item(*it)[i] == ua[i]);
                }
            }
            Ok(out)
        },
        Some(sub) => {
            let ghost ub = units_of_list(*sub);
            let sub2 = match scan_list(sub, m, keywords, explicit, implicit) {
                Ok(s2) => s2,
                Err(e) => {
                    proof {
                        assert(units_of_item(*it) == ua + ub);
                        lemma_units_hits_ok_concat(ua, ub, *m);
                    }
                    return Err(e);
                },
            };
            let out = ListItem { text_content: tc2, sub_list: Some(sub2) };
            proof {
                assert(units_of_item(*it) == ua + ub);
                assert(units_of_item(out) == tc2@ + units_of_list(sub2));
                lemma_units_scanned_concat(ua, ub, tc2@, units_of_list(sub2), *m, v);
                lemma_units_hits_ok_concat(ua, ub, *m);
                assert forall|k: int| 0 <= k < v.len()
                    implies (#[trigger] explicit@[k])@ == old(explicit)@[k]@
                        + units_explicit_occs(
                        units_of_item(*it),
                        units_of_item(*it).len() as int,
                        k,
                    ) by {
                    lemma_units_explicit_occs_concat(ua, ub, k);
                    assert(old(explicit)@[k]@ + (units_explicit_occs(ua, ua.len() as int, k)
                        + units_explicit_occs(ub, ub.len() as int, k)) =~= (old(
                        explicit,
                    )@[k]@ + units_explicit_occs(ua, ua.len() as int, k)) + units_explicit_occs(
                        ub,
                        ub.len() as int,
                        k,
                    ));
                }
                assert forall|k: int| 0 <= k < v.len()
                    implies (#[trigger] implicit@[k])@ == old(implicit)@[k]@
                        + units_implicit_occs(
                        units_of_item(*it),
                        units_of_item(*it).len() as int,
                        k,
                        *m,
                        v,
                    ) by {
                    lemma_units_implicit_occs_concat(ua, ub, k, *m, v);
                    assert(old(implicit)@[k]@ + (units_implicit_occs(ua, ua.len() as int, k, *m, v)
                        + units_implicit_occs(ub, ub.len() as int, k, *m, v)) =~= (old(
                        implicit,
                    )@[k]@ + units_implicit_occs(ua, ua.len() as int, k, *m, v))
                        + units_implicit_occs(ub, ub.len() as int, k, *m, v));
                }
            }
            Ok(out)
        },
    }
}

/// Scan a list: every item in order.
fn scan_list(
    l: &List,
    m: &Option<regex::bytes::Regex>,
    keywords: &KeywordSet,
    explicit: &mut Vec<Vec<usize>>,
    implicit: &mut Vec<Vec<usize>>,
) -> (r: Result<List, IndexError>)
    requires
        vocab_wf(keywords@),
        list_wf(*l, keywords@),
        old(explicit)@.len() == keywords@.len(),
        old(implicit)@.len() == keywords@.len(),
    ensures
        final(explicit)@.len() == keywords@.len(),
        final(implicit)@.len() == keywords@.len(),
        r is Ok <==> units_hits_ok(units_of_list(*l), *m),
        r matches Ok(out) ==> {
            &&& out.ordered == l.ordered
            &&& list_wf(out, keywords@)
            &&& list_scanned(*l, out, *m, keywords@)
            &&& units_scanned(units_of_list(*l), units_of_list(out), *m, keywords@)
            &&& forall|k: int|
                0 <= k < keywords@.len() ==> (#[trigger] final(explicit)@[k])@ == old(
                    explicit,
                )@[k]@ + units_explicit_occs(
                    units_of_list(*l),
                    units_of_list(*l).len() as int,
                    k,
                )
            &&& forall|k: int|
                0 <= k < keywords@.len() ==> (#[trigger] final(implicit)@[k])@ == old(
                    implicit,
                )@[k]@ + units_implicit_occs(
                    units_of_list(*l),
                    units_of_list(*l).len() as int,
                    k,
                    *m,
                    keywords@,
                )
        },
    decreases *l,
{
    let ghost v = keywords@;
    let ghost ex0 = explicit@;
    let ghost im0 = implicit@;
    let ghost all = units_of_items(l.items@, 0);
    let n = l.items.len();
    let mut out_items: Vec<ListItem> = Vec::new();
    let ghost mut done: Seq<InlineElement> = Seq::empty();
    let mut i: usize = 0;
    proof {
        assert(all =~= done + units_of_items(l.items@, 0));
    }
    while i < n
        invariant
            v == keywords@,
            ex0 == old(explicit)@,
            im0 == old(implicit)@,
            n == l.items@.len(),
            i <= n,
            vocab_wf(v),
            list_wf(*l, v),
            all == units_of_items(l.items@, 0),
            all == done + units_of_items(l.items@, i as int),
            out_items@.len() == i,
            explicit@.len() == v.len(),
            implicit@.len() == v.len(),
            forall|j: int| 0 <= j < i ==> item_wf(#[trigger] out_items@[j], v),
            forall|j: int|
                0 <= j < i ==> item_scanned(#[trigger] l.items@[j], out_items@[j], *m, v),
            units_scanned(done, units_of_items(out_items@, 0), *m, v),
            units_hits_ok(done, *m),
            forall|k: int|
                0 <= k < v.len() ==> (#[trigger] explicit@[k])@ == ex0[k]@ + units_explicit_occs(
                    done,
                    done.len() as int,
                    k,
                ),
            forall|k: int|
                0 <= k < v.len() ==> (#[trigger] implicit@[k])@ == im0[k]@ + units_implicit_occs(
                    done,
                    done.len() as int,
                    k,
                    *m,
                    v,
                ),
        decreases n - i,
    {
        let ghost ui = units_of_item(l.items@[i as int]);
        let ghost rest = units_of_items(l.items@, i + 1);
        proof {
            assert(item_wf(l.items@[i as int], v));
            assert(units_of_items(l.items@, i as int) == ui + rest);
        }
        let ghost expre = explicit@;
        let ghost impre = implicit@;
        match scan_item(&l.items[i], m, keywords, explicit, implicit) {
            Ok(it2) => {
                proof {
                    lemma_units_scanned_concat(
                        done,
                        ui,
                        units_of_items(out_items@, 0),
                        units_of_item(it2),
                        *m,
                        v,
                    );
                    crate::ast::lemma_units_of_items_push(out_items@, it2, 0);
                    lemma_units_hits_ok_concat(done, ui, *m);
                    assert forall|k: int| 0 <= k < v.len()
                        implies (#[trigger] explicit@[k])@ == ex0[k]@ + units_explicit_occs(
                            done + ui,
                            (done + ui).len() as int,
                            k,
                        ) by {
                        lemma_units_explicit_occs_concat(done, ui, k);
                        assert(ex0[k]@ + (units_explicit_occs(done, done.len() as int, k)
                            + units_explicit_occs(ui, ui.len() as int, k)) =~= (ex0[k]@
                            + units_explicit_occs(done, done.len() as int, k))
                            + units_explicit_occs(ui, ui.len() as int, k));
                    }
                    assert forall|k: int| 0 <= k < v.len()
                        implies (#[trigger] implicit@[k])@ == im0[k]@ + units_implicit_occs(
                            done + ui,
                            (done + ui).len() as int,
                            k,
                            *m,
                            v,
                        ) by {
                        lemma_units_implicit_occs_concat(done, ui, k, *m, v);
                        assert(im0[k]@ + (units_implicit_occs(done, done.len() as int, k, *m, v)
                            + units_implicit_occs(ui, ui.len() as int, k, *m, v)) =~= (im0[k]@
                            + units_implicit_occs(done, done.len() as int, k, *m, v))
                            + units_implicit_occs(ui, ui.len() as int, k, *m, v));
                    }
                    done = done + ui;
                    assert(all =~= done + rest);
                }
                out_items.push(it2);
            },
            Err(e) => {
                proof {
                    lemma_units_hits_ok_concat(done, units_of_items(l.items@, i as int), *m);
                    lemma_units_hits_ok_concat(ui, rest, *m);
                }
                return Err(e);
            },
        }
        i = i + 1;
    }
    let out = List { ordered: l.ordered, items: out_items };
    proof {
        assert(units_of_items(l.items@, n as int) =~= Seq::<InlineElement>::empty());
        assert(all =~= done);
        assert(units_of_list(*l) == all);
        assert(units_of_list(out) == units_of_items(out.items@, 0));
    }
    Ok(out)
}

/// Scan one block element.
fn scan_block(
    b: &BlockElement,
    m: &Option<regex::bytes::Regex>,
    keywords: &KeywordSet,
    explicit: &mut Vec<Vec<usize>>,
    implicit: &mut Vec<Vec<usize>>,
) -> (r: Result<BlockElement, IndexError>)
    requires
        vocab_wf(keywords@),
        block_wf(*b, keywords@),
        old(explicit)@.len() == keywords@.len(),
        old(implicit)@.len() == keywords@.len(),
    ensures
        final(explicit)@.len() == keywords@.len(),
        final(implicit)@.len() == keywords@.len(),
        r is Ok <==> units_hits_ok(units_of_block(*b), *m),
        r matches Ok(out) ==> {
            &&& block_wf(out, keywords@)
            &&& block_scanned(*b, out, *m, keywords@)
            &&& units_scanned(units_of_block(*b), units_of_block(out), *m, keywords@)
            &&& forall|k: int|
                0 <= k < keywords@.len() ==> (#[trigger] final(explicit)@[k])@ == old(
                    explicit,
                )@[k]@ + units_explicit_occs(
                    units_of_block(*b),
                    units_of_block(*b).len() as int,
                    k,
                )
            &&& forall|k: int|
                0 <= k < keywords@.len() ==> (#[trigger] final(implicit)@[k])@ == old(
                    implicit,
                )@[k]@ + units_implicit_occs(
                    units_of_block(*b),
                    units_of_block(*b).len() as int,
                    k,
                    *m,
                    keywords@,
                )
        },
    decreases *b,
{
    match b {
        BlockElement::Paragraph(inlines) => {
            match scan_inlines(inlines, m, keywords, explicit, implicit) {
                Ok(w) => Ok(BlockElement::Paragraph(w)),
                Err(e) => Err(e),
            }
        },
        BlockElement::Rule => {
            proof {
                assert forall|k: int| 0 <= k < keywords@.len()
                    implies (#[trigger] explicit@[k])@ == old(explicit)@[k]@
                        + units_explicit_occs(
                        units_of_block(*b),
                        units_of_block(*b).len() as int,
                        k,
                    ) by {
                    assert(explicit@[k]@ + Seq::<usize>::empty() =~= explicit@[k]@);
                }
                assert forall|k: int| 0 <= k < keywords@.len()
                    implies (#[trigger] implicit@[k])@ == old(implicit)@[k]@
                        + units_implicit_occs(
                        units_of_block(*b),
                        units_of_block(*b).len() as int,
                        k,
                        *m,
                        keywords@,
                    ) by {
                    assert(implicit@[k]@ + Seq::<usize>::empty() =~= implicit@[k]@);
                }
            }
            Ok(BlockElement::Rule)
        },
        BlockElement::List(l) => {
            match scan_list(l, m, keywords, explicit, implicit) {
                Ok(l2) => Ok(BlockElement::List(l2)),
                Err(e) => Err(e),
            }
        },
    }
}

} // verus!

verus! {

/// Scan a section: its title, then its content, depth-first.
fn scan_section(
    s: &Section,
    level: u8,
    m: &Option<regex::bytes::Regex>,
    keywords: &KeywordSet,
    explicit: &mut Vec<Vec<usize>>,
    implicit: &mut Vec<Vec<usize>>,
) -> (r: Result<Section, IndexError>)
    requires
        vocab_wf(keywords@),
        1 <= level <= 6,
        section_wf(*s, level as int, keywords@),
        old(explicit)@.len() == keywords@.len(),
        old(implicit)@.len() == keywords@.len(),
    ensures
        final(explicit)@.len() == keywords@.len(),
        final(implicit)@.len() == keywords@.len(),
        r is Ok <==> units_hits_ok(units_of_section(*s), *m),
        r matches Ok(out) ==> {
            &&& section_wf(out, level as int, keywords@)
            &&& section_scanned(*s, out, *m, keywords@)
            &&& units_scanned(units_of_section(*s), units_of_section(out), *m, keywords@)
            &&& forall|k: int|
                0 <= k < keywords@.len() ==> (#[trigger] final(explicit)@[k])@ == old(
                    explicit,
                )@[k]@ + units_explicit_occs(
                    units_of_section(*s),
                    units_of_section(*s).len() as int,
                    k,
                )
            &&& forall|k: int|
                0 <= k < keywords@.len() ==> (#[trigger] final(implicit)@[k])@ == old(
                    implicit,
                )@[k]@ + units_implicit_occs(
                    units_of_section(*s),
                    units_of_section(*s).len() as int,
                    k,
                    *m,
                    keywords@,
                )
        },
    decreases *s,
{
    let ghost v = keywords@;
    let ghost ut = seq![s.title];
    let ghost uc = units_of_content(s.content);
    proof {
        assert(units_of_section(*s) == ut + uc);
    }
    let title2 = match scan_unit(&s.title, m, keywords, explicit, implicit) {
        Ok(t2) => t2,
        Err(e) => {
            proof {
                assert(units_of_section(*s)[0] == s.title);
                assert(!units_hits_ok(units_of_section(*s), *m));
            }
            return Err(e);
        },
    };
    let content2 = match scan_content(&s.content, level, m, keywords, explicit, implicit) {
        Ok(c2) => c2,
        Err(e) => {
            proof {
                lemma_units_hits_ok_concat(ut, uc, *m);
            }
            return Err(e);
        },
    };
    let out = Section { title: title2, content: content2 };
    proof {
        assert(units_of_section(out) == seq![out.title] + units_of_content(out.content));
        lemma_units_scanned_concat(ut, uc, seq![out.title], units_of_content(out.content), *m, v);
        lemma_units_hits_ok_concat(ut, uc, *m);
        assert forall|i: int| 0 <= i < ut.len()
            implies scan_hits_ok(
                (#[trigger] ut[i]).tags@,
                opt_matches(*m, ut[i].string@),
            ) by {
            assert(ut[i] == s.title);
        }
        assert forall|k: int| 0 <= k < v.len()
            implies (#[trigger] explicit@[k])@ == old(explicit)@[k]@ + units_explicit_occs(
                units_of_section(*s),
                units_of_section(*s).len() as int,
                k,
            ) by {
            lemma_units_explicit_occs_concat(ut, uc, k);
            assert(ut[0] == s.title);
            assert(units_explicit_occs(ut, 0, k) =~= Seq::<usize>::empty());
            assert(units_explicit_occs(ut, 1, k) =~= repeat_index(
                s.title.index,
                unit_explicit_count(s.title, k),
            ));
            assert(old(explicit)@[k]@ + (units_explicit_occs(ut, 1, k) + units_explicit_occs(
                uc,
                uc.len() as int,
                k,
            )) =~= (old(explicit)@[k]@ + units_explicit_occs(ut, 1, k)) + units_explicit_occs(
                uc,
                uc.len() as int,
                k,
            ));
        }
        assert forall|k: int| 0 <= k < v.len()
            implies (#[trigger] implicit@[k])@ == old(implicit)@[k]@ + units_implicit_occs(
                units_of_section(*s),
                units_of_section(*s).len() as int,
                k,
                *m,
                v,
            ) by {
            lemma_units_implicit_occs_concat(ut, uc, k, *m, v);
            assert(ut[0] == s.title);
            assert(units_implicit_occs(ut, 0, k, *m, v) =~= Seq::<usize>::empty());
            assert(units_implicit_occs(ut, 1, k, *m, v) =~= repeat_index(
                s.title.index,
                unit_implicit_count(s.title, k, *m, v),
            ));
            assert(old(implicit)@[k]@ + (units_implicit_occs(ut, 1, k, *m, v)
                + units_implicit_occs(uc, uc.len() as int, k, *m, v)) =~= (old(
                implicit,
            )@[k]@ + units_implicit_occs(ut, 1, k, *m, v)) + units_implicit_occs(
                uc,
                uc.len() as int,
                k,
                *m,
                v,
            ));
        }
    }
    Ok(out)
}

/// Scan a section's content: every block, then every sub-section,
/// depth-first in pre-order.
fn scan_content(
    c: &SectionContent,
    level: u8,
    m: &Option<regex::bytes::Regex>,
    keywords: &KeywordSet,
    explicit: &mut Vec<Vec<usize>>,
    implicit: &mut Vec<Vec<usize>>,
) -> (r: Result<SectionContent, IndexError>)
    requires
        vocab_wf(keywords@),
        level <= 6,
        section_content_wf(*c, level as int, keywords@),
        old(explicit)@.len() == keywords@.len(),
        old(implicit)@.len() == keywords@.len(),
    ensures
        final(explicit)@.len() == keywords@.len(),
        final(implicit)@.len() == keywords@.len(),
        r is Ok <==> units_hits_ok(units_of_content(*c), *m),
        r matches Ok(out) ==> {
            &&& section_content_wf(out, level as int, keywords@)
            &&& content_scanned(*c, out, *m, keywords@)
            &&& units_scanned(units_of_content(*c), units_of_content(out), *m, keywords@)
            &&& forall|k: int|
                0 <= k < keywords@.len() ==> (#[trigger] final(explicit)@[k])@ == old(
                    explicit,
                )@[k]@ + units_explicit_occs(
                    units_of_content(*c),
                    units_of_content(*c).len() as int,
                    k,
                )
            &&& forall|k: int|
                0 <= k < keywords@.len() ==> (#[trigger] final(implicit)@[k])@ == old(
                    implicit,
                )@[k]@ + units_implicit_occs(
                    units_of_content(*c),
                    units_of_content(*c).len() as int,
                    k,
                    *m,
                    keywords@,
                )
        },
    decreases *c,
{
    let ghost v = keywords@;
    let ghost ex0 = explicit@;
    let ghost im0 = implicit@;
    let ghost allb = units_of_blocks(c.blocks@, 0);
    let ghost alls = units_of_sections(c.sub_sections@, 0);
    proof {
        assert(units_of_content(*c) == allb + alls);
    }
    let nb = c.blocks.len();
    let mut out_blocks: Vec<BlockElement> = Vec::new();
    let ghost mut done: Seq<InlineElement> = Seq::empty();
    let mut i: usize = 0;
    proof {
        assert(allb =~= done + units_of_blocks(c.blocks@, 0));
    }
    while i < nb
        invariant
            v == keywords@,
            ex0 == old(explicit)@,
            im0 == old(implicit)@,
            nb == c.blocks@.len(),
            i <= nb,
            vocab_wf(v),
            section_content_wf(*c, level as int, v),
            level <= 6,
            allb == units_of_blocks(c.blocks@, 0),
            alls == units_of_sections(c.sub_sections@, 0),
            allb == done + units_of_blocks(c.blocks@, i as int),
            out_blocks@.len() == i,
            explicit@.len() == v.len(),
            implicit@.len() == v.len(),
            forall|j: int| 0 <= j < i ==> block_wf(#[trigger] out_blocks@[j], v),
            forall|j: int|
                0 <= j < i ==> block_scanned(#[trigger] c.blocks@[j], out_blocks@[j], *m, v),
            units_scanned(done, units_of_blocks(out_blocks@, 0), *m, v),
            units_hits_ok(done, *m),
            forall|k: int|
                0 <= k < v.len() ==> (#[trigger] explicit@[k])@ == ex0[k]@ + units_explicit_occs(
                    done,
                    done.len() as int,
                    k,
                ),
            forall|k: int|
                0 <= k < v.len() ==> (#[trigger] implicit@[k])@ == im0[k]@ + units_implicit_occs(
                    done,
                    done.len() as int,
                    k,
                    *m,
                    v,
                ),
        decreases nb - i,
    {
        let ghost ui = units_of_block(c.blocks@[i as int]);
        let ghost rest = units_of_blocks(c.blocks@, i + 1);
        proof {
            assert(block_wf(c.blocks@[i as int], v));
            assert(units_of_blocks(c.blocks@, i as int) == ui + rest);
        }
        match scan_block(&c.blocks[i], m, keywords, explicit, implicit) {
            Ok(b2) => {
                proof {
                    lemma_units_scanned_concat(
                        done,
                        ui,
                        units_of_blocks(out_blocks@, 0),
                        units_of_block(b2),
                        *m,
                        v,
                    );
                    crate::ast::lemma_units_of_blocks_push(out_blocks@, b2, 0);
                    lemma_units_hits_ok_concat(done, ui, *m);
                    assert forall|k: int| 0 <= k < v.len()
                        implies (#[trigger] explicit@[k])@ == ex0[k]@ + units_explicit_occs(
                            done + ui,
                            (done + ui).len() as int,
                            k,
                        ) by {
                        lemma_units_explicit_occs_concat(done, ui, k);
                        assert(ex0[k]@ + (units_explicit_occs(done, done.len() as int, k)
                            + units_explicit_occs(ui, ui.len() as int, k)) =~= (ex0[k]@
                            + units_explicit_occs(done, done.len() as int, k))
                            + units_explicit_occs(ui, ui.len() as int, k));
                    }
                    assert forall|k: int| 0 <= k < v.len()
                        implies (#[trigger] implicit@[k])@ == im0[k]@ + units_implicit_occs(
                            done + ui,
                            (done + ui).len() as int,
                            k,
                            *m,
                            v,
                        ) by {
                        lemma_units_implicit_occs_concat(done, ui, k, *m, v);
                        assert(im0[k]@ + (units_implicit_occs(done, done.len() as int, k, *m, v)
                            + units_implicit_occs(ui, ui.len() as int, k, *m, v)) =~= (im0[k]@
                            + units_implicit_occs(done, done.len() as int, k, *m, v))
                            + units_implicit_occs(ui, ui.len() as int, k, *m, v));
                    }
                    done = done + ui;
                    assert(allb =~= done + rest);
                }
                out_blocks.push(b2);
            },
            Err(e) => {
                proof {
                    lemma_units_hits_ok_concat(done, units_of_blocks(c.blocks@, i as int), *m);
                    lemma_units_hits_ok_concat(ui, rest, *m);
                    assert(units_of_content(*c) == allb + alls);
                    lemma_units_hits_ok_concat(allb, alls, *m);
                }
                return Err(e);
            },
        }
        i = i + 1;
    }
    proof {
        assert(units_of_blocks(c.blocks@, nb as int) =~= Seq::<InlineElement>::empty());
        assert(allb =~= done);
    }
    let ns = c.sub_sections.len();
    let mut out_subs: Vec<Section> = Vec::new();
    let ghost mut sdone: Seq<InlineElement> = Seq::empty();
    let mut i: usize = 0;
    proof {
        assert(alls =~= sdone + units_of_sections(c.sub_sections@, 0));
    }
    while i < ns
        invariant
            v == keywords@,
            ex0 == old(explicit)@,
            im0 == old(implicit)@,
            ns == c.sub_sections@.len(),
            i <= ns,
            vocab_wf(v),
            section_content_wf(*c, level as int, v),
            level <= 6,
            allb == units_of_blocks(c.blocks@, 0),
            alls == units_of_sections(c.sub_sections@, 0),
            alls == sdone + units_of_sections(c.sub_sections@, i as int),
            out_subs@.len() == i,
            explicit@.len() == v.len(),
            implicit@.len() == v.len(),
            forall|j: int|
                0 <= j < i ==> section_wf(#[trigger] out_subs@[j], level + 1, v),
            forall|j: int|
                0 <= j < i ==> section_scanned(
                    #[trigger] c.sub_sections@[j],
                    out_subs@[j],
                    *m,
                    v,
                ),
            units_scanned(sdone, units_of_sections(out_subs@, 0), *m, v),
            units_hits_ok(allb, *m),
            units_hits_ok(sdone, *m),
            forall|k: int|
                0 <= k < v.len() ==> (#[trigger] explicit@[k])@ == ex0[k]@ + units_explicit_occs(
                    allb + sdone,
                    (allb + sdone).len() as int,
                    k,
                ),
            forall|k: int|
                0 <= k < v.len() ==> (#[trigger] implicit@[k])@ == im0[k]@ + units_implicit_occs(
                    allb + sdone,
                    (allb + sdone).len() as int,
                    k,
                    *m,
                    v,
                ),
        decreases ns - i,
    {
        let ghost ui = units_of_section(c.sub_sections@[i as int]);
        let ghost rest = units_of_sections(c.sub_sections@, i + 1);
        proof {
            assert(section_wf(c.sub_sections@[i as int], level + 1, v));
            assert(units_of_sections(c.sub_sections@, i as int) == ui + rest);
        }
        match scan_section(&c.sub_sections[i], level + 1, m, keywords, explicit, implicit) {
            Ok(s2) => {
                proof {
                    lemma_units_scanned_concat(
                        sdone,
                        ui,
                        units_of_sections(out_subs@, 0),
                        units_of_section(s2),
                        *m,
                        v,
                    );
                    crate::ast::lemma_units_of_sections_push(out_subs@, s2, 0);
                    lemma_units_hits_ok_concat(sdone, ui, *m);
                    assert forall|k: int| 0 <= k < v.len()
                        implies (#[trigger] explicit@[k])@ == ex0[k]@ + units_explicit_occs(
                            allb + (sdone + ui),
                            (allb + (sdone + ui)).len() as int,
                            k,
                        ) by {
                        lemma_units_explicit_occs_concat(allb + sdone, ui, k);
                        lemma_units_explicit_occs_agree(
                            (allb + sdone) + ui,
                            allb + (sdone + ui),
                            ((allb + sdone) + ui).len() as int,
                            k,
                        );
                        assert(((allb + sdone) + ui).len() == (allb + (sdone + ui)).len());
                        assert(ex0[k]@ + (units_explicit_occs(
                            allb + sdone,
                            (allb + sdone).len() as int,
                            k,
                        ) + units_explicit_occs(ui, ui.len() as int, k)) =~= (ex0[k]@
                            + units_explicit_occs(allb + sdone, (allb + sdone).len() as int, k))
                            + units_explicit_occs(ui, ui.len() as int, k));
                    }
                    assert forall|k: int| 0 <= k < v.len()
                        implies (#[trigger] implicit@[k])@ == im0[k]@ + units_implicit_occs(
                            allb + (sdone + ui),
                            (allb + (sdone + ui)).len() as int,
                            k,
                            *m,
                            v,
                        ) by {
                        lemma_units_implicit_occs_concat(allb + sdone, ui, k, *m, v);
                        lemma_units_implicit_occs_agree(
                            (allb + sdone) + ui,
                            allb + (sdone + ui),
                            ((allb + sdone) + ui).len() as int,
                            k,
                            *m,
                            v,
                        );
                        assert(((allb + sdone) + ui).len() == (allb + (sdone + ui)).len());
                        assert(im0[k]@ + (units_implicit_occs(
                            allb + sdone,
                            (allb + sdone).len() as int,
                            k,
                            *m,
                            v,
                        ) + units_implicit_occs(ui, ui.len() as int, k, *m, v)) =~= (im0[k]@
                            + units_implicit_occs(
                            allb + sdone,
                            (allb + sdone).len() as int,
                            k,
                            *m,
                            v,
                        )) + units_implicit_occs(ui, ui.len() as int, k, *m, v));
                    }
                    sdone = sdone + ui;
                    assert(alls =~= sdone + rest);
                }
                out_subs.push(s2);
            },
            Err(e) => {
                proof {
                    lemma_units_hits_ok_concat(sdone, units_of_sections(c.sub_sections@, i as int), *m);
                    lemma_units_hits_ok_concat(ui, rest, *m);
                    assert(units_of_content(*c) == allb + alls);
                    lemma_units_hits_ok_concat(allb, alls, *m);
                }
                return Err(e);
            },
        }
        i = i + 1;
    }
    let out = SectionContent { blocks: out_blocks, sub_sections: out_subs };
    proof {
        assert(units_of_sections(c.sub_sections@, ns as int) =~= Seq::<InlineElement>::empty());
        assert(alls =~= sdone);
        assert(units_of_content(*c) == allb + alls);
        assert(units_of_content(out) == units_of_blocks(out.blocks@, 0) + units_of_sections(
            out.sub_sections@,
            0,
        ));
        lemma_units_scanned_concat(
            allb,
            alls,
            units_of_blocks(out.blocks@, 0),
            units_of_sections(out.sub_sections@, 0),
            *m,
            v,
        );
        lemma_units_hits_ok_concat(allb, alls, *m);
    }
    Ok(out)
}

} // verus!

verus! {

/// Apply the indexing scan to a section and every sub-section below it,
/// depth-first in pre-order: each section's title and blocks are scanned
/// in document order. On failure the section is left unchanged.
pub fn section_dfs_mut(
    s: &mut Section,
    level: u8,
    m: &Option<regex::bytes::Regex>,
    keywords: &KeywordSet,
    explicit: &mut Vec<Vec<usize>>,
    implicit: &mut Vec<Vec<usize>>,
) -> (r: Result<(), IndexError>)
    requires
        vocab_wf(keywords@),
        1 <= level <= 6,
        section_wf(*old(s), level as int, keywords@),
        old(explicit)@.len() == keywords@.len(),
        old(implicit)@.len() == keywords@.len(),
    ensures
        final(explicit)@.len() == keywords@.len(),
        final(implicit)@.len() == keywords@.len(),
        r is Ok <==> units_hits_ok(units_of_section(*old(s)), *m),
        r is Ok ==> {
            &&& section_wf(*final(s), level as int, keywords@)
            &&& section_scanned(*old(s), *final(s), *m, keywords@)
            &&& units_scanned(units_of_section(*old(s)), units_of_section(*final(s)), *m, keywords@)
            &&& forall|k: int|
                0 <= k < keywords@.len() ==> (#[trigger] final(explicit)@[k])@ == old(
                    explicit,
                )@[k]@ + units_explicit_occs(
                    units_of_section(*old(s)),
                    units_of_section(*old(s)).len() as int,
                    k,
                )
            &&& forall|k: int|
                0 <= k < keywords@.len() ==> (#[trigger] final(implicit)@[k])@ == old(
                    implicit,
                )@[k]@ + units_implicit_occs(
                    units_of_section(*old(s)),
                    units_of_section(*old(s)).len() as int,
                    k,
                    *m,
                    keywords@,
                )
        },
        r is Err ==> *final(s) == *old(s),
{
    match scan_section(&*s, level, m, keywords, explicit, implicit) {
        Ok(s2) => {
            *s = s2;
            Ok(())
        },
        Err(e) => Err(e),
    }
}

/// Every inline unit's scan hits under the vocabulary's own matcher are
/// acceptable: none partially overlaps a keyword tag. With an empty
/// vocabulary there is no matcher and nothing to hit.
pub open spec fn doc_hits_ok(document: Document, v: Seq<Seq<u8>>) -> bool {
    forall|i: int|
        0 <= i < units_of_content(document).len() ==> scan_hits_ok(
            (#[trigger] units_of_content(document)[i]).tags@,
            if v.len() == 0 {
                Seq::empty()
            } else {
                matches_of(spec_pattern(v), units_of_content(document)[i].string@)
            },
        )
}

/// The tree of `d` and its implicit occurrence lists are what indexing
/// `document` under the matcher `mm` produces: every inline unit scanned
/// in document order, and for every keyword the list of units that gained
/// an implicit tag of it.
pub open spec fn indexed_with(
    d: IndexedDocument,
    document: Document,
    v: Seq<Seq<u8>>,
    mm: Option<regex::bytes::Regex>,
) -> bool {
    &&& content_scanned(document, d.root, mm, v)
    &&& units_scanned(units_of_content(document), units_of_content(d.root), mm, v)
    &&& (v.len() == 0 ==> mm is None)
    &&& forall|k: int|
        0 <= k < v.len() ==> (#[trigger] d.implicit_keyword_occurrences@[k])@
            == units_implicit_occs(
            units_of_content(document),
            units_of_content(document).len() as int,
            k,
            mm,
            v,
        )
}

/// Everything indexing promises of a successful result `d` for the input
/// `document` under vocabulary `v`: the vocabulary is kept; the tree stays
/// well-formed; the occurrence tables cover every keyword; the explicit
/// lists are exactly the explicit tags in document order; and the tree and
/// implicit lists are what scanning with the vocabulary's own matcher
/// produces — no matcher at all for an empty vocabulary, else one whose
/// matches are the vocabulary pattern's matches.
pub open spec fn indexing_ok(d: IndexedDocument, document: Document, v: Seq<Seq<u8>>) -> bool {
    &&& d.keywords@ == v
    &&& section_content_wf(d.root, 0, v)
    &&& d.explicit_keyword_occurrences@.len() == v.len()
    &&& d.implicit_keyword_occurrences@.len() == v.len()
    &&& forall|k: int|
        0 <= k < v.len() ==> (#[trigger] d.explicit_keyword_occurrences@[k])@
            == units_explicit_occs(
            units_of_content(document),
            units_of_content(document).len() as int,
            k,
        )
    &&& (v.len() == 0 ==> indexed_with(d, document, v, None))
    &&& (v.len() > 0 ==> exists|re: regex::bytes::Regex| {
        &&& #[trigger] indexed_with(d, document, v, Some(re))
        &&& forall|t: Seq<u8>| #[trigger] matches_in(re, t) == matches_of(spec_pattern(v), t)
    })
}

/// The indexed document: the tree (now carrying implicit keyword tags),
/// the vocabulary, and for every keyword the ordered lists of inline units
/// in which it occurs explicitly and implicitly. Built once, then read.
#[derive(Debug)]
pub struct IndexedDocument {
    pub root: Document,
    pub keywords: KeywordSet,
    /// For each vocabulary index, the inline units carrying an explicit
    /// tag of that keyword, in document order, once per tag.
    pub explicit_keyword_occurrences: Vec<Vec<InlineIndex>>,
    /// For each vocabulary index, the inline units that gained an implicit
    /// tag of that keyword, in document order, once per tag.
    pub implicit_keyword_occurrences: Vec<Vec<InlineIndex>>,
}

impl IndexedDocument {
    /// Index a parsed document: build the keyword matcher from the
    /// vocabulary (none when the vocabulary is empty), scan every inline
    /// unit in document order, and collect the occurrence lists. The
    /// explicit lists depend only on the tree; the implicit lists and the
    /// added tags follow the matcher's hits, as named by `matches_in`.
    /// Fails when the matcher cannot be built or when a scan hit partially
    /// overlaps a keyword tag.
    #[verifier::rlimit(100)]
    pub fn from(document: Document, keywords: KeywordSet) -> (r: Result<IndexedDocument, IndexError>)
        requires
            vocab_wf(keywords@),
            section_content_wf(document, 0, keywords@),
        ensures
            r matches Ok(d) ==> indexing_ok(d, document, keywords@),
            keywords@.len() == 0 ==> r is Ok,
            r is Ok <==> ((keywords@.len() == 0 || builds(spec_pattern(keywords@)))
                && doc_hits_ok(document, keywords@)),
    {
        let matcher = match keyword_search_regex(&keywords) {
            Ok(m) => m,
            Err(e) => {
                return Err(e);
            },
        };
        let n = keywords.len();
        let mut explicit: Vec<Vec<usize>> = Vec::new();
        let mut implicit: Vec<Vec<usize>> = Vec::new();
        let mut i: usize = 0;
        while i < n
            invariant
                i <= n,
                explicit@.len() == i,
                implicit@.len() == i,
                forall|j: int| 0 <= j < i ==> (#[trigger] explicit@[j])@ == Seq::<usize>::empty(),
                forall|j: int| 0 <= j < i ==> (#[trigger] implicit@[j])@ == Seq::<usize>::empty(),
            decreases n - i,
        {
            explicit.push(Vec::new());
            implicit.push(Vec::new());
            i = i + 1;
        }
        proof {
            if keywords@.len() == 0 {
                assert forall|i: int| 0 <= i < units_of_content(document).len()
                    implies scan_hits_ok(
                        (#[trigger] units_of_content(document)[i]).tags@,
                        opt_matches(matcher, units_of_content(document)[i].string@),
                    ) by {
                    assert(matcher is None);
                    assert(opt_matches(matcher, units_of_content(document)[i].string@)
                        =~= Seq::<(usize, usize)>::empty());
                }
                assert forall|i: int| 0 <= i < units_of_content(document).len()
                    implies scan_hits_ok(
                        (#[trigger] units_of_content(document)[i]).tags@,
                        Seq::<(usize, usize)>::empty(),
                    ) by {
                    assert(opt_matches(matcher, units_of_content(document)[i].string@)
                        =~= Seq::<(usize, usize)>::empty());
                }
            } else {
                // the built matcher's hits are the vocabulary pattern's hits
                assert(matcher is Some);
                assert forall|i: int| 0 <= i < units_of_content(document).len()
                    implies opt_matches(matcher, (#[trigger] units_of_content(document)[i]).string@)
                        == matches_of(
                        spec_pattern(keywords@),
                        units_of_content(document)[i].string@,
                    ) by {}
            }
            assert(units_hits_ok(units_of_content(document), matcher)
                <==> doc_hits_ok(document, keywords@));
        }
        let root = match scan_content(&document, 0, &matcher, &keywords, &mut explicit, &mut implicit) {
            Ok(c) => c,
            Err(e) => {
                return Err(e);
            },
        };
        let d = IndexedDocument {
            root,
            keywords,
            explicit_keyword_occurrences: explicit,
            implicit_keyword_occurrences: implicit,
        };
        proof {
            assert(d.keywords == keywords);
            assert forall|k: int| 0 <= k < keywords@.len()
                implies (#[trigger] d.explicit_keyword_occurrences@[k])@ == units_explicit_occs(
                    units_of_content(document),
                    units_of_content(document).len() as int,
                    k,
                ) by {
                assert(Seq::<usize>::empty() + units_explicit_occs(
                    units_of_content(document),
                    units_of_content(document).len() as int,
                    k,
                ) =~= units_explicit_occs(
                    units_of_content(document),
                    units_of_content(document).len() as int,
                    k,
                ));
            }
            assert forall|k: int| 0 <= k < keywords@.len()
                implies (#[trigger] d.implicit_keyword_occurrences@[k])@ == units_implicit_occs(
                    units_of_content(document),
                    units_of_content(document).len() as int,
                    k,
                    matcher,
                    keywords@,
                ) by {
                assert(Seq::<usize>::empty() + units_implicit_occs(
                    units_of_content(document),
                    units_of_content(document).len() as int,
                    k,
                    matcher,
                    keywords@,
                ) =~= units_implicit_occs(
                    units_of_content(document),
                    units_of_content(document).len() as int,
                    k,
                    matcher,
                    keywords@,
                ));
            }
            assert(units_scanned(
                units_of_content(document),
                units_of_content(d.root),
                matcher,
                keywords@,
            ));
            assert(content_scanned(document, d.root, matcher, keywords@));
            assert(indexed_with(d, document, keywords@, matcher));
            if keywords@.len() > 0 {
                let reg = matcher->Some_0;
                assert(matcher == Some(reg));
                assert(indexed_with(d, document, keywords@, Some(reg)));
                assert(forall|t: Seq<u8>|
                    #[trigger] matches_in(reg, t) == matches_of(spec_pattern(keywords@), t));
                assert(exists|re: regex::bytes::Regex| {
                    &&& #[trigger] indexed_with(d, document, keywords@, Some(re))
                    &&& forall|t: Seq<u8>|
                        #[trigger] matches_in(re, t) == matches_of(spec_pattern(keywords@), t)
                });
            } else {
                assert(matcher is None);
                assert(indexed_with(d, document, keywords@, None));
            }
            assert(indexing_ok(d, document, keywords@));
        }
        Ok(d)
    }
}

} // verus!

verus! {

/// The law that a scan hit already covered by an explicit-keyword tag is
/// never duplicated as an implicit one: every tag that indexing adds is an
/// implicit-keyword tag whose range coincides exactly with no explicit
/// tag of the unit.
pub proof fn lemma_no_duplicate_explicit(
    e: InlineElement,
    ms: Seq<(usize, usize)>,
    upto: int,
    v: Seq<Seq<u8>>,
)
    ensures
        forall|i: int|
            0 <= i < added_tags_upto(e, ms, upto, v).len() ==> {
                &&& (#[trigger] added_tags_upto(e, ms, upto, v)[i]).tag is ImplicitKeyword
                &&& !match_exact_explicit(
                    e.tags@,
                    added_tags_upto(e, ms, upto, v)[i].start as int,
                    added_tags_upto(e, ms, upto, v)[i].end as int,
                )
            },
    decreases upto,
{
    if upto > 0 {
        lemma_no_duplicate_explicit(e, ms, upto - 1, v);
        let prev = added_tags_upto(e, ms, upto - 1, v);
        let cur = added_tags_upto(e, ms, upto, v);
        assert forall|i: int| 0 <= i < cur.len()
            implies {
                &&& (#[trigger] cur[i]).tag is ImplicitKeyword
                &&& !match_exact_explicit(e.tags@, cur[i].start as int, cur[i].end as int)
            } by {
            if i < prev.len() {
                assert(cur[i] == prev[i]);
            }
        }
    }
}

} // verus!

verus! {

/// The law that occurrence lists come out in document order: when the
/// units carry consecutive indices starting at `c0` (as a parsed tree
/// does), the explicit occurrence list over any prefix of them is sorted,
/// and every entry lies below `c0` plus the prefix length.
pub proof fn lemma_explicit_occs_sorted(us: Seq<InlineElement>, c0: int, upto: int, k: int)
    requires
        units_indexed(us, c0),
        0 <= upto <= us.len(),
    ensures
        forall|a: int|
            0 <= a < units_explicit_occs(us, upto, k).len()
                ==> #[trigger] units_explicit_occs(us, upto, k)[a] < c0 + upto,
        forall|a: int, b: int|
            0 <= a <= b < units_explicit_occs(us, upto, k).len()
                ==> #[trigger] units_explicit_occs(us, upto, k)[a]
                <= #[trigger] units_explicit_occs(us, upto, k)[b],
    decreases upto,
{
    if upto > 0 {
        lemma_explicit_occs_sorted(us, c0, upto - 1, k);
        let prev = units_explicit_occs(us, upto - 1, k);
        let cur = units_explicit_occs(us, upto, k);
        assert(us[upto - 1].index == c0 + upto - 1);
        assert forall|a: int| 0 <= a < cur.len() implies #[trigger] cur[a] < c0 + upto by {
            if a < prev.len() {
                assert(cur[a] == prev[a]);
            } else {
                assert(cur[a] == us[upto - 1].index);
            }
        }
        assert forall|a: int, b: int| 0 <= a <= b < cur.len()
            implies #[trigger] cur[a] <= #[trigger] cur[b] by {
            if b < prev.len() {
                assert(cur[a] == prev[a]);
                assert(cur[b] == prev[b]);
            } else if a < prev.len() {
                assert(cur[a] == prev[a]);
                assert(cur[b] == us[upto - 1].index);
            } else {
                assert(cur[a] == us[upto - 1].index);
                assert(cur[b] == us[upto - 1].index);
            }
        }
    }
}

/// The same law for the implicit occurrence lists.
pub proof fn lemma_implicit_occs_sorted(
    us: Seq<InlineElement>,
    c0: int,
    upto: int,
    k: int,
    m: Option<regex::bytes::Regex>,
    v: Seq<Seq<u8>>,
)
    requires
        units_indexed(us, c0),
        0 <= upto <= us.len(),
    ensures
        forall|a: int|
            0 <= a < units_implicit_occs(us, upto, k, m, v).len()
                ==> #[trigger] units_implicit_occs(us, upto, k, m, v)[a] < c0 + upto,
        forall|a: int, b: int|
            0 <= a <= b < units_implicit_occs(us, upto, k, m, v).len()
                ==> #[trigger] units_implicit_occs(us, upto, k, m, v)[a]
                <= #[trigger] units_implicit_occs(us, upto, k, m, v)[b],
    decreases upto,
{
    if upto > 0 {
        lemma_implicit_occs_sorted(us, c0, upto - 1, k, m, v);
        let prev = units_implicit_occs(us, upto - 1, k, m, v);
        let cur = units_implicit_occs(us, upto, k, m, v);
        assert(us[upto - 1].index == c0 + upto - 1);
        assert forall|a: int| 0 <= a < cur.len() implies #[trigger] cur[a] < c0 + upto by {
            if a < prev.len() {
                assert(cur[a] == prev[a]);
            } else {
                assert(cur[a] == us[upto - 1].index);
            }
        }
        assert forall|a: int, b: int| 0 <= a <= b < cur.len()
            implies #[trigger] cur[a] <= #[trigger] cur[b] by {
            if b < prev.len() {
                assert(cur[a] == prev[a]);
                assert(cur[b] == prev[b]);
            } else if a < prev.len() {
                assert(cur[a] == prev[a]);
                assert(cur[b] == us[upto - 1].index);
            } else {
                assert(cur[a] == us[upto - 1].index);
                assert(cur[b] == us[upto - 1].index);
            }
        }
    }
}

} // verus!

