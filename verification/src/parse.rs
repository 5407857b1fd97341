//! Parsing: folding the flat event stream into the document tree.
//!
//! One cursor runs over the event stream; the section builder, block
//! builder and inline scanner cooperate through it and through one shared
//! keyword vocabulary. Each function leaves the cursor on the first event
//! it does not consume, so a single terminating event unwinds the whole
//! recursion exactly once.
//!
//! Failures come in two severities, kept distinct: `BrokenStream` marks a
//! violation of the tokenizer's guarantees (unclosed constructs, wrong end
//! pairing) on which a caller should abort, while the other variants are
//! user-facing errors carrying the byte offset of the offending event.

use vstd::prelude::*;
use crate::bytes::{append_slice, subrange_vec};
use crate::ast::{
    Event, SourceEvent, Document, Section, SectionContent, BlockElement, List, ListItem,
    InlineElement, TaggedRange, InlineTag, tag_is_keyword, tag_keyword_index, tag_linked_text,
    ranges_disjoint, inline_wf, list_wf, item_wf, block_wf, section_content_wf, section_wf,
    content_within_depth, lemma_wf_depth_bounded, lemma_inline_wf_extend, lemma_item_wf_extend,
    lemma_block_wf_extend, lemma_content_wf_extend, units_of_item, units_of_items, units_of_list,
    units_of_block, units_of_blocks, units_of_sections, units_of_section, units_of_content,
    lemma_units_of_items_push, lemma_units_of_blocks_push, lemma_units_of_sections_push,
};
use crate::vocab::{
    KeywordSet, vocab_wf, vocab_extends, lemma_vocab_extends_trans, spec_insert,
    spec_insert_index,
};

verus! {

/// A violation of the guarantees the upstream tokenizer is assumed to give.
/// These mark internal inconsistencies, not bad user input.
#[derive(Clone, Copy, Debug, PartialEq, Eq, Structural)]
pub enum StreamBreak {
    /// The stream ended inside a header before its title was seen.
    MissingHeaderTitle,
    /// The stream ended inside a header.
    UnclosedHeader,
    /// A header closed with a different level than it opened with.
    HeaderLevelMismatch,
    /// A header start carried a level outside 1 to 6.
    HeaderLevelOutOfRange,
    /// A rule start was not followed by its end marker.
    MissingRuleEnd,
    /// The stream ended inside a rule.
    UnclosedRule,
    /// The stream ended inside a list.
    UnclosedList,
    /// A list held an event that is neither an item start nor the list end.
    UnexpectedListEvent,
    /// The stream ended inside a list item.
    UnclosedListItem,
    /// The stream ended inside a paragraph.
    UnclosedParagraph,
    /// An emphasis span closed over empty text.
    EmptyEmphasis,
    /// A strong span closed with no text seen at all.
    EmptyStrong,
    /// An emphasis span opened inside another emphasis span of one unit.
    NestedEmphasis,
    /// A strong span opened inside another strong span of one unit.
    NestedStrong,
}

/// A parse failure. All offsets are byte offsets into the source text, for
/// conversion to a 1-based line number by the caller.
#[derive(Clone, Copy, Debug, PartialEq, Eq, Structural)]
pub enum ParseError {
    /// An event kind this core does not support stood where a block or
    /// inline unit was expected.
    UnexpectedElement { offset: usize },
    /// A header sat more than one level deeper than its enclosing section.
    HeaderTooDeep { level: u8, parent_level: u8, offset: usize },
    /// An emphasis span crossed an inline unit boundary.
    MultilineEmphasis { offset: usize },
    /// A strong span crossed an inline unit boundary.
    MultilineStrong { offset: usize },
    /// A list item with empty text content.
    EmptyListItem { offset: usize },
    /// A paragraph with no inline units.
    EmptyParagraph { offset: usize },
    /// The tokenizer broke its guarantees; the caller should abort.
    BrokenStream { kind: StreamBreak, offset: usize },
}

/// Events the inline scanner consumes.
pub open spec fn is_inline_event(e: Event) -> bool {
    ||| e is Text
    ||| e is EmphasisStart
    ||| e is EmphasisEnd
    ||| e is StrongStart
    ||| e is StrongEnd
}

/// Break events joining inline units of one paragraph or list item.
pub open spec fn is_break_event(e: Event) -> bool {
    e is SoftBreak || e is HardBreak
}

/// Events that open a block element.
pub open spec fn is_block_start(e: Event) -> bool {
    e is ParagraphStart || e is RuleStart || e is ListStart
}

/// The text a single event contributes to the current inline unit.
pub open spec fn text_payload(e: Event) -> Seq<u8> {
    match e {
        Event::Text(t) => t@,
        _ => Seq::empty(),
    }
}

/// The concatenated text of the events in `[from, to)`, in order.
pub open spec fn texts_concat(events: Seq<SourceEvent>, from: int, to: int) -> Seq<u8>
    decreases to - from,
{
    if from < 0 || from >= to || to > events.len() {
        Seq::empty()
    } else {
        text_payload(events[from].event) + texts_concat(events, from + 1, to)
    }
}

/// Extending the event range by one event appends that event's text.
proof fn lemma_texts_concat_snoc(events: Seq<SourceEvent>, from: int, to: int)
    requires
        0 <= from <= to < events.len(),
    ensures
        texts_concat(events, from, to + 1)
            == texts_concat(events, from, to) + text_payload(events[to].event),
    decreases to - from,
{
    if from == to {
        assert(texts_concat(events, from + 1, to + 1) =~= Seq::<u8>::empty());
        assert(texts_concat(events, from, to) =~= Seq::<u8>::empty());
        assert(texts_concat(events, from, to + 1)
            =~= texts_concat(events, from, to) + text_payload(events[to].event));
    } else {
        lemma_texts_concat_snoc(events, from + 1, to);
        assert(texts_concat(events, from, to + 1)
            =~= texts_concat(events, from, to) + text_payload(events[to].event));
    }
}

/// The line number (starting from 0) of the byte at `upto` in `text`: how
/// many newline bytes lie strictly before it. Offsets past the end count
/// the whole text.
pub open spec fn spec_line_number(text: Seq<u8>, offset: int) -> int {
    count_newlines(text, if offset > text.len() { text.len() as int } else { offset })
}

/// How many of the first `upto` bytes of `text` are newlines.
pub open spec fn count_newlines(text: Seq<u8>, upto: int) -> int
    decreases upto,
{
    if upto <= 0 {
        0
    } else {
        count_newlines(text, upto - 1) + if text[upto - 1] == 10u8 { 1int } else { 0int }
    }
}

/// Return the line number at a given offset, starting from 0.
pub fn line_number_of_offset(text: &[u8], offset: usize) -> (n: usize)
    ensures
        n == spec_line_number(text@, offset as int),
{
    let bound = if offset > text.len() { text.len() } else { offset };
    let mut n: usize = 0;
    let mut i: usize = 0;
    while i < bound
        invariant
            i <= bound <= text@.len(),
            n == count_newlines(text@, i as int),
            n <= i,
        decreases bound - i,
    {
        if text[i] == 10u8 {
            n = n + 1;
        }
        i = i + 1;
    }
    n
}

} // verus!

verus! {

/// Parse one inline text unit (contiguous text with emphasis and strong
/// spans), which may be absent when no text is seen, and leave the cursor
/// on the first non-inline event. A closed emphasis span registers its text
/// in the vocabulary and becomes an explicit-keyword tag; a closed strong
/// span becomes a highlight tag.
fn parse_inline(
    events: &Vec<SourceEvent>,
    pos: &mut usize,
    keywords: &mut KeywordSet,
    counter: &mut usize,
) -> (r: Result<Option<InlineElement>, ParseError>)
    requires
        *old(pos) <= events@.len(),
        vocab_wf(old(keywords)@),
        *old(counter) + events@.len() - *old(pos) <= usize::MAX,
    ensures
        *old(pos) <= *final(pos) <= events@.len(),
        vocab_wf(final(keywords)@),
        vocab_extends(old(keywords)@, final(keywords)@),
        final(keywords)@.len() - old(keywords)@.len() <= *final(pos) - *old(pos),
        *old(counter) <= *final(counter),
        *final(counter) - *old(counter) <= *final(pos) - *old(pos),
        forall|i: int|
            *old(pos) <= i < *final(pos) ==> is_inline_event((#[trigger] events@[i]).event),
        r matches Ok(opt) ==> {
            &&& (*final(pos) == events@.len()
                || !is_inline_event(events@[*final(pos) as int].event))
            &&& match opt {
                Some(e) => {
                    &&& inline_wf(e, final(keywords)@)
                    &&& e.index == *old(counter)
                    &&& *final(counter) == *old(counter) + 1
                    &&& e.string@ == texts_concat(events@, *old(pos) as int, *final(pos) as int)
                },
                None => {
                    &&& *final(counter) == *old(counter)
                    &&& texts_concat(events@, *old(pos) as int, *final(pos) as int)
                        == Seq::<u8>::empty()
                },
            }
        },
        ({
            let s = spec_parse_inline(
                events@,
                *old(pos) as int,
                old(keywords)@,
                *old(counter) as int,
            );
            match r {
                Ok(opt) => s matches Ok(fin) && {
                    &&& fin.3 == *final(pos) as int
                    &&& fin.4 == final(keywords)@
                    &&& fin.5 == *final(counter) as int
                    &&& match opt {
                        Some(e) => fin.0 && e.string@ == fin.1 && e.tags@ == fin.2,
                        None => !fin.0,
                    }
                },
                Err(e) => s == Err::<
                    (bool, Seq<u8>, Seq<TaggedRange>, int, Seq<Seq<u8>>, int),
                    ParseError,
                >(e),
            }
        }),
{
    let ghost pos0 = *pos;
    let ghost c0 = *counter;
    let ghost k0 = keywords@;
    let mut buf: Vec<u8> = Vec::new();
    let mut saw_text: bool = false;
    let mut tags: Vec<TaggedRange> = Vec::new();
    let mut strong_start: Option<usize> = None;
    let mut emphasis_start: Option<usize> = None;
    loop
        invariant
            pos0 == *old(pos),
            c0 == *old(counter),
            k0 == old(keywords)@,
            pos0 <= *pos <= events@.len(),
            *counter == c0,
            c0 + events@.len() - pos0 <= usize::MAX,
            vocab_wf(keywords@),
            vocab_extends(k0, keywords@),
            keywords@.len() - k0.len() <= *pos - pos0,
            forall|i: int| pos0 <= i < *pos ==> is_inline_event((#[trigger] events@[i]).event),
            buf@ == texts_concat(events@, pos0 as int, *pos as int),
            !saw_text ==> buf@.len() == 0 && tags@.len() == 0,
            saw_text ==> pos0 < *pos,
            forall|i: int| 0 <= i < tags@.len() ==> {
                &&& (#[trigger] tags@[i]).start <= tags@[i].end
                &&& tags@[i].end <= buf@.len()
                &&& tag_linked_text(buf@, tags@[i], keywords@)
            },
            forall|i: int, j: int|
                0 <= i < j < tags@.len() && tag_is_keyword(tags@[i].tag)
                    && tag_is_keyword(tags@[j].tag)
                    ==> (#[trigger] tags@[i]).end <= (#[trigger] tags@[j]).start,
            forall|i: int, j: int|
                0 <= i < j < tags@.len() && tags@[i].tag is Highlight
                    && tags@[j].tag is Highlight
                    ==> (#[trigger] tags@[i]).end <= (#[trigger] tags@[j]).start,
            spec_parse_inline(events@, pos0 as int, k0, c0 as int) == spec_inline_scan(
                events@,
                *pos as int,
                buf@,
                saw_text,
                tags@,
                strong_start,
                emphasis_start,
                keywords@,
                c0 as int,
            ),
            emphasis_start matches Some(es) ==> es <= buf@.len()
                && (forall|i: int|
                    0 <= i < tags@.len() && tag_is_keyword((#[trigger] tags@[i]).tag)
                        ==> tags@[i].end <= es),
            strong_start matches Some(ss) ==> ss <= buf@.len()
                && (forall|i: int|
                    0 <= i < tags@.len() && (#[trigger] tags@[i]).tag is Highlight
                        ==> tags@[i].end <= ss),
        ensures
            *pos == events@.len() || !is_inline_event(events@[*pos as int].event),
        decreases events@.len() - *pos,
    {
        if *pos == events.len() {
            break;
        }
        let ghost p = *pos;
        let ghost st_buf = buf@;
        let ghost st_saw = saw_text;
        let ghost st_tags = tags@;
        let ghost st_strong = strong_start;
        let ghost st_emph = emphasis_start;
        let ghost st_vocab = keywords@;
        let off = events[*pos].offset;
        match &events[*pos].event {
            Event::Text(t) => {
                proof {
                    lemma_texts_concat_snoc(events@, pos0 as int, p as int);
                }
                let ghost buf_old = buf@;
                append_slice(&mut buf, t.as_slice());
                saw_text = true;
                *pos = *pos + 1;
                proof {
                    assert(buf@ =~= texts_concat(events@, pos0 as int, *pos as int));
                    assert(spec_inline_scan(
                        events@, p as int, st_buf, st_saw, st_tags, st_strong, st_emph,
                        st_vocab, c0 as int,
                    ) == spec_inline_scan(
                        events@, *pos as int, buf@, saw_text, tags@, strong_start,
                        emphasis_start, keywords@, c0 as int,
                    ));
                    assert forall|i: int| 0 <= i < tags@.len()
                        implies tag_linked_text(buf@, #[trigger] tags@[i], keywords@) by {
                        assert(tag_linked_text(buf_old, tags@[i], keywords@));
                        assert(buf@.subrange(tags@[i].start as int, tags@[i].end as int)
                            =~= buf_old.subrange(tags@[i].start as int, tags@[i].end as int));
                    }
                }
            },
            Event::EmphasisStart => {
                if emphasis_start.is_some() {
                    return Err(ParseError::BrokenStream {
                        kind: StreamBreak::NestedEmphasis,
                        offset: off,
                    });
                }
                emphasis_start = Some(buf.len());
                *pos = *pos + 1;
                proof {
                    lemma_texts_concat_snoc(events@, pos0 as int, p as int);
                    assert(buf@ =~= texts_concat(events@, pos0 as int, *pos as int));
                    assert(spec_inline_scan(
                        events@, p as int, st_buf, st_saw, st_tags, st_strong, st_emph,
                        st_vocab, c0 as int,
                    ) == spec_inline_scan(
                        events@, *pos as int, buf@, saw_text, tags@, strong_start,
                        emphasis_start, keywords@, c0 as int,
                    ));
                }
            },
            Event::EmphasisEnd => {
                match emphasis_start {
                    None => {
                        return Err(ParseError::MultilineEmphasis { offset: off });
                    },
                    Some(es) => {
                        let end = buf.len();
                        if es >= end {
                            return Err(ParseError::BrokenStream {
                                kind: StreamBreak::EmptyEmphasis,
                                offset: off,
                            });
                        }
                        let kw = subrange_vec(&buf, es, end);
                        let ghost kpre = keywords@;
                        let (k, _) = keywords.insert_full(kw);
                        proof {
                            assert forall|i: int| 0 <= i < tags@.len()
                                implies tag_linked_text(buf@, #[trigger] tags@[i], keywords@) by {
                                assert(tag_linked_text(buf@, tags@[i], kpre));
                                if tag_is_keyword(tags@[i].tag) {
                                    assert(keywords@[tag_keyword_index(tags@[i].tag)]
                                        == kpre[tag_keyword_index(tags@[i].tag)]);
                                }
                            }
                        }
                        tags.push(TaggedRange {
                            start: es,
                            end,
                            tag: InlineTag::ExplicitKeyword(k),
                        });
                        emphasis_start = None;
                        *pos = *pos + 1;
                        proof {
                            lemma_texts_concat_snoc(events@, pos0 as int, p as int);
                            assert(buf@ =~= texts_concat(events@, pos0 as int, *pos as int));
                    assert(spec_inline_scan(
                        events@, p as int, st_buf, st_saw, st_tags, st_strong, st_emph,
                        st_vocab, c0 as int,
                    ) == spec_inline_scan(
                        events@, *pos as int, buf@, saw_text, tags@, strong_start,
                        emphasis_start, keywords@, c0 as int,
                    ));
                        }
                    },
                }
            },
            Event::StrongStart => {
                if strong_start.is_some() {
                    return Err(ParseError::BrokenStream {
                        kind: StreamBreak::NestedStrong,
                        offset: off,
                    });
                }
                strong_start = Some(buf.len());
                *pos = *pos + 1;
                proof {
                    lemma_texts_concat_snoc(events@, pos0 as int, p as int);
                    assert(buf@ =~= texts_concat(events@, pos0 as int, *pos as int));
                    assert(spec_inline_scan(
                        events@, p as int, st_buf, st_saw, st_tags, st_strong, st_emph,
                        st_vocab, c0 as int,
                    ) == spec_inline_scan(
                        events@, *pos as int, buf@, saw_text, tags@, strong_start,
                        emphasis_start, keywords@, c0 as int,
                    ));
                }
            },
            Event::StrongEnd => {
                match strong_start {
                    None => {
                        return Err(ParseError::MultilineStrong { offset: off });
                    },
                    Some(ss) => {
                        if !saw_text {
                            return Err(ParseError::BrokenStream {
                                kind: StreamBreak::EmptyStrong,
                                offset: off,
                            });
                        }
                        let end = buf.len();
                        tags.push(TaggedRange { start: ss, end, tag: InlineTag::Highlight });
                        strong_start = None;
                        *pos = *pos + 1;
                        proof {
                            lemma_texts_concat_snoc(events@, pos0 as int, p as int);
                            assert(buf@ =~= texts_concat(events@, pos0 as int, *pos as int));
                    assert(spec_inline_scan(
                        events@, p as int, st_buf, st_saw, st_tags, st_strong, st_emph,
                        st_vocab, c0 as int,
                    ) == spec_inline_scan(
                        events@, *pos as int, buf@, saw_text, tags@, strong_start,
                        emphasis_start, keywords@, c0 as int,
                    ));
                        }
                    },
                }
            },
            _ => {
                break;
            },
        }
    }
    if saw_text {
        let idx = *counter;
        *counter = *counter + 1;
        let e = InlineElement { index: idx, string: buf, tags };
        proof {
            assert forall|i: int, j: int|
                0 <= i < j < e.tags@.len() && tag_is_keyword(e.tags@[i].tag)
                    && tag_is_keyword(e.tags@[j].tag)
                implies ranges_disjoint(#[trigger] e.tags@[i], #[trigger] e.tags@[j]) by {
                assert(e.tags@[i].end <= e.tags@[j].start);
            }
            assert forall|i: int, j: int|
                0 <= i < j < e.tags@.len() && e.tags@[i].tag is Highlight
                    && e.tags@[j].tag is Highlight
                implies ranges_disjoint(#[trigger] e.tags@[i], #[trigger] e.tags@[j]) by {
                assert(e.tags@[i].end <= e.tags@[j].start);
            }
            assert(inline_wf(e, keywords@));
        }
        Ok(Some(e))
    } else {
        Ok(None)
    }
}

} // verus!

verus! {

/// The units `us` carry consecutive indices starting at `c0`.
pub open spec fn units_indexed(us: Seq<InlineElement>, c0: int) -> bool {
    forall|i: int| 0 <= i < us.len() ==> (#[trigger] us[i]).index == c0 + i
}

/// Two consecutively indexed runs concatenate to one.
proof fn lemma_units_indexed_concat(a: Seq<InlineElement>, b: Seq<InlineElement>, c0: int)
    requires
        units_indexed(a, c0),
        units_indexed(b, c0 + a.len()),
    ensures
        units_indexed(a + b, c0),
{
    assert forall|i: int| 0 <= i < (a + b).len() implies (#[trigger] (a + b)[i]).index == c0 + i by {
        if i < a.len() {
            assert((a + b)[i] == a[i]);
        } else {
            assert((a + b)[i] == b[i - a.len()]);
        }
    }
}

/// Parse a sequence of inline units separated by soft or hard breaks,
/// leaving the cursor on the first event that is neither inline nor a
/// break. The sequence may be empty.
fn parse_inline_sequence(
    events: &Vec<SourceEvent>,
    pos: &mut usize,
    keywords: &mut KeywordSet,
    counter: &mut usize,
) -> (r: Result<Vec<InlineElement>, ParseError>)
    requires
        *old(pos) <= events@.len(),
        vocab_wf(old(keywords)@),
        *old(counter) + events@.len() - *old(pos) <= usize::MAX,
    ensures
        *old(pos) <= *final(pos) <= events@.len(),
        vocab_wf(final(keywords)@),
        vocab_extends(old(keywords)@, final(keywords)@),
        final(keywords)@.len() - old(keywords)@.len() <= *final(pos) - *old(pos),
        *old(counter) <= *final(counter),
        *final(counter) - *old(counter) <= *final(pos) - *old(pos),
        r matches Ok(v) ==> {
            &&& (*final(pos) == events@.len()
                || (!is_inline_event(events@[*final(pos) as int].event)
                    && !is_break_event(events@[*final(pos) as int].event)))
            &&& forall|i: int| 0 <= i < v@.len() ==> inline_wf(#[trigger] v@[i], final(keywords)@)
            &&& units_indexed(v@, *old(counter) as int)
            &&& *final(counter) == *old(counter) + v@.len()
        },
        ({
            let s = spec_inline_seq_st(
                events@,
                *old(pos) as int,
                old(keywords)@,
                *old(counter) as int,
            );
            match r {
                Ok(_) => s == Ok::<ParserSt, ParseError>(
                    (*final(pos) as int, final(keywords)@, *final(counter) as int),
                ),
                Err(e) => s == Err::<ParserSt, ParseError>(e),
            }
        }),
        r matches Ok(v) ==> inline_seq_from(
            events@,
            *old(pos) as int,
            old(keywords)@,
            *old(counter) as int,
            v@,
            0,
        ),
{
    let ghost pos0 = *pos;
    let ghost c0 = *counter;
    let ghost k0 = keywords@;
    let mut elems: Vec<InlineElement> = Vec::new();
    loop
        invariant_except_break
            forall|full: Seq<InlineElement>|
                full.len() >= elems@.len() && full.subrange(0, elems@.len() as int) == elems@
                    && inline_seq_from(
                    events@,
                    *pos as int,
                    keywords@,
                    *counter as int,
                    full,
                    elems@.len() as int,
                ) ==> #[trigger] inline_seq_from(events@, pos0 as int, k0, c0 as int, full, 0),
        invariant
            pos0 == *old(pos),
            c0 == *old(counter),
            k0 == old(keywords)@,
            pos0 <= *pos <= events@.len(),
            c0 + events@.len() - pos0 <= usize::MAX,
            *counter - c0 <= *pos - pos0,
            c0 <= *counter,
            vocab_wf(keywords@),
            vocab_extends(k0, keywords@),
            keywords@.len() - k0.len() <= *pos - pos0,
            *counter == c0 + elems@.len(),
            units_indexed(elems@, c0 as int),
            forall|i: int| 0 <= i < elems@.len() ==> inline_wf(#[trigger] elems@[i], keywords@),
            spec_inline_seq_st(events@, pos0 as int, k0, c0 as int) == spec_inline_seq_st(
                events@,
                *pos as int,
                keywords@,
                *counter as int,
            ),
        ensures
            *pos == events@.len()
                || (!is_inline_event(events@[*pos as int].event)
                    && !is_break_event(events@[*pos as int].event)),
            spec_inline_seq_st(events@, pos0 as int, k0, c0 as int) == Ok::<
                ParserSt,
                ParseError,
            >((*pos as int, keywords@, *counter as int)),
            inline_seq_from(events@, pos0 as int, k0, c0 as int, elems@, 0),
        decreases events@.len() - *pos,
    {
        let ghost kpre = keywords@;
        let ghost itpos = *pos;
        let ghost itctr = *counter;
        let ghost itelems = elems@;
        let opt = match parse_inline(events, pos, keywords, counter) {
            Ok(o) => {
                proof {
                    lemma_vocab_extends_trans(k0, kpre, keywords@);
                }
                o
            },
            Err(e) => {
                proof {
                    lemma_vocab_extends_trans(k0, kpre, keywords@);
                    assert(spec_inline_seq_st(events@, itpos as int, kpre, itctr as int)
                        == Err::<ParserSt, ParseError>(e));
                }
                return Err(e);
            },
        };
        proof {
            assert(clamp_at(*pos as int, itpos as int) == *pos as int);
        }
        proof {
            assert forall|i: int| 0 <= i < elems@.len()
                implies inline_wf(#[trigger] elems@[i], keywords@) by {
                lemma_inline_wf_extend(elems@[i], kpre, keywords@);
            }
        }
        if let Some(e) = opt {
            elems.push(e);
        }
        if *pos == events.len() {
            proof {
                assert(spec_inline_seq_st(events@, itpos as int, kpre, itctr as int)
                    == Ok::<ParserSt, ParseError>((*pos as int, keywords@, *counter as int)));
                assert(spec_inline_seq_st(events@, *pos as int, keywords@, *counter as int)
                    == Ok::<ParserSt, ParseError>((*pos as int, keywords@, *counter as int)));
                assert(elems@.subrange(0, itelems.len() as int) =~= itelems);
                assert(inline_seq_from(
                    events@, itpos as int, kpre, itctr as int, elems@, itelems.len() as int,
                ));
                assert(inline_seq_from(events@, pos0 as int, k0, c0 as int, elems@, 0));
            }
            break;
        }
        match &events[*pos].event {
            Event::SoftBreak => {
                *pos = *pos + 1;
                proof {
                    assert(spec_inline_seq_st(events@, itpos as int, kpre, itctr as int)
                        == spec_inline_seq_st(events@, *pos as int, keywords@, *counter as int));
                    assert forall|full: Seq<InlineElement>|
                        full.len() >= elems@.len() && full.subrange(0, elems@.len() as int)
                            == elems@ && inline_seq_from(
                            events@,
                            *pos as int,
                            keywords@,
                            *counter as int,
                            full,
                            elems@.len() as int,
                        ) implies #[trigger] inline_seq_from(
                            events@, pos0 as int, k0, c0 as int, full, 0,
                        ) by {
                        assert(full.subrange(0, itelems.len() as int) =~= itelems);
                        if itelems.len() < elems@.len() {
                            assert(full[itelems.len() as int] == elems@[itelems.len() as int]);
                        }
                        assert(inline_seq_from(
                            events@, itpos as int, kpre, itctr as int, full,
                            itelems.len() as int,
                        ));
                    }
                }
            },
            Event::HardBreak => {
                *pos = *pos + 1;
                proof {
                    assert(spec_inline_seq_st(events@, itpos as int, kpre, itctr as int)
                        == spec_inline_seq_st(events@, *pos as int, keywords@, *counter as int));
                    assert forall|full: Seq<InlineElement>|
                        full.len() >= elems@.len() && full.subrange(0, elems@.len() as int)
                            == elems@ && inline_seq_from(
                            events@,
                            *pos as int,
                            keywords@,
                            *counter as int,
                            full,
                            elems@.len() as int,
                        ) implies #[trigger] inline_seq_from(
                            events@, pos0 as int, k0, c0 as int, full, 0,
                        ) by {
                        assert(full.subrange(0, itelems.len() as int) =~= itelems);
                        if itelems.len() < elems@.len() {
                            assert(full[itelems.len() as int] == elems@[itelems.len() as int]);
                        }
                        assert(inline_seq_from(
                            events@, itpos as int, kpre, itctr as int, full,
                            itelems.len() as int,
                        ));
                    }
                }
            },
            _ => {
                proof {
                    assert(spec_inline_seq_st(events@, itpos as int, kpre, itctr as int)
                        == Ok::<ParserSt, ParseError>((
                        *pos as int,
                        keywords@,
                        *counter as int,
                    )));
                    assert(spec_inline_seq_st(events@, *pos as int, keywords@, *counter as int)
                        == Ok::<ParserSt, ParseError>((
                        *pos as int,
                        keywords@,
                        *counter as int,
                    )));
                    assert(elems@.subrange(0, itelems.len() as int) =~= itelems);
                    assert(inline_seq_from(
                        events@, itpos as int, kpre, itctr as int, elems@, itelems.len() as int,
                    ));
                    assert(inline_seq_from(events@, pos0 as int, k0, c0 as int, elems@, 0));
                }
                break;
            },
        }
    }
    Ok(elems)
}

/// Parse a paragraph from just after its start marker through its end
/// marker. The paragraph must contain at least one inline unit.
fn parse_paragraph(
    events: &Vec<SourceEvent>,
    pos: &mut usize,
    keywords: &mut KeywordSet,
    counter: &mut usize,
    start_off: usize,
) -> (r: Result<Vec<InlineElement>, ParseError>)
    requires
        *old(pos) <= events@.len(),
        vocab_wf(old(keywords)@),
        *old(counter) + events@.len() - *old(pos) <= usize::MAX,
    ensures
        *old(pos) <= *final(pos) <= events@.len(),
        vocab_wf(final(keywords)@),
        vocab_extends(old(keywords)@, final(keywords)@),
        final(keywords)@.len() - old(keywords)@.len() <= *final(pos) - *old(pos),
        *old(counter) <= *final(counter),
        *final(counter) - *old(counter) <= *final(pos) - *old(pos),
        r matches Ok(v) ==> {
            &&& v@.len() > 0
            &&& forall|i: int| 0 <= i < v@.len() ==> inline_wf(#[trigger] v@[i], final(keywords)@)
            &&& units_indexed(v@, *old(counter) as int)
            &&& *final(counter) == *old(counter) + v@.len()
        },
        r matches Ok(v) ==> inline_seq_from(
            events@,
            *old(pos) as int,
            old(keywords)@,
            *old(counter) as int,
            v@,
            0,
        ),
        ({
            let s = spec_paragraph_st(
                events@,
                *old(pos) as int,
                old(keywords)@,
                *old(counter) as int,
                start_off,
            );
            match r {
                Ok(_) => s == Ok::<ParserSt, ParseError>(
                    (*final(pos) as int, final(keywords)@, *final(counter) as int),
                ),
                Err(e) => s == Err::<ParserSt, ParseError>(e),
            }
        }),
{
    let inlines = parse_inline_sequence(events, pos, keywords, counter)?;
    if *pos == events.len() {
        return Err(ParseError::BrokenStream {
            kind: StreamBreak::UnclosedParagraph,
            offset: start_off,
        });
    }
    match &events[*pos].event {
        Event::ParagraphEnd => {
            if inlines.len() == 0 {
                return Err(ParseError::EmptyParagraph { offset: events[*pos].offset });
            }
            *pos = *pos + 1;
            Ok(inlines)
        },
        _ => Err(ParseError::UnexpectedElement { offset: events[*pos].offset }),
    }
}

} // verus!

verus! {

/// Try to parse one block element at the cursor. `Ok(None)` means the
/// event there (if any) does not open a block; the cursor then stays put.
fn try_parse_block(
    events: &Vec<SourceEvent>,
    pos: &mut usize,
    keywords: &mut KeywordSet,
    counter: &mut usize,
) -> (r: Result<Option<BlockElement>, ParseError>)
    requires
        *old(pos) <= events@.len(),
        vocab_wf(old(keywords)@),
        *old(counter) + events@.len() - *old(pos) <= usize::MAX,
    ensures
        *old(pos) <= *final(pos) <= events@.len(),
        vocab_wf(final(keywords)@),
        vocab_extends(old(keywords)@, final(keywords)@),
        final(keywords)@.len() - old(keywords)@.len() <= *final(pos) - *old(pos),
        *old(counter) <= *final(counter),
        *final(counter) - *old(counter) <= *final(pos) - *old(pos),
        *old(pos) == events@.len() ==> (r matches Ok(opt) && opt is None),
        r matches Ok(opt) ==> (opt matches Some(b) ==> block_from(
            events@,
            *old(pos) as int,
            old(keywords)@,
            *old(counter) as int,
            b,
        )),
        ({
            let s = spec_try_block_st(
                events@,
                *old(pos) as int,
                old(keywords)@,
                *old(counter) as int,
            );
            match r {
                Ok(opt) => s == Ok::<(bool, int, Seq<Seq<u8>>, int), ParseError>(
                    (opt is Some, *final(pos) as int, final(keywords)@, *final(counter) as int),
                ),
                Err(e) => s == Err::<(bool, int, Seq<Seq<u8>>, int), ParseError>(e),
            }
        }),
        r matches Ok(opt) ==> match opt {
            Some(b) => {
                &&& block_wf(b, final(keywords)@)
                &&& *old(pos) < *final(pos)
                &&& units_indexed(units_of_block(b), *old(counter) as int)
                &&& *final(counter) == *old(counter) + units_of_block(b).len()
            },
            None => {
                &&& *final(pos) == *old(pos)
                &&& final(keywords)@ == old(keywords)@
                &&& *final(counter) == *old(counter)
                &&& (*final(pos) == events@.len()
                    || !is_block_start(events@[*final(pos) as int].event))
            },
        },
{
    if *pos == events.len() {
        return Ok(None);
    }
    let off = events[*pos].offset;
    match &events[*pos].event {
        Event::ParagraphStart => {
            *pos = *pos + 1;
            let inlines = parse_paragraph(events, pos, keywords, counter, off)?;
            Ok(Some(BlockElement::Paragraph(inlines)))
        },
        Event::RuleStart => {
            *pos = *pos + 1;
            if *pos == events.len() {
                return Err(ParseError::BrokenStream {
                    kind: StreamBreak::UnclosedRule,
                    offset: off,
                });
            }
            match &events[*pos].event {
                Event::RuleEnd => {
                    *pos = *pos + 1;
                    Ok(Some(BlockElement::Rule))
                },
                _ => Err(ParseError::BrokenStream {
                    kind: StreamBreak::MissingRuleEnd,
                    offset: events[*pos].offset,
                }),
            }
        },
        Event::ListStart(ordered) => {
            let ord = *ordered;
            *pos = *pos + 1;
            let l = parse_list(events, pos, keywords, counter, ord, off)?;
            Ok(Some(BlockElement::List(l)))
        },
        _ => Ok(None),
    }
}

/// Parse a list from just after its start marker through its end marker.
fn parse_list(
    events: &Vec<SourceEvent>,
    pos: &mut usize,
    keywords: &mut KeywordSet,
    counter: &mut usize,
    ordered: bool,
    start_off: usize,
) -> (r: Result<List, ParseError>)
    requires
        *old(pos) <= events@.len(),
        vocab_wf(old(keywords)@),
        *old(counter) + events@.len() - *old(pos) <= usize::MAX,
    ensures
        *old(pos) <= *final(pos) <= events@.len(),
        vocab_wf(final(keywords)@),
        vocab_extends(old(keywords)@, final(keywords)@),
        final(keywords)@.len() - old(keywords)@.len() <= *final(pos) - *old(pos),
        *old(counter) <= *final(counter),
        *final(counter) - *old(counter) <= *final(pos) - *old(pos),
        r matches Ok(l) ==> {
            &&& l.ordered == ordered
            &&& list_wf(l, final(keywords)@)
            &&& units_indexed(units_of_list(l), *old(counter) as int)
            &&& *final(counter) == *old(counter) + units_of_list(l).len()
        },
        r matches Ok(l) ==> list_from(
            events@,
            *old(pos) as int,
            old(keywords)@,
            *old(counter) as int,
            l,
        ),
        ({
            let s = spec_list_st(
                events@,
                *old(pos) as int,
                old(keywords)@,
                *old(counter) as int,
                start_off,
            );
            match r {
                Ok(_) => s == Ok::<ParserSt, ParseError>(
                    (*final(pos) as int, final(keywords)@, *final(counter) as int),
                ),
                Err(e) => s == Err::<ParserSt, ParseError>(e),
            }
        }),
    decreases events@.len() - *old(pos),
{
    let ghost pos0 = *pos;
    let ghost c0 = *counter;
    let ghost k0 = keywords@;
    let mut items: Vec<ListItem> = Vec::new();
    loop
        invariant_except_break
            forall|full: Seq<ListItem>|
                full.len() >= items@.len() && full.subrange(0, items@.len() as int) == items@
                    && items_from(
                    events@,
                    *pos as int,
                    keywords@,
                    *counter as int,
                    full,
                    items@.len() as int,
                ) ==> #[trigger] items_from(events@, pos0 as int, k0, c0 as int, full, 0),
        invariant
            pos0 == *old(pos),
            c0 == *old(counter),
            k0 == old(keywords)@,
            pos0 <= *pos <= events@.len(),
            c0 + events@.len() - pos0 <= usize::MAX,
            *counter - c0 <= *pos - pos0,
            c0 <= *counter,
            vocab_wf(keywords@),
            vocab_extends(k0, keywords@),
            keywords@.len() - k0.len() <= *pos - pos0,
            *counter == c0 + units_of_items(items@, 0).len(),
            units_indexed(units_of_items(items@, 0), c0 as int),
            forall|i: int| 0 <= i < items@.len() ==> item_wf(#[trigger] items@[i], keywords@),
            spec_list_st(events@, pos0 as int, k0, c0 as int, start_off) == spec_list_st(
                events@,
                *pos as int,
                keywords@,
                *counter as int,
                start_off,
            ),
        decreases events@.len() - *pos,
    {
        let ghost itpos = *pos;
        let ghost itctr = *counter;
        let ghost ititems = items@;
        if *pos == events.len() {
            proof {
                assert(spec_list_st(events@, itpos as int, keywords@, itctr as int, start_off)
                    == Err::<ParserSt, ParseError>(ParseError::BrokenStream {
                    kind: StreamBreak::UnclosedList,
                    offset: start_off,
                }));
            }
            return Err(ParseError::BrokenStream {
                kind: StreamBreak::UnclosedList,
                offset: start_off,
            });
        }
        match &events[*pos].event {
            Event::ItemStart => {
                let item_off = events[*pos].offset;
                *pos = *pos + 1;
                let ghost kpre = keywords@;
                let it = match parse_list_item(events, pos, keywords, counter, item_off) {
                    Ok(it) => {
                        proof {
                            lemma_vocab_extends_trans(k0, kpre, keywords@);
                            assert(clamp_pos(*pos as int, itpos + 1, events@.len() as int)
                                == *pos as int);
                            assert(spec_list_st(
                                events@, itpos as int, kpre, itctr as int, start_off,
                            ) == spec_list_st(
                                events@, *pos as int, keywords@, *counter as int, start_off,
                            ));
                        }
                        it
                    },
                    Err(e) => {
                        proof {
                            lemma_vocab_extends_trans(k0, kpre, keywords@);
                            assert(spec_list_st(
                                events@, itpos as int, kpre, itctr as int, start_off,
                            ) == Err::<ParserSt, ParseError>(e));
                        }
                        return Err(e);
                    },
                };
                proof {
                    assert forall|i: int| 0 <= i < items@.len()
                        implies item_wf(#[trigger] items@[i], keywords@) by {
                        lemma_item_wf_extend(items@[i], kpre, keywords@);
                    }
                    lemma_units_of_items_push(items@, it, 0);
                    lemma_units_indexed_concat(
                        units_of_items(items@, 0),
                        units_of_item(it),
                        c0 as int,
                    );
                }
                items.push(it);
                proof {
                    assert forall|full: Seq<ListItem>|
                        full.len() >= items@.len() && full.subrange(0, items@.len() as int)
                            == items@ && items_from(
                            events@,
                            *pos as int,
                            keywords@,
                            *counter as int,
                            full,
                            items@.len() as int,
                        ) implies #[trigger] items_from(
                            events@, pos0 as int, k0, c0 as int, full, 0,
                        ) by {
                        assert(full.subrange(0, ititems.len() as int) =~= ititems);
                        assert(full[ititems.len() as int] == items@[ititems.len() as int]);
                        assert(items_from(
                            events@, itpos as int, kpre, itctr as int, full,
                            ititems.len() as int,
                        ));
                    }
                }
            },
            Event::ListEnd => {
                *pos = *pos + 1;
                let l = List { ordered, items };
                proof {
                    assert(items_from(
                        events@, itpos as int, keywords@, itctr as int, l.items@,
                        ititems.len() as int,
                    ));
                    assert(l.items@.subrange(0, ititems.len() as int) =~= ititems);
                    assert(items_from(events@, pos0 as int, k0, c0 as int, l.items@, 0));
                    assert(units_of_list(l) == units_of_items(l.items@, 0));
                    assert(spec_list_st(events@, itpos as int, keywords@, itctr as int, start_off)
                        == Ok::<ParserSt, ParseError>((
                        *pos as int,
                        keywords@,
                        *counter as int,
                    )));
                }
                return Ok(l);
            },
            _ => {
                proof {
                    assert(spec_list_st(events@, itpos as int, keywords@, itctr as int, start_off)
                        == Err::<ParserSt, ParseError>(ParseError::BrokenStream {
                        kind: StreamBreak::UnexpectedListEvent,
                        offset: events@[itpos as int].offset,
                    }));
                }
                return Err(ParseError::BrokenStream {
                    kind: StreamBreak::UnexpectedListEvent,
                    offset: events[*pos].offset,
                });
            },
        }
    }
}

/// Parse one list item: its inline text, then either the item end marker
/// or a nested list followed by the item end marker. An item with empty
/// text content is a user-facing error.
fn parse_list_item(
    events: &Vec<SourceEvent>,
    pos: &mut usize,
    keywords: &mut KeywordSet,
    counter: &mut usize,
    item_off: usize,
) -> (r: Result<ListItem, ParseError>)
    requires
        *old(pos) <= events@.len(),
        vocab_wf(old(keywords)@),
        *old(counter) + events@.len() - *old(pos) <= usize::MAX,
    ensures
        *old(pos) <= *final(pos) <= events@.len(),
        vocab_wf(final(keywords)@),
        vocab_extends(old(keywords)@, final(keywords)@),
        final(keywords)@.len() - old(keywords)@.len() <= *final(pos) - *old(pos),
        *old(counter) <= *final(counter),
        *final(counter) - *old(counter) <= *final(pos) - *old(pos),
        r matches Ok(it) ==> {
            &&& item_wf(it, final(keywords)@)
            &&& units_indexed(units_of_item(it), *old(counter) as int)
            &&& *final(counter) == *old(counter) + units_of_item(it).len()
        },
        r matches Ok(it) ==> item_from(
            events@,
            *old(pos) as int,
            old(keywords)@,
            *old(counter) as int,
            it,
        ),
        ({
            let s = spec_list_item_st(
                events@,
                *old(pos) as int,
                old(keywords)@,
                *old(counter) as int,
                item_off,
            );
            match r {
                Ok(_) => s == Ok::<ParserSt, ParseError>(
                    (*final(pos) as int, final(keywords)@, *final(counter) as int),
                ),
                Err(e) => s == Err::<ParserSt, ParseError>(e),
            }
        }),
    decreases events@.len() - *old(pos),
{
    let ghost pos0 = *pos;
    let ghost c0 = *counter;
    let ghost k0 = keywords@;
    let text_content = parse_inline_sequence(events, pos, keywords, counter)?;
    proof {
        assert(clamp_at(*pos as int, pos0 as int) == *pos as int);
    }
    if *pos == events.len() {
        return Err(ParseError::BrokenStream {
            kind: StreamBreak::UnclosedListItem,
            offset: item_off,
        });
    }
    if text_content.len() == 0 {
        return Err(ParseError::EmptyListItem { offset: events[*pos].offset });
    }
    match &events[*pos].event {
        Event::ItemEnd => {
            *pos = *pos + 1;
            let it = ListItem { text_content, sub_list: None };
            proof {
                assert(units_of_item(it) =~= it.text_content@);
                assert(item_from(events@, pos0 as int, k0, c0 as int, it));
            }
            Ok(it)
        },
        Event::ListStart(ord) => {
            let o = *ord;
            let loff = events[*pos].offset;
            *pos = *pos + 1;
            let ghost p1 = *pos - 1;
            let ghost kpre = keywords@;
            let sub = match parse_list(events, pos, keywords, counter, o, loff) {
                Ok(sub) => {
                    proof {
                        lemma_vocab_extends_trans(k0, kpre, keywords@);
                        assert(clamp_at(*pos as int, p1 as int) == *pos as int);
                    }
                    sub
                },
                Err(e) => {
                    proof {
                        lemma_vocab_extends_trans(k0, kpre, keywords@);
                    }
                    return Err(e);
                },
            };
            proof {
                assert forall|i: int| 0 <= i < text_content@.len()
                    implies inline_wf(#[trigger] text_content@[i], keywords@) by {
                    lemma_inline_wf_extend(text_content@[i], kpre, keywords@);
                }
            }
            if *pos == events.len() {
                return Err(ParseError::BrokenStream {
                    kind: StreamBreak::UnclosedListItem,
                    offset: item_off,
                });
            }
            match &events[*pos].event {
                Event::ItemEnd => {
                    *pos = *pos + 1;
                    let it = ListItem { text_content, sub_list: Some(sub) };
                    proof {
                        assert(item_from(events@, pos0 as int, k0, c0 as int, it));
                        assert(units_of_item(it) == it.text_content@ + units_of_list(sub));
                        lemma_units_indexed_concat(
                            it.text_content@,
                            units_of_list(sub),
                            c0 as int,
                        );
                    }
                    Ok(it)
                },
                _ => Err(ParseError::UnexpectedElement { offset: events[*pos].offset }),
            }
        },
        _ => Err(ParseError::UnexpectedElement { offset: events[*pos].offset }),
    }
}

} // verus!

verus! {

/// What may stand at the cursor when section content at `level` is done:
/// the end of the stream, a header of level at most `level` (the caller's
/// sibling or terminator), or some event that opens no block (for the
/// caller above to reject).
pub open spec fn content_leftover(events: Seq<SourceEvent>, pos: int, level: int) -> bool {
    pos == events.len() || {
        &&& !is_block_start(events[pos].event)
        &&& (events[pos].event matches Event::HeaderStart(l) ==> 1 <= l <= level)
    }
}

/// Parse a section from just after its header-start marker: the title, the
/// header-end marker, then the section's content at level `level`.
fn parse_section_of_level(
    events: &Vec<SourceEvent>,
    pos: &mut usize,
    keywords: &mut KeywordSet,
    counter: &mut usize,
    level: u8,
    start_off: usize,
) -> (r: Result<Section, ParseError>)
    requires
        *old(pos) <= events@.len(),
        vocab_wf(old(keywords)@),
        *old(counter) + events@.len() - *old(pos) <= usize::MAX,
        1 <= level <= 6,
    ensures
        *old(pos) <= *final(pos) <= events@.len(),
        vocab_wf(final(keywords)@),
        vocab_extends(old(keywords)@, final(keywords)@),
        final(keywords)@.len() - old(keywords)@.len() <= *final(pos) - *old(pos),
        *old(counter) <= *final(counter),
        *final(counter) - *old(counter) <= *final(pos) - *old(pos),
        r matches Ok(s) ==> {
            &&& section_wf(s, level as int, final(keywords)@)
            &&& units_indexed(units_of_section(s), *old(counter) as int)
            &&& *final(counter) == *old(counter) + units_of_section(s).len()
            &&& content_leftover(events@, *final(pos) as int, level as int)
        },
        r matches Ok(s) ==> section_from(
            events@,
            *old(pos) as int,
            old(keywords)@,
            *old(counter) as int,
            s,
            level,
        ),
        ({
            let s2 = spec_section_of_level_st(
                events@,
                *old(pos) as int,
                old(keywords)@,
                *old(counter) as int,
                level,
                start_off,
            );
            match r {
                Ok(_) => s2 == Ok::<ParserSt, ParseError>(
                    (*final(pos) as int, final(keywords)@, *final(counter) as int),
                ),
                Err(e) => s2 == Err::<ParserSt, ParseError>(e),
            }
        }),
    decreases events@.len() - *old(pos),
{
    let ghost pos0 = *pos;
    let ghost c0 = *counter;
    let ghost k0 = keywords@;
    let title_opt = parse_inline(events, pos, keywords, counter)?;
    proof {
        assert(clamp_at(*pos as int, pos0 as int) == *pos as int);
    }
    if *pos == events.len() {
        let kind = if title_opt.is_some() {
            StreamBreak::UnclosedHeader
        } else {
            StreamBreak::MissingHeaderTitle
        };
        return Err(ParseError::BrokenStream { kind, offset: start_off });
    }
    let ev_off = events[*pos].offset;
    match (title_opt, &events[*pos].event) {
        (Some(title), Event::HeaderEnd(n)) => {
            if *n != level {
                return Err(ParseError::BrokenStream {
                    kind: StreamBreak::HeaderLevelMismatch,
                    offset: ev_off,
                });
            }
            *pos = *pos + 1;
            let ghost kpre = keywords@;
            let content = match parse_section_content_at_level(events, pos, keywords, counter, level) {
                Ok(c) => {
                    proof {
                        lemma_vocab_extends_trans(k0, kpre, keywords@);
                    }
                    c
                },
                Err(e) => {
                    proof {
                        lemma_vocab_extends_trans(k0, kpre, keywords@);
                    }
                    return Err(e);
                },
            };
            let s = Section { title, content };
            proof {
                assert(section_from(events@, pos0 as int, k0, c0 as int, s, level));
                lemma_inline_wf_extend(s.title, kpre, keywords@);
                assert(units_indexed(seq![s.title], c0 as int));
                lemma_units_indexed_concat(seq![s.title], units_of_content(s.content), c0 as int);
                assert(units_of_section(s) == seq![s.title] + units_of_content(s.content));
            }
            Ok(s)
        },
        _ => Err(ParseError::UnexpectedElement { offset: ev_off }),
    }
}

/// Parse the contents of a section sitting at header level `level` (0 for
/// the document root): first its blocks, then its sub-sections, which must
/// sit at exactly level + 1, until a header of level at most `level` or the
/// end of the stream. A deeper header is a user-facing error.
fn parse_section_content_at_level(
    events: &Vec<SourceEvent>,
    pos: &mut usize,
    keywords: &mut KeywordSet,
    counter: &mut usize,
    level: u8,
) -> (r: Result<SectionContent, ParseError>)
    requires
        *old(pos) <= events@.len(),
        vocab_wf(old(keywords)@),
        *old(counter) + events@.len() - *old(pos) <= usize::MAX,
        level <= 6,
    ensures
        *old(pos) <= *final(pos) <= events@.len(),
        vocab_wf(final(keywords)@),
        vocab_extends(old(keywords)@, final(keywords)@),
        final(keywords)@.len() - old(keywords)@.len() <= *final(pos) - *old(pos),
        *old(counter) <= *final(counter),
        *final(counter) - *old(counter) <= *final(pos) - *old(pos),
        *old(pos) == events@.len() ==> (r matches Ok(c) && c.blocks@.len() == 0
            && c.sub_sections@.len() == 0),
        r matches Ok(c) ==> {
            &&& section_content_wf(c, level as int, final(keywords)@)
            &&& units_indexed(units_of_content(c), *old(counter) as int)
            &&& *final(counter) == *old(counter) + units_of_content(c).len()
            &&& content_leftover(events@, *final(pos) as int, level as int)
        },
        r matches Ok(c) ==> content_from(
            events@,
            *old(pos) as int,
            old(keywords)@,
            *old(counter) as int,
            c,
            level,
        ),
        ({
            let s = spec_content_st(
                events@,
                *old(pos) as int,
                old(keywords)@,
                *old(counter) as int,
                level,
            );
            match r {
                Ok(_) => s == Ok::<ParserSt, ParseError>(
                    (*final(pos) as int, final(keywords)@, *final(counter) as int),
                ),
                Err(e) => s == Err::<ParserSt, ParseError>(e),
            }
        }),
    decreases events@.len() - *old(pos),
{
    let ghost pos0 = *pos;
    let ghost c0 = *counter;
    let ghost k0 = keywords@;
    let mut blocks: Vec<BlockElement> = Vec::new();
    loop
        invariant_except_break
            forall|full: Seq<BlockElement>|
                full.len() >= blocks@.len() && full.subrange(0, blocks@.len() as int) == blocks@
                    && blocks_from(
                    events@,
                    *pos as int,
                    keywords@,
                    *counter as int,
                    full,
                    blocks@.len() as int,
                ) ==> #[trigger] blocks_from(events@, pos0 as int, k0, c0 as int, full, 0),
        invariant
            pos0 == *old(pos),
            c0 == *old(counter),
            k0 == old(keywords)@,
            pos0 <= *pos <= events@.len(),
            c0 + events@.len() - pos0 <= usize::MAX,
            *counter - c0 <= *pos - pos0,
            c0 <= *counter,
            vocab_wf(keywords@),
            vocab_extends(k0, keywords@),
            keywords@.len() - k0.len() <= *pos - pos0,
            pos0 == events@.len() ==> blocks@.len() == 0,
            *counter == c0 + units_of_blocks(blocks@, 0).len(),
            units_indexed(units_of_blocks(blocks@, 0), c0 as int),
            forall|i: int| 0 <= i < blocks@.len() ==> block_wf(#[trigger] blocks@[i], keywords@),
            spec_blocks_st(events@, pos0 as int, k0, c0 as int) == spec_blocks_st(
                events@,
                *pos as int,
                keywords@,
                *counter as int,
            ),
        ensures
            *pos == events@.len() || !is_block_start(events@[*pos as int].event),
            spec_blocks_st(events@, pos0 as int, k0, c0 as int) == Ok::<ParserSt, ParseError>(
                (*pos as int, keywords@, *counter as int),
            ),
            blocks_from(events@, pos0 as int, k0, c0 as int, blocks@, 0),
        decreases events@.len() - *pos,
    {
        let ghost kpre = keywords@;
        let ghost itpos = *pos;
        let ghost itctr = *counter;
        let ghost itblocks = blocks@;
        match try_parse_block(events, pos, keywords, counter) {
            Ok(Some(b)) => {
                proof {
                    lemma_vocab_extends_trans(k0, kpre, keywords@);
                    assert(clamp_pos(*pos as int, itpos + 1, events@.len() as int)
                        == *pos as int);
                    assert(spec_blocks_st(events@, itpos as int, kpre, itctr as int)
                        == spec_blocks_st(events@, *pos as int, keywords@, *counter as int));
                    assert forall|i: int| 0 <= i < blocks@.len()
                        implies block_wf(#[trigger] blocks@[i], keywords@) by {
                        lemma_block_wf_extend(blocks@[i], kpre, keywords@);
                    }
                    lemma_units_of_blocks_push(blocks@, b, 0);
                    lemma_units_indexed_concat(
                        units_of_blocks(blocks@, 0),
                        units_of_block(b),
                        c0 as int,
                    );
                }
                blocks.push(b);
                proof {
                    assert forall|full: Seq<BlockElement>|
                        full.len() >= blocks@.len() && full.subrange(0, blocks@.len() as int)
                            == blocks@ && blocks_from(
                            events@,
                            *pos as int,
                            keywords@,
                            *counter as int,
                            full,
                            blocks@.len() as int,
                        ) implies #[trigger] blocks_from(
                            events@, pos0 as int, k0, c0 as int, full, 0,
                        ) by {
                        assert(full.subrange(0, itblocks.len() as int) =~= itblocks);
                        assert(full[itblocks.len() as int] == blocks@[itblocks.len() as int]);
                        assert(blocks_from(
                            events@, itpos as int, kpre, itctr as int, full,
                            itblocks.len() as int,
                        ));
                    }
                }
            },
            Ok(None) => {
                proof {
                    assert(spec_blocks_st(events@, itpos as int, kpre, itctr as int)
                        == Ok::<ParserSt, ParseError>((
                        *pos as int,
                        keywords@,
                        *counter as int,
                    )));
                    assert(blocks_from(
                        events@, itpos as int, kpre, itctr as int, blocks@,
                        itblocks.len() as int,
                    ));
                    assert(blocks@.subrange(0, itblocks.len() as int) =~= itblocks);
                    assert(blocks_from(events@, pos0 as int, k0, c0 as int, blocks@, 0));
                }
                break;
            },
            Err(e) => {
                proof {
                    lemma_vocab_extends_trans(k0, kpre, keywords@);
                    assert(spec_blocks_st(events@, itpos as int, kpre, itctr as int)
                        == Err::<ParserSt, ParseError>(e));
                    assert(spec_content_st(events@, pos0 as int, k0, c0 as int, level)
                        == Err::<ParserSt, ParseError>(e));
                }
                return Err(e);
            },
        }
    }
    let ghost spos = *pos;
    let ghost svocab = keywords@;
    let ghost sctr = *counter;
    proof {
        assert(clamp_pos(spos as int, pos0 as int, events@.len() as int) == spos as int);
        assert(spec_content_st(events@, pos0 as int, k0, c0 as int, level)
            == spec_subsections_st(events@, spos as int, svocab, sctr as int, level));
    }
    let ghost ub = units_of_blocks(blocks@, 0);
    let mut subs: Vec<Section> = Vec::new();
    loop
        invariant_except_break
            forall|full: Seq<Section>|
                full.len() >= subs@.len() && full.subrange(0, subs@.len() as int) == subs@
                    && sections_from(
                    events@,
                    *pos as int,
                    keywords@,
                    *counter as int,
                    full,
                    subs@.len() as int,
                    level,
                ) ==> #[trigger] sections_from(
                    events@,
                    spos as int,
                    svocab,
                    sctr as int,
                    full,
                    0,
                    level,
                ),
        invariant
            pos0 == *old(pos),
            c0 == *old(counter),
            k0 == old(keywords)@,
            pos0 <= *pos <= events@.len(),
            c0 + events@.len() - pos0 <= usize::MAX,
            *counter - c0 <= *pos - pos0,
            c0 <= *counter,
            vocab_wf(keywords@),
            vocab_extends(k0, keywords@),
            keywords@.len() - k0.len() <= *pos - pos0,
            pos0 == events@.len() ==> blocks@.len() == 0 && subs@.len() == 0,
            ub == units_of_blocks(blocks@, 0),
            *counter == c0 + ub.len() + units_of_sections(subs@, 0).len(),
            units_indexed(ub, c0 as int),
            units_indexed(units_of_sections(subs@, 0), c0 + ub.len()),
            forall|i: int| 0 <= i < blocks@.len() ==> block_wf(#[trigger] blocks@[i], keywords@),
            forall|i: int|
                0 <= i < subs@.len()
                    ==> section_wf(#[trigger] subs@[i], level + 1, keywords@),
            subs@.len() > 0 ==> level < 6,
            *pos == events@.len() || !is_block_start(events@[*pos as int].event),
            level <= 6,
            spec_content_st(events@, pos0 as int, k0, c0 as int, level)
                == spec_subsections_st(events@, spos as int, svocab, sctr as int, level),
            spec_subsections_st(events@, spos as int, svocab, sctr as int, level)
                == spec_subsections_st(events@, *pos as int, keywords@, *counter as int, level),
        ensures
            content_leftover(events@, *pos as int, level as int),
            spec_content_st(events@, pos0 as int, k0, c0 as int, level) == Ok::<
                ParserSt,
                ParseError,
            >((*pos as int, keywords@, *counter as int)),
            sections_from(events@, spos as int, svocab, sctr as int, subs@, 0, level),
        decreases events@.len() - *pos,
    {
        let ghost itpos = *pos;
        let ghost itctr = *counter;
        let ghost itsubs = subs@;
        if *pos == events.len() {
            proof {
                assert(spec_subsections_st(events@, itpos as int, keywords@, itctr as int, level)
                    == Ok::<ParserSt, ParseError>((*pos as int, keywords@, *counter as int)));
                assert(sections_from(
                    events@, itpos as int, keywords@, itctr as int, subs@,
                    itsubs.len() as int, level,
                ));
                assert(subs@.subrange(0, itsubs.len() as int) =~= itsubs);
                assert(sections_from(events@, spos as int, svocab, sctr as int, subs@, 0, level));
            }
            break;
        }
        let hl: u8 = match &events[*pos].event {
            Event::HeaderStart(l) => *l,
            _ => {
                proof {
                    assert(spec_subsections_st(
                        events@, itpos as int, keywords@, itctr as int, level,
                    ) == Ok::<ParserSt, ParseError>((*pos as int, keywords@, *counter as int)));
                    assert(sections_from(
                        events@, itpos as int, keywords@, itctr as int, subs@,
                        itsubs.len() as int, level,
                    ));
                    assert(subs@.subrange(0, itsubs.len() as int) =~= itsubs);
                    assert(sections_from(
                        events@, spos as int, svocab, sctr as int, subs@, 0, level,
                    ));
                }
                break;
            },
        };
        let off = events[*pos].offset;
        if hl < 1 || hl > 6 {
            proof {
                assert(spec_subsections_st(events@, itpos as int, keywords@, itctr as int, level)
                    == Err::<ParserSt, ParseError>(ParseError::BrokenStream {
                    kind: StreamBreak::HeaderLevelOutOfRange,
                    offset: off,
                }));
            }
            return Err(ParseError::BrokenStream {
                kind: StreamBreak::HeaderLevelOutOfRange,
                offset: off,
            });
        }
        if hl <= level {
            proof {
                assert(spec_subsections_st(events@, itpos as int, keywords@, itctr as int, level)
                    == Ok::<ParserSt, ParseError>((*pos as int, keywords@, *counter as int)));
                assert(sections_from(
                    events@, itpos as int, keywords@, itctr as int, subs@,
                    itsubs.len() as int, level,
                ));
                assert(subs@.subrange(0, itsubs.len() as int) =~= itsubs);
                assert(sections_from(events@, spos as int, svocab, sctr as int, subs@, 0, level));
            }
            break;
        }
        if hl == level + 1 {
            *pos = *pos + 1;
            let ghost kpre = keywords@;
            let s = match parse_section_of_level(events, pos, keywords, counter, hl, off) {
                Ok(s) => {
                    proof {
                        lemma_vocab_extends_trans(k0, kpre, keywords@);
                        assert(clamp_pos(*pos as int, itpos + 1, events@.len() as int)
                            == *pos as int);
                        assert(spec_subsections_st(
                            events@, itpos as int, kpre, itctr as int, level,
                        ) == spec_subsections_st(
                            events@, *pos as int, keywords@, *counter as int, level,
                        ));
                    }
                    s
                },
                Err(e) => {
                    proof {
                        lemma_vocab_extends_trans(k0, kpre, keywords@);
                        assert(spec_subsections_st(
                            events@, itpos as int, kpre, itctr as int, level,
                        ) == Err::<ParserSt, ParseError>(e));
                    }
                    return Err(e);
                },
            };
            proof {
                assert forall|i: int| 0 <= i < blocks@.len()
                    implies block_wf(#[trigger] blocks@[i], keywords@) by {
                    lemma_block_wf_extend(blocks@[i], kpre, keywords@);
                }
                assert forall|i: int| 0 <= i < subs@.len()
                    implies section_wf(#[trigger] subs@[i], level + 1, keywords@) by {
                    assert(section_wf(subs@[i], level + 1, kpre));
                    lemma_inline_wf_extend(subs@[i].title, kpre, keywords@);
                    lemma_content_wf_extend(subs@[i].content, level + 1, kpre, keywords@);
                }
                lemma_units_of_sections_push(subs@, s, 0);
                lemma_units_indexed_concat(
                    units_of_sections(subs@, 0),
                    units_of_section(s),
                    c0 + ub.len(),
                );
            }
            subs.push(s);
            proof {
                assert forall|full: Seq<Section>|
                    full.len() >= subs@.len() && full.subrange(0, subs@.len() as int) == subs@
                        && sections_from(
                        events@,
                        *pos as int,
                        keywords@,
                        *counter as int,
                        full,
                        subs@.len() as int,
                        level,
                    ) implies #[trigger] sections_from(
                        events@, spos as int, svocab, sctr as int, full, 0, level,
                    ) by {
                    assert(full.subrange(0, itsubs.len() as int) =~= itsubs);
                    assert(full[itsubs.len() as int] == subs@[itsubs.len() as int]);
                    assert(sections_from(
                        events@, itpos as int, kpre, itctr as int, full,
                        itsubs.len() as int, level,
                    ));
                }
            }
        } else {
            proof {
                assert(spec_subsections_st(events@, itpos as int, keywords@, itctr as int, level)
                    == Err::<ParserSt, ParseError>(ParseError::HeaderTooDeep {
                    level: hl,
                    parent_level: level,
                    offset: off,
                }));
            }
            return Err(ParseError::HeaderTooDeep {
                level: hl,
                parent_level: level,
                offset: off,
            });
        }
    }
    let c = SectionContent { blocks, sub_sections: subs };
    proof {
        assert(units_of_content(c) == units_of_blocks(c.blocks@, 0) + units_of_sections(
            c.sub_sections@,
            0,
        ));
        lemma_units_indexed_concat(
            units_of_blocks(c.blocks@, 0),
            units_of_sections(c.sub_sections@, 0),
            c0 as int,
        );
    }
    Ok(c)
}

/// Parse a whole event stream into a document tree and the vocabulary of
/// keywords the author marked with emphasis. The result is pinned as a
/// function of the events alone: on success, `parses_to` fixes the whole
/// tree — every unit's text, tags and index, every block and section — and
/// the vocabulary with its insertion order; on failure, the error and its
/// offset equal what the mirrored grammar (`spec_parse_st`) rejects the
/// stream with. The tree is well-formed with respect to the vocabulary,
/// nests sections at most six levels deep, and numbers its inline units
/// consecutively in document order starting at 0. It holds only explicit
/// keyword occurrences; implicit ones are found later by indexing.
pub fn parse(events: &Vec<SourceEvent>) -> (r: Result<(Document, KeywordSet), ParseError>)
    ensures
        r matches Ok(p) ==> {
            &&& vocab_wf(p.1@)
            &&& section_content_wf(p.0, 0, p.1@)
            &&& content_within_depth(p.0, 6)
            &&& units_indexed(units_of_content(p.0), 0)
        },
        events@.len() == 0 ==> (r matches Ok(p) && p.0.blocks@.len() == 0
            && p.0.sub_sections@.len() == 0 && p.1@.len() == 0),
        r matches Ok(p) ==> (spec_parse_st(events@) matches Ok(fin) && p.1@ == fin.0
            && units_of_content(p.0).len() == fin.1),
        r matches Ok(p) ==> parses_to(events@, p.0, p.1@),
        r matches Err(e) ==> spec_parse_st(events@) == Err::<(Seq<Seq<u8>>, int), ParseError>(e),
{
    let mut pos: usize = 0;
    let mut keywords = KeywordSet::new();
    let mut counter: usize = 0;
    let n = events.len();
    proof {
        assert(events@.len() == n <= usize::MAX);
    }
    let content =
        match parse_section_content_at_level(events, &mut pos, &mut keywords, &mut counter, 0) {
        Ok(c) => c,
        Err(e) => {
            return Err(e);
        },
    };
    if pos < events.len() {
        return Err(ParseError::UnexpectedElement { offset: events[pos].offset });
    }
    proof {
        lemma_wf_depth_bounded(content, 0, keywords@);
        assert(parses_to(events@, content, keywords@));
    }
    Ok((content, keywords))
}

} // verus!


verus! {

/// A parser state: the cursor position, the vocabulary, and the next
/// inline-unit index. The `spec_..._st` functions below mirror each stage
/// of the pipeline as a function of the event stream, so that every
/// contract can pin its result — which events are consumed, which keywords
/// are inserted and in what order, how many units are produced, and which
/// error (with which offset) comes on which input.
pub type ParserSt = (int, Seq<Seq<u8>>, int);

/// Clamp `p` to at least `lo`. The mirrored stages only ever move the
/// cursor forward; the clamp makes that evident to the termination checker.
pub open spec fn clamp_at(p: int, lo: int) -> int {
    if p < lo {
        lo
    } else {
        p
    }
}

/// Clamp `p` into `[lo, hi]`: the cursor moves forward and never leaves
/// the event stream. On every reachable state the clamp changes nothing;
/// it only makes the bounds evident to the termination checker.
pub open spec fn clamp_pos(p: int, lo: int, hi: int) -> int {
    if p < lo {
        lo
    } else if p > hi {
        hi
    } else {
        p
    }
}

/// What the inline scanner produces from a given scan state: whether any
/// text was seen, the text, the tags, and the state left behind. Mirrors
/// the scanner event by event: text accumulates; an emphasis span registers
/// its text in the vocabulary and closes as an explicit-keyword tag; a
/// strong span closes as a highlight tag; the documented failures are
/// returned with the offending event's offset.
pub open spec fn spec_inline_scan(
    events: Seq<SourceEvent>,
    pos: int,
    buf: Seq<u8>,
    saw: bool,
    tags: Seq<TaggedRange>,
    strong: Option<usize>,
    emph: Option<usize>,
    vocab: Seq<Seq<u8>>,
    counter: int,
) -> Result<(bool, Seq<u8>, Seq<TaggedRange>, int, Seq<Seq<u8>>, int), ParseError>
    decreases events.len() - pos,
{
    if pos < 0 || pos >= events.len() || !is_inline_event(events[pos].event) {
        Ok((saw, buf, tags, pos, vocab, if saw { counter + 1 } else { counter }))
    } else {
        let off = events[pos].offset;
        match events[pos].event {
            Event::Text(t) => spec_inline_scan(
                events, pos + 1, buf + t@, true, tags, strong, emph, vocab, counter,
            ),
            Event::EmphasisStart => {
                if emph is Some {
                    Err(ParseError::BrokenStream {
                        kind: StreamBreak::NestedEmphasis,
                        offset: off,
                    })
                } else {
                    spec_inline_scan(
                        events, pos + 1, buf, saw, tags, strong,
                        Some(buf.len() as usize), vocab, counter,
                    )
                }
            },
            Event::EmphasisEnd => {
                match emph {
                    None => Err(ParseError::MultilineEmphasis { offset: off }),
                    Some(es) => {
                        if es >= buf.len() {
                            Err(ParseError::BrokenStream {
                                kind: StreamBreak::EmptyEmphasis,
                                offset: off,
                            })
                        } else {
                            let kw = buf.subrange(es as int, buf.len() as int);
                            spec_inline_scan(
                                events,
                                pos + 1,
                                buf,
                                saw,
                                tags.push(TaggedRange {
                                    start: es,
                                    end: buf.len() as usize,
                                    tag: InlineTag::ExplicitKeyword(
                                        spec_insert_index(vocab, kw) as usize,
                                    ),
                                }),
                                strong,
                                None,
                                spec_insert(vocab, kw),
                                counter,
                            )
                        }
                    },
                }
            },
            Event::StrongStart => {
                if strong is Some {
                    Err(ParseError::BrokenStream {
                        kind: StreamBreak::NestedStrong,
                        offset: off,
                    })
                } else {
                    spec_inline_scan(
                        events, pos + 1, buf, saw, tags,
                        Some(buf.len() as usize), emph, vocab, counter,
                    )
                }
            },
            Event::StrongEnd => {
                match strong {
                    None => Err(ParseError::MultilineStrong { offset: off }),
                    Some(ss) => {
                        if !saw {
                            Err(ParseError::BrokenStream {
                                kind: StreamBreak::EmptyStrong,
                                offset: off,
                            })
                        } else {
                            spec_inline_scan(
                                events,
                                pos + 1,
                                buf,
                                saw,
                                tags.push(TaggedRange {
                                    start: ss,
                                    end: buf.len() as usize,
                                    tag: InlineTag::Highlight,
                                }),
                                None,
                                emph,
                                vocab,
                                counter,
                            )
                        }
                    },
                }
            },
            _ => Ok((saw, buf, tags, pos, vocab, if saw { counter + 1 } else { counter })),
        }
    }
}

/// One whole inline unit scanned from rest: `spec_inline_scan` from the
/// empty starting state.
pub open spec fn spec_parse_inline(
    events: Seq<SourceEvent>,
    pos: int,
    vocab: Seq<Seq<u8>>,
    counter: int,
) -> Result<(bool, Seq<u8>, Seq<TaggedRange>, int, Seq<Seq<u8>>, int), ParseError> {
    spec_inline_scan(
        events, pos, Seq::empty(), false, Seq::empty(), None, None, vocab, counter,
    )
}

/// The state after parsing a break-separated sequence of inline units.
pub open spec fn spec_inline_seq_st(
    events: Seq<SourceEvent>,
    pos: int,
    vocab: Seq<Seq<u8>>,
    counter: int,
) -> Result<ParserSt, ParseError>
    decreases events.len() - pos,
{
    match spec_parse_inline(events, pos, vocab, counter) {
        Err(e) => Err(e),
        Ok(fin) => {
            let p1 = clamp_at(fin.3, pos);
            if p1 >= events.len() || !is_break_event(events[p1].event) {
                Ok((p1, fin.4, fin.5))
            } else {
                spec_inline_seq_st(events, p1 + 1, fin.4, fin.5)
            }
        },
    }
}

/// The state after parsing a paragraph from just after its start marker.
pub open spec fn spec_paragraph_st(
    events: Seq<SourceEvent>,
    pos: int,
    vocab: Seq<Seq<u8>>,
    counter: int,
    start_off: usize,
) -> Result<ParserSt, ParseError> {
    match spec_inline_seq_st(events, pos, vocab, counter) {
        Err(e) => Err(e),
        Ok((p1, v1, c1)) => {
            if p1 >= events.len() {
                Err(ParseError::BrokenStream {
                    kind: StreamBreak::UnclosedParagraph,
                    offset: start_off,
                })
            } else {
                match events[p1].event {
                    Event::ParagraphEnd => {
                        if c1 == counter {
                            Err(ParseError::EmptyParagraph { offset: events[p1].offset })
                        } else {
                            Ok((p1 + 1, v1, c1))
                        }
                    },
                    _ => Err(ParseError::UnexpectedElement { offset: events[p1].offset }),
                }
            }
        },
    }
}

/// The state after parsing one list item from just after its start marker.
pub open spec fn spec_list_item_st(
    events: Seq<SourceEvent>,
    pos: int,
    vocab: Seq<Seq<u8>>,
    counter: int,
    item_off: usize,
) -> Result<ParserSt, ParseError>
    decreases events.len() - pos, 0int,
{
    match spec_inline_seq_st(events, pos, vocab, counter) {
        Err(e) => Err(e),
        Ok((p1r, v1, c1)) => {
            let p1 = clamp_at(p1r, pos);
            if p1 >= events.len() {
                Err(ParseError::BrokenStream {
                    kind: StreamBreak::UnclosedListItem,
                    offset: item_off,
                })
            } else if c1 == counter {
                Err(ParseError::EmptyListItem { offset: events[p1].offset })
            } else {
                match events[p1].event {
                    Event::ItemEnd => Ok((p1 + 1, v1, c1)),
                    Event::ListStart(_) => {
                        match spec_list_st(events, p1 + 1, v1, c1, events[p1].offset) {
                            Err(e) => Err(e),
                            Ok((p2r, v2, c2)) => {
                                let p2 = clamp_at(p2r, p1);
                                if p2 >= events.len() {
                                    Err(ParseError::BrokenStream {
                                        kind: StreamBreak::UnclosedListItem,
                                        offset: item_off,
                                    })
                                } else {
                                    match events[p2].event {
                                        Event::ItemEnd => Ok((p2 + 1, v2, c2)),
                                        _ => Err(ParseError::UnexpectedElement {
                                            offset: events[p2].offset,
                                        }),
                                    }
                                }
                            },
                        }
                    },
                    _ => Err(ParseError::UnexpectedElement { offset: events[p1].offset }),
                }
            }
        },
    }
}

/// The state after parsing a list from just after its start marker.
pub open spec fn spec_list_st(
    events: Seq<SourceEvent>,
    pos: int,
    vocab: Seq<Seq<u8>>,
    counter: int,
    start_off: usize,
) -> Result<ParserSt, ParseError>
    decreases events.len() - pos, 1int,
{
    if pos < 0 || pos >= events.len() {
        Err(ParseError::BrokenStream { kind: StreamBreak::UnclosedList, offset: start_off })
    } else {
        match events[pos].event {
            Event::ItemStart => {
                match spec_list_item_st(events, pos + 1, vocab, counter, events[pos].offset) {
                    Err(e) => Err(e),
                    Ok((p1, v1, c1)) => {
                        spec_list_st(
                            events,
                            clamp_pos(p1, pos + 1, events.len() as int),
                            v1,
                            c1,
                            start_off,
                        )
                    },
                }
            },
            Event::ListEnd => Ok((pos + 1, vocab, counter)),
            _ => Err(ParseError::BrokenStream {
                kind: StreamBreak::UnexpectedListEvent,
                offset: events[pos].offset,
            }),
        }
    }
}

/// The state after trying one block at the cursor; the flag says whether a
/// block was there.
pub open spec fn spec_try_block_st(
    events: Seq<SourceEvent>,
    pos: int,
    vocab: Seq<Seq<u8>>,
    counter: int,
) -> Result<(bool, int, Seq<Seq<u8>>, int), ParseError> {
    if pos < 0 || pos >= events.len() {
        Ok((false, pos, vocab, counter))
    } else {
        let off = events[pos].offset;
        match events[pos].event {
            Event::ParagraphStart => {
                match spec_paragraph_st(events, pos + 1, vocab, counter, off) {
                    Err(e) => Err(e),
                    Ok((p1, v1, c1)) => Ok((true, p1, v1, c1)),
                }
            },
            Event::RuleStart => {
                if pos + 1 >= events.len() {
                    Err(ParseError::BrokenStream {
                        kind: StreamBreak::UnclosedRule,
                        offset: off,
                    })
                } else {
                    match events[pos + 1].event {
                        Event::RuleEnd => Ok((true, pos + 2, vocab, counter)),
                        _ => Err(ParseError::BrokenStream {
                            kind: StreamBreak::MissingRuleEnd,
                            offset: events[pos + 1].offset,
                        }),
                    }
                }
            },
            Event::ListStart(_) => {
                match spec_list_st(events, pos + 1, vocab, counter, off) {
                    Err(e) => Err(e),
                    Ok((p1, v1, c1)) => Ok((true, p1, v1, c1)),
                }
            },
            _ => Ok((false, pos, vocab, counter)),
        }
    }
}

/// The state after parsing all blocks before the first sub-section.
pub open spec fn spec_blocks_st(
    events: Seq<SourceEvent>,
    pos: int,
    vocab: Seq<Seq<u8>>,
    counter: int,
) -> Result<ParserSt, ParseError>
    decreases events.len() - pos,
{
    match spec_try_block_st(events, pos, vocab, counter) {
        Err(e) => Err(e),
        Ok((consumed, p1, v1, c1)) => {
            if !consumed {
                Ok((p1, v1, c1))
            } else {
                spec_blocks_st(events, clamp_pos(p1, pos + 1, events.len() as int), v1, c1)
            }
        },
    }
}

/// The state after parsing the sub-sections of a section at `level`.
pub open spec fn spec_subsections_st(
    events: Seq<SourceEvent>,
    pos: int,
    vocab: Seq<Seq<u8>>,
    counter: int,
    level: u8,
) -> Result<ParserSt, ParseError>
    decreases events.len() - pos, 1int,
{
    if pos < 0 || pos >= events.len() {
        Ok((pos, vocab, counter))
    } else {
        match events[pos].event {
            Event::HeaderStart(hl) => {
                let off = events[pos].offset;
                if hl < 1 || hl > 6 {
                    Err(ParseError::BrokenStream {
                        kind: StreamBreak::HeaderLevelOutOfRange,
                        offset: off,
                    })
                } else if hl <= level {
                    Ok((pos, vocab, counter))
                } else if hl == level + 1 {
                    match spec_section_of_level_st(events, pos + 1, vocab, counter, hl, off) {
                        Err(e) => Err(e),
                        Ok((p1, v1, c1)) => spec_subsections_st(
                            events,
                            clamp_pos(p1, pos + 1, events.len() as int),
                            v1,
                            c1,
                            level,
                        ),
                    }
                } else {
                    Err(ParseError::HeaderTooDeep { level: hl, parent_level: level, offset: off })
                }
            },
            _ => Ok((pos, vocab, counter)),
        }
    }
}

/// The state after parsing a section's content at `level`.
pub open spec fn spec_content_st(
    events: Seq<SourceEvent>,
    pos: int,
    vocab: Seq<Seq<u8>>,
    counter: int,
    level: u8,
) -> Result<ParserSt, ParseError>
    decreases events.len() - pos, 2int,
{
    if pos < 0 || pos > events.len() {
        Ok((pos, vocab, counter))
    } else {
        match spec_blocks_st(events, pos, vocab, counter) {
            Err(e) => Err(e),
            Ok((p1, v1, c1)) => spec_subsections_st(
                events,
                clamp_pos(p1, pos, events.len() as int),
                v1,
                c1,
                level,
            ),
        }
    }
}

/// The state after parsing a whole section from just after its header
/// start: the title, the header end marker, then the content.
pub open spec fn spec_section_of_level_st(
    events: Seq<SourceEvent>,
    pos: int,
    vocab: Seq<Seq<u8>>,
    counter: int,
    level: u8,
    start_off: usize,
) -> Result<ParserSt, ParseError>
    decreases events.len() - pos, 3int,
{
    match spec_parse_inline(events, pos, vocab, counter) {
        Err(e) => Err(e),
        Ok(fin) => {
            let p1 = clamp_at(fin.3, pos);
            if p1 >= events.len() {
                Err(ParseError::BrokenStream {
                    kind: if fin.0 {
                        StreamBreak::UnclosedHeader
                    } else {
                        StreamBreak::MissingHeaderTitle
                    },
                    offset: start_off,
                })
            } else {
                let off1 = events[p1].offset;
                match events[p1].event {
                    Event::HeaderEnd(n) => {
                        if !fin.0 {
                            Err(ParseError::UnexpectedElement { offset: off1 })
                        } else if n != level {
                            Err(ParseError::BrokenStream {
                                kind: StreamBreak::HeaderLevelMismatch,
                                offset: off1,
                            })
                        } else {
                            spec_content_st(events, p1 + 1, fin.4, fin.5, level)
                        }
                    },
                    _ => Err(ParseError::UnexpectedElement { offset: off1 }),
                }
            }
        },
    }
}

/// The vocabulary and inline-unit count a whole event stream parses to,
/// or the error it is rejected with. This is the reference the parser is
/// held to: which events are consumed, which keywords enter the vocabulary
/// in which order, how many units are produced, and which failure comes
/// with which offset, are all functions of the events alone.
pub open spec fn spec_parse_st(events: Seq<SourceEvent>) -> Result<(Seq<Seq<u8>>, int), ParseError> {
    match spec_content_st(events, 0, Seq::empty(), 0, 0) {
        Err(e) => Err(e),
        Ok((p, v, c)) => {
            if p < events.len() {
                Err(ParseError::UnexpectedElement { offset: events[p].offset })
            } else {
                Ok((v, c))
            }
        },
    }
}

} // verus!

verus! {

/// The units `elems[k..]` are exactly what scanning a break-separated
/// sequence of inline units from `pos` produces: each unit's index, text
/// and tags in order.
pub open spec fn inline_seq_from(
    events: Seq<SourceEvent>,
    pos: int,
    vocab: Seq<Seq<u8>>,
    counter: int,
    elems: Seq<InlineElement>,
    k: int,
) -> bool
    decreases events.len() - pos,
{
    spec_parse_inline(events, pos, vocab, counter) matches Ok(fin) && {
        let p1 = clamp_at(fin.3, pos);
        &&& (fin.0 ==> k < elems.len() && elems[k].index == counter && elems[k].string@ == fin.1
            && elems[k].tags@ == fin.2)
        &&& {
            let k1 = if fin.0 {
                k + 1
            } else {
                k
            };
            if p1 >= events.len() || !is_break_event(events[p1].event) {
                k1 == elems.len()
            } else {
                inline_seq_from(events, p1 + 1, fin.4, fin.5, elems, k1)
            }
        }
    }
}

/// The item `it` is exactly what parsing one list item from `pos` (just
/// after its start marker) produces.
pub open spec fn item_from(
    events: Seq<SourceEvent>,
    pos: int,
    vocab: Seq<Seq<u8>>,
    counter: int,
    it: ListItem,
) -> bool
    decreases it, 0int,
{
    &&& inline_seq_from(events, pos, vocab, counter, it.text_content@, 0)
    &&& spec_inline_seq_st(events, pos, vocab, counter) matches Ok(st1) && {
        let p1 = clamp_at(st1.0, pos);
        &&& p1 < events.len()
        &&& match events[p1].event {
            Event::ItemEnd => it.sub_list is None,
            Event::ListStart(o) => match it.sub_list {
                Some(sub) => sub.ordered == o && list_from(events, p1 + 1, st1.1, st1.2, sub),
                None => false,
            },
            _ => false,
        }
    }
}

/// The items `items[i..]` are exactly what parsing the rest of a list
/// from `pos` produces, up to its end marker.
pub open spec fn items_from(
    events: Seq<SourceEvent>,
    pos: int,
    vocab: Seq<Seq<u8>>,
    counter: int,
    items: Seq<ListItem>,
    i: int,
) -> bool
    decreases items, items.len() - i,
{
    0 <= pos < events.len() && match events[pos].event {
        Event::ItemStart => 0 <= i < items.len() && item_from(events, pos + 1, vocab, counter, items[i])
            && (spec_list_item_st(events, pos + 1, vocab, counter, events[pos].offset) matches Ok(
            st1,
        ) && items_from(events, st1.0, st1.1, st1.2, items, i + 1)),
        Event::ListEnd => i == items.len(),
        _ => false,
    }
}

/// The list `l` is exactly what parsing from `pos` (just after its start
/// marker) produces.
pub open spec fn list_from(
    events: Seq<SourceEvent>,
    pos: int,
    vocab: Seq<Seq<u8>>,
    counter: int,
    l: List,
) -> bool
    decreases l, 0int,
{
    items_from(events, pos, vocab, counter, l.items@, 0)
}

/// The block `b` is exactly what parsing the block opening at `pos`
/// produces.
pub open spec fn block_from(
    events: Seq<SourceEvent>,
    pos: int,
    vocab: Seq<Seq<u8>>,
    counter: int,
    b: BlockElement,
) -> bool
    decreases b, 0int,
{
    0 <= pos < events.len() && match events[pos].event {
        Event::ParagraphStart => b matches BlockElement::Paragraph(v) && inline_seq_from(
            events,
            pos + 1,
            vocab,
            counter,
            v@,
            0,
        ),
        Event::RuleStart => b is Rule,
        Event::ListStart(o) => b matches BlockElement::List(l) && l.ordered == o && list_from(
            events,
            pos + 1,
            vocab,
            counter,
            l,
        ),
        _ => false,
    }
}

/// The blocks `blocks[i..]` are exactly what parsing block after block
/// from `pos` produces, until an event that opens no block.
pub open spec fn blocks_from(
    events: Seq<SourceEvent>,
    pos: int,
    vocab: Seq<Seq<u8>>,
    counter: int,
    blocks: Seq<BlockElement>,
    i: int,
) -> bool
    decreases blocks, blocks.len() - i,
{
    spec_try_block_st(events, pos, vocab, counter) matches Ok(tb) && {
        if !tb.0 {
            i == blocks.len()
        } else {
            0 <= i < blocks.len() && block_from(events, pos, vocab, counter, blocks[i]) && blocks_from(
                events,
                tb.1,
                tb.2,
                tb.3,
                blocks,
                i + 1,
            )
        }
    }
}

/// The sections `ss[i..]` are exactly what parsing sub-section after
/// sub-section at `level` from `pos` produces.
pub open spec fn sections_from(
    events: Seq<SourceEvent>,
    pos: int,
    vocab: Seq<Seq<u8>>,
    counter: int,
    ss: Seq<Section>,
    i: int,
    level: u8,
) -> bool
    decreases ss, ss.len() - i,
{
    if pos < 0 || pos >= events.len() {
        i == ss.len()
    } else {
        match events[pos].event {
            Event::HeaderStart(hl) => {
                if 1 <= hl <= 6 && hl == level + 1 {
                    0 <= i < ss.len() && section_from(events, pos + 1, vocab, counter, ss[i], hl) && (
                    spec_section_of_level_st(
                        events,
                        pos + 1,
                        vocab,
                        counter,
                        hl,
                        events[pos].offset,
                    ) matches Ok(st1) && sections_from(events, st1.0, st1.1, st1.2, ss, i + 1, level))
                } else if 1 <= hl <= 6 && hl <= level {
                    i == ss.len()
                } else {
                    false
                }
            },
            _ => i == ss.len(),
        }
    }
}

/// The section `s` is exactly what parsing from `pos` (just after its
/// header start) produces: its title unit, then its content.
pub open spec fn section_from(
    events: Seq<SourceEvent>,
    pos: int,
    vocab: Seq<Seq<u8>>,
    counter: int,
    s: Section,
    level: u8,
) -> bool
    decreases s, 0int,
{
    spec_parse_inline(events, pos, vocab, counter) matches Ok(fin) && {
        let p1 = clamp_at(fin.3, pos);
        &&& fin.0
        &&& s.title.index == counter
        &&& s.title.string@ == fin.1
        &&& s.title.tags@ == fin.2
        &&& p1 < events.len()
        &&& events[p1].event matches Event::HeaderEnd(n) && n == level
        &&& content_from(events, p1 + 1, fin.4, fin.5, s.content, level)
    }
}

/// The content `c` is exactly what parsing a section's content at `level`
/// from `pos` produces: its blocks, then its sub-sections.
pub open spec fn content_from(
    events: Seq<SourceEvent>,
    pos: int,
    vocab: Seq<Seq<u8>>,
    counter: int,
    c: SectionContent,
    level: u8,
) -> bool
    decreases c, 0int,
{
    &&& blocks_from(events, pos, vocab, counter, c.blocks@, 0)
    &&& spec_blocks_st(events, pos, vocab, counter) matches Ok(st1) && sections_from(
        events,
        st1.0,
        st1.1,
        st1.2,
        c.sub_sections@,
        0,
        level,
    )
}

/// The whole document `doc` with vocabulary `v` is exactly what parsing
/// the event stream produces. Together with `spec_parse_st` this pins the
/// parse result — tree, unit texts, tags, vocabulary, numbering and
/// errors — as a function of the events alone.
pub open spec fn parses_to(events: Seq<SourceEvent>, doc: Document, v: Seq<Seq<u8>>) -> bool {
    &&& content_from(events, 0, Seq::empty(), 0, doc, 0)
    &&& spec_parse_st(events) matches Ok(fin) && fin.0 == v
}

} // verus!


verus! {

/// The law that the scanner never produces an implicit-keyword tag: when
/// no tag so far is implicit, none in the scan's outcome is either. Since
/// parsing starts every unit with no tags, a parsed tree holds only
/// explicit-keyword and highlight tags; implicit ones are added only by
/// the later indexing pass.
pub proof fn lemma_scan_adds_no_implicit_tags(
    events: Seq<SourceEvent>,
    pos: int,
    buf: Seq<u8>,
    saw: bool,
    tags: Seq<TaggedRange>,
    strong: Option<usize>,
    emph: Option<usize>,
    vocab: Seq<Seq<u8>>,
    counter: int,
)
    requires
        forall|i: int| 0 <= i < tags.len() ==> !((#[trigger] tags[i]).tag is ImplicitKeyword),
    ensures
        spec_inline_scan(events, pos, buf, saw, tags, strong, emph, vocab, counter) matches Ok(
            fin,
        ) ==> forall|i: int|
            0 <= i < fin.2.len() ==> !((#[trigger] fin.2[i]).tag is ImplicitKeyword),
    decreases events.len() - pos,
{
    if pos < 0 || pos >= events.len() || !is_inline_event(events[pos].event) {
    } else {
        match events[pos].event {
            Event::Text(t) => {
                lemma_scan_adds_no_implicit_tags(
                    events, pos + 1, buf + t@, true, tags, strong, emph, vocab, counter,
                );
            },
            Event::EmphasisStart => {
                if !(emph is Some) {
                    lemma_scan_adds_no_implicit_tags(
                        events, pos + 1, buf, saw, tags, strong,
                        Some(buf.len() as usize), vocab, counter,
                    );
                }
            },
            Event::EmphasisEnd => {
                match emph {
                    None => (),
                    Some(es) => {
                        if es < buf.len() {
                            let kw = buf.subrange(es as int, buf.len() as int);
                            let t2 = tags.push(TaggedRange {
                                start: es,
                                end: buf.len() as usize,
                                tag: InlineTag::ExplicitKeyword(
                                    spec_insert_index(vocab, kw) as usize,
                                ),
                            });
                            assert forall|i: int| 0 <= i < t2.len()
                                implies !((#[trigger] t2[i]).tag is ImplicitKeyword) by {
                                if i < tags.len() {
                                    assert(t2[i] == tags[i]);
                                }
                            }
                            lemma_scan_adds_no_implicit_tags(
                                events, pos + 1, buf, saw, t2, strong, None,
                                spec_insert(vocab, kw), counter,
                            );
                        }
                    },
                }
            },
            Event::StrongStart => {
                if !(strong is Some) {
                    lemma_scan_adds_no_implicit_tags(
                        events, pos + 1, buf, saw, tags,
                        Some(buf.len() as usize), emph, vocab, counter,
                    );
                }
            },
            Event::StrongEnd => {
                match strong {
                    None => (),
                    Some(ss) => {
                        if saw {
                            let t2 = tags.push(TaggedRange {
                                start: ss,
                                end: buf.len() as usize,
                                tag: InlineTag::Highlight,
                            });
                            assert forall|i: int| 0 <= i < t2.len()
                                implies !((#[trigger] t2[i]).tag is ImplicitKeyword) by {
                                if i < tags.len() {
                                    assert(t2[i] == tags[i]);
                                }
                            }
                            lemma_scan_adds_no_implicit_tags(
                                events, pos + 1, buf, saw, t2, None, emph, vocab, counter,
                            );
                        }
                    },
                }
            },
            _ => (),
        }
    }
}

} // verus!
