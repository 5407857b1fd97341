//! The document tree: sections nested by header level, blocks, and inline
//! text units annotated with tagged byte ranges.
//!
//! All text is kept as UTF-8 bytes; tag ranges are half-open byte ranges
//! into the owning inline unit's text. Well-formedness of every part of the
//! tree is captured by the `..._wf` spec functions below: tag ranges stay in
//! bounds, keyword tags never overlap each other, highlight tags never
//! overlap each other, every keyword tag names the vocabulary entry that is
//! case-insensitively equal to the tagged text, paragraphs and list items
//! are non-empty, and section nesting never goes deeper than the six
//! conventional header levels.

use vstd::prelude::*;
use crate::vocab::{fold_of, vocab_extends};

verus! {

/// One event of the structural token stream that the tree is built from.
/// An external tokenizer produces these; the parser consumes them in order.
#[derive(Debug)]
pub enum Event {
    /// Start of a header with its level (1 to 6).
    HeaderStart(u8),
    /// End of a header with its level.
    HeaderEnd(u8),
    ParagraphStart,
    ParagraphEnd,
    RuleStart,
    RuleEnd,
    /// Start of a list; the flag says whether the list is ordered.
    ListStart(bool),
    ListEnd,
    ItemStart,
    ItemEnd,
    EmphasisStart,
    EmphasisEnd,
    StrongStart,
    StrongEnd,
    /// A chunk of plain text, as UTF-8 bytes.
    Text(Vec<u8>),
    SoftBreak,
    HardBreak,
    /// Any event kind this core does not support, with a description used
    /// in error reports.
    Other(String),
}

/// An event together with the byte offset in the source text it came from.
#[derive(Debug)]
pub struct SourceEvent {
    pub event: Event,
    pub offset: usize,
}

/// All inline text units are indexed by order of appearance in the document.
pub type InlineIndex = usize;

/// Root of a document. Equivalent to a level-0 section with no title.
pub type Document = SectionContent;

/// A titled, recursively nested region of the document keyed by header level.
#[derive(Debug)]
pub struct Section {
    pub title: InlineElement,
    pub content: SectionContent,
}

/// The blocks of a section followed by its direct sub-sections.
#[derive(Debug)]
pub struct SectionContent {
    pub blocks: Vec<BlockElement>,
    pub sub_sections: Vec<Section>,
}

/// A block-level element.
#[derive(Debug)]
pub enum BlockElement {
    /// A paragraph: a non-empty sequence of inline text units.
    Paragraph(Vec<InlineElement>),
    /// A horizontal rule.
    Rule,
    /// A list, ordered or not.
    List(List),
}

#[derive(Debug)]
pub struct List {
    pub ordered: bool,
    pub items: Vec<ListItem>,
}

#[derive(Debug)]
pub struct ListItem {
    /// Possibly multiline text. Must be non-empty.
    pub text_content: Vec<InlineElement>,
    pub sub_list: Option<List>,
}

/// One contiguous run of plain text plus its annotations.
#[derive(Debug)]
pub struct InlineElement {
    /// Unique index, by order of appearance in the document.
    pub index: InlineIndex,
    /// Raw text content (UTF-8 bytes) without any formatting markers.
    pub string: Vec<u8>,
    /// Tagged half-open byte ranges over `string`, in order of creation.
    pub tags: Vec<TaggedRange>,
}

/// A half-open byte range `[start, end)` of an inline unit's text, with its tag.
#[derive(Clone, Copy, Debug, PartialEq, Eq, Structural)]
pub struct TaggedRange {
    pub start: usize,
    pub end: usize,
    pub tag: InlineTag,
}

/// Tags for parts of an inline unit. Keyword tags must not overlap each
/// other; highlight tags must not overlap each other but may overlap
/// keyword tags.
#[derive(Clone, Copy, Debug, PartialEq, Eq, Structural)]
pub enum InlineTag {
    /// Non-semantic highlight (strong emphasis in the source), kept in the output.
    Highlight,
    /// Keyword occurrence marked by the author, with its vocabulary index.
    ExplicitKeyword(usize),
    /// Keyword occurrence found afterwards by scanning, with its vocabulary index.
    ImplicitKeyword(usize),
}

/// Whether a tag marks a keyword occurrence (explicitly or implicitly).
pub open spec fn tag_is_keyword(t: InlineTag) -> bool {
    t is ExplicitKeyword || t is ImplicitKeyword
}

/// The vocabulary index a keyword tag carries.
pub open spec fn tag_keyword_index(t: InlineTag) -> int {
    match t {
        InlineTag::Highlight => 0,
        InlineTag::ExplicitKeyword(k) => k as int,
        InlineTag::ImplicitKeyword(k) => k as int,
    }
}

/// A keyword tag over `text` names the vocabulary entry that is
/// case-insensitively equal to the text it covers; a highlight tag claims
/// nothing.
pub open spec fn tag_linked_text(text: Seq<u8>, t: TaggedRange, v: Seq<Seq<u8>>) -> bool {
    tag_is_keyword(t.tag) ==> {
        &&& tag_keyword_index(t.tag) < v.len()
        &&& fold_of(v[tag_keyword_index(t.tag)])
            == fold_of(text.subrange(t.start as int, t.end as int))
    }
}

/// A keyword tag names the vocabulary entry that is case-insensitively
/// equal to the text it covers in the unit's own string.
pub open spec fn tag_linked(e: InlineElement, t: TaggedRange, v: Seq<Seq<u8>>) -> bool {
    tag_linked_text(e.string@, t, v)
}

/// Two ranges are disjoint when one ends before the other starts.
pub open spec fn ranges_disjoint(a: TaggedRange, b: TaggedRange) -> bool {
    a.end <= b.start || b.end <= a.start
}

/// Well-formedness of one inline unit with respect to the vocabulary `v`:
/// tag ranges are valid byte offsets into the unit's own text, keyword tags
/// name the matching vocabulary entry, keyword tags are pairwise disjoint,
/// and highlight tags are pairwise disjoint.
pub open spec fn inline_wf(e: InlineElement, v: Seq<Seq<u8>>) -> bool {
    &&& forall|i: int| 0 <= i < e.tags@.len() ==> {
        &&& (#[trigger] e.tags@[i]).start <= e.tags@[i].end
        &&& e.tags@[i].end <= e.string@.len()
        &&& tag_linked(e, e.tags@[i], v)
    }
    &&& forall|i: int, j: int|
        0 <= i < j < e.tags@.len() && tag_is_keyword(e.tags@[i].tag)
            && tag_is_keyword(e.tags@[j].tag)
            ==> ranges_disjoint(#[trigger] e.tags@[i], #[trigger] e.tags@[j])
    &&& forall|i: int, j: int|
        0 <= i < j < e.tags@.len() && e.tags@[i].tag is Highlight
            && e.tags@[j].tag is Highlight
            ==> ranges_disjoint(#[trigger] e.tags@[i], #[trigger] e.tags@[j])
}

/// Well-formedness of a list: every item is well-formed.
pub open spec fn list_wf(l: List, v: Seq<Seq<u8>>) -> bool
    decreases l,
{
    forall|i: int| 0 <= i < l.items@.len() ==> item_wf(#[trigger] l.items@[i], v)
}

/// Well-formedness of a list item: the text content is non-empty, every
/// inline unit is well-formed, and so is the nested list, if any.
pub open spec fn item_wf(it: ListItem, v: Seq<Seq<u8>>) -> bool
    decreases it,
{
    &&& it.text_content@.len() > 0
    &&& forall|i: int|
        0 <= i < it.text_content@.len() ==> inline_wf(#[trigger] it.text_content@[i], v)
    &&& match it.sub_list {
        Some(sub) => list_wf(sub, v),
        None => true,
    }
}

/// Well-formedness of a block element.
pub open spec fn block_wf(b: BlockElement, v: Seq<Seq<u8>>) -> bool {
    match b {
        BlockElement::Paragraph(inlines) => {
            &&& inlines@.len() > 0
            &&& forall|i: int|
                0 <= i < inlines@.len() ==> inline_wf(#[trigger] inlines@[i], v)
        },
        BlockElement::Rule => true,
        BlockElement::List(l) => list_wf(l, v),
    }
}

/// Well-formedness of a section's content when the section sits at header
/// level `level` (0 for the document root): all blocks are well-formed, and
/// sub-sections, which sit exactly one level deeper, exist only above level
/// 6 and are recursively well-formed.
pub open spec fn section_content_wf(c: SectionContent, level: int, v: Seq<Seq<u8>>) -> bool
    decreases c,
{
    &&& forall|i: int| 0 <= i < c.blocks@.len() ==> block_wf(#[trigger] c.blocks@[i], v)
    &&& c.sub_sections@.len() > 0 ==> level < 6
    &&& forall|i: int|
        0 <= i < c.sub_sections@.len()
            ==> section_wf(#[trigger] c.sub_sections@[i], level + 1, v)
}

/// Well-formedness of a section at header level `level` (1 to 6).
pub open spec fn section_wf(s: Section, level: int, v: Seq<Seq<u8>>) -> bool
    decreases s,
{
    &&& 1 <= level <= 6
    &&& inline_wf(s.title, v)
    &&& section_content_wf(s.content, level, v)
}

/// The section nesting below `c` stays within `d` further levels: when `c`
/// has sub-sections at all, `d` is positive and every sub-section's own
/// nesting stays within `d - 1` levels.
pub open spec fn content_within_depth(c: SectionContent, d: int) -> bool
    decreases c,
{
    c.sub_sections@.len() > 0 ==> {
        &&& d > 0
        &&& forall|i: int|
            0 <= i < c.sub_sections@.len()
                ==> section_within_depth(#[trigger] c.sub_sections@[i], d - 1)
    }
}

/// The section nesting below `s` (not counting `s` itself) stays within `d`
/// further levels.
pub open spec fn section_within_depth(s: Section, d: int) -> bool
    decreases s,
{
    content_within_depth(s.content, d)
}

/// The law that section nesting in a well-formed tree never exceeds the six
/// conventional header levels: content well-formed at header level `level`
/// nests at most `6 - level` further levels of sections. For the document
/// root (level 0) the whole tree therefore stays within depth 6.
pub proof fn lemma_wf_depth_bounded(c: SectionContent, level: int, v: Seq<Seq<u8>>)
    requires
        section_content_wf(c, level, v),
        0 <= level <= 6,
    ensures
        content_within_depth(c, 6 - level),
    decreases c,
{
    assert forall|i: int| 0 <= i < c.sub_sections@.len()
        implies section_within_depth(#[trigger] c.sub_sections@[i], 6 - level - 1) by {
        assert(section_wf(c.sub_sections@[i], level + 1, v));
        lemma_wf_depth_bounded(c.sub_sections@[i].content, level + 1, v);
    }
}

/// Inline well-formedness is kept when the vocabulary is extended: indices
/// of existing entries stay stable.
pub proof fn lemma_inline_wf_extend(e: InlineElement, v: Seq<Seq<u8>>, w: Seq<Seq<u8>>)
    requires
        inline_wf(e, v),
        vocab_extends(v, w),
    ensures
        inline_wf(e, w),
{
    assert forall|i: int| 0 <= i < e.tags@.len()
        implies tag_linked(e, #[trigger] e.tags@[i], w) by {
        assert(tag_linked(e, e.tags@[i], v));
        if tag_is_keyword(e.tags@[i].tag) {
            assert(w[tag_keyword_index(e.tags@[i].tag)] == v[tag_keyword_index(e.tags@[i].tag)]);
        }
    }
}

/// List well-formedness is kept when the vocabulary is extended.
pub proof fn lemma_list_wf_extend(l: List, v: Seq<Seq<u8>>, w: Seq<Seq<u8>>)
    requires
        list_wf(l, v),
        vocab_extends(v, w),
    ensures
        list_wf(l, w),
    decreases l,
{
    assert forall|i: int| 0 <= i < l.items@.len()
        implies item_wf(#[trigger] l.items@[i], w) by {
        assert(item_wf(l.items@[i], v));
        lemma_item_wf_extend(l.items@[i], v, w);
    }
}

/// List-item well-formedness is kept when the vocabulary is extended.
pub proof fn lemma_item_wf_extend(it: ListItem, v: Seq<Seq<u8>>, w: Seq<Seq<u8>>)
    requires
        item_wf(it, v),
        vocab_extends(v, w),
    ensures
        item_wf(it, w),
    decreases it,
{
    assert forall|i: int| 0 <= i < it.text_content@.len()
        implies inline_wf(#[trigger] it.text_content@[i], w) by {
        lemma_inline_wf_extend(it.text_content@[i], v, w);
    }
    match it.sub_list {
        Some(sub) => lemma_list_wf_extend(sub, v, w),
        None => (),
    }
}

/// Block well-formedness is kept when the vocabulary is extended.
pub proof fn lemma_block_wf_extend(b: BlockElement, v: Seq<Seq<u8>>, w: Seq<Seq<u8>>)
    requires
        block_wf(b, v),
        vocab_extends(v, w),
    ensures
        block_wf(b, w),
{
    match b {
        BlockElement::Paragraph(inlines) => {
            assert forall|i: int| 0 <= i < inlines@.len()
                implies inline_wf(#[trigger] inlines@[i], w) by {
                lemma_inline_wf_extend(inlines@[i], v, w);
            }
        },
        BlockElement::Rule => (),
        BlockElement::List(l) => lemma_list_wf_extend(l, v, w),
    }
}

/// Section-content well-formedness is kept when the vocabulary is extended.
pub proof fn lemma_content_wf_extend(c: SectionContent, level: int, v: Seq<Seq<u8>>, w: Seq<Seq<u8>>)
    requires
        section_content_wf(c, level, v),
        vocab_extends(v, w),
    ensures
        section_content_wf(c, level, w),
    decreases c,
{
    assert forall|i: int| 0 <= i < c.blocks@.len()
        implies block_wf(#[trigger] c.blocks@[i], w) by {
        lemma_block_wf_extend(c.blocks@[i], v, w);
    }
    assert forall|i: int| 0 <= i < c.sub_sections@.len()
        implies section_wf(#[trigger] c.sub_sections@[i], level + 1, w) by {
        assert(section_wf(c.sub_sections@[i], level + 1, v));
        lemma_inline_wf_extend(c.sub_sections@[i].title, v, w);
        lemma_content_wf_extend(c.sub_sections@[i].content, level + 1, v, w);
    }
}

/// The inline units of a list item's subtree, in document order.
pub open spec fn units_of_item(it: ListItem) -> Seq<InlineElement>
    decreases it,
{
    it.text_content@ + match it.sub_list {
        Some(sub) => units_of_list(sub),
        None => Seq::empty(),
    }
}

/// The inline units of the items of a list from index `i` on, in document order.
pub open spec fn units_of_items(items: Seq<ListItem>, i: int) -> Seq<InlineElement>
    decreases items, items.len() - i,
{
    if i < 0 || i >= items.len() {
        Seq::empty()
    } else {
        units_of_item(items[i]) + units_of_items(items, i + 1)
    }
}

/// The inline units of a list's subtree, in document order.
pub open spec fn units_of_list(l: List) -> Seq<InlineElement>
    decreases l,
{
    units_of_items(l.items@, 0)
}

/// The inline units of one block, in document order.
pub open spec fn units_of_block(b: BlockElement) -> Seq<InlineElement>
    decreases b,
{
    match b {
        BlockElement::Paragraph(inlines) => inlines@,
        BlockElement::Rule => Seq::empty(),
        BlockElement::List(l) => units_of_list(l),
    }
}

/// The inline units of the blocks from index `i` on, in document order.
pub open spec fn units_of_blocks(blocks: Seq<BlockElement>, i: int) -> Seq<InlineElement>
    decreases blocks, blocks.len() - i,
{
    if i < 0 || i >= blocks.len() {
        Seq::empty()
    } else {
        units_of_block(blocks[i]) + units_of_blocks(blocks, i + 1)
    }
}

/// The inline units of the sections from index `i` on, in document order.
pub open spec fn units_of_sections(ss: Seq<Section>, i: int) -> Seq<InlineElement>
    decreases ss, ss.len() - i,
{
    if i < 0 || i >= ss.len() {
        Seq::empty()
    } else {
        units_of_section(ss[i]) + units_of_sections(ss, i + 1)
    }
}

/// The inline units of a section's subtree: its title, then its content's
/// units, in document order.
pub open spec fn units_of_section(s: Section) -> Seq<InlineElement>
    decreases s,
{
    seq![s.title] + units_of_content(s.content)
}

/// The inline units of a section's content, walking blocks first and then
/// the sub-section tree depth-first in pre-order.
pub open spec fn units_of_content(c: SectionContent) -> Seq<InlineElement>
    decreases c,
{
    units_of_blocks(c.blocks@, 0) + units_of_sections(c.sub_sections@, 0)
}

} // verus!

verus! {

/// Appending an item to a list appends that item's units.
pub proof fn lemma_units_of_items_push(items: Seq<ListItem>, it: ListItem, i: int)
    requires
        0 <= i <= items.len(),
    ensures
        units_of_items(items.push(it), i) == units_of_items(items, i) + units_of_item(it),
    decreases items.len() - i,
{
    let p = items.push(it);
    if i == items.len() {
        assert(units_of_items(p, i + 1) =~= Seq::<InlineElement>::empty());
        assert(units_of_items(items, i) =~= Seq::<InlineElement>::empty());
        assert(p[i] == it);
        assert(units_of_items(p, i) =~= units_of_items(items, i) + units_of_item(it));
    } else {
        lemma_units_of_items_push(items, it, i + 1);
        assert(p[i] == items[i]);
        assert(units_of_items(p, i) =~= units_of_items(items, i) + units_of_item(it));
    }
}

/// Appending a block to a block list appends that block's units.
pub proof fn lemma_units_of_blocks_push(blocks: Seq<BlockElement>, b: BlockElement, i: int)
    requires
        0 <= i <= blocks.len(),
    ensures
        units_of_blocks(blocks.push(b), i) == units_of_blocks(blocks, i) + units_of_block(b),
    decreases blocks.len() - i,
{
    let p = blocks.push(b);
    if i == blocks.len() {
        assert(units_of_blocks(p, i + 1) =~= Seq::<InlineElement>::empty());
        assert(units_of_blocks(blocks, i) =~= Seq::<InlineElement>::empty());
        assert(p[i] == b);
        assert(units_of_blocks(p, i) =~= units_of_blocks(blocks, i) + units_of_block(b));
    } else {
        lemma_units_of_blocks_push(blocks, b, i + 1);
        assert(p[i] == blocks[i]);
        assert(units_of_blocks(p, i) =~= units_of_blocks(blocks, i) + units_of_block(b));
    }
}

/// Appending a section to a section list appends that section's units.
pub proof fn lemma_units_of_sections_push(ss: Seq<Section>, s: Section, i: int)
    requires
        0 <= i <= ss.len(),
    ensures
        units_of_sections(ss.push(s), i) == units_of_sections(ss, i) + units_of_section(s),
    decreases ss.len() - i,
{
    let p = ss.push(s);
    if i == ss.len() {
        assert(units_of_sections(p, i + 1) =~= Seq::<InlineElement>::empty());
        assert(units_of_sections(ss, i) =~= Seq::<InlineElement>::empty());
        assert(p[i] == s);
        assert(units_of_sections(p, i) =~= units_of_sections(ss, i) + units_of_section(s));
    } else {
        lemma_units_of_sections_push(ss, s, i + 1);
        assert(p[i] == ss[i]);
        assert(units_of_sections(p, i) =~= units_of_sections(ss, i) + units_of_section(s));
    }
}

} // verus!

verus! {

/// The law that tagged ranges are valid byte offsets into their own unit's
/// text (start at most end, end at most the text length) and that
/// explicit-keyword ranges never overlap each other. Both hold of every
/// well-formed inline unit, and so of every unit in a tree that parsing or
/// indexing hands out.
pub proof fn lemma_tag_ranges_valid(e: InlineElement, v: Seq<Seq<u8>>)
    requires
        inline_wf(e, v),
    ensures
        forall|i: int|
            0 <= i < e.tags@.len() ==> (#[trigger] e.tags@[i]).start <= e.tags@[i].end
                && e.tags@[i].end <= e.string@.len(),
        forall|i: int, j: int|
            0 <= i < j < e.tags@.len() && e.tags@[i].tag is ExplicitKeyword
                && e.tags@[j].tag is ExplicitKeyword ==> ranges_disjoint(
                #[trigger] e.tags@[i],
                #[trigger] e.tags@[j],
            ),
{
}

} // verus!
