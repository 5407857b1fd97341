// End-to-end tests: real markdown text tokenized by pulldown-cmark, its
// events converted to the library's event stream, then parsed and indexed.

use pulldown_cmark::{Event as MdEvent, Parser, Tag, TagEnd};
use wimd::ast::{BlockElement, Event, InlineTag, SourceEvent};
use wimd::document::IndexedDocument;
use wimd::parse::{line_number_of_offset, parse, ParseError};

fn se(event: Event, offset: usize) -> SourceEvent {
    SourceEvent { event, offset }
}

fn tokenize(text: &str) -> Vec<SourceEvent> {
    let mut out = Vec::new();
    for (e, range) in Parser::new(text).into_offset_iter() {
        let offset = range.start;
        match e {
            MdEvent::Start(Tag::Paragraph) => out.push(se(Event::ParagraphStart, offset)),
            MdEvent::End(TagEnd::Paragraph) => out.push(se(Event::ParagraphEnd, offset)),
            MdEvent::Start(Tag::Heading { level, .. }) => {
                out.push(se(Event::HeaderStart(level as u8), offset))
            }
            MdEvent::End(TagEnd::Heading(level)) => {
                out.push(se(Event::HeaderEnd(level as u8), offset))
            }
            MdEvent::Start(Tag::List(start)) => {
                out.push(se(Event::ListStart(start.is_some()), offset))
            }
            MdEvent::End(TagEnd::List(_)) => out.push(se(Event::ListEnd, offset)),
            MdEvent::Start(Tag::Item) => out.push(se(Event::ItemStart, offset)),
            MdEvent::End(TagEnd::Item) => out.push(se(Event::ItemEnd, offset)),
            MdEvent::Start(Tag::Emphasis) => out.push(se(Event::EmphasisStart, offset)),
            MdEvent::End(TagEnd::Emphasis) => out.push(se(Event::EmphasisEnd, offset)),
            MdEvent::Start(Tag::Strong) => out.push(se(Event::StrongStart, offset)),
            MdEvent::End(TagEnd::Strong) => out.push(se(Event::StrongEnd, offset)),
            MdEvent::Text(t) => out.push(se(Event::Text(t.into_string().into_bytes()), offset)),
            MdEvent::SoftBreak => out.push(se(Event::SoftBreak, offset)),
            MdEvent::HardBreak => out.push(se(Event::HardBreak, offset)),
            MdEvent::Rule => {
                out.push(se(Event::RuleStart, offset));
                out.push(se(Event::RuleEnd, offset));
            }
            other => out.push(se(Event::Other(format!("{:?}", other)), offset)),
        }
    }
    out
}

#[test]
fn end_to_end_scenario() {
    let text = "# Title\n\nHello *world*.\n\n## Sub\n\n**Bold** world.\n";
    let (doc, keywords) = parse(&tokenize(text)).unwrap();
    // one top-level section with one paragraph and one sub-section
    assert_eq!(doc.blocks.len(), 0);
    assert_eq!(doc.sub_sections.len(), 1);
    let section = &doc.sub_sections[0];
    assert_eq!(section.title.string.as_slice(), b"Title");
    assert_eq!(section.content.blocks.len(), 1);
    assert_eq!(section.content.sub_sections.len(), 1);
    let sub = &section.content.sub_sections[0];
    assert_eq!(sub.title.string.as_slice(), b"Sub");
    assert_eq!(sub.content.blocks.len(), 1);
    // vocabulary is exactly ["world"]
    assert_eq!(keywords.len(), 1);
    assert_eq!(keywords.get(0).as_slice(), b"world");
    // the first paragraph's "world" is an explicit occurrence
    match &section.content.blocks[0] {
        BlockElement::Paragraph(units) => {
            assert_eq!(units[0].string.as_slice(), b"Hello world.");
            assert_eq!(units[0].tags.len(), 1);
            assert_eq!(units[0].tags[0].start, 6);
            assert_eq!(units[0].tags[0].end, 11);
            assert_eq!(units[0].tags[0].tag, InlineTag::ExplicitKeyword(0));
        }
        other => panic!("expected a paragraph, got {:?}", other),
    }
    let d = IndexedDocument::from(doc, keywords).unwrap();
    assert_eq!(d.explicit_keyword_occurrences[0], vec![1]);
    assert_eq!(d.implicit_keyword_occurrences[0], vec![3]);
    // the second paragraph's "Bold" is a highlight and its "world" is now
    // an implicit occurrence
    let sub = &d.root.sub_sections[0].content.sub_sections[0];
    match &sub.content.blocks[0] {
        BlockElement::Paragraph(units) => {
            let u = &units[0];
            assert_eq!(u.string.as_slice(), b"Bold world.");
            assert_eq!(u.tags.len(), 2);
            assert_eq!(u.tags[0].start, 0);
            assert_eq!(u.tags[0].end, 4);
            assert_eq!(u.tags[0].tag, InlineTag::Highlight);
            assert_eq!(u.tags[1].start, 5);
            assert_eq!(u.tags[1].end, 10);
            assert_eq!(u.tags[1].tag, InlineTag::ImplicitKeyword(0));
        }
        other => panic!("expected a paragraph, got {:?}", other),
    }
}

#[test]
fn formatting_markers_never_reach_the_text() {
    let text = "Plain *key* and **mark** done.\n";
    let (doc, _keywords) = parse(&tokenize(text)).unwrap();
    match &doc.blocks[0] {
        BlockElement::Paragraph(units) => {
            assert_eq!(units.len(), 1);
            assert_eq!(units[0].string.as_slice(), b"Plain key and mark done.");
        }
        other => panic!("expected a paragraph, got {:?}", other),
    }
}

#[test]
fn skipped_header_level_reports_its_line() {
    let text = "# Title\n\n### Deep\n\nBody.\n";
    let err = parse(&tokenize(text)).unwrap_err();
    match err {
        ParseError::HeaderTooDeep { level, parent_level, offset } => {
            assert_eq!(level, 3);
            assert_eq!(parent_level, 1);
            // 1-based line number of the offending header
            assert_eq!(line_number_of_offset(text.as_bytes(), offset) + 1, 3);
        }
        other => panic!("expected a header-depth error, got {:?}", other),
    }
}

#[test]
fn tight_list_from_markdown() {
    let text = "- alpha\n- beta\n";
    let (doc, _keywords) = parse(&tokenize(text)).unwrap();
    match &doc.blocks[0] {
        BlockElement::List(l) => {
            assert!(!l.ordered);
            assert_eq!(l.items.len(), 2);
            assert_eq!(l.items[0].text_content[0].string.as_slice(), b"alpha");
            assert_eq!(l.items[1].text_content[0].string.as_slice(), b"beta");
        }
        other => panic!("expected a list, got {:?}", other),
    }
}

#[test]
fn rule_from_markdown() {
    let text = "above\n\n---\n\nbelow\n";
    let (doc, _keywords) = parse(&tokenize(text)).unwrap();
    assert_eq!(doc.blocks.len(), 3);
    assert!(matches!(doc.blocks[1], BlockElement::Rule));
}

#[test]
fn unsupported_markdown_is_a_parse_error() {
    let text = "some `code` here\n";
    let err = parse(&tokenize(text)).unwrap_err();
    assert!(matches!(err, ParseError::UnexpectedElement { .. }));
}
