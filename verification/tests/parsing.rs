use wimd::ast::{BlockElement, Event, InlineTag, SourceEvent};
use wimd::parse::{line_number_of_offset, parse, ParseError, StreamBreak};

fn ev(event: Event) -> SourceEvent {
    SourceEvent { event, offset: 0 }
}

fn evo(event: Event, offset: usize) -> SourceEvent {
    SourceEvent { event, offset }
}

#[test]
fn parsing() {
    // Line number
    assert_eq!(line_number_of_offset(b"Blah", 0), 0);
    assert_eq!(line_number_of_offset(b"Blah", 4), 0);
    assert_eq!(line_number_of_offset(b"\nBlah\n", 0), 0);
    assert_eq!(line_number_of_offset(b"\nBlah\n", 1), 1);
    assert_eq!(line_number_of_offset(b"\nBlah\n", 5), 1);
    assert_eq!(line_number_of_offset(b"\nBlah\n", 6), 2);
}

#[test]
fn empty_stream_is_empty_document() {
    let (doc, keywords) = parse(&Vec::new()).unwrap();
    assert_eq!(doc.blocks.len(), 0);
    assert_eq!(doc.sub_sections.len(), 0);
    assert_eq!(keywords.len(), 0);
}

#[test]
fn paragraph_with_emphasis_and_strong() {
    let events = vec![
        ev(Event::ParagraphStart),
        ev(Event::Text(b"Hello ".to_vec())),
        ev(Event::EmphasisStart),
        ev(Event::Text(b"world".to_vec())),
        ev(Event::EmphasisEnd),
        ev(Event::Text(b" and ".to_vec())),
        ev(Event::StrongStart),
        ev(Event::Text(b"bold".to_vec())),
        ev(Event::StrongEnd),
        ev(Event::Text(b" text.".to_vec())),
        ev(Event::ParagraphEnd),
    ];
    let (doc, keywords) = parse(&events).unwrap();
    assert_eq!(doc.blocks.len(), 1);
    assert_eq!(keywords.len(), 1);
    assert_eq!(keywords.get(0).as_slice(), b"world");
    match &doc.blocks[0] {
        BlockElement::Paragraph(units) => {
            assert_eq!(units.len(), 1);
            let u = &units[0];
            assert_eq!(u.index, 0);
            assert_eq!(u.string.as_slice(), b"Hello world and bold text.");
            assert_eq!(u.tags.len(), 2);
            assert_eq!(u.tags[0].start, 6);
            assert_eq!(u.tags[0].end, 11);
            assert_eq!(u.tags[0].tag, InlineTag::ExplicitKeyword(0));
            assert_eq!(u.tags[1].start, 16);
            assert_eq!(u.tags[1].end, 20);
            assert_eq!(u.tags[1].tag, InlineTag::Highlight);
        }
        other => panic!("expected a paragraph, got {:?}", other),
    }
}

#[test]
fn sections_nest_by_header_level() {
    let events = vec![
        ev(Event::HeaderStart(1)),
        ev(Event::Text(b"Title".to_vec())),
        ev(Event::HeaderEnd(1)),
        ev(Event::ParagraphStart),
        ev(Event::Text(b"Top.".to_vec())),
        ev(Event::ParagraphEnd),
        ev(Event::HeaderStart(2)),
        ev(Event::Text(b"Sub".to_vec())),
        ev(Event::HeaderEnd(2)),
        ev(Event::ParagraphStart),
        ev(Event::Text(b"Inner.".to_vec())),
        ev(Event::ParagraphEnd),
        ev(Event::HeaderStart(1)),
        ev(Event::Text(b"Second".to_vec())),
        ev(Event::HeaderEnd(1)),
    ];
    let (doc, _keywords) = parse(&events).unwrap();
    assert_eq!(doc.blocks.len(), 0);
    assert_eq!(doc.sub_sections.len(), 2);
    let first = &doc.sub_sections[0];
    assert_eq!(first.title.string.as_slice(), b"Title");
    assert_eq!(first.content.blocks.len(), 1);
    assert_eq!(first.content.sub_sections.len(), 1);
    let sub = &first.content.sub_sections[0];
    assert_eq!(sub.title.string.as_slice(), b"Sub");
    assert_eq!(sub.content.blocks.len(), 1);
    assert_eq!(sub.content.sub_sections.len(), 0);
    let second = &doc.sub_sections[1];
    assert_eq!(second.title.string.as_slice(), b"Second");
    assert_eq!(second.content.blocks.len(), 0);
}

#[test]
fn rules_and_lists() {
    let events = vec![
        ev(Event::RuleStart),
        ev(Event::RuleEnd),
        ev(Event::ListStart(true)),
        ev(Event::ItemStart),
        ev(Event::Text(b"alpha".to_vec())),
        ev(Event::ItemEnd),
        ev(Event::ItemStart),
        ev(Event::Text(b"beta".to_vec())),
        ev(Event::ListStart(false)),
        ev(Event::ItemStart),
        ev(Event::Text(b"nested".to_vec())),
        ev(Event::ItemEnd),
        ev(Event::ListEnd),
        ev(Event::ItemEnd),
        ev(Event::ListEnd),
    ];
    let (doc, _keywords) = parse(&events).unwrap();
    assert_eq!(doc.blocks.len(), 2);
    assert!(matches!(doc.blocks[0], BlockElement::Rule));
    match &doc.blocks[1] {
        BlockElement::List(l) => {
            assert!(l.ordered);
            assert_eq!(l.items.len(), 2);
            assert_eq!(l.items[0].text_content[0].string.as_slice(), b"alpha");
            assert!(l.items[0].sub_list.is_none());
            assert_eq!(l.items[1].text_content[0].string.as_slice(), b"beta");
            let nested = l.items[1].sub_list.as_ref().unwrap();
            assert!(!nested.ordered);
            assert_eq!(nested.items.len(), 1);
            assert_eq!(nested.items[0].text_content[0].string.as_slice(), b"nested");
        }
        other => panic!("expected a list, got {:?}", other),
    }
}

#[test]
fn inline_indices_count_up_in_document_order() {
    let events = vec![
        ev(Event::HeaderStart(1)),
        ev(Event::Text(b"Title".to_vec())),
        ev(Event::HeaderEnd(1)),
        ev(Event::ParagraphStart),
        ev(Event::Text(b"one".to_vec())),
        ev(Event::SoftBreak),
        ev(Event::Text(b"two".to_vec())),
        ev(Event::ParagraphEnd),
    ];
    let (doc, _keywords) = parse(&events).unwrap();
    let section = &doc.sub_sections[0];
    assert_eq!(section.title.index, 0);
    match &section.content.blocks[0] {
        BlockElement::Paragraph(units) => {
            assert_eq!(units.len(), 2);
            assert_eq!(units[0].index, 1);
            assert_eq!(units[0].string.as_slice(), b"one");
            assert_eq!(units[1].index, 2);
            assert_eq!(units[1].string.as_slice(), b"two");
        }
        other => panic!("expected a paragraph, got {:?}", other),
    }
}

#[test]
fn header_too_deep_is_rejected_with_its_line() {
    let text = b"# Title\n\n### Deep\n";
    let events = vec![
        evo(Event::HeaderStart(1), 0),
        evo(Event::Text(b"Title".to_vec()), 2),
        evo(Event::HeaderEnd(1), 0),
        evo(Event::HeaderStart(3), 9),
        evo(Event::Text(b"Deep".to_vec()), 13),
        evo(Event::HeaderEnd(3), 9),
    ];
    let err = parse(&events).unwrap_err();
    match err {
        ParseError::HeaderTooDeep { level, parent_level, offset } => {
            assert_eq!(level, 3);
            assert_eq!(parent_level, 1);
            assert_eq!(offset, 9);
            assert_eq!(line_number_of_offset(text, offset) + 1, 3);
        }
        other => panic!("expected a header-depth error, got {:?}", other),
    }
}

#[test]
fn multiline_emphasis_is_rejected() {
    let events = vec![
        ev(Event::ParagraphStart),
        ev(Event::EmphasisStart),
        ev(Event::Text(b"a".to_vec())),
        ev(Event::SoftBreak),
        ev(Event::Text(b"b".to_vec())),
        evo(Event::EmphasisEnd, 7),
        ev(Event::ParagraphEnd),
    ];
    let err = parse(&events).unwrap_err();
    assert_eq!(err, ParseError::MultilineEmphasis { offset: 7 });
}

#[test]
fn multiline_strong_is_rejected() {
    let events = vec![
        ev(Event::ParagraphStart),
        ev(Event::StrongStart),
        ev(Event::Text(b"a".to_vec())),
        ev(Event::SoftBreak),
        ev(Event::Text(b"b".to_vec())),
        evo(Event::StrongEnd, 5),
        ev(Event::ParagraphEnd),
    ];
    let err = parse(&events).unwrap_err();
    assert_eq!(err, ParseError::MultilineStrong { offset: 5 });
}

#[test]
fn empty_list_item_is_rejected() {
    let events = vec![
        ev(Event::ListStart(false)),
        ev(Event::ItemStart),
        evo(Event::ItemEnd, 4),
        ev(Event::ListEnd),
    ];
    let err = parse(&events).unwrap_err();
    assert_eq!(err, ParseError::EmptyListItem { offset: 4 });
}

#[test]
fn empty_paragraph_is_rejected() {
    let events = vec![ev(Event::ParagraphStart), evo(Event::ParagraphEnd, 2)];
    let err = parse(&events).unwrap_err();
    assert_eq!(err, ParseError::EmptyParagraph { offset: 2 });
}

#[test]
fn unsupported_element_is_rejected() {
    let events = vec![evo(Event::Other("Html".to_string()), 3)];
    let err = parse(&events).unwrap_err();
    assert_eq!(err, ParseError::UnexpectedElement { offset: 3 });
}

#[test]
fn unclosed_paragraph_breaks_the_stream() {
    let events = vec![
        evo(Event::ParagraphStart, 1),
        ev(Event::Text(b"a".to_vec())),
    ];
    let err = parse(&events).unwrap_err();
    assert_eq!(
        err,
        ParseError::BrokenStream { kind: StreamBreak::UnclosedParagraph, offset: 1 }
    );
}

#[test]
fn header_level_skip_inside_section_content() {
    // a level-4 header directly inside a level-2 section
    let events = vec![
        ev(Event::HeaderStart(1)),
        ev(Event::Text(b"A".to_vec())),
        ev(Event::HeaderEnd(1)),
        ev(Event::HeaderStart(2)),
        ev(Event::Text(b"B".to_vec())),
        ev(Event::HeaderEnd(2)),
        evo(Event::HeaderStart(4), 11),
        ev(Event::Text(b"C".to_vec())),
        ev(Event::HeaderEnd(4)),
    ];
    let err = parse(&events).unwrap_err();
    assert_eq!(
        err,
        ParseError::HeaderTooDeep { level: 4, parent_level: 2, offset: 11 }
    );
}

#[test]
fn nested_emphasis_breaks_the_stream() {
    let events = vec![
        ev(Event::ParagraphStart),
        ev(Event::EmphasisStart),
        ev(Event::Text(b"a".to_vec())),
        evo(Event::EmphasisStart, 6),
        ev(Event::Text(b"b".to_vec())),
        ev(Event::EmphasisEnd),
        ev(Event::EmphasisEnd),
        ev(Event::ParagraphEnd),
    ];
    let err = parse(&events).unwrap_err();
    assert_eq!(
        err,
        ParseError::BrokenStream { kind: StreamBreak::NestedEmphasis, offset: 6 }
    );
}

#[test]
fn empty_emphasis_breaks_the_stream() {
    let events = vec![
        ev(Event::ParagraphStart),
        ev(Event::Text(b"x".to_vec())),
        ev(Event::EmphasisStart),
        evo(Event::EmphasisEnd, 3),
        ev(Event::ParagraphEnd),
    ];
    let err = parse(&events).unwrap_err();
    assert_eq!(
        err,
        ParseError::BrokenStream { kind: StreamBreak::EmptyEmphasis, offset: 3 }
    );
}

#[test]
fn mismatched_header_levels_break_the_stream() {
    let events = vec![
        ev(Event::HeaderStart(1)),
        ev(Event::Text(b"Title".to_vec())),
        evo(Event::HeaderEnd(2), 8),
    ];
    let err = parse(&events).unwrap_err();
    assert_eq!(
        err,
        ParseError::BrokenStream { kind: StreamBreak::HeaderLevelMismatch, offset: 8 }
    );
}
