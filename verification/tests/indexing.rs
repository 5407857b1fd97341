use wimd::ast::{BlockElement, Event, InlineTag, SourceEvent};
use wimd::document::IndexedDocument;
use wimd::parse::parse;

fn ev(event: Event) -> SourceEvent {
    SourceEvent { event, offset: 0 }
}

fn paragraph_text(events: &mut Vec<SourceEvent>, text: &[u8]) {
    events.push(ev(Event::ParagraphStart));
    events.push(ev(Event::Text(text.to_vec())));
    events.push(ev(Event::ParagraphEnd));
}

fn paragraph_keyword(events: &mut Vec<SourceEvent>, keyword: &[u8]) {
    events.push(ev(Event::ParagraphStart));
    events.push(ev(Event::EmphasisStart));
    events.push(ev(Event::Text(keyword.to_vec())));
    events.push(ev(Event::EmphasisEnd));
    events.push(ev(Event::ParagraphEnd));
}

#[test]
fn longest_keyword_wins() {
    let mut events = Vec::new();
    paragraph_keyword(&mut events, b"cat");
    paragraph_keyword(&mut events, b"catalog");
    paragraph_text(&mut events, b"catalog");
    let (doc, keywords) = parse(&events).unwrap();
    assert_eq!(keywords.len(), 2);
    let d = IndexedDocument::from(doc, keywords).unwrap();
    // the whole word is one occurrence of "catalog", not "cat" plus a failure
    assert_eq!(d.explicit_keyword_occurrences[0], vec![0]);
    assert_eq!(d.explicit_keyword_occurrences[1], vec![1]);
    assert_eq!(d.implicit_keyword_occurrences[0], Vec::<usize>::new());
    assert_eq!(d.implicit_keyword_occurrences[1], vec![2]);
    match &d.root.blocks[2] {
        BlockElement::Paragraph(units) => {
            let u = &units[0];
            assert_eq!(u.tags.len(), 1);
            assert_eq!(u.tags[0].start, 0);
            assert_eq!(u.tags[0].end, 7);
            assert_eq!(u.tags[0].tag, InlineTag::ImplicitKeyword(1));
        }
        other => panic!("expected a paragraph, got {:?}", other),
    }
}

#[test]
fn word_boundaries_are_enforced() {
    let mut events = Vec::new();
    paragraph_keyword(&mut events, b"cat");
    paragraph_text(&mut events, b"concatenate");
    let (doc, keywords) = parse(&events).unwrap();
    let d = IndexedDocument::from(doc, keywords).unwrap();
    assert_eq!(d.explicit_keyword_occurrences[0], vec![0]);
    assert_eq!(d.implicit_keyword_occurrences[0], Vec::<usize>::new());
    match &d.root.blocks[1] {
        BlockElement::Paragraph(units) => assert_eq!(units[0].tags.len(), 0),
        other => panic!("expected a paragraph, got {:?}", other),
    }
}

#[test]
fn exact_explicit_occurrence_is_not_duplicated() {
    // first "cat" emphasized, a second bare "cat" in the next unit
    let events = vec![
        ev(Event::ParagraphStart),
        ev(Event::EmphasisStart),
        ev(Event::Text(b"cat".to_vec())),
        ev(Event::EmphasisEnd),
        ev(Event::SoftBreak),
        ev(Event::Text(b"cat".to_vec())),
        ev(Event::ParagraphEnd),
    ];
    let (doc, keywords) = parse(&events).unwrap();
    let d = IndexedDocument::from(doc, keywords).unwrap();
    assert_eq!(d.explicit_keyword_occurrences[0], vec![0]);
    assert_eq!(d.implicit_keyword_occurrences[0], vec![1]);
    match &d.root.blocks[0] {
        BlockElement::Paragraph(units) => {
            assert_eq!(units.len(), 2);
            // the explicitly tagged unit gains no implicit duplicate
            assert_eq!(units[0].tags.len(), 1);
            assert_eq!(units[0].tags[0].tag, InlineTag::ExplicitKeyword(0));
            // the other unit is tagged implicitly
            assert_eq!(units[1].tags.len(), 1);
            assert_eq!(units[1].tags[0].start, 0);
            assert_eq!(units[1].tags[0].end, 3);
            assert_eq!(units[1].tags[0].tag, InlineTag::ImplicitKeyword(0));
        }
        other => panic!("expected a paragraph, got {:?}", other),
    }
}

#[test]
fn matching_is_case_insensitive() {
    let mut events = Vec::new();
    paragraph_keyword(&mut events, b"wimd");
    paragraph_text(&mut events, b"Wimd rocks, WIMD rolls");
    let (doc, keywords) = parse(&events).unwrap();
    let d = IndexedDocument::from(doc, keywords).unwrap();
    assert_eq!(d.explicit_keyword_occurrences[0], vec![0]);
    assert_eq!(d.implicit_keyword_occurrences[0], vec![1, 1]);
}

#[test]
fn empty_vocabulary_still_indexes() {
    let mut events = Vec::new();
    paragraph_text(&mut events, b"nothing to find here");
    let (doc, keywords) = parse(&events).unwrap();
    assert_eq!(keywords.len(), 0);
    let d = IndexedDocument::from(doc, keywords).unwrap();
    assert_eq!(d.explicit_keyword_occurrences.len(), 0);
    assert_eq!(d.implicit_keyword_occurrences.len(), 0);
    match &d.root.blocks[0] {
        BlockElement::Paragraph(units) => assert_eq!(units[0].tags.len(), 0),
        other => panic!("expected a paragraph, got {:?}", other),
    }
}

#[test]
fn occurrences_walk_titles_lists_and_nested_lists() {
    let mut events = Vec::new();
    paragraph_keyword(&mut events, b"fire");
    events.push(ev(Event::HeaderStart(1)));
    events.push(ev(Event::Text(b"About fire".to_vec())));
    events.push(ev(Event::HeaderEnd(1)));
    events.push(ev(Event::ListStart(false)));
    events.push(ev(Event::ItemStart));
    events.push(ev(Event::Text(b"fire starter".to_vec())));
    events.push(ev(Event::ListStart(false)));
    events.push(ev(Event::ItemStart));
    events.push(ev(Event::Text(b"more fire".to_vec())));
    events.push(ev(Event::ItemEnd));
    events.push(ev(Event::ListEnd));
    events.push(ev(Event::ItemEnd));
    events.push(ev(Event::ListEnd));
    let (doc, keywords) = parse(&events).unwrap();
    let d = IndexedDocument::from(doc, keywords).unwrap();
    // unit 0: the emphasized keyword; 1: the title; 2: the item; 3: nested item
    assert_eq!(d.explicit_keyword_occurrences[0], vec![0]);
    assert_eq!(d.implicit_keyword_occurrences[0], vec![1, 2, 3]);
}

#[test]
fn keywords_survive_indexing_unchanged() {
    let mut events = Vec::new();
    paragraph_keyword(&mut events, b"Sword");
    paragraph_keyword(&mut events, b"shield");
    let (doc, keywords) = parse(&events).unwrap();
    let d = IndexedDocument::from(doc, keywords).unwrap();
    assert_eq!(d.keywords.len(), 2);
    assert_eq!(d.keywords.get(0).as_slice(), b"Sword");
    assert_eq!(d.keywords.get(1).as_slice(), b"shield");
}

#[test]
fn regex_metacharacters_in_keywords_match_literally() {
    let mut events = Vec::new();
    paragraph_keyword(&mut events, b"c.t");
    paragraph_text(&mut events, b"cat c.t cat");
    let (doc, keywords) = parse(&events).unwrap();
    let d = IndexedDocument::from(doc, keywords).unwrap();
    // the dot is matched literally: "c.t" matches itself, never "cat"
    assert_eq!(d.implicit_keyword_occurrences[0], vec![1]);
    match &d.root.blocks[1] {
        BlockElement::Paragraph(units) => {
            assert_eq!(units[0].tags.len(), 1);
            assert_eq!(units[0].tags[0].start, 4);
            assert_eq!(units[0].tags[0].end, 7);
        }
        other => panic!("expected a paragraph, got {:?}", other),
    }
}

#[test]
fn section_dfs_scans_titles_and_blocks() {
    let events = vec![
        ev(Event::HeaderStart(1)),
        ev(Event::Text(b"Title".to_vec())),
        ev(Event::HeaderEnd(1)),
        ev(Event::ParagraphStart),
        ev(Event::EmphasisStart),
        ev(Event::Text(b"cat".to_vec())),
        ev(Event::EmphasisEnd),
        ev(Event::ParagraphEnd),
    ];
    let (mut doc, keywords) = parse(&events).unwrap();
    let mut section = doc.sub_sections.remove(0);
    let matcher: Option<regex::bytes::Regex> = None;
    let mut explicit: Vec<Vec<usize>> = vec![Vec::new()];
    let mut implicit: Vec<Vec<usize>> = vec![Vec::new()];
    wimd::document::section_dfs_mut(
        &mut section,
        1,
        &matcher,
        &keywords,
        &mut explicit,
        &mut implicit,
    )
    .unwrap();
    // the explicitly tagged paragraph unit is recorded; with no matcher,
    // nothing implicit is found
    assert_eq!(explicit[0], vec![1]);
    assert_eq!(implicit[0], Vec::<usize>::new());
}

#[test]
fn indexing_twice_rejects_the_overlap() {
    let mut events = Vec::new();
    paragraph_keyword(&mut events, b"cat");
    paragraph_text(&mut events, b"cat");
    let (doc, keywords) = parse(&events).unwrap();
    let d = IndexedDocument::from(doc, keywords).unwrap();
    // a second pass sees its own implicit tag as a conflicting overlap
    let err = IndexedDocument::from(d.root, d.keywords).unwrap_err();
    match err {
        wimd::document::IndexError::OverlappingMatch { unit, start, end } => {
            assert_eq!(unit, 1);
            assert_eq!(start, 0);
            assert_eq!(end, 3);
        }
        other => panic!("expected an overlap error, got {:?}", other),
    }
}

#[test]
fn two_explicit_tags_in_one_unit_are_both_recorded() {
    let events = vec![
        ev(Event::ParagraphStart),
        ev(Event::EmphasisStart),
        ev(Event::Text(b"cat".to_vec())),
        ev(Event::EmphasisEnd),
        ev(Event::Text(b" and ".to_vec())),
        ev(Event::EmphasisStart),
        ev(Event::Text(b"cat".to_vec())),
        ev(Event::EmphasisEnd),
        ev(Event::ParagraphEnd),
    ];
    let (doc, keywords) = parse(&events).unwrap();
    assert_eq!(keywords.len(), 1);
    let d = IndexedDocument::from(doc, keywords).unwrap();
    // the unit is recorded once per explicit tag, and neither occurrence
    // is duplicated as implicit
    assert_eq!(d.explicit_keyword_occurrences[0], vec![0, 0]);
    assert_eq!(d.implicit_keyword_occurrences[0], Vec::<usize>::new());
}
