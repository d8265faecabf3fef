use mastr_export::parser::{ParseError, ParserState, ReaderEvent, XmlParser};
use mastr_export::schema::{Field, Schema, XsdType};

fn schema_of(names: &[&str]) -> Schema {
    Schema {
        root: "r".to_string(),
        element: "e".to_string(),
        without_rowid: false,
        primary: None,
        fields: names
            .iter()
            .map(|n| Field { name: n.to_string(), xsd: XsdType::String })
            .collect(),
    }
}

fn s(v: &str) -> Option<String> {
    Some(v.to_string())
}

fn rectangular(cols: &[Vec<Option<String>>], n: usize) -> bool {
    cols.len() == n && cols.iter().all(|c| c.len() == cols[0].len())
}

#[test]
fn parses_records_into_columns() {
    let schema = schema_of(&["a", "b"]);
    let doc = b"<?xml version=\"1.0\"?>\n<r>\n  <e><a>1</a><b>x</b></e>\n  <e><b>y</b></e>\n</r>\n";
    let cols = XmlParser::parse(&schema, doc).unwrap();
    assert_eq!(cols, vec![vec![s("1"), None], vec![s("x"), s("y")]]);
    assert!(rectangular(&cols, 2));
}

#[test]
fn empty_root_gives_empty_columns() {
    let schema = schema_of(&["a"]);
    let cols = XmlParser::parse(&schema, b"<r></r>").unwrap();
    assert_eq!(cols, vec![Vec::<Option<String>>::new()]);
}

#[test]
fn text_is_trimmed_and_unescaped() {
    let schema = schema_of(&["a"]);
    let cols = XmlParser::parse(&schema, b"<r><e><a>  Tom &amp; Jerry &#x41; </a></e></r>").unwrap();
    assert_eq!(cols, vec![vec![s("Tom & Jerry A")]]);
}

#[test]
fn cdata_is_taken_as_it_stands() {
    let schema = schema_of(&["a"]);
    let cols = XmlParser::parse(&schema, b"<r><e><a><![CDATA[1 < 2 &amp;]]></a></e></r>").unwrap();
    assert_eq!(cols, vec![vec![s("1 < 2 &amp;")]]);
}

#[test]
fn empty_field_and_empty_element_give_none() {
    let schema = schema_of(&["a", "b"]);
    let cols = XmlParser::parse(&schema, b"<r><e><a></a><b/></e></r>").unwrap();
    assert_eq!(cols, vec![vec![None], vec![None]]);
}

#[test]
fn text_between_fields_is_passed_over() {
    let schema = schema_of(&["a"]);
    let cols = XmlParser::parse(&schema, b"<r><e>stray<a>v</a></e></r>").unwrap();
    assert_eq!(cols, vec![vec![s("v")]]);
}

#[test]
fn repeated_field_text_is_concatenated() {
    let schema = schema_of(&["a"]);
    let cols = XmlParser::parse(&schema, b"<r><e><a>x</a><a>y</a></e></r>").unwrap();
    assert_eq!(cols, vec![vec![s("xy")]]);
}

#[test]
fn duplicate_field_names_go_to_the_last_field() {
    let schema = schema_of(&["a", "a"]);
    let cols = XmlParser::parse(&schema, b"<r><e><a>v</a></e></r>").unwrap();
    assert_eq!(cols, vec![vec![None], vec![s("v")]]);
}

#[test]
fn wrong_root_is_refused() {
    let schema = schema_of(&["a"]);
    match XmlParser::parse(&schema, b"<q></q>") {
        Err(ParseError::UnexpectedRoot { expected, found }) => {
            assert_eq!(expected, "r");
            assert_eq!(found, "q");
        }
        other => panic!("unexpected result {:?}", other),
    }
}

#[test]
fn unknown_element_is_refused() {
    let schema = schema_of(&["a"]);
    match XmlParser::parse(&schema, b"<r><x></x></r>") {
        Err(ParseError::UnknownElement { name }) => assert_eq!(name, "x"),
        other => panic!("unexpected result {:?}", other),
    }
}

#[test]
fn unknown_attribute_is_refused() {
    let schema = schema_of(&["a"]);
    match XmlParser::parse(&schema, b"<r><e><z>1</z></e></r>") {
        Err(ParseError::UnknownAttribute { name }) => assert_eq!(name, "z"),
        other => panic!("unexpected result {:?}", other),
    }
}

#[test]
fn nested_element_in_field_is_refused() {
    let schema = schema_of(&["a"]);
    match XmlParser::parse(&schema, b"<r><e><a><b/><c></c></a></e></r>") {
        Err(ParseError::UnexpectedStart { name, state }) => {
            assert_eq!(name, "c");
            assert_eq!(state, ParserState::AttrCdataOrEndAttr(0));
        }
        other => panic!("unexpected result {:?}", other),
    }
}

#[test]
fn bad_entity_is_refused() {
    let schema = schema_of(&["a"]);
    match XmlParser::parse(&schema, b"<r><e><a>&bogus;</a></e></r>") {
        Err(ParseError::InvalidText { .. }) => {}
        other => panic!("unexpected result {:?}", other),
    }
}

#[test]
fn bad_entity_outside_a_field_is_not_looked_at() {
    let schema = schema_of(&["a"]);
    let cols = XmlParser::parse(&schema, b"<r><e>&bogus;<a>v</a></e></r>").unwrap();
    assert_eq!(cols, vec![vec![s("v")]]);
}

#[test]
fn unfinished_document_is_refused() {
    let schema = schema_of(&["a"]);
    match XmlParser::parse(&schema, b"<r><e><a>1</a></e>") {
        Err(ParseError::UnexpectedEof { state }) => {
            assert_eq!(state, ParserState::StartElementOrEndRoot)
        }
        other => panic!("unexpected result {:?}", other),
    }
}

#[test]
fn empty_document_is_refused() {
    let schema = schema_of(&["a"]);
    match XmlParser::parse(&schema, b"") {
        Err(ParseError::UnexpectedEof { state }) => assert_eq!(state, ParserState::StartDocument),
        other => panic!("unexpected result {:?}", other),
    }
}

#[test]
fn mismatched_end_tag_is_an_xml_error() {
    let schema = schema_of(&["a"]);
    match XmlParser::parse(&schema, b"<r><e></x></e></r>") {
        Err(ParseError::Xml { state, message }) => {
            assert_eq!(state, ParserState::StartAttrOrEndElement);
            assert!(!message.is_empty());
        }
        other => panic!("unexpected result {:?}", other),
    }
}

#[test]
fn record_closed_by_other_tag_is_refused_from_events() {
    let schema = schema_of(&["a"]);
    let events = vec![
        ReaderEvent::Start(b"r".to_vec()),
        ReaderEvent::Start(b"e".to_vec()),
        ReaderEvent::End(b"x".to_vec()),
    ];
    match XmlParser::parse_events(&schema, &events) {
        Err(ParseError::UnexpectedClose { expected, found }) => {
            assert_eq!(expected, "e");
            assert_eq!(found, "x");
        }
        other => panic!("unexpected result {:?}", other),
    }
}

#[test]
fn root_closed_by_other_tag_is_refused_from_events() {
    let schema = schema_of(&["a"]);
    let events = vec![ReaderEvent::Start(b"r".to_vec()), ReaderEvent::End(b"x".to_vec())];
    match XmlParser::parse_events(&schema, &events) {
        Err(ParseError::UnexpectedRootClose { expected, found }) => {
            assert_eq!(expected, "r");
            assert_eq!(found, "x");
        }
        other => panic!("unexpected result {:?}", other),
    }
}

#[test]
fn end_tag_after_the_root_is_refused_from_events() {
    let schema = schema_of(&["a"]);
    let events = vec![
        ReaderEvent::Start(b"r".to_vec()),
        ReaderEvent::End(b"r".to_vec()),
        ReaderEvent::End(b"r".to_vec()),
    ];
    match XmlParser::parse_events(&schema, &events) {
        Err(ParseError::UnexpectedEnd { name, state }) => {
            assert_eq!(name, "r");
            assert_eq!(state, ParserState::Done);
        }
        other => panic!("unexpected result {:?}", other),
    }
}

#[test]
fn invalid_utf8_name_and_cdata_from_events() {
    let schema = schema_of(&["a"]);
    let events = vec![ReaderEvent::Start(vec![0xff])];
    assert!(matches!(
        XmlParser::parse_events(&schema, &events),
        Err(ParseError::InvalidElementName)
    ));
    let events = vec![
        ReaderEvent::Start(b"r".to_vec()),
        ReaderEvent::Start(b"e".to_vec()),
        ReaderEvent::Start(b"a".to_vec()),
        ReaderEvent::CData(vec![0xc3]),
    ];
    assert!(matches!(
        XmlParser::parse_events(&schema, &events),
        Err(ParseError::InvalidCData)
    ));
}

#[test]
fn reader_failure_event_is_an_xml_error() {
    let schema = schema_of(&["a"]);
    let events = vec![ReaderEvent::Start(b"r".to_vec()), ReaderEvent::Failed("boom".to_string())];
    match XmlParser::parse_events(&schema, &events) {
        Err(ParseError::Xml { state, message }) => {
            assert_eq!(state, ParserState::StartElementOrEndRoot);
            assert_eq!(message, "boom");
        }
        other => panic!("unexpected result {:?}", other),
    }
}

#[test]
fn events_after_the_end_are_not_looked_at() {
    let schema = schema_of(&["a"]);
    let events = vec![
        ReaderEvent::Decl,
        ReaderEvent::Comment,
        ReaderEvent::DocType,
        ReaderEvent::PI,
        ReaderEvent::Start(b"r".to_vec()),
        ReaderEvent::Start(b"e".to_vec()),
        ReaderEvent::Start(b"a".to_vec()),
        ReaderEvent::Text(b"v".to_vec()),
        ReaderEvent::End(b"a".to_vec()),
        ReaderEvent::End(b"e".to_vec()),
        ReaderEvent::End(b"r".to_vec()),
        ReaderEvent::Eof,
        ReaderEvent::Start(vec![0xff]),
    ];
    let cols = XmlParser::parse_events(&schema, &events).unwrap();
    assert_eq!(cols, vec![vec![s("v")]]);
}

#[test]
fn flush_pushes_one_cell_per_column_and_clears() {
    let mut current = vec!["x".to_string(), String::new()];
    let mut columns = vec![vec![None], vec![s("y")], vec![s("z")]];
    XmlParser::flush_current_values(&mut current, &mut columns);
    assert_eq!(current, vec![String::new(), String::new()]);
    assert_eq!(columns, vec![vec![None, s("x")], vec![s("y"), None], vec![s("z")]]);
}

#[test]
fn self_closing_record_and_field_from_events() {
    let schema = schema_of(&["a", "b"]);
    let events = vec![
        ReaderEvent::Start(b"r".to_vec()),
        ReaderEvent::Empty(b"e".to_vec()),
        ReaderEvent::Start(b"e".to_vec()),
        ReaderEvent::Empty(b"a".to_vec()),
        ReaderEvent::Start(b"b".to_vec()),
        ReaderEvent::Text(b"t".to_vec()),
        ReaderEvent::End(b"b".to_vec()),
        ReaderEvent::End(b"e".to_vec()),
        ReaderEvent::Empty(b"anything".to_vec()),
        ReaderEvent::End(b"r".to_vec()),
    ];
    let cols = XmlParser::parse_events(&schema, &events).unwrap();
    assert_eq!(cols, vec![vec![None], vec![s("t")]]);
}

#[test]
fn self_closing_record_adds_no_row() {
    let schema = schema_of(&["a"]);
    let doc = b"<r><e/><e><a>1</a></e><e/></r>";
    let cols = XmlParser::parse(&schema, doc).unwrap();
    assert_eq!(cols, vec![vec![s("1")]]);
}

#[test]
fn quick_xml_failure_message_is_carried() {
    let schema = schema_of(&["a"]);
    match XmlParser::parse(&schema, b"<r><e></x></r>") {
        Err(ParseError::Xml { message, .. }) => assert!(message.contains("x")),
        other => panic!("unexpected result {:?}", other),
    }
}
