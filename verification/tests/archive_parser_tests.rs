use mastr_export::archive_parser::{DocumentEvent, ParseError, ParserState, XmlParser};
use mastr_export::schema::{Field, Schema, XsdType};

fn schema_of(names: &[&str]) -> Schema {
    Schema {
        root: "r".to_string(),
        element: "e".to_string(),
        without_rowid: false,
        primary: None,
        fields: names
            .iter()
            .map(|n| Field { name: n.to_string(), xsd: XsdType::String })
            .collect(),
    }
}

fn s(v: &str) -> Option<String> {
    Some(v.to_string())
}

#[test]
fn archive_parses_records_into_columns() {
    let schema = schema_of(&["a", "b"]);
    let doc = b"<?xml version=\"1.0\" encoding=\"UTF-8\"?>\n<r>\n  <e><a>1</a><b>x &amp; y</b></e>\n  <e><b>z</b></e>\n</r>\n";
    let cols = XmlParser::parse(&schema, doc).unwrap();
    assert_eq!(cols, vec![vec![s("1"), None], vec![s("x & y"), s("z")]]);
    assert!(cols.iter().all(|c| c.len() == 2));
}

#[test]
fn archive_comments_and_empty_elements() {
    let schema = schema_of(&["a", "b"]);
    let cols =
        XmlParser::parse(&schema, b"<r><!-- c --><e><a/><b>v</b></e></r>").unwrap();
    assert_eq!(cols, vec![vec![None], vec![s("v")]]);
}

#[test]
fn archive_cdata_is_field_text() {
    let schema = schema_of(&["a", "b"]);
    let cols = XmlParser::parse(&schema, b"<r><e><a><![CDATA[x]]></a><b>y<![CDATA[ & z]]></b></e></r>").unwrap();
    assert_eq!(cols, vec![vec![s("x")], vec![s("y & z")]]);
}

#[test]
fn archive_cdata_outside_a_field_is_passed_over() {
    let schema = schema_of(&["a"]);
    let cols = XmlParser::parse(&schema, b"<r><![CDATA[q]]><e><![CDATA[w]]><a>1</a></e></r>").unwrap();
    assert_eq!(cols, vec![vec![s("1")]]);
}

#[test]
fn archive_duplicate_field_names_go_to_the_first_field() {
    let schema = schema_of(&["a", "a"]);
    let cols = XmlParser::parse(&schema, b"<r><e><a>v</a></e></r>").unwrap();
    assert_eq!(cols, vec![vec![s("v")], vec![None]]);
}

#[test]
fn archive_text_between_fields_is_refused() {
    let schema = schema_of(&["a"]);
    match XmlParser::parse(&schema, b"<r><e>stray<a>v</a></e></r>") {
        Err(ParseError::UnexpectedEvent { event: DocumentEvent::Characters(t), state }) => {
            assert_eq!(t, "stray");
            assert_eq!(state, ParserState::StartAttrOrEndElement);
        }
        other => panic!("unexpected result {:?}", other),
    }
}

#[test]
fn archive_wrong_root_is_refused() {
    let schema = schema_of(&["a"]);
    match XmlParser::parse(&schema, b"<q/>") {
        Err(ParseError::UnexpectedRoot { expected, found }) => {
            assert_eq!(expected, "r");
            assert_eq!(found, "q");
        }
        other => panic!("unexpected result {:?}", other),
    }
}

#[test]
fn archive_unknown_element_and_attribute() {
    let schema = schema_of(&["a"]);
    assert!(matches!(
        XmlParser::parse(&schema, b"<r><x/></r>"),
        Err(ParseError::UnknownElement { .. })
    ));
    assert!(matches!(
        XmlParser::parse(&schema, b"<r><e><z>1</z></e></r>"),
        Err(ParseError::UnknownAttribute { .. })
    ));
}

#[test]
fn archive_malformed_document_is_an_xml_error() {
    let schema = schema_of(&["a"]);
    match XmlParser::parse(&schema, b"<r><e><a>1</b></e></r>") {
        Err(ParseError::Xml { message, .. }) => assert!(!message.is_empty()),
        other => panic!("unexpected result {:?}", other),
    }
    assert!(matches!(XmlParser::parse(&schema, b"<r>"), Err(ParseError::Xml { .. })));
}

#[test]
fn archive_events_require_document_start() {
    let schema = schema_of(&["a"]);
    let events = vec![DocumentEvent::StartElement("r".to_string())];
    match XmlParser::parse_events(&schema, &events) {
        Err(ParseError::UnexpectedEvent { event: DocumentEvent::StartElement(n), state }) => {
            assert_eq!(n, "r");
            assert_eq!(state, ParserState::StartDocument);
        }
        other => panic!("unexpected result {:?}", other),
    }
}

#[test]
fn archive_events_full_document_and_closes() {
    let schema = schema_of(&["a"]);
    let events = vec![
        DocumentEvent::StartDocument,
        DocumentEvent::Characters("lead".to_string()),
        DocumentEvent::StartElement("r".to_string()),
        DocumentEvent::StartElement("e".to_string()),
        DocumentEvent::StartElement("a".to_string()),
        DocumentEvent::Characters("x".to_string()),
        DocumentEvent::CData("c".to_string()),
        DocumentEvent::Comment("note".to_string()),
        DocumentEvent::ProcessingInstruction("pi".to_string()),
        DocumentEvent::Doctype("<!DOCTYPE r>".to_string()),
        DocumentEvent::Characters("y".to_string()),
        DocumentEvent::EndElement("a".to_string()),
        DocumentEvent::EndElement("e".to_string()),
        DocumentEvent::EndElement("r".to_string()),
        DocumentEvent::EndDocument,
    ];
    let cols = XmlParser::parse_events(&schema, &events).unwrap();
    assert_eq!(cols, vec![vec![s("xcy")]]);

    let bad_close = vec![
        DocumentEvent::StartDocument,
        DocumentEvent::StartElement("r".to_string()),
        DocumentEvent::StartElement("e".to_string()),
        DocumentEvent::EndElement("x".to_string()),
    ];
    assert!(matches!(
        XmlParser::parse_events(&schema, &bad_close),
        Err(ParseError::UnexpectedClose { .. })
    ));
    let bad_root_close = vec![
        DocumentEvent::StartDocument,
        DocumentEvent::StartElement("r".to_string()),
        DocumentEvent::EndElement("x".to_string()),
    ];
    assert!(matches!(
        XmlParser::parse_events(&schema, &bad_root_close),
        Err(ParseError::UnexpectedRootClose { .. })
    ));
    let failed = vec![DocumentEvent::StartDocument, DocumentEvent::Failed("boom".to_string())];
    match XmlParser::parse_events(&schema, &failed) {
        Err(ParseError::Xml { state, message }) => {
            assert_eq!(state, ParserState::StartRoot);
            assert_eq!(message, "boom");
        }
        other => panic!("unexpected result {:?}", other),
    }
}

#[test]
fn archive_events_that_stop_early_end_the_document() {
    let schema = schema_of(&["a"]);
    let events = vec![
        DocumentEvent::StartDocument,
        DocumentEvent::StartElement("r".to_string()),
        DocumentEvent::EndElement("r".to_string()),
    ];
    let cols = XmlParser::parse_events(&schema, &events).unwrap();
    assert_eq!(cols, vec![Vec::<Option<String>>::new()]);
    let unfinished = vec![DocumentEvent::StartDocument, DocumentEvent::StartElement("r".to_string())];
    match XmlParser::parse_events(&schema, &unfinished) {
        Err(ParseError::UnexpectedEvent { event: DocumentEvent::EndDocument, state }) => {
            assert_eq!(state, ParserState::StartElementOrEndRoot)
        }
        other => panic!("unexpected result {:?}", other),
    }
}

#[test]
fn archive_whitespace_event_in_a_field_is_refused() {
    let schema = schema_of(&["a"]);
    let events = vec![
        DocumentEvent::StartDocument,
        DocumentEvent::StartElement("r".to_string()),
        DocumentEvent::StartElement("e".to_string()),
        DocumentEvent::StartElement("a".to_string()),
        DocumentEvent::Whitespace(" ".to_string()),
    ];
    match XmlParser::parse_events(&schema, &events) {
        Err(ParseError::UnexpectedEvent { event: DocumentEvent::Whitespace(t), state }) => {
            assert_eq!(t, " ");
            assert_eq!(state, ParserState::AttrCdataOrEndAttr(0));
        }
        other => panic!("unexpected result {:?}", other),
    }
}
