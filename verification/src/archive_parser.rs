//! The record parser of the archive converter: the same document shape as
//! in `parser`, read with the `xml` crate (xml-rs) instead of `quick_xml`.
//!
//! It differs from the other parser where the readers differ: the document
//! must begin with a start-of-document event, text outside a field is
//! refused except before the root element, CDATA sections count only as
//! the text of a field (elsewhere they are passed over), the end of the document must follow the root element's end, and where
//! several fields share a name the first of them receives the text.

use vstd::prelude::*;
use xml::reader::{ParserConfig, XmlEvent};

use crate::parser::{
    ColumnView, MachineView, Progress, columns_view, columns_wf, flush, gather, initial_machine,
    lemma_flush_view, lemma_flush_wf, lemma_run_settled, lemma_steps_counted, lemma_steps_keep,
    run_steps, steps_add_cells, steps_counted, steps_keep, with_state,
};
use crate::schema::{FieldView, Schema, SchemaView};

verus! {

/// The settings of an xml-rs reader over the bytes of a document.
pub struct DocumentReader<'a> {
    input: &'a [u8],
    trim_whitespace: bool,
    ignore_comments: bool,
}

impl<'a> DocumentReader<'a> {
    /// The bytes of the document the reader reads.
    pub closed spec fn source(&self) -> Seq<u8> {
        self.input@
    }

    /// The reader trims whitespace from text.
    pub closed spec fn trims_whitespace(&self) -> bool {
        self.trim_whitespace
    }

    /// The reader passes over comments.
    pub closed spec fn ignores_comments(&self) -> bool {
        self.ignore_comments
    }

    /// The events that xml-rs delivers for the document with these
    /// settings.
    pub fn events(&self) -> (r: Vec<DocumentEvent>)
        ensures
            events_view(r@) == xml_rs_events(
                self.source(),
                self.trims_whitespace(),
                self.ignores_comments(),
            ),
    {
        read_xml_rs_events(self.input, self.trim_whitespace, self.ignore_comments)
    }
}

#[verifier::external_type_specification]
#[verifier::external_body]
pub struct ExXmlRsEvent(xml::reader::XmlEvent);

// ---------------------------------------------------------------------------
// Events
// ---------------------------------------------------------------------------

/// One event of an XML document, as xml-rs delivers it: element names are
/// the local names, text is already unescaped.
#[derive(Debug)]
pub enum DocumentEvent {
    StartDocument,
    EndDocument,
    StartElement(String),
    EndElement(String),
    Characters(String),
    Whitespace(String),
    /// A comment, with its text.
    Comment(String),
    /// A CDATA section, with its content.
    CData(String),
    /// The document type declaration, with its text.
    Doctype(String),
    /// A processing instruction, with its target name.
    ProcessingInstruction(String),
    /// The XML reader failed; the text describes the failure.
    Failed(String),
}

/// The plain value of an event.
pub enum DocumentEventView {
    StartDocument,
    EndDocument,
    StartElement(Seq<char>),
    EndElement(Seq<char>),
    Characters(Seq<char>),
    Whitespace(Seq<char>),
    Comment(Seq<char>),
    CData(Seq<char>),
    Doctype(Seq<char>),
    ProcessingInstruction(Seq<char>),
    Failed(Seq<char>),
}

impl View for DocumentEvent {
    type V = DocumentEventView;

    open spec fn view(&self) -> DocumentEventView {
        match self {
            DocumentEvent::StartDocument => DocumentEventView::StartDocument,
            DocumentEvent::EndDocument => DocumentEventView::EndDocument,
            DocumentEvent::StartElement(n) => DocumentEventView::StartElement(n@),
            DocumentEvent::EndElement(n) => DocumentEventView::EndElement(n@),
            DocumentEvent::Characters(t) => DocumentEventView::Characters(t@),
            DocumentEvent::Whitespace(t) => DocumentEventView::Whitespace(t@),
            DocumentEvent::Comment(t) => DocumentEventView::Comment(t@),
            DocumentEvent::CData(t) => DocumentEventView::CData(t@),
            DocumentEvent::Doctype(t) => DocumentEventView::Doctype(t@),
            DocumentEvent::ProcessingInstruction(t) => DocumentEventView::ProcessingInstruction(t@),
            DocumentEvent::Failed(t) => DocumentEventView::Failed(t@),
        }
    }
}

pub open spec fn events_view(events: Seq<DocumentEvent>) -> Seq<DocumentEventView> {
    events.map_values(|e: DocumentEvent| e@)
}

// ---------------------------------------------------------------------------
// States and errors
// ---------------------------------------------------------------------------

/// Represents the different states of the XML parser state machine
#[derive(Clone, Copy, Debug, PartialEq, Eq, Structural)]
pub enum ParserState {
    /// Initial state - expecting document start
    StartDocument,
    /// Expecting the root element to start
    StartRoot,
    /// Expecting either a new element or the end of root
    StartElementOrEndRoot,
    /// Expecting either an attribute start or element end
    StartAttrOrEndElement,
    /// Reading attribute content or expecting attribute end
    AttrCdataOrEndAttr(usize),
    /// Parsing complete
    Done,
}

/// Why a document was refused.
#[derive(Debug)]
pub enum ParseError {
    /// The document does not start with the schema's root element.
    UnexpectedRoot { expected: String, found: String },
    /// A child of the root is not the schema's record element.
    UnknownElement { name: String },
    /// A child of a record is not one of the schema's fields.
    UnknownAttribute { name: String },
    /// A record element is closed by a tag of another name.
    UnexpectedClose { expected: String, found: String },
    /// The root element is closed by a tag of another name.
    UnexpectedRootClose { expected: String, found: String },
    /// An event that may not stand where it stands.
    UnexpectedEvent { event: DocumentEvent, state: ParserState },
    /// The XML reader refused the document.
    Xml { state: ParserState, message: String },
}

/// The plain value of a parse error.
pub enum ParseFailure {
    UnexpectedRoot { expected: Seq<char>, found: Seq<char> },
    UnknownElement { name: Seq<char> },
    UnknownAttribute { name: Seq<char> },
    UnexpectedClose { expected: Seq<char>, found: Seq<char> },
    UnexpectedRootClose { expected: Seq<char>, found: Seq<char> },
    UnexpectedEvent { event: DocumentEventView, state: ParserState },
    Xml { state: ParserState, message: Seq<char> },
}

impl View for ParseError {
    type V = ParseFailure;

    open spec fn view(&self) -> ParseFailure {
        match self {
            ParseError::UnexpectedRoot { expected, found } => ParseFailure::UnexpectedRoot {
                expected: expected@,
                found: found@,
            },
            ParseError::UnknownElement { name } => ParseFailure::UnknownElement { name: name@ },
            ParseError::UnknownAttribute { name } => ParseFailure::UnknownAttribute {
                name: name@,
            },
            ParseError::UnexpectedClose { expected, found } => ParseFailure::UnexpectedClose {
                expected: expected@,
                found: found@,
            },
            ParseError::UnexpectedRootClose { expected, found } =>
                ParseFailure::UnexpectedRootClose { expected: expected@, found: found@ },
            ParseError::UnexpectedEvent { event, state } => ParseFailure::UnexpectedEvent {
                event: event@,
                state: *state,
            },
            ParseError::Xml { state, message } => ParseFailure::Xml {
                state: *state,
                message: message@,
            },
        }
    }
}

// ---------------------------------------------------------------------------
// The model of the state machine
// ---------------------------------------------------------------------------

/// The column of the field named `name`; where several fields share the
/// name, the first of them.
pub open spec fn first_field_index(fields: Seq<FieldView>, name: Seq<char>) -> Option<usize>
    decreases fields.len(),
{
    if fields.len() == 0 {
        None
    } else {
        match first_field_index(fields.drop_last(), name) {
            Some(i) => Some(i),
            None => if fields.last().name == name {
                Some((fields.len() - 1) as usize)
            } else {
                None
            },
        }
    }
}

/// One step of the state machine.
pub open spec fn step(s: SchemaView, m: MachineView<ParserState>, e: DocumentEventView) -> Progress<
    ParserState,
    ParseFailure,
> {
    match (m.state, e) {
        (ParserState::StartDocument, DocumentEventView::StartDocument) => Progress::Running(
            with_state(m, ParserState::StartRoot),
        ),
        (state, DocumentEventView::Failed(message)) => Progress::Failed(
            ParseFailure::Xml { state, message },
        ),
        (ParserState::StartRoot, DocumentEventView::Characters(_)) => Progress::Running(m),
        (ParserState::StartRoot, DocumentEventView::StartElement(name)) => if s.root == name {
            Progress::Running(with_state(m, ParserState::StartElementOrEndRoot))
        } else {
            Progress::Failed(ParseFailure::UnexpectedRoot { expected: s.root, found: name })
        },
        (ParserState::StartElementOrEndRoot, DocumentEventView::StartElement(name)) => if s.element
            != name {
            Progress::Failed(ParseFailure::UnknownElement { name })
        } else {
            Progress::Running(with_state(m, ParserState::StartAttrOrEndElement))
        },
        (ParserState::StartAttrOrEndElement, DocumentEventView::StartElement(name)) => match first_field_index(s.fields, name) {
            Some(i) => Progress::Running(with_state(m, ParserState::AttrCdataOrEndAttr(i))),
            None => Progress::Failed(ParseFailure::UnknownAttribute { name }),
        },
        (ParserState::AttrCdataOrEndAttr(i), DocumentEventView::Characters(content)) => Progress::Running(
            gather(m, i as int, content),
        ),
        (ParserState::AttrCdataOrEndAttr(i), DocumentEventView::CData(content)) => Progress::Running(
            gather(m, i as int, content),
        ),
        (ParserState::AttrCdataOrEndAttr(_), DocumentEventView::EndElement(_)) => Progress::Running(
            with_state(m, ParserState::StartAttrOrEndElement),
        ),
        (ParserState::StartAttrOrEndElement, DocumentEventView::EndElement(name)) => if s.element
            != name {
            Progress::Failed(ParseFailure::UnexpectedClose { expected: s.element, found: name })
        } else {
            Progress::Running(with_state(flush(m), ParserState::StartElementOrEndRoot))
        },
        (ParserState::StartElementOrEndRoot, DocumentEventView::EndElement(name)) => if s.root
            != name {
            Progress::Failed(ParseFailure::UnexpectedRootClose { expected: s.root, found: name })
        } else {
            Progress::Running(with_state(m, ParserState::Done))
        },
        (ParserState::Done, DocumentEventView::EndDocument) => Progress::Finished(m.columns),
        (_, DocumentEventView::Comment(_)) => Progress::Running(m),
        (_, DocumentEventView::CData(_)) => Progress::Running(m),
        (_, DocumentEventView::Doctype(_)) => Progress::Running(m),
        (_, DocumentEventView::ProcessingInstruction(_)) => Progress::Running(m),
        (state, event) => Progress::Failed(ParseFailure::UnexpectedEvent { event, state }),
    }
}

/// The state before the first event of a document.
pub open spec fn start(s: SchemaView) -> MachineView<ParserState> {
    initial_machine(ParserState::StartDocument, s.fields.len())
}

/// The step function of the state machine for a schema.
pub open spec fn steps(s: SchemaView) -> spec_fn(MachineView<ParserState>, DocumentEventView) -> Progress<
    ParserState,
    ParseFailure,
> {
    |m: MachineView<ParserState>, e: DocumentEventView| step(s, m, e)
}

/// Where a parse stands after the given events; once it has finished or
/// failed, later events change nothing.
pub open spec fn run(s: SchemaView, events: Seq<DocumentEventView>) -> Progress<ParserState, ParseFailure> {
    run_steps(start(s), steps(s), events)
}

/// The result of parsing a document that consists of the given events; an
/// event sequence that stops before the end of the document ends as if the
/// end of the document came next.
pub open spec fn parse_outcome(s: SchemaView, events: Seq<DocumentEventView>) -> Result<
    Seq<ColumnView>,
    ParseFailure,
> {
    match run(s, events) {
        Progress::Running(m) => match step(s, m, DocumentEventView::EndDocument) {
            Progress::Finished(c) => Ok(c),
            Progress::Failed(f) => Err(f),
            Progress::Running(_) => Err(
                ParseFailure::UnexpectedEvent { event: DocumentEventView::EndDocument, state: m.state },
            ),
        },
        Progress::Finished(c) => Ok(c),
        Progress::Failed(f) => Err(f),
    }
}

pub open spec fn result_view(r: Result<Vec<Vec<Option<String>>>, ParseError>) -> Result<
    Seq<ColumnView>,
    ParseFailure,
> {
    match r {
        Ok(c) => Ok(columns_view(c@)),
        Err(e) => Err(e@),
    }
}

// ---------------------------------------------------------------------------
// The state machine
// ---------------------------------------------------------------------------

/// The invariant of a running parse over a schema of `n` fields (as in
/// `parser::machine_wf`).
pub open spec fn machine_wf(m: MachineView<ParserState>, n: nat) -> bool {
    &&& m.current.len() == n
    &&& columns_wf(m.columns, n)
    &&& (m.state matches ParserState::AttrCdataOrEndAttr(i) ==> i < n)
}

proof fn lemma_first_field_index_bound(fields: Seq<FieldView>, name: Seq<char>)
    requires
        fields.len() <= usize::MAX,
    ensures
        first_field_index(fields, name) matches Some(i) ==> i < fields.len() && fields[i as int].name
            == name && forall|k: int| 0 <= k < i ==> (#[trigger] fields[k]).name != name,
        first_field_index(fields, name) is None ==> forall|k: int|
            0 <= k < fields.len() ==> (#[trigger] fields[k]).name != name,
    decreases fields.len(),
{
    if fields.len() > 0 {
        let prefix = fields.drop_last();
        lemma_first_field_index_bound(prefix, name);
        assert forall|k: int| 0 <= k < prefix.len() implies prefix[k] == fields[k] by {}
    }
}

proof fn lemma_step_wf(s: SchemaView, m: MachineView<ParserState>, e: DocumentEventView)
    requires
        s.fields.len() <= usize::MAX,
        machine_wf(m, s.fields.len()),
    ensures
        step(s, m, e) matches Progress::Running(m2) ==> machine_wf(m2, s.fields.len()),
        step(s, m, e) matches Progress::Finished(c) ==> columns_wf(
            c,
            s.fields.len(),
        ),
{
    let n = s.fields.len();
    match e {
        DocumentEventView::StartElement(name) => {
            lemma_first_field_index_bound(s.fields, name);
        },
        DocumentEventView::EndElement(name) => {
            if m.state == ParserState::StartAttrOrEndElement && s.element == name {
                lemma_flush_wf(m, n);
            }
        },
        _ => {},
    }
}

/// Every running parse keeps the invariant.
proof fn lemma_run_wf(s: SchemaView, events: Seq<DocumentEventView>)
    requires
        s.fields.len() <= usize::MAX,
    ensures
        run(s, events) matches Progress::Running(m) ==> machine_wf(m, s.fields.len()),
        run(s, events) matches Progress::Finished(c) ==> columns_wf(c, s.fields.len()),
{
    lemma_steps_wf(s);
    lemma_steps_keep(start(s), steps(s), wf(s), done(s), events);
}

/// The invariant of a running parse, for a schema.
pub open spec fn wf(s: SchemaView) -> spec_fn(MachineView<ParserState>) -> bool {
    |m: MachineView<ParserState>| machine_wf(m, s.fields.len())
}

/// What the columns of a finished parse are, for a schema.
pub open spec fn done(s: SchemaView) -> spec_fn(Seq<ColumnView>) -> bool {
    |c: Seq<ColumnView>| columns_wf(c, s.fields.len())
}

proof fn lemma_steps_wf(s: SchemaView)
    requires
        s.fields.len() <= usize::MAX,
    ensures
        wf(s)(start(s)),
        steps_keep(steps(s), wf(s), done(s)),
{
    assert forall|m: MachineView<ParserState>, e: DocumentEventView| wf(s)(m) implies match #[trigger] steps(
        s,
    )(m, e) {
        Progress::Running(m2) => wf(s)(m2),
        Progress::Finished(c) => done(s)(c),
        Progress::Failed(_) => true,
    } by {
        lemma_step_wf(s, m, e);
    }
}

/// A successful parse gives one column per field of the schema, all columns
/// of the same length (one cell per record), and a cell is present only
/// where the field's text was not empty.
pub proof fn lemma_parse_columns_rectangular(s: SchemaView, events: Seq<DocumentEventView>)
    requires
        s.fields.len() <= usize::MAX,
    ensures
        parse_outcome(s, events) matches Ok(c) ==> columns_wf(c, s.fields.len()),
{
    lemma_run_wf(s, events);
    if let Progress::Running(m) = run(s, events) {
        lemma_step_wf(s, m, DocumentEventView::EndDocument);
    }
}

/// The event closes a record: an end tag of the record element while a
/// record is open and no field is.
pub open spec fn closes_record(
    s: SchemaView,
    m: MachineView<ParserState>,
    e: DocumentEventView,
) -> bool {
    &&& m.state == ParserState::StartAttrOrEndElement
    &&& e matches DocumentEventView::EndElement(name)
    &&& name == s.element
}

/// The events that close a record, for a schema.
pub open spec fn closes(s: SchemaView) -> spec_fn(MachineView<ParserState>, DocumentEventView) -> bool {
    |m: MachineView<ParserState>, e: DocumentEventView| closes_record(s, m, e)
}

/// The number of records that the given events close before the parse
/// finishes or fails.
pub open spec fn records_closed(s: SchemaView, events: Seq<DocumentEventView>) -> nat {
    steps_counted(start(s), steps(s), closes(s), events)
}

proof fn lemma_step_counts(s: SchemaView, m: MachineView<ParserState>, e: DocumentEventView)
    requires
        s.fields.len() <= usize::MAX,
        machine_wf(m, s.fields.len()),
    ensures
        step(s, m, e) matches Progress::Running(m2) ==> forall|i: int|
            0 <= i < s.fields.len() ==> #[trigger] m2.columns[i].len() == m.columns[i].len() + if closes_record(
                s,
                m,
                e,
            ) {
                1int
            } else {
                0int
            },
        step(s, m, e) matches Progress::Finished(c) ==> c == m.columns && !closes_record(s, m, e),
{
}

proof fn lemma_records_counted(s: SchemaView, events: Seq<DocumentEventView>)
    requires
        s.fields.len() <= usize::MAX,
    ensures
        run(s, events) matches Progress::Running(m) ==> forall|i: int|
            0 <= i < s.fields.len() ==> #[trigger] m.columns[i].len() == records_closed(s, events),
        run(s, events) matches Progress::Finished(c) ==> forall|i: int|
            0 <= i < s.fields.len() ==> #[trigger] c[i].len() == records_closed(s, events),
{
    let n = s.fields.len();
    lemma_steps_wf(s);
    assert forall|m: MachineView<ParserState>, e: DocumentEventView| wf(s)(m) implies match #[trigger] steps(
        s,
    )(m, e) {
        Progress::Running(m2) => forall|i: int|
            0 <= i < n ==> #[trigger] m2.columns[i].len() == m.columns[i].len() + if closes(s)(m, e) {
                1int
            } else {
                0int
            },
        Progress::Finished(c) => c == m.columns && !closes(s)(m, e),
        Progress::Failed(_) => true,
    } by {
        lemma_step_counts(s, m, e);
    }
    assert(steps_add_cells(steps(s), closes(s), wf(s), n));
    lemma_steps_counted(start(s), steps(s), closes(s), wf(s), done(s), n, events);
}

/// A successful parse gives every column one cell per record that the
/// document closed.
pub proof fn lemma_parse_one_cell_per_record(s: SchemaView, events: Seq<DocumentEventView>)
    requires
        s.fields.len() <= usize::MAX,
    ensures
        parse_outcome(s, events) matches Ok(c) ==> forall|i: int|
            0 <= i < s.fields.len() ==> #[trigger] c[i].len() == records_closed(s, events),
{
    lemma_records_counted(s, events);
    lemma_run_wf(s, events);
    if let Progress::Running(m) = run(s, events) {
        lemma_step_counts(s, m, DocumentEventView::EndDocument);
    }
}

/// Where a parse stands after one more event.
proof fn lemma_run_push(s: SchemaView, events: Seq<DocumentEventView>, e: DocumentEventView)
    ensures
        run(s, events.push(e)) == match run(s, events) {
            Progress::Running(m) => step(s, m, e),
            done => done,
        },
{
    assert(events.push(e).drop_last() =~= events);
    assert(events.push(e).last() == e);
}

/// A document of one record in which one field holds character data
/// followed by a CDATA section parses to one row: the column of that field
/// (the first field of its name) holds the character data followed by the
/// CDATA content, character for character (`None` where both are empty),
/// and every other column holds `None`.
pub proof fn lemma_one_record_field_text(
    s: SchemaView,
    field: Seq<char>,
    text: Seq<char>,
    cdata: Seq<char>,
    i: int,
)
    requires
        s.fields.len() <= usize::MAX,
        0 <= i < s.fields.len(),
        s.fields[i].name == field,
        forall|k: int| 0 <= k < i ==> (#[trigger] s.fields[k]).name != field,
    ensures
        parse_outcome(
            s,
            seq![
                DocumentEventView::StartDocument,
                DocumentEventView::StartElement(s.root),
                DocumentEventView::StartElement(s.element),
                DocumentEventView::StartElement(field),
                DocumentEventView::Characters(text),
                DocumentEventView::CData(cdata),
                DocumentEventView::EndElement(field),
                DocumentEventView::EndElement(s.element),
                DocumentEventView::EndElement(s.root),
                DocumentEventView::EndDocument,
            ],
        ) == Ok::<Seq<ColumnView>, ParseFailure>(
            Seq::new(
                s.fields.len(),
                |k: int|
                    if k == i && (text + cdata).len() > 0 {
                        seq![Some(text + cdata)]
                    } else {
                        seq![None]
                    },
            ),
        ),
{
    let n = s.fields.len();
    let t = text + cdata;
    lemma_first_field_index_bound(s.fields, field);
    assert(first_field_index(s.fields, field) == Some(i as usize));
    let e0 = Seq::<DocumentEventView>::empty();
    let e1 = e0.push(DocumentEventView::StartDocument);
    let e2 = e1.push(DocumentEventView::StartElement(s.root));
    let e3 = e2.push(DocumentEventView::StartElement(s.element));
    let e4 = e3.push(DocumentEventView::StartElement(field));
    let e5 = e4.push(DocumentEventView::Characters(text));
    let e6 = e5.push(DocumentEventView::CData(cdata));
    let e7 = e6.push(DocumentEventView::EndElement(field));
    let e8 = e7.push(DocumentEventView::EndElement(s.element));
    let e9 = e8.push(DocumentEventView::EndElement(s.root));
    let e10 = e9.push(DocumentEventView::EndDocument);
    assert(e10 =~= seq![
        DocumentEventView::StartDocument,
        DocumentEventView::StartElement(s.root),
        DocumentEventView::StartElement(s.element),
        DocumentEventView::StartElement(field),
        DocumentEventView::Characters(text),
        DocumentEventView::CData(cdata),
        DocumentEventView::EndElement(field),
        DocumentEventView::EndElement(s.element),
        DocumentEventView::EndElement(s.root),
        DocumentEventView::EndDocument,
    ]);
    let m0 = start(s);
    assert(run(s, e0) == Progress::<ParserState, ParseFailure>::Running(m0));
    lemma_run_push(s, e0, DocumentEventView::StartDocument);
    let m1 = with_state(m0, ParserState::StartRoot);
    assert(run(s, e1) == Progress::<ParserState, ParseFailure>::Running(m1));
    lemma_run_push(s, e1, DocumentEventView::StartElement(s.root));
    let m2 = with_state(m1, ParserState::StartElementOrEndRoot);
    assert(run(s, e2) == Progress::<ParserState, ParseFailure>::Running(m2));
    lemma_run_push(s, e2, DocumentEventView::StartElement(s.element));
    let m3 = with_state(m2, ParserState::StartAttrOrEndElement);
    assert(run(s, e3) == Progress::<ParserState, ParseFailure>::Running(m3));
    lemma_run_push(s, e3, DocumentEventView::StartElement(field));
    let m4 = with_state(m3, ParserState::AttrCdataOrEndAttr(i as usize));
    assert(run(s, e4) == Progress::<ParserState, ParseFailure>::Running(m4));
    lemma_run_push(s, e4, DocumentEventView::Characters(text));
    let m5 = gather(m4, i, text);
    assert(run(s, e5) == Progress::<ParserState, ParseFailure>::Running(m5));
    lemma_run_push(s, e5, DocumentEventView::CData(cdata));
    let m6 = gather(m5, i, cdata);
    assert(run(s, e6) == Progress::<ParserState, ParseFailure>::Running(m6));
    lemma_run_push(s, e6, DocumentEventView::EndElement(field));
    let m7 = with_state(m6, ParserState::StartAttrOrEndElement);
    assert(run(s, e7) == Progress::<ParserState, ParseFailure>::Running(m7));
    lemma_run_push(s, e7, DocumentEventView::EndElement(s.element));
    let m8 = with_state(flush(m7), ParserState::StartElementOrEndRoot);
    assert(run(s, e8) == Progress::<ParserState, ParseFailure>::Running(m8));
    lemma_run_push(s, e8, DocumentEventView::EndElement(s.root));
    let m9 = with_state(m8, ParserState::Done);
    assert(run(s, e9) == Progress::<ParserState, ParseFailure>::Running(m9));
    lemma_run_push(s, e9, DocumentEventView::EndDocument);
    assert(run(s, e10) == Progress::<ParserState, ParseFailure>::Finished(m9.columns));
    assert(m6.current[i] =~= t);
    assert forall|k: int| 0 <= k < n && k != i implies #[trigger] m6.current[k] == Seq::<char>::empty() by {}
    assert(m9.columns =~= Seq::new(
        n,
        |k: int|
            if k == i && t.len() > 0 {
                seq![Some(t)]
            } else {
                seq![None]
            },
    )) by {
        assert forall|k: int| 0 <= k < n implies #[trigger] m9.columns[k] =~= (if k == i && t.len() > 0 {
            seq![Some(t)]
        } else {
            seq![None]
        }) by {
            assert(m9.columns[k] == m7.columns[k].push(crate::parser::cell(m7.current[k])));
        }
    }
}

/// Inside field `i`, character data and CDATA content are appended to that
/// field's gathered text exactly as they stand. Nothing else changes.
pub proof fn lemma_field_text_step(
    s: SchemaView,
    m: MachineView<ParserState>,
    text: Seq<char>,
    i: usize,
)
    requires
        m.state == ParserState::AttrCdataOrEndAttr(i),
        i < m.current.len(),
    ensures
        step(s, m, DocumentEventView::Characters(text)) == Progress::<
            ParserState,
            ParseFailure,
        >::Running(
            MachineView {
                state: m.state,
                current: m.current.update(i as int, m.current[i as int] + text),
                columns: m.columns,
            },
        ),
        step(s, m, DocumentEventView::CData(text)) == Progress::<ParserState, ParseFailure>::Running(
            MachineView {
                state: m.state,
                current: m.current.update(i as int, m.current[i as int] + text),
                columns: m.columns,
            },
        ),
{
}

/// The end tag of a record closes it: every column gets one more cell, the
/// gathered text of its field or `None` where that text is empty, the
/// gathered texts are cleared, and the root element may close or another
/// record open next.
pub proof fn lemma_record_close_step(s: SchemaView, m: MachineView<ParserState>)
    requires
        m.state == ParserState::StartAttrOrEndElement,
        m.current.len() == m.columns.len(),
    ensures
        step(s, m, DocumentEventView::EndElement(s.element)) matches Progress::Running(m2) && {
            &&& m2.state == ParserState::StartElementOrEndRoot
            &&& m2.current.len() == m.current.len()
            &&& m2.columns.len() == m.columns.len()
            &&& forall|k: int|
                0 <= k < m.columns.len() ==> #[trigger] m2.current[k] == Seq::<char>::empty()
                    && m2.columns[k] == m.columns[k].push(
                    if m.current[k].len() == 0 {
                        None
                    } else {
                        Some(m.current[k])
                    },
                )
        },
{
}

/// What one event did to the state machine.
enum Outcome {
    Continue,
    Finished,
    Failed(ParseError),
}

/// The mutable state of a parse.
struct Machine {
    state: ParserState,
    current: Vec<String>,
    columns: Vec<Vec<Option<String>>>,
}

impl View for Machine {
    type V = MachineView<ParserState>;

    closed spec fn view(&self) -> MachineView<ParserState> {
        MachineView {
            state: self.state,
            current: self.current@.map_values(|t: String| t@),
            columns: columns_view(self.columns@),
        }
    }
}

/// The state before the first event, for a schema of `n` fields.
fn new_machine(n: usize) -> (m: Machine)
    ensures
        m@ == initial_machine(ParserState::StartDocument, n as nat),
{
    let mut current: Vec<String> = Vec::new();
    let mut columns: Vec<Vec<Option<String>>> = Vec::new();
    for i in 0..n
        invariant
            current@.len() == i,
            columns@.len() == i,
            forall|k: int| 0 <= k < i ==> #[trigger] current@[k]@ == Seq::<char>::empty(),
            forall|k: int| 0 <= k < i ==> #[trigger] columns@[k]@ == Seq::<Option<String>>::empty(),
    {
        current.push(String::new());
        columns.push(Vec::new());
    }
    let m = Machine { state: ParserState::StartDocument, current, columns };
    assert(m@.current =~= initial_machine(ParserState::StartDocument, n as nat).current);
    assert(m@.columns =~= initial_machine(ParserState::StartDocument, n as nat).columns) by {
        assert forall|k: int| 0 <= k < n implies #[trigger] m@.columns[k] =~= Seq::<
            Option<Seq<char>>,
        >::empty() by {
            assert(columns@[k]@ == Seq::<Option<String>>::empty());
        }
    }
    m
}

/// The column of the first field named `name`.
fn first_field_position(fields: &Vec<crate::schema::Field>, name: &String) -> (r: Option<usize>)
    ensures
        r == first_field_index(fields@.map_values(|f: crate::schema::Field| f@), name@),
{
    let ghost fs = fields@.map_values(|f: crate::schema::Field| f@);
    let n = fields.len();
    proof {
        lemma_first_field_index_bound(fs, name@);
    }
    for i in 0..n
        invariant
            n == fields@.len(),
            fs == fields@.map_values(|f: crate::schema::Field| f@),
            forall|k: int| 0 <= k < i ==> (#[trigger] fs[k]).name != name@,
            first_field_index(fs, name@) matches Some(j) ==> j < fs.len() && fs[j as int].name
                == name@ && forall|k: int| 0 <= k < j ==> (#[trigger] fs[k]).name != name@,
            first_field_index(fs, name@) is None ==> forall|k: int|
                0 <= k < fs.len() ==> (#[trigger] fs[k]).name != name@,
    {
        if fields[i].name == *name {
            assert(fs[i as int].name == name@);
            return Some(i);
        }
    }
    None
}

/// A copy of an event.
fn copy_event(e: &DocumentEvent) -> (r: DocumentEvent)
    ensures
        r@ == e@,
{
    match e {
        DocumentEvent::StartDocument => DocumentEvent::StartDocument,
        DocumentEvent::EndDocument => DocumentEvent::EndDocument,
        DocumentEvent::StartElement(n) => DocumentEvent::StartElement(n.clone()),
        DocumentEvent::EndElement(n) => DocumentEvent::EndElement(n.clone()),
        DocumentEvent::Characters(t) => DocumentEvent::Characters(t.clone()),
        DocumentEvent::Whitespace(t) => DocumentEvent::Whitespace(t.clone()),
        DocumentEvent::Comment(t) => DocumentEvent::Comment(t.clone()),
        DocumentEvent::CData(t) => DocumentEvent::CData(t.clone()),
        DocumentEvent::Doctype(t) => DocumentEvent::Doctype(t.clone()),
        DocumentEvent::ProcessingInstruction(t) => DocumentEvent::ProcessingInstruction(t.clone()),
        DocumentEvent::Failed(t) => DocumentEvent::Failed(t.clone()),
    }
}

/// One step of the state machine on the parse's mutable state.
fn apply_event(schema: &Schema, m: &mut Machine, event: &DocumentEvent) -> (r: Outcome)
    requires
        machine_wf(old(m)@, schema@.fields.len()),
    ensures
        match step(schema@, old(m)@, event@) {
            Progress::Running(next) => r is Continue && final(m)@ == next,
            Progress::Finished(c) => r is Finished && final(m)@.columns == c,
            Progress::Failed(f) => r matches Outcome::Failed(e) && e@ == f,
        },
{
    let ghost m0 = m@;
    match (m.state, event) {
        (ParserState::StartDocument, DocumentEvent::StartDocument) => {
            m.state = ParserState::StartRoot;
            assert(m@ == with_state(m0, ParserState::StartRoot));
            Outcome::Continue
        },
        (state, DocumentEvent::Failed(message)) => Outcome::Failed(
            ParseError::Xml { state, message: message.clone() },
        ),
        (ParserState::StartRoot, DocumentEvent::Characters(_)) => Outcome::Continue,
        (ParserState::StartRoot, DocumentEvent::StartElement(name)) => {
            if schema.root == *name {
                m.state = ParserState::StartElementOrEndRoot;
                assert(m@ == with_state(m0, ParserState::StartElementOrEndRoot));
                Outcome::Continue
            } else {
                Outcome::Failed(
                    ParseError::UnexpectedRoot { expected: schema.root.clone(), found: name.clone() },
                )
            }
        },
        (ParserState::StartElementOrEndRoot, DocumentEvent::StartElement(name)) => {
            if schema.element != *name {
                Outcome::Failed(ParseError::UnknownElement { name: name.clone() })
            } else {
                m.state = ParserState::StartAttrOrEndElement;
                assert(m@ == with_state(m0, ParserState::StartAttrOrEndElement));
                Outcome::Continue
            }
        },
        (ParserState::StartAttrOrEndElement, DocumentEvent::StartElement(name)) => {
            match first_field_position(&schema.fields, name) {
                Some(idx) => {
                    m.state = ParserState::AttrCdataOrEndAttr(idx);
                    assert(m@ == with_state(m0, ParserState::AttrCdataOrEndAttr(idx)));
                    Outcome::Continue
                },
                None => Outcome::Failed(ParseError::UnknownAttribute { name: name.clone() }),
            }
        },
        (ParserState::AttrCdataOrEndAttr(idx), DocumentEvent::Characters(content)) => {
            m.current[idx].append(content.as_str());
            assert(m@ == gather(m0, idx as int, content@));
            Outcome::Continue
        },
        (ParserState::AttrCdataOrEndAttr(idx), DocumentEvent::CData(content)) => {
            m.current[idx].append(content.as_str());
            assert(m@ == gather(m0, idx as int, content@));
            Outcome::Continue
        },
        (ParserState::AttrCdataOrEndAttr(_), DocumentEvent::EndElement(_)) => {
            m.state = ParserState::StartAttrOrEndElement;
            assert(m@ == with_state(m0, ParserState::StartAttrOrEndElement));
            Outcome::Continue
        },
        (ParserState::StartAttrOrEndElement, DocumentEvent::EndElement(name)) => {
            if schema.element != *name {
                Outcome::Failed(
                    ParseError::UnexpectedClose {
                        expected: schema.element.clone(),
                        found: name.clone(),
                    },
                )
            } else {
                let ghost old_current = m.current@;
                let ghost old_columns = m.columns@;
                crate::parser::XmlParser::flush_current_values(&mut m.current, &mut m.columns);
                proof {
                    lemma_flush_view(old_current, old_columns, m.current@, m.columns@);
                }
                m.state = ParserState::StartElementOrEndRoot;
                assert(m@ == with_state(flush(m0), ParserState::StartElementOrEndRoot));
                Outcome::Continue
            }
        },
        (ParserState::StartElementOrEndRoot, DocumentEvent::EndElement(name)) => {
            if schema.root != *name {
                Outcome::Failed(
                    ParseError::UnexpectedRootClose {
                        expected: schema.root.clone(),
                        found: name.clone(),
                    },
                )
            } else {
                m.state = ParserState::Done;
                assert(m@ == with_state(m0, ParserState::Done));
                Outcome::Continue
            }
        },
        (ParserState::Done, DocumentEvent::EndDocument) => Outcome::Finished,
        (_, DocumentEvent::Comment(_)) => Outcome::Continue,
        (_, DocumentEvent::CData(_)) => Outcome::Continue,
        (_, DocumentEvent::Doctype(_)) => Outcome::Continue,
        (_, DocumentEvent::ProcessingInstruction(_)) => Outcome::Continue,
        (state, event) => Outcome::Failed(
            ParseError::UnexpectedEvent { event: copy_event(event), state },
        ),
    }
}

/// XML parser for converting XML data to columns of optional strings
/// according to a schema
pub struct XmlParser;

impl XmlParser {
    /// Parses a document given as its sequence of events into one column of
    /// optional strings per field of the schema. Events after the end of the
    /// parse (or after a failure) are not looked at; a sequence that stops
    /// early ends as if the end of the document came next.
    pub fn parse_events(schema: &Schema, events: &Vec<DocumentEvent>) -> (r: Result<
        Vec<Vec<Option<String>>>,
        ParseError,
    >)
        ensures
            result_view(r) == parse_outcome(schema@, events_view(events@)),
            r matches Ok(c) ==> columns_wf(columns_view(c@), schema@.fields.len()),
    {
        let n = schema.fields.len();
        let ghost s = schema@;
        let ghost evs = events_view(events@);
        let mut m = new_machine(n);
        let mut i: usize = 0;
        assert(evs.take(0) =~= Seq::<DocumentEventView>::empty());
        while i < events.len()
            invariant
                n == s.fields.len(),
                s == schema@,
                evs == events_view(events@),
                i <= events@.len(),
                run(s, evs.take(i as int)) == Progress::<ParserState, ParseFailure>::Running(m@),
                machine_wf(m@, n as nat),
            decreases events@.len() - i,
        {
            proof {
                assert(evs.take(i + 1).drop_last() =~= evs.take(i as int));
                assert(evs.take(i + 1).last() == events@[i as int]@);
                lemma_step_wf(s, m@, events@[i as int]@);
                lemma_run_wf(s, evs.take(i + 1));
            }
            match apply_event(schema, &mut m, &events[i]) {
                Outcome::Continue => {},
                Outcome::Finished => {
                    proof {
                        lemma_run_settled(start(s), steps(s), evs, i + 1);
                    }
                    let r = Ok(m.columns);
                    assert(result_view(r) == parse_outcome(s, evs));
                    return r;
                },
                Outcome::Failed(e) => {
                    proof {
                        lemma_run_settled(start(s), steps(s), evs, i + 1);
                    }
                    return Err(e);
                },
            }
            i = i + 1;
        }
        assert(evs.take(i as int) =~= evs);
        proof {
            lemma_step_wf(s, m@, DocumentEventView::EndDocument);
        }
        match apply_event(schema, &mut m, &DocumentEvent::EndDocument) {
            Outcome::Finished => {
                let r = Ok(m.columns);
                assert(result_view(r) == parse_outcome(s, evs));
                r
            },
            Outcome::Failed(e) => Err(e),
            Outcome::Continue => {
                proof {
                    assert(false);
                }
                Err(
                    ParseError::UnexpectedEvent {
                        event: DocumentEvent::EndDocument,
                        state: m.state,
                    },
                )
            },
        }
    }

    /// Creates an xml-rs reader over the document's bytes that trims
    /// whitespace and skips comments.
    pub fn create_reader<'a>(input: &'a [u8]) -> (r: DocumentReader<'a>)
        ensures
            r.source() == input@,
            r.trims_whitespace(),
            r.ignores_comments(),
    {
        DocumentReader { input, trim_whitespace: true, ignore_comments: true }
    }

    /// Parses an XML document into one column of optional strings per
    /// field of the schema: each record element adds one cell to every
    /// column, the text of that field or `None` where the record gave it no
    /// text. The document is read with xml-rs, trimming whitespace and
    /// passing over comments.
    pub fn parse(schema: &Schema, input: &[u8]) -> (r: Result<Vec<Vec<Option<String>>>, ParseError>)
        ensures
            result_view(r) == parse_outcome(schema@, xml_rs_events(input@, true, true)),
            r matches Ok(c) ==> columns_wf(columns_view(c@), schema@.fields.len()),
    {
        let reader = XmlParser::create_reader(input);
        let events = reader.events();
        XmlParser::parse_events(schema, &events)
    }
}

// ---------------------------------------------------------------------------
// Outside calls
// ---------------------------------------------------------------------------

/// The events that xml-rs's `Events` iterator delivers for a document, read
/// with a `ParserConfig` whose `trim_whitespace` and `ignore_comments` are
/// set as given: up to and including the end of the document or the first
/// failure (with `Display` of the failure).
pub uninterp spec fn xml_rs_events(
    input: Seq<u8>,
    trim_whitespace: bool,
    ignore_comments: bool,
) -> Seq<DocumentEventView>;

/// Converts one event of xml-rs into a `DocumentEvent`, variant by variant:
/// the local names of elements, the texts, and the target of a processing
/// instruction.
#[verifier::external_body]
fn document_event_of(event: XmlEvent) -> DocumentEvent {
    match event {
        XmlEvent::StartDocument { .. } => DocumentEvent::StartDocument,
        XmlEvent::EndDocument => DocumentEvent::EndDocument,
        XmlEvent::StartElement { name, .. } => DocumentEvent::StartElement(name.local_name),
        XmlEvent::EndElement { name } => DocumentEvent::EndElement(name.local_name),
        XmlEvent::Characters(text) => DocumentEvent::Characters(text),
        XmlEvent::Whitespace(text) => DocumentEvent::Whitespace(text),
        XmlEvent::Comment(text) => DocumentEvent::Comment(text),
        XmlEvent::CData(text) => DocumentEvent::CData(text),
        XmlEvent::Doctype { syntax } => DocumentEvent::Doctype(syntax),
        XmlEvent::ProcessingInstruction { name, .. } => DocumentEvent::ProcessingInstruction(name),
    }
}

/// Reads a document with xml-rs: `ParserConfig::new()` with
/// `trim_whitespace` and `ignore_comments` set, `create_reader`, then the
/// reader's `Events` iterator to its end (which comes after the end of the
/// document or the first failure, taken as `Display` of the failure).
/// Claims that the events are `xml_rs_events` of the arguments.
#[verifier::external_body]
fn read_xml_rs_events(input: &[u8], trim_whitespace: bool, ignore_comments: bool) -> (r: Vec<
    DocumentEvent,
>)
    ensures
        events_view(r@) == xml_rs_events(input@, trim_whitespace, ignore_comments),
{
    let config = ParserConfig::new().trim_whitespace(trim_whitespace);
    let reader = config.ignore_comments(ignore_comments).create_reader(input);
    reader.into_iter().map(|item| match item {
        Ok(event) => document_event_of(event),
        Err(e) => DocumentEvent::Failed(format!("{}", e)),
    }).collect()
}

} // verus!
