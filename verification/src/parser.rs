//! The record parser: a state machine over the events of an XML document
//! that collects, for every record element, the text of each field element.
//!
//! A document has the shape
//! `<root><element><field>text</field>...</element>...</root>`; each record
//! adds one cell to every column, `None` where its field held no text.

use vstd::prelude::*;
use vstd::utf8::*;
use quick_xml::events::Event;
use quick_xml::reader::Reader;
use quick_xml::escape::EscapeError;

use crate::schema::{FieldView, Schema, SchemaView, option_view};

verus! {

#[verifier::external_type_specification]
#[verifier::external_body]
pub struct ExQuickXmlEvent<'a>(Event<'a>);

#[verifier::external_type_specification]
#[verifier::external_body]
pub struct ExQuickXmlEscapeError(EscapeError);

// ---------------------------------------------------------------------------
// Events
// ---------------------------------------------------------------------------

/// One event of an XML document, as the record parser reads it: the raw
/// bytes of tag names and text, and a failure of the XML reader.
#[derive(Debug)]
pub enum ReaderEvent {
    /// A start tag, with its qualified name.
    Start(Vec<u8>),
    /// An end tag, with its qualified name.
    End(Vec<u8>),
    /// Escaped character data between tags.
    Text(Vec<u8>),
    /// The content of a `<![CDATA[...]]>` section.
    CData(Vec<u8>),
    /// An empty element tag `<name/>`, with its qualified name.
    Empty(Vec<u8>),
    /// A comment.
    Comment,
    /// The XML declaration.
    Decl,
    /// A processing instruction.
    PI,
    /// The document type definition.
    DocType,
    /// The end of the document.
    Eof,
    /// The XML reader failed; the text describes the failure.
    Failed(String),
}

/// The plain value of an event.
pub enum ReaderEventView {
    Start(Seq<u8>),
    End(Seq<u8>),
    Text(Seq<u8>),
    CData(Seq<u8>),
    Empty(Seq<u8>),
    Comment,
    Decl,
    PI,
    DocType,
    Eof,
    Failed(Seq<char>),
}

impl View for ReaderEvent {
    type V = ReaderEventView;

    open spec fn view(&self) -> ReaderEventView {
        match self {
            ReaderEvent::Start(b) => ReaderEventView::Start(b@),
            ReaderEvent::End(b) => ReaderEventView::End(b@),
            ReaderEvent::Text(b) => ReaderEventView::Text(b@),
            ReaderEvent::CData(b) => ReaderEventView::CData(b@),
            ReaderEvent::Empty(b) => ReaderEventView::Empty(b@),
            ReaderEvent::Comment => ReaderEventView::Comment,
            ReaderEvent::Decl => ReaderEventView::Decl,
            ReaderEvent::PI => ReaderEventView::PI,
            ReaderEvent::DocType => ReaderEventView::DocType,
            ReaderEvent::Eof => ReaderEventView::Eof,
            ReaderEvent::Failed(m) => ReaderEventView::Failed(m@),
        }
    }
}

pub open spec fn events_view(events: Seq<ReaderEvent>) -> Seq<ReaderEventView> {
    events.map_values(|e: ReaderEvent| e@)
}

// ---------------------------------------------------------------------------
// States and errors
// ---------------------------------------------------------------------------

/// Represents the different states of the XML parser state machine
#[derive(Clone, Copy, Debug, PartialEq, Eq, Structural)]
pub enum ParserState {
    /// Initial state - expecting document start
    StartDocument,
    /// Expecting either a new element or the end of root
    StartElementOrEndRoot,
    /// Expecting either an attribute start or element end
    StartAttrOrEndElement,
    /// Reading attribute content or expecting attribute end
    AttrCdataOrEndAttr(usize),
    /// Parsing complete
    Done,
}

/// Why a document was refused.
#[derive(Debug)]
pub enum ParseError {
    /// A tag name is not valid UTF-8.
    InvalidElementName,
    /// The document does not start with the schema's root element.
    UnexpectedRoot { expected: String, found: String },
    /// A child of the root is not the schema's record element.
    UnknownElement { name: String },
    /// A child of a record is not one of the schema's fields.
    UnknownAttribute { name: String },
    /// A start tag where none may stand.
    UnexpectedStart { name: String, state: ParserState },
    /// A record element is closed by a tag of another name.
    UnexpectedClose { expected: String, found: String },
    /// The root element is closed by a tag of another name.
    UnexpectedRootClose { expected: String, found: String },
    /// An end tag where none may stand.
    UnexpectedEnd { name: String, state: ParserState },
    /// The text of a field is not valid UTF-8 or holds a malformed escape.
    InvalidText { message: String },
    /// The CDATA content of a field is not valid UTF-8.
    InvalidCData,
    /// The document ended before the root element was closed.
    UnexpectedEof { state: ParserState },
    /// The XML reader refused the document.
    Xml { state: ParserState, message: String },
}

/// The plain value of a parse error (the description of a malformed escape
/// left out).
pub enum ParseFailure {
    InvalidElementName,
    UnexpectedRoot { expected: Seq<char>, found: Seq<char> },
    UnknownElement { name: Seq<char> },
    UnknownAttribute { name: Seq<char> },
    UnexpectedStart { name: Seq<char>, state: ParserState },
    UnexpectedClose { expected: Seq<char>, found: Seq<char> },
    UnexpectedRootClose { expected: Seq<char>, found: Seq<char> },
    UnexpectedEnd { name: Seq<char>, state: ParserState },
    InvalidText,
    InvalidCData,
    UnexpectedEof { state: ParserState },
    Xml { state: ParserState, message: Seq<char> },
}

impl View for ParseError {
    type V = ParseFailure;

    open spec fn view(&self) -> ParseFailure {
        match self {
            ParseError::InvalidElementName => ParseFailure::InvalidElementName,
            ParseError::UnexpectedRoot { expected, found } => ParseFailure::UnexpectedRoot {
                expected: expected@,
                found: found@,
            },
            ParseError::UnknownElement { name } => ParseFailure::UnknownElement { name: name@ },
            ParseError::UnknownAttribute { name } => ParseFailure::UnknownAttribute {
                name: name@,
            },
            ParseError::UnexpectedStart { name, state } => ParseFailure::UnexpectedStart {
                name: name@,
                state: *state,
            },
            ParseError::UnexpectedClose { expected, found } => ParseFailure::UnexpectedClose {
                expected: expected@,
                found: found@,
            },
            ParseError::UnexpectedRootClose { expected, found } =>
                ParseFailure::UnexpectedRootClose { expected: expected@, found: found@ },
            ParseError::UnexpectedEnd { name, state } => ParseFailure::UnexpectedEnd {
                name: name@,
                state: *state,
            },
            ParseError::InvalidText { .. } => ParseFailure::InvalidText,
            ParseError::InvalidCData => ParseFailure::InvalidCData,
            ParseError::UnexpectedEof { state } => ParseFailure::UnexpectedEof { state: *state },
            ParseError::Xml { state, message } => ParseFailure::Xml {
                state: *state,
                message: message@,
            },
        }
    }
}

// ---------------------------------------------------------------------------
// The model of the state machine
// ---------------------------------------------------------------------------

/// A column: one optional cell per record.
pub type ColumnView = Seq<Option<Seq<char>>>;

/// The state of a parse: where it stands in the document, the text gathered
/// so far for each field of the open record, and the finished columns.
#[verifier::ext_equal]
pub struct MachineView<S> {
    pub state: S,
    pub current: Seq<Seq<char>>,
    pub columns: Seq<ColumnView>,
}

/// Where a parse stands after some events: running in some state, finished
/// with its columns, or failed.
pub enum Progress<S, F> {
    Running(MachineView<S>),
    Finished(Seq<ColumnView>),
    Failed(F),
}

/// The cell that a field's gathered text becomes.
pub open spec fn cell(text: Seq<char>) -> Option<Seq<char>> {
    if text.len() == 0 {
        None
    } else {
        Some(text)
    }
}

/// The state before the first event, for a schema of `n` fields.
pub open spec fn initial_machine<S>(state: S, n: nat) -> MachineView<S> {
    MachineView {
        state,
        current: Seq::new(n, |i: int| Seq::<char>::empty()),
        columns: Seq::new(n, |i: int| Seq::<Option<Seq<char>>>::empty()),
    }
}

/// Where a parse stands after the given events, from `start` and taking one
/// `step` per event; once it has finished or failed, later events change
/// nothing.
pub open spec fn run_steps<S, F, E>(
    start: MachineView<S>,
    step: spec_fn(MachineView<S>, E) -> Progress<S, F>,
    events: Seq<E>,
) -> Progress<S, F>
    decreases events.len(),
{
    if events.len() == 0 {
        Progress::Running(start)
    } else {
        match run_steps(start, step, events.drop_last()) {
            Progress::Running(m) => step(m, events.last()),
            done => done,
        }
    }
}

/// Once a parse has finished or failed, later events change nothing.
pub proof fn lemma_run_settled<S, F, E>(
    start: MachineView<S>,
    step: spec_fn(MachineView<S>, E) -> Progress<S, F>,
    events: Seq<E>,
    k: int,
)
    requires
        0 <= k <= events.len(),
        !(run_steps(start, step, events.take(k)) is Running),
    ensures
        run_steps(start, step, events) == run_steps(start, step, events.take(k)),
    decreases events.len() - k,
{
    if k < events.len() {
        assert(events.take(k + 1).drop_last() =~= events.take(k));
        lemma_run_settled(start, step, events, k + 1);
    } else {
        assert(events.take(k) =~= events);
    }
}

/// Every step from a state with `inv` leads to a state with `inv`, or to
/// columns with `done`.
pub open spec fn steps_keep<S, F, E>(
    step: spec_fn(MachineView<S>, E) -> Progress<S, F>,
    inv: spec_fn(MachineView<S>) -> bool,
    done: spec_fn(Seq<ColumnView>) -> bool,
) -> bool {
    forall|m: MachineView<S>, e: E|
        inv(m) ==> match #[trigger] step(m, e) {
            Progress::Running(m2) => inv(m2),
            Progress::Finished(c) => done(c),
            Progress::Failed(_) => true,
        }
}

/// A property that the start has and every step keeps holds of every
/// running parse, and `done` of the columns of a finished one.
pub proof fn lemma_steps_keep<S, F, E>(
    start: MachineView<S>,
    step: spec_fn(MachineView<S>, E) -> Progress<S, F>,
    inv: spec_fn(MachineView<S>) -> bool,
    done: spec_fn(Seq<ColumnView>) -> bool,
    events: Seq<E>,
)
    requires
        inv(start),
        steps_keep(step, inv, done),
    ensures
        match run_steps(start, step, events) {
            Progress::Running(m) => inv(m),
            Progress::Finished(c) => done(c),
            Progress::Failed(_) => true,
        },
    decreases events.len(),
{
    if events.len() > 0 {
        lemma_steps_keep(start, step, inv, done, events.drop_last());
        if let Progress::Running(m) = run_steps(start, step, events.drop_last()) {
            let _ = step(m, events.last());
        }
    }
}

/// The number of events that `closes` counts before the parse finishes or
/// fails.
pub open spec fn steps_counted<S, F, E>(
    start: MachineView<S>,
    step: spec_fn(MachineView<S>, E) -> Progress<S, F>,
    closes: spec_fn(MachineView<S>, E) -> bool,
    events: Seq<E>,
) -> nat
    decreases events.len(),
{
    if events.len() == 0 {
        0
    } else {
        let before = steps_counted(start, step, closes, events.drop_last());
        match run_steps(start, step, events.drop_last()) {
            Progress::Running(m) => if closes(m, events.last()) {
                before + 1
            } else {
                before
            },
            _ => before,
        }
    }
}

/// Every step from a state with `inv` adds one cell to each of the first
/// `n` columns where `closes` counts it and none elsewhere, and a step that
/// finishes the parse is not counted and gives the columns it had.
pub open spec fn steps_add_cells<S, F, E>(
    step: spec_fn(MachineView<S>, E) -> Progress<S, F>,
    closes: spec_fn(MachineView<S>, E) -> bool,
    inv: spec_fn(MachineView<S>) -> bool,
    n: nat,
) -> bool {
    forall|m: MachineView<S>, e: E|
        inv(m) ==> match #[trigger] step(m, e) {
            Progress::Running(m2) => forall|i: int|
                0 <= i < n ==> #[trigger] m2.columns[i].len() == m.columns[i].len() + if closes(
                    m,
                    e,
                ) {
                    1int
                } else {
                    0int
                },
            Progress::Finished(c) => c == m.columns && !closes(m, e),
            Progress::Failed(_) => true,
        }
}

/// Where the parse starts with empty columns, every column of a running or
/// finished parse has one cell per counted event.
pub proof fn lemma_steps_counted<S, F, E>(
    start: MachineView<S>,
    step: spec_fn(MachineView<S>, E) -> Progress<S, F>,
    closes: spec_fn(MachineView<S>, E) -> bool,
    inv: spec_fn(MachineView<S>) -> bool,
    done: spec_fn(Seq<ColumnView>) -> bool,
    n: nat,
    events: Seq<E>,
)
    requires
        inv(start),
        forall|i: int| 0 <= i < n ==> #[trigger] start.columns[i].len() == 0,
        steps_keep(step, inv, done),
        steps_add_cells(step, closes, inv, n),
    ensures
        match run_steps(start, step, events) {
            Progress::Running(m) => forall|i: int|
                0 <= i < n ==> #[trigger] m.columns[i].len() == steps_counted(
                    start,
                    step,
                    closes,
                    events,
                ),
            Progress::Finished(c) => forall|i: int|
                0 <= i < n ==> #[trigger] c[i].len() == steps_counted(start, step, closes, events),
            Progress::Failed(_) => true,
        },
    decreases events.len(),
{
    if events.len() > 0 {
        let prev = events.drop_last();
        lemma_steps_counted(start, step, closes, inv, done, n, prev);
        lemma_steps_keep(start, step, inv, done, prev);
        if let Progress::Running(m) = run_steps(start, step, prev) {
            let _ = step(m, events.last());
        }
    }
}

/// The column of the field named `name`; where several fields share the
/// name, the last of them.
pub open spec fn field_index(fields: Seq<FieldView>, name: Seq<char>) -> Option<usize>
    decreases fields.len(),
{
    if fields.len() == 0 {
        None
    } else if fields.last().name == name {
        Some((fields.len() - 1) as usize)
    } else {
        field_index(fields.drop_last(), name)
    }
}

/// Closing a record: every column gets the cell of its field's gathered
/// text, and the gathered text is cleared.
pub open spec fn flush<S>(m: MachineView<S>) -> MachineView<S> {
    MachineView {
        state: m.state,
        current: Seq::new(m.current.len(), |i: int| Seq::<char>::empty()),
        columns: Seq::new(
            m.columns.len(),
            |i: int|
                if i < m.current.len() {
                    m.columns[i].push(cell(m.current[i]))
                } else {
                    m.columns[i]
                },
        ),
    }
}

pub open spec fn with_state<S>(m: MachineView<S>, state: S) -> MachineView<S> {
    MachineView { state, ..m }
}

/// Appending `text` to the gathered text of field `i`.
pub open spec fn gather<S>(m: MachineView<S>, i: int, text: Seq<char>) -> MachineView<S> {
    MachineView { current: m.current.update(i, m.current[i] + text), ..m }
}

/// The end of the document.
pub open spec fn end_of_document(m: MachineView<ParserState>) -> Progress<ParserState, ParseFailure> {
    if m.state == ParserState::Done {
        Progress::Finished(m.columns)
    } else {
        Progress::Failed(ParseFailure::UnexpectedEof { state: m.state })
    }
}

/// What a start tag named `name` does.
pub open spec fn start_tag(s: SchemaView, m: MachineView<ParserState>, name: Seq<char>) -> Progress<ParserState, ParseFailure> {
    match m.state {
        ParserState::StartDocument => if s.root == name {
            Progress::Running(with_state(m, ParserState::StartElementOrEndRoot))
        } else {
            Progress::Failed(ParseFailure::UnexpectedRoot { expected: s.root, found: name })
        },
        ParserState::StartElementOrEndRoot => if s.element != name {
            Progress::Failed(ParseFailure::UnknownElement { name })
        } else {
            Progress::Running(with_state(m, ParserState::StartAttrOrEndElement))
        },
        ParserState::StartAttrOrEndElement => match field_index(s.fields, name) {
            Some(i) => Progress::Running(with_state(m, ParserState::AttrCdataOrEndAttr(i))),
            None => Progress::Failed(ParseFailure::UnknownAttribute { name }),
        },
        _ => Progress::Failed(ParseFailure::UnexpectedStart { name, state: m.state }),
    }
}

/// What an end tag named `name` does.
pub open spec fn end_tag(s: SchemaView, m: MachineView<ParserState>, name: Seq<char>) -> Progress<ParserState, ParseFailure> {
    match m.state {
        ParserState::AttrCdataOrEndAttr(_) => Progress::Running(
            with_state(m, ParserState::StartAttrOrEndElement),
        ),
        ParserState::StartAttrOrEndElement => if s.element != name {
            Progress::Failed(ParseFailure::UnexpectedClose { expected: s.element, found: name })
        } else {
            Progress::Running(with_state(flush(m), ParserState::StartElementOrEndRoot))
        },
        ParserState::StartElementOrEndRoot => if s.root != name {
            Progress::Failed(ParseFailure::UnexpectedRootClose { expected: s.root, found: name })
        } else {
            Progress::Running(with_state(m, ParserState::Done))
        },
        _ => Progress::Failed(ParseFailure::UnexpectedEnd { name, state: m.state }),
    }
}

/// One step of the state machine.
pub open spec fn step(s: SchemaView, m: MachineView<ParserState>, e: ReaderEventView) -> Progress<ParserState, ParseFailure> {
    match e {
        ReaderEventView::Start(b) => if !valid_utf8(b) {
            Progress::Failed(ParseFailure::InvalidElementName)
        } else {
            start_tag(s, m, decode_utf8(b))
        },
        ReaderEventView::End(b) => if !valid_utf8(b) {
            Progress::Failed(ParseFailure::InvalidElementName)
        } else {
            end_tag(s, m, decode_utf8(b))
        },
        ReaderEventView::Text(b) => match m.state {
            ParserState::AttrCdataOrEndAttr(i) => if !valid_utf8(b) {
                Progress::Failed(ParseFailure::InvalidText)
            } else {
                match unescaped(decode_utf8(b)) {
                    Some(t) => Progress::Running(gather(m, i as int, t)),
                    None => Progress::Failed(ParseFailure::InvalidText),
                }
            },
            _ => Progress::Running(m),
        },
        ReaderEventView::CData(b) => match m.state {
            ParserState::AttrCdataOrEndAttr(i) => if !valid_utf8(b) {
                Progress::Failed(ParseFailure::InvalidCData)
            } else {
                Progress::Running(gather(m, i as int, decode_utf8(b)))
            },
            _ => Progress::Running(m),
        },
        ReaderEventView::Empty(_) => Progress::Running(m),
        ReaderEventView::Comment => Progress::Running(m),
        ReaderEventView::Decl => Progress::Running(m),
        ReaderEventView::PI => Progress::Running(m),
        ReaderEventView::DocType => Progress::Running(m),
        ReaderEventView::Eof => end_of_document(m),
        ReaderEventView::Failed(message) => Progress::Failed(
            ParseFailure::Xml { state: m.state, message },
        ),
    }
}

/// The state before the first event of a document.
pub open spec fn start(s: SchemaView) -> MachineView<ParserState> {
    initial_machine(ParserState::StartDocument, s.fields.len())
}

/// The step function of the state machine for a schema.
pub open spec fn steps(s: SchemaView) -> spec_fn(MachineView<ParserState>, ReaderEventView) -> Progress<
    ParserState,
    ParseFailure,
> {
    |m: MachineView<ParserState>, e: ReaderEventView| step(s, m, e)
}

/// Where a parse stands after the given events; once it has finished or
/// failed, later events change nothing.
pub open spec fn run(s: SchemaView, events: Seq<ReaderEventView>) -> Progress<ParserState, ParseFailure> {
    run_steps(start(s), steps(s), events)
}

/// The result of parsing a document that consists of the given events; an
/// event sequence without an end of document ends as if it had one.
pub open spec fn parse_outcome(s: SchemaView, events: Seq<ReaderEventView>) -> Result<
    Seq<ColumnView>,
    ParseFailure,
> {
    match run(s, events) {
        Progress::Running(m) => match end_of_document(m) {
            Progress::Finished(c) => Ok(c),
            Progress::Failed(f) => Err(f),
            Progress::Running(_) => Err(ParseFailure::UnexpectedEof { state: m.state }),
        },
        Progress::Finished(c) => Ok(c),
        Progress::Failed(f) => Err(f),
    }
}

pub open spec fn column_view(c: Vec<Option<String>>) -> ColumnView {
    c@.map_values(|o: Option<String>| option_view(o))
}

pub open spec fn columns_view(cs: Seq<Vec<Option<String>>>) -> Seq<ColumnView> {
    cs.map_values(|c: Vec<Option<String>>| column_view(c))
}

pub open spec fn result_view(r: Result<Vec<Vec<Option<String>>>, ParseError>) -> Result<
    Seq<ColumnView>,
    ParseFailure,
> {
    match r {
        Ok(c) => Ok(columns_view(c@)),
        Err(e) => Err(e@),
    }
}

// ---------------------------------------------------------------------------
// Outside calls
// ---------------------------------------------------------------------------

/// What `quick_xml::escape::unescape` makes of a text: the text with its
/// character and predefined entity references replaced, or `None` where it
/// refuses the text.
pub uninterp spec fn xml_unescape(raw: Seq<char>) -> Option<Seq<char>>;

/// A text with its references replaced: unchanged where it holds no `&`,
/// else what `quick_xml::escape::unescape` makes of it.
pub open spec fn unescaped(raw: Seq<char>) -> Option<Seq<char>> {
    if raw.contains('&') {
        xml_unescape(raw)
    } else {
        Some(raw)
    }
}

/// Calls `quick_xml::escape::unescape`. Claims that it succeeds exactly
/// where `xml_unescape` gives a text and then returns that text, and (as its
/// source shows: it only rewrites `&...;` references) that a text without
/// `&` comes back unchanged.
#[verifier::external_body]
fn unescape_text(raw: &str) -> (r: Result<String, EscapeError>)
    ensures
        match r {
            Ok(t) => xml_unescape(raw@) == Some(t@) && (!raw@.contains('&') ==> t@ == raw@),
            Err(_) => xml_unescape(raw@) is None && raw@.contains('&'),
        },
{
    match quick_xml::escape::unescape(raw) {
        Ok(text) => Ok(text.into_owned()),
        Err(e) => Err(e),
    }
}

/// Calls `Display` of `quick_xml::escape::EscapeError`; nothing is claimed
/// of the text.
#[verifier::external_body]
fn escape_error_text(e: &EscapeError) -> String {
    format!("{}", e)
}

/// Calls `std::str::from_utf8`. Claims, as std documents, that it succeeds
/// exactly on valid UTF-8 and then gives the characters the bytes encode.
#[verifier::external_body]
fn utf8_str(bytes: &[u8]) -> (r: Option<&str>)
    ensures
        r is Some <==> valid_utf8(bytes@),
        r matches Some(s) ==> s@ == decode_utf8(bytes@),
{
    std::str::from_utf8(bytes).ok()
}

/// Calls `String::clear`. Claims, as std documents, that the string is
/// left empty (its buffer is kept).
#[verifier::external_body]
fn clear_string(s: &mut String)
    ensures
        final(s)@ == Seq::<char>::empty(),
{
    s.clear();
}

/// The events that `quick_xml`'s slice reader delivers for a document, read
/// with text trimming set to `trim_text`, up to and including the first
/// end of document or the first failure (with `Display` of the failure).
pub uninterp spec fn quick_xml_events(input: Seq<u8>, trim_text: bool) -> Seq<ReaderEventView>;

/// Converts one event of `quick_xml::reader::Reader::read_event` into a
/// `ReaderEvent`, variant by variant: the raw names of tags and the raw
/// bytes of text and CDATA.
#[verifier::external_body]
fn xml_event_of(event: Event) -> ReaderEvent {
    match event {
        Event::Start(e) => ReaderEvent::Start(e.name().0.to_vec()),
        Event::End(e) => ReaderEvent::End(e.name().0.to_vec()),
        Event::Empty(e) => ReaderEvent::Empty(e.name().0.to_vec()),
        Event::Text(e) => ReaderEvent::Text(e.to_vec()),
        Event::CData(e) => ReaderEvent::CData(e.to_vec()),
        Event::Comment(_) => ReaderEvent::Comment,
        Event::Decl(_) => ReaderEvent::Decl,
        Event::PI(_) => ReaderEvent::PI,
        Event::DocType(_) => ReaderEvent::DocType,
        Event::Eof => ReaderEvent::Eof,
    }
}

/// Reads a document with `quick_xml`: a slice reader from
/// `Reader::from_reader`, `Config::trim_text(trim_text)`, then
/// `Reader::read_event` until the end of the document or a failure (taken
/// as `Display` of the failure). Claims that the events are
/// `quick_xml_events` of the arguments.
#[verifier::external_body]
fn read_quick_xml_events(input: &[u8], trim_text: bool) -> (r: Vec<ReaderEvent>)
    ensures
        events_view(r@) == quick_xml_events(input@, trim_text),
{
    let mut reader = Reader::from_reader(input);
    reader.config_mut().trim_text(trim_text);
    let mut events = Vec::new();
    loop {
        let event = reader.read_event();
        let last = matches!(event, Ok(Event::Eof) | Err(_));
        events.push(match event {
            Ok(event) => xml_event_of(event),
            Err(e) => ReaderEvent::Failed(format!("{}", e)),
        });
        if last {
            return events;
        }
    }
}

// ---------------------------------------------------------------------------
// The state machine
// ---------------------------------------------------------------------------

/// The invariant of a running parse over a schema of `n` fields: one
/// gathered text and one column per field, all columns of one length, no
/// empty cell text, and an open field that exists.
pub open spec fn machine_wf(m: MachineView<ParserState>, n: nat) -> bool {
    &&& m.current.len() == n
    &&& columns_wf(m.columns, n)
    &&& (m.state matches ParserState::AttrCdataOrEndAttr(i) ==> i < n)
}

/// Columns that a finished parse may give: one column per field, all of
/// one length, and no cell that holds an empty text.
pub open spec fn columns_wf(c: Seq<ColumnView>, n: nat) -> bool {
    &&& c.len() == n
    &&& forall|i: int, j: int|
        0 <= i < n && 0 <= j < n ==> #[trigger] c[i].len() == #[trigger] c[j].len()
    &&& forall|i: int, k: int|
        0 <= i < n && 0 <= k < c[i].len() ==> (#[trigger] c[i][k] matches Some(v) ==> v.len() > 0)
}

/// Closing a record keeps the columns well formed: every column gets one
/// cell, and an empty gathered text gives an absent cell.
pub proof fn lemma_flush_wf<S>(m: MachineView<S>, n: nat)
    requires
        m.current.len() == n,
        columns_wf(m.columns, n),
    ensures
        flush(m).current.len() == n,
        columns_wf(flush(m).columns, n),
{
    let m2 = flush(m);
    assert forall|i: int, j: int| 0 <= i < n && 0 <= j < n implies #[trigger] m2.columns[i].len()
        == #[trigger] m2.columns[j].len() by {
        assert(m.columns[i].len() == m.columns[j].len());
    }
    assert forall|i: int, k: int|
        0 <= i < n && 0 <= k < m2.columns[i].len() implies (#[trigger] m2.columns[i][k] matches Some(
        v,
    ) ==> v.len() > 0) by {
        if k < m.columns[i].len() {
            assert(m2.columns[i][k] == m.columns[i][k]);
        }
    }
}

proof fn lemma_field_index_bound(fields: Seq<FieldView>, name: Seq<char>)
    requires
        fields.len() <= usize::MAX,
    ensures
        field_index(fields, name) matches Some(i) ==> i < fields.len() && fields[i as int].name
            == name,
    decreases fields.len(),
{
    if fields.len() > 0 {
        lemma_field_index_bound(fields.drop_last(), name);
        if let Some(i) = field_index(fields.drop_last(), name) {
            assert(fields.drop_last()[i as int] == fields[i as int]);
        }
    }
}

proof fn lemma_step_wf(s: SchemaView, m: MachineView<ParserState>, e: ReaderEventView)
    requires
        s.fields.len() <= usize::MAX,
        machine_wf(m, s.fields.len()),
    ensures
        step(s, m, e) matches Progress::Running(m2) ==> machine_wf(m2, s.fields.len()),
        step(s, m, e) matches Progress::Finished(c) ==> columns_wf(c, s.fields.len()),
{
    let n = s.fields.len();
    match e {
        ReaderEventView::Start(b) => {
            if valid_utf8(b) {
                lemma_field_index_bound(s.fields, decode_utf8(b));
            }
        },
        ReaderEventView::End(b) => {
            if valid_utf8(b) && m.state == ParserState::StartAttrOrEndElement && s.element
                == decode_utf8(b) {
                lemma_flush_wf(m, n);
            }
        },
        _ => {},
    }
}

/// Every running parse keeps the invariant.
proof fn lemma_run_wf(s: SchemaView, events: Seq<ReaderEventView>)
    requires
        s.fields.len() <= usize::MAX,
    ensures
        run(s, events) matches Progress::Running(m) ==> machine_wf(m, s.fields.len()),
        run(s, events) matches Progress::Finished(c) ==> columns_wf(c, s.fields.len()),
{
    lemma_steps_wf(s);
    lemma_steps_keep(start(s), steps(s), wf(s), done(s), events);
}

/// The invariant of a running parse, for a schema.
pub open spec fn wf(s: SchemaView) -> spec_fn(MachineView<ParserState>) -> bool {
    |m: MachineView<ParserState>| machine_wf(m, s.fields.len())
}

/// What the columns of a finished parse are, for a schema.
pub open spec fn done(s: SchemaView) -> spec_fn(Seq<ColumnView>) -> bool {
    |c: Seq<ColumnView>| columns_wf(c, s.fields.len())
}

proof fn lemma_steps_wf(s: SchemaView)
    requires
        s.fields.len() <= usize::MAX,
    ensures
        wf(s)(start(s)),
        steps_keep(steps(s), wf(s), done(s)),
{
    assert forall|m: MachineView<ParserState>, e: ReaderEventView| wf(s)(m) implies match #[trigger] steps(
        s,
    )(m, e) {
        Progress::Running(m2) => wf(s)(m2),
        Progress::Finished(c) => done(s)(c),
        Progress::Failed(_) => true,
    } by {
        lemma_step_wf(s, m, e);
    }
}

/// A successful parse gives one column per field of the schema, all columns
/// of the same length (one cell per record), and a cell is present only
/// where the field's text was not empty.
pub proof fn lemma_parse_columns_rectangular(s: SchemaView, events: Seq<ReaderEventView>)
    requires
        s.fields.len() <= usize::MAX,
    ensures
        parse_outcome(s, events) matches Ok(c) ==> columns_wf(c, s.fields.len()),
{
    lemma_run_wf(s, events);
}

/// The event closes a record: an end tag of the record element while a
/// record is open and no field is.
pub open spec fn closes_record(s: SchemaView, m: MachineView<ParserState>, e: ReaderEventView) -> bool {
    &&& m.state == ParserState::StartAttrOrEndElement
    &&& e matches ReaderEventView::End(b)
    &&& valid_utf8(b)
    &&& decode_utf8(b) == s.element
}

/// The events that close a record, for a schema.
pub open spec fn closes(s: SchemaView) -> spec_fn(MachineView<ParserState>, ReaderEventView) -> bool {
    |m: MachineView<ParserState>, e: ReaderEventView| closes_record(s, m, e)
}

/// The number of records that the given events close before the parse
/// finishes or fails.
pub open spec fn records_closed(s: SchemaView, events: Seq<ReaderEventView>) -> nat {
    steps_counted(start(s), steps(s), closes(s), events)
}

proof fn lemma_step_counts(s: SchemaView, m: MachineView<ParserState>, e: ReaderEventView)
    requires
        s.fields.len() <= usize::MAX,
        machine_wf(m, s.fields.len()),
    ensures
        step(s, m, e) matches Progress::Running(m2) ==> forall|i: int|
            0 <= i < s.fields.len() ==> #[trigger] m2.columns[i].len() == m.columns[i].len() + if closes_record(
                s,
                m,
                e,
            ) {
                1int
            } else {
                0int
            },
        step(s, m, e) matches Progress::Finished(c) ==> c == m.columns && !closes_record(s, m, e),
{
}

proof fn lemma_records_counted(s: SchemaView, events: Seq<ReaderEventView>)
    requires
        s.fields.len() <= usize::MAX,
    ensures
        run(s, events) matches Progress::Running(m) ==> forall|i: int|
            0 <= i < s.fields.len() ==> #[trigger] m.columns[i].len() == records_closed(s, events),
        run(s, events) matches Progress::Finished(c) ==> forall|i: int|
            0 <= i < s.fields.len() ==> #[trigger] c[i].len() == records_closed(s, events),
{
    let n = s.fields.len();
    lemma_steps_wf(s);
    assert forall|m: MachineView<ParserState>, e: ReaderEventView| wf(s)(m) implies match #[trigger] steps(
        s,
    )(m, e) {
        Progress::Running(m2) => forall|i: int|
            0 <= i < n ==> #[trigger] m2.columns[i].len() == m.columns[i].len() + if closes(s)(m, e) {
                1int
            } else {
                0int
            },
        Progress::Finished(c) => c == m.columns && !closes(s)(m, e),
        Progress::Failed(_) => true,
    } by {
        lemma_step_counts(s, m, e);
    }
    assert(steps_add_cells(steps(s), closes(s), wf(s), n));
    lemma_steps_counted(start(s), steps(s), closes(s), wf(s), done(s), n, events);
}

/// A successful parse gives every column one cell per record that the
/// document closed.
pub proof fn lemma_parse_one_cell_per_record(s: SchemaView, events: Seq<ReaderEventView>)
    requires
        s.fields.len() <= usize::MAX,
    ensures
        parse_outcome(s, events) matches Ok(c) ==> forall|i: int|
            0 <= i < s.fields.len() ==> #[trigger] c[i].len() == records_closed(s, events),
{
    lemma_records_counted(s, events);
}

/// Where a parse stands after one more event.
proof fn lemma_run_push(s: SchemaView, events: Seq<ReaderEventView>, e: ReaderEventView)
    ensures
        run(s, events.push(e)) == match run(s, events) {
            Progress::Running(m) => step(s, m, e),
            done => done,
        },
{
    assert(events.push(e).drop_last() =~= events);
    assert(events.push(e).last() == e);
}

/// The field that a name selects is the last field of that name.
proof fn lemma_field_index_at(fields: Seq<FieldView>, name: Seq<char>, i: int)
    requires
        0 <= i < fields.len() <= usize::MAX,
        fields[i].name == name,
        forall|k: int| i < k < fields.len() ==> (#[trigger] fields[k]).name != name,
    ensures
        field_index(fields, name) == Some(i as usize),
    decreases fields.len(),
{
    if i < fields.len() - 1 {
        let p = fields.drop_last();
        assert forall|k: int| i < k < p.len() implies (#[trigger] p[k]).name != name by {
            assert(p[k] == fields[k]);
        }
        assert(fields.last() == fields[fields.len() - 1]);
        lemma_field_index_at(p, name, i);
    }
}

/// A document of one record in which one field holds a text followed by a
/// CDATA section parses to one row: the column of that field (the last field
/// of its name) holds the text, decoded and with its references replaced
/// (unchanged, character for character, where it has none), followed by the
/// CDATA content (`None` where both are empty), and every other column holds
/// `None`.
pub proof fn lemma_one_record_field_text(
    s: SchemaView,
    root: Seq<u8>,
    element: Seq<u8>,
    field: Seq<u8>,
    text: Seq<u8>,
    cdata: Seq<u8>,
    i: int,
)
    requires
        s.fields.len() <= usize::MAX,
        valid_utf8(root) && decode_utf8(root) == s.root,
        valid_utf8(element) && decode_utf8(element) == s.element,
        valid_utf8(field),
        0 <= i < s.fields.len(),
        s.fields[i].name == decode_utf8(field),
        forall|k: int| i < k < s.fields.len() ==> (#[trigger] s.fields[k]).name != decode_utf8(field),
        valid_utf8(text),
        decode_utf8(text).contains('&') ==> xml_unescape(decode_utf8(text)) is Some,
        valid_utf8(cdata),
    ensures
        parse_outcome(
            s,
            seq![
                ReaderEventView::Start(root),
                ReaderEventView::Start(element),
                ReaderEventView::Start(field),
                ReaderEventView::Text(text),
                ReaderEventView::CData(cdata),
                ReaderEventView::End(field),
                ReaderEventView::End(element),
                ReaderEventView::End(root),
                ReaderEventView::Eof,
            ],
        ) == Ok::<Seq<ColumnView>, ParseFailure>(
            Seq::new(
                s.fields.len(),
                |k: int|
                    {
                        let d = decode_utf8(text);
                        let u = if d.contains('&') {
                            xml_unescape(d)->0
                        } else {
                            d
                        };
                        if k == i && (u + decode_utf8(cdata)).len() > 0 {
                            seq![Some(u + decode_utf8(cdata))]
                        } else {
                            seq![None]
                        }
                    },
            ),
        ),
{
    let n = s.fields.len();
    let d = decode_utf8(text);
    let u = if d.contains('&') {
        xml_unescape(d)->0
    } else {
        d
    };
    let t = u + decode_utf8(cdata);
    lemma_field_index_at(s.fields, decode_utf8(field), i);
    let e0 = Seq::<ReaderEventView>::empty();
    let e1 = e0.push(ReaderEventView::Start(root));
    let e2 = e1.push(ReaderEventView::Start(element));
    let e3 = e2.push(ReaderEventView::Start(field));
    let e4 = e3.push(ReaderEventView::Text(text));
    let e5 = e4.push(ReaderEventView::CData(cdata));
    let e6 = e5.push(ReaderEventView::End(field));
    let e7 = e6.push(ReaderEventView::End(element));
    let e8 = e7.push(ReaderEventView::End(root));
    let e9 = e8.push(ReaderEventView::Eof);
    assert(e9 =~= seq![
        ReaderEventView::Start(root),
        ReaderEventView::Start(element),
        ReaderEventView::Start(field),
        ReaderEventView::Text(text),
        ReaderEventView::CData(cdata),
        ReaderEventView::End(field),
        ReaderEventView::End(element),
        ReaderEventView::End(root),
        ReaderEventView::Eof,
    ]);
    let m0 = start(s);
    assert(run(s, e0) == Progress::<ParserState, ParseFailure>::Running(m0));
    lemma_run_push(s, e0, ReaderEventView::Start(root));
    let m1 = with_state(m0, ParserState::StartElementOrEndRoot);
    assert(run(s, e1) == Progress::<ParserState, ParseFailure>::Running(m1));
    lemma_run_push(s, e1, ReaderEventView::Start(element));
    let m2 = with_state(m1, ParserState::StartAttrOrEndElement);
    assert(run(s, e2) == Progress::<ParserState, ParseFailure>::Running(m2));
    lemma_run_push(s, e2, ReaderEventView::Start(field));
    let m3 = with_state(m2, ParserState::AttrCdataOrEndAttr(i as usize));
    assert(run(s, e3) == Progress::<ParserState, ParseFailure>::Running(m3));
    lemma_run_push(s, e3, ReaderEventView::Text(text));
    assert(unescaped(d) == Some(u));
    let m4 = gather(m3, i, u);
    assert(run(s, e4) == Progress::<ParserState, ParseFailure>::Running(m4));
    lemma_run_push(s, e4, ReaderEventView::CData(cdata));
    let m5 = gather(m4, i, decode_utf8(cdata));
    assert(run(s, e5) == Progress::<ParserState, ParseFailure>::Running(m5));
    lemma_run_push(s, e5, ReaderEventView::End(field));
    let m6 = with_state(m5, ParserState::StartAttrOrEndElement);
    assert(run(s, e6) == Progress::<ParserState, ParseFailure>::Running(m6));
    lemma_run_push(s, e6, ReaderEventView::End(element));
    let m7 = with_state(flush(m6), ParserState::StartElementOrEndRoot);
    assert(run(s, e7) == Progress::<ParserState, ParseFailure>::Running(m7));
    lemma_run_push(s, e7, ReaderEventView::End(root));
    let m8 = with_state(m7, ParserState::Done);
    assert(run(s, e8) == Progress::<ParserState, ParseFailure>::Running(m8));
    lemma_run_push(s, e8, ReaderEventView::Eof);
    assert(run(s, e9) == Progress::<ParserState, ParseFailure>::Finished(m8.columns));
    assert(m5.current[i] =~= t);
    assert forall|k: int| 0 <= k < n && k != i implies #[trigger] m5.current[k] == Seq::<char>::empty() by {}
    assert(m8.columns =~= Seq::new(
        n,
        |k: int|
            {
                let d = decode_utf8(text);
                let u = if d.contains('&') {
                    xml_unescape(d)->0
                } else {
                    d
                };
                if k == i && (u + decode_utf8(cdata)).len() > 0 {
                    seq![Some(u + decode_utf8(cdata))]
                } else {
                    seq![None]
                }
            },
    )) by {
        assert forall|k: int| 0 <= k < n implies #[trigger] m8.columns[k] =~= (if k == i && t.len() > 0 {
            seq![Some(t)]
        } else {
            seq![None]
        }) by {
            assert(m8.columns[k] == m6.columns[k].push(cell(m6.current[k])));
        }
    }
}

/// Inside field `i`, character data is appended to that field's gathered
/// text, decoded from UTF-8 and, where it holds a reference, with its
/// references replaced (unchanged, character for character, where it holds
/// none); CDATA content is appended as it stands. Nothing else changes.
pub proof fn lemma_field_text_step(s: SchemaView, m: MachineView<ParserState>, b: Seq<u8>, i: usize)
    requires
        m.state == ParserState::AttrCdataOrEndAttr(i),
        i < m.current.len(),
        valid_utf8(b),
    ensures
        !decode_utf8(b).contains('&') ==> step(s, m, ReaderEventView::Text(b)) == Progress::<
            ParserState,
            ParseFailure,
        >::Running(
            MachineView {
                state: m.state,
                current: m.current.update(i as int, m.current[i as int] + decode_utf8(b)),
                columns: m.columns,
            },
        ),
        decode_utf8(b).contains('&') ==> step(s, m, ReaderEventView::Text(b)) == match xml_unescape(
            decode_utf8(b),
        ) {
            Some(u) => Progress::<ParserState, ParseFailure>::Running(
                MachineView {
                    state: m.state,
                    current: m.current.update(i as int, m.current[i as int] + u),
                    columns: m.columns,
                },
            ),
            None => Progress::Failed(ParseFailure::InvalidText),
        },
        step(s, m, ReaderEventView::CData(b)) == Progress::<ParserState, ParseFailure>::Running(
            MachineView {
                state: m.state,
                current: m.current.update(i as int, m.current[i as int] + decode_utf8(b)),
                columns: m.columns,
            },
        ),
{
}

/// The end tag of a record closes it: every column gets one more cell, the
/// gathered text of its field or `None` where that text is empty, the
/// gathered texts are cleared, and the root element may close or another
/// record open next.
pub proof fn lemma_record_close_step(s: SchemaView, m: MachineView<ParserState>, b: Seq<u8>)
    requires
        m.state == ParserState::StartAttrOrEndElement,
        valid_utf8(b),
        decode_utf8(b) == s.element,
        m.current.len() == m.columns.len(),
    ensures
        step(s, m, ReaderEventView::End(b)) matches Progress::Running(m2) && {
            &&& m2.state == ParserState::StartElementOrEndRoot
            &&& m2.current.len() == m.current.len()
            &&& m2.columns.len() == m.columns.len()
            &&& forall|k: int|
                0 <= k < m.columns.len() ==> #[trigger] m2.current[k] == Seq::<char>::empty()
                    && m2.columns[k] == m.columns[k].push(
                    if m.current[k].len() == 0 {
                        None
                    } else {
                        Some(m.current[k])
                    },
                )
        },
{
}

/// What one event did to the state machine.
enum Outcome {
    Continue,
    Finished,
    Failed(ParseError),
}

/// The mutable state of a parse.
struct Machine {
    state: ParserState,
    current: Vec<String>,
    columns: Vec<Vec<Option<String>>>,
}

impl View for Machine {
    type V = MachineView<ParserState>;

    closed spec fn view(&self) -> MachineView<ParserState> {
        MachineView {
            state: self.state,
            current: self.current@.map_values(|t: String| t@),
            columns: columns_view(self.columns@),
        }
    }
}

/// The column of the field named `name`, the last one where several share
/// it.
fn field_position(fields: &Vec<crate::schema::Field>, name: &String) -> (r: Option<usize>)
    ensures
        r == field_index(fields@.map_values(|f: crate::schema::Field| f@), name@),
{
    let ghost fs = fields@.map_values(|f: crate::schema::Field| f@);
    let mut i = fields.len();
    assert(fs.take(i as int) =~= fs);
    while i > 0
        invariant
            i <= fields.len(),
            fs == fields@.map_values(|f: crate::schema::Field| f@),
            field_index(fs, name@) == field_index(fs.take(i as int), name@),
        decreases i,
    {
        assert(fs.take(i as int).drop_last() =~= fs.take(i - 1));
        if fields[i - 1].name == *name {
            return Some(i - 1);
        }
        i = i - 1;
    }
    None
}

/// The plain value of the gathered texts after a record is closed.
pub(crate) proof fn lemma_flush_view(
    old_current: Seq<String>,
    old_columns: Seq<Vec<Option<String>>>,
    new_current: Seq<String>,
    new_columns: Seq<Vec<Option<String>>>,
)
    requires
        old_current.len() == old_columns.len(),
        new_current.len() == old_current.len(),
        new_columns.len() == old_columns.len(),
        forall|i: int| 0 <= i < old_current.len() ==> #[trigger] new_current[i]@ == Seq::<char>::empty(),
        forall|i: int|
            0 <= i < old_current.len() ==> #[trigger] new_columns[i]@ == old_columns[i]@.push(
                if old_current[i]@.len() == 0 {
                    None
                } else {
                    Some(old_current[i])
                },
            ),
    ensures
        new_current.map_values(|t: String| t@) =~= Seq::new(
            old_current.len(),
            |i: int| Seq::<char>::empty(),
        ),
        columns_view(new_columns) =~= Seq::new(
            old_columns.len(),
            |i: int|
                if i < old_current.len() {
                    columns_view(old_columns)[i].push(cell(old_current[i]@))
                } else {
                    columns_view(old_columns)[i]
                },
        ),
{
    assert forall|i: int| 0 <= i < old_columns.len() implies #[trigger] columns_view(new_columns)[i]
        =~= columns_view(old_columns)[i].push(cell(old_current[i]@)) by {
        assert(new_columns[i]@ == old_columns[i]@.push(
            if old_current[i]@.len() == 0 {
                None
            } else {
                Some(old_current[i])
            },
        ));
    }
}

/// One step of the state machine on the parse's mutable state.
fn apply_event(schema: &Schema, m: &mut Machine, event: &ReaderEvent) -> (r: Outcome)
    requires
        machine_wf(old(m)@, schema@.fields.len()),
    ensures
        match step(schema@, old(m)@, event@) {
            Progress::Running(next) => r is Continue && final(m)@ == next,
            Progress::Finished(c) => r is Finished && final(m)@.columns == c,
            Progress::Failed(f) => r matches Outcome::Failed(e) && e@ == f,
        },
{
    let ghost m0 = m@;
    match event {
        ReaderEvent::Start(b) => {
            let name = match utf8_str(b.as_slice()) {
                Some(text) => String::from_str(text),
                None => {
                    return Outcome::Failed(ParseError::InvalidElementName);
                },
            };
            match m.state {
                ParserState::StartDocument => {
                    if schema.root == name {
                        m.state = ParserState::StartElementOrEndRoot;
                        assert(m@ == with_state(m0, ParserState::StartElementOrEndRoot));
                        Outcome::Continue
                    } else {
                        Outcome::Failed(
                            ParseError::UnexpectedRoot { expected: schema.root.clone(), found: name },
                        )
                    }
                },
                ParserState::StartElementOrEndRoot => {
                    if schema.element != name {
                        Outcome::Failed(ParseError::UnknownElement { name })
                    } else {
                        m.state = ParserState::StartAttrOrEndElement;
                        assert(m@ == with_state(m0, ParserState::StartAttrOrEndElement));
                        Outcome::Continue
                    }
                },
                ParserState::StartAttrOrEndElement => {
                    match field_position(&schema.fields, &name) {
                        Some(idx) => {
                            m.state = ParserState::AttrCdataOrEndAttr(idx);
                            assert(m@ == with_state(m0, ParserState::AttrCdataOrEndAttr(idx)));
                            Outcome::Continue
                        },
                        None => Outcome::Failed(ParseError::UnknownAttribute { name }),
                    }
                },
                state => Outcome::Failed(ParseError::UnexpectedStart { name, state }),
            }
        },
        ReaderEvent::End(b) => {
            let name = match utf8_str(b.as_slice()) {
                Some(text) => String::from_str(text),
                None => {
                    return Outcome::Failed(ParseError::InvalidElementName);
                },
            };
            match m.state {
                ParserState::AttrCdataOrEndAttr(_) => {
                    m.state = ParserState::StartAttrOrEndElement;
                    assert(m@ == with_state(m0, ParserState::StartAttrOrEndElement));
                    Outcome::Continue
                },
                ParserState::StartAttrOrEndElement => {
                    if schema.element != name {
                        Outcome::Failed(
                            ParseError::UnexpectedClose {
                                expected: schema.element.clone(),
                                found: name,
                            },
                        )
                    } else {
                        let ghost old_current = m.current@;
                        let ghost old_columns = m.columns@;
                        XmlParser::flush_current_values(&mut m.current, &mut m.columns);
                        proof {
                            lemma_flush_view(old_current, old_columns, m.current@, m.columns@);
                        }
                        m.state = ParserState::StartElementOrEndRoot;
                        assert(m@ == with_state(flush(m0), ParserState::StartElementOrEndRoot));
                        Outcome::Continue
                    }
                },
                ParserState::StartElementOrEndRoot => {
                    if schema.root != name {
                        Outcome::Failed(
                            ParseError::UnexpectedRootClose {
                                expected: schema.root.clone(),
                                found: name,
                            },
                        )
                    } else {
                        m.state = ParserState::Done;
                        assert(m@ == with_state(m0, ParserState::Done));
                        Outcome::Continue
                    }
                },
                state => Outcome::Failed(ParseError::UnexpectedEnd { name, state }),
            }
        },
        ReaderEvent::Text(b) => {
            match m.state {
                ParserState::AttrCdataOrEndAttr(idx) => {
                    let raw = match utf8_str(b.as_slice()) {
                        Some(raw) => raw,
                        None => {
                            return Outcome::Failed(
                                ParseError::InvalidText {
                                    message: String::from_str("invalid utf-8 sequence"),
                                },
                            );
                        },
                    };
                    match unescape_text(raw) {
                        Ok(content) => {
                            m.current[idx].append(content.as_str());
                            assert(m@ == gather(m0, idx as int, content@));
                            Outcome::Continue
                        },
                        Err(e) => Outcome::Failed(
                            ParseError::InvalidText { message: escape_error_text(&e) },
                        ),
                    }
                },
                _ => Outcome::Continue,
            }
        },
        ReaderEvent::CData(b) => {
            match m.state {
                ParserState::AttrCdataOrEndAttr(idx) => {
                    match utf8_str(b.as_slice()) {
                        Some(content) => {
                            m.current[idx].append(content);
                            assert(m@ == gather(m0, idx as int, content@));
                            Outcome::Continue
                        },
                        None => Outcome::Failed(ParseError::InvalidCData),
                    }
                },
                _ => Outcome::Continue,
            }
        },
        ReaderEvent::Empty(_) => Outcome::Continue,
        ReaderEvent::Comment => Outcome::Continue,
        ReaderEvent::Decl => Outcome::Continue,
        ReaderEvent::PI => Outcome::Continue,
        ReaderEvent::DocType => Outcome::Continue,
        ReaderEvent::Eof => {
            if m.state == ParserState::Done {
                Outcome::Finished
            } else {
                Outcome::Failed(ParseError::UnexpectedEof { state: m.state })
            }
        },
        ReaderEvent::Failed(message) => Outcome::Failed(
            ParseError::Xml { state: m.state, message: message.clone() },
        ),
    }
}

/// The state before the first event, for a schema of `n` fields.
fn new_machine(n: usize) -> (m: Machine)
    ensures
        m@ == initial_machine(ParserState::StartDocument, n as nat),
{
    let mut current: Vec<String> = Vec::new();
    let mut columns: Vec<Vec<Option<String>>> = Vec::new();
    for i in 0..n
        invariant
            current@.len() == i,
            columns@.len() == i,
            forall|k: int| 0 <= k < i ==> #[trigger] current@[k]@ == Seq::<char>::empty(),
            forall|k: int| 0 <= k < i ==> #[trigger] columns@[k]@ == Seq::<Option<String>>::empty(),
    {
        current.push(String::new());
        columns.push(Vec::new());
    }
    let m = Machine { state: ParserState::StartDocument, current, columns };
    assert(m@.current =~= initial_machine(ParserState::StartDocument, n as nat).current);
    assert(m@.columns =~= initial_machine(ParserState::StartDocument, n as nat).columns) by {
        assert forall|k: int| 0 <= k < n implies #[trigger] m@.columns[k] =~= Seq::<
            Option<Seq<char>>,
        >::empty() by {
            assert(columns@[k]@ == Seq::<Option<String>>::empty());
        }
    }
    m
}

/// XML parser for converting XML data to columnar string data according to a schema
pub struct XmlParser;

impl XmlParser {
    /// Parses a document given as its sequence of events into one column of
    /// optional strings per field of the schema. Events after the end of the
    /// root element's parse (or after a failure) are not looked at; a
    /// sequence without an end of document ends as if it had one.
    pub fn parse_events(schema: &Schema, events: &Vec<ReaderEvent>) -> (r: Result<
        Vec<Vec<Option<String>>>,
        ParseError,
    >)
        ensures
            result_view(r) == parse_outcome(schema@, events_view(events@)),
            r matches Ok(c) ==> columns_wf(columns_view(c@), schema@.fields.len()),
    {
        let n = schema.fields.len();
        let ghost s = schema@;
        let ghost evs = events_view(events@);
        let mut m = new_machine(n);
        let mut i: usize = 0;
        assert(evs.take(0) =~= Seq::<ReaderEventView>::empty());
        while i < events.len()
            invariant
                n == s.fields.len(),
                s == schema@,
                evs == events_view(events@),
                i <= events@.len(),
                run(s, evs.take(i as int)) == Progress::<ParserState, ParseFailure>::Running(m@),
                machine_wf(m@, n as nat),
            decreases events@.len() - i,
        {
            proof {
                assert(evs.take(i + 1).drop_last() =~= evs.take(i as int));
                assert(evs.take(i + 1).last() == events@[i as int]@);
                lemma_step_wf(s, m@, events@[i as int]@);
                lemma_run_wf(s, evs.take(i + 1));
            }
            match apply_event(schema, &mut m, &events[i]) {
                Outcome::Continue => {},
                Outcome::Finished => {
                    proof {
                        lemma_run_settled(start(s), steps(s), evs, i + 1);
                    }
                    let r = Ok(m.columns);
                    assert(result_view(r) == parse_outcome(s, evs));
                    return r;
                },
                Outcome::Failed(e) => {
                    proof {
                        lemma_run_settled(start(s), steps(s), evs, i + 1);
                    }
                    return Err(e);
                },
            }
            i = i + 1;
        }
        assert(evs.take(i as int) =~= evs);
        proof {
            lemma_step_wf(s, m@, ReaderEventView::Eof);
        }
        match apply_event(schema, &mut m, &ReaderEvent::Eof) {
            Outcome::Finished => {
                let r = Ok(m.columns);
                assert(result_view(r) == parse_outcome(s, evs));
                r
            },
            Outcome::Failed(e) => Err(e),
            Outcome::Continue => {
                proof {
                    assert(false);
                }
                Err(ParseError::UnexpectedEof { state: m.state })
            },
        }
    }

    /// Parses an XML document into one column of optional strings per field
    /// of the schema: each record element adds one cell to every column, the
    /// text of that field (unescaped, CDATA taken as it stands) or `None`
    /// where the record gave it no text. The document is read with
    /// `quick_xml`, with the text of events trimmed.
    pub fn parse(schema: &Schema, input: &[u8]) -> (r: Result<Vec<Vec<Option<String>>>, ParseError>)
        ensures
            result_view(r) == parse_outcome(schema@, quick_xml_events(input@, true)),
            r matches Ok(c) ==> columns_wf(columns_view(c@), schema@.fields.len()),
    {
        let events = read_quick_xml_events(input, true);
        Self::parse_events(schema, &events)
    }

    /// Closes a record: every column gets the gathered text of its field,
    /// `None` where that text is empty, and the gathered texts are cleared.
    pub fn flush_current_values(
        current_values: &mut [String],
        columns: &mut [Vec<Option<String>>],
    )
        requires
            old(current_values)@.len() <= old(columns)@.len(),
        ensures
            final(current_values)@.len() == old(current_values)@.len(),
            forall|i: int|
                0 <= i < old(current_values)@.len() ==> #[trigger] final(current_values)@[i]@
                    == Seq::<char>::empty(),
            final(columns)@.len() == old(columns)@.len(),
            forall|i: int|
                0 <= i < old(current_values)@.len() ==> #[trigger] final(columns)@[i]@
                    == old(columns)@[i]@.push(
                    if old(current_values)@[i]@.len() == 0 {
                        None
                    } else {
                        Some(old(current_values)@[i])
                    },
                ),
            forall|i: int|
                old(current_values)@.len() <= i < old(columns)@.len()
                    ==> #[trigger] final(columns)@[i] == old(columns)@[i],
    {
        let n = current_values.len();
        for idx in 0..n
            invariant
                n == old(current_values)@.len(),
                current_values@.len() == n,
                columns@.len() == old(columns)@.len(),
                n <= columns@.len(),
                forall|i: int| 0 <= i < idx ==> #[trigger] current_values@[i]@ == Seq::<char>::empty(),
                forall|i: int| idx <= i < n ==> #[trigger] current_values@[i] == old(current_values)@[i],
                forall|i: int|
                    0 <= i < idx ==> #[trigger] columns@[i]@ == old(columns)@[i]@.push(
                        if old(current_values)@[i]@.len() == 0 {
                            None
                        } else {
                            Some(old(current_values)@[i])
                        },
                    ),
                forall|i: int| idx <= i < columns@.len() ==> #[trigger] columns@[i] == old(columns)@[i],
        {
            if current_values[idx].as_str().is_empty() {
                columns[idx].push(None);
            } else {
                let value = current_values[idx].clone();
                clear_string(&mut current_values[idx]);
                columns[idx].push(Some(value));
            }
        }
    }
}

} // verus!
