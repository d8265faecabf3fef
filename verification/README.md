# mastr_export

Conversion of the Marktstammdatenregister (German grid agency) XML export
into columnar data, written as a Verus-verified library with a thin command
line around it.

## Layout

- `src/schema.rs` — the schema of a table (root element, record element,
  typed fields), its Parquet message type and its key-value metadata.
- `src/parser.rs` — the record parser over `quick_xml` events: a state
  machine, specified event by event, that turns a document into one column
  of optional strings per field.
- `src/archive_parser.rs` — the same kind of parser over the events of the
  `xml` crate (xml-rs), as the archive converter reads them; text and CDATA
  inside a field are its content.
- `src/columns.rs` — the typed encoding of a column for the Parquet writer:
  integers, dates (days since the epoch), timestamps (microseconds),
  booleans and strings, with definition levels.
- `src/archive_names.rs` — the table prefix and the stem of a file name in
  the export archive.
- `app/` — the command line: reading schema files (serde), standard input
  and ZIP archives, writing Parquet files, and reading floating-point cells.
- `tests/` — tests of the library on concrete documents and cells.

The contracts are stated over plain models (`Seq`, views of the library's
types). Decimal integers are read by verified code, against a statement
of what `str::parse` accepts. Calls into `quick_xml`, xml-rs and chrono
stand behind small trusted wrappers whose contracts say what those crates
document or what their source shows; results that take pages to state
(the event stream each XML reader delivers for a document and its reader
settings, XML unescaping, chrono's format parsing) are named and not
described. Each parser reads the whole event stream of its reader and runs
the state machine over it, so what it returns for a document is exactly
the state machine's outcome on that named stream.
