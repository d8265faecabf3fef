//! Schema of one export table: the root and record element names and the
//! typed fields that a record carries.

use vstd::prelude::*;

verus! {

/// The XSD type of a field, which selects its Parquet column type.
#[derive(Clone, Copy, Debug, PartialEq, Eq, Structural)]
pub enum XsdType {
    Date,
    DateTime,
    Float,
    Double,
    Byte,
    Short,
    Int,
    NonNegativeInteger,
    Boolean,
    String,
}

impl Default for XsdType {
    /// A field without an explicit type is a string.
    fn default() -> (r: Self)
        ensures
            r == XsdType::String,
    {
        XsdType::String
    }
}

/// The physical Parquet type and the logical annotation of a field's column,
/// as they stand in a message type definition line.
pub open spec fn parquet_physical(t: XsdType) -> Seq<char> {
    match t {
        XsdType::Date => "  OPTIONAL INT32 "@,
        XsdType::DateTime => "  OPTIONAL INT64 "@,
        XsdType::Float => "  OPTIONAL FLOAT "@,
        XsdType::Double => "  OPTIONAL DOUBLE "@,
        XsdType::Byte => "  OPTIONAL INT32 "@,
        XsdType::Short => "  OPTIONAL INT32 "@,
        XsdType::Int => "  OPTIONAL INT32 "@,
        XsdType::NonNegativeInteger => "  OPTIONAL INT64 "@,
        XsdType::Boolean => "  OPTIONAL BOOLEAN "@,
        XsdType::String => "  OPTIONAL BINARY "@,
    }
}

/// What follows the field name in its definition line.
pub open spec fn parquet_annotation(t: XsdType) -> Seq<char> {
    match t {
        XsdType::Date => " (DATE);"@,
        XsdType::DateTime => " (TIMESTAMP(MICROS,false));"@,
        XsdType::Float => ";"@,
        XsdType::Double => ";"@,
        XsdType::Byte => " (INTEGER(8,true));"@,
        XsdType::Short => " (INTEGER(16,true));"@,
        XsdType::Int => ";"@,
        XsdType::NonNegativeInteger => " (INTEGER(64,false));"@,
        XsdType::Boolean => ";"@,
        XsdType::String => " (UTF8);"@,
    }
}

/// The Parquet message type definition line of a field named `name`.
pub open spec fn parquet_line(t: XsdType, name: Seq<char>) -> Seq<char> {
    parquet_physical(t) + name + parquet_annotation(t)
}

impl XsdType {
    /// Returns a parquet message type field definition line.
    pub fn parquet_type_str(&self, name: &str) -> (r: String)
        ensures
            r@ == parquet_line(*self, name@),
    {
        let (physical, annotation) = match self {
            XsdType::Date => ("  OPTIONAL INT32 ", " (DATE);"),
            XsdType::DateTime => ("  OPTIONAL INT64 ", " (TIMESTAMP(MICROS,false));"),
            XsdType::Float => ("  OPTIONAL FLOAT ", ";"),
            XsdType::Double => ("  OPTIONAL DOUBLE ", ";"),
            XsdType::Byte => ("  OPTIONAL INT32 ", " (INTEGER(8,true));"),
            XsdType::Short => ("  OPTIONAL INT32 ", " (INTEGER(16,true));"),
            XsdType::Int => ("  OPTIONAL INT32 ", ";"),
            XsdType::NonNegativeInteger => ("  OPTIONAL INT64 ", " (INTEGER(64,false));"),
            XsdType::Boolean => ("  OPTIONAL BOOLEAN ", ";"),
            XsdType::String => ("  OPTIONAL BINARY ", " (UTF8);"),
        };
        let mut line = String::from_str(physical);
        line.append(name);
        line.append(annotation);
        line
    }
}

/// One field of a record: an XML child element and the type of its column.
#[derive(Debug)]
pub struct Field {
    pub name: String,
    pub xsd: XsdType,
}

/// The plain value of a field.
pub struct FieldView {
    pub name: Seq<char>,
    pub xsd: XsdType,
}

impl View for Field {
    type V = FieldView;

    open spec fn view(&self) -> FieldView {
        FieldView { name: self.name@, xsd: self.xsd }
    }
}

/// A table of the export: the document's root element, the element that
/// stands for one record, and the record's fields in column order.
#[derive(Debug)]
pub struct Schema {
    pub root: String,
    pub element: String,
    pub without_rowid: bool,
    pub primary: Option<String>,
    pub fields: Vec<Field>,
}

/// The plain value of a schema.
pub struct SchemaView {
    pub root: Seq<char>,
    pub element: Seq<char>,
    pub without_rowid: bool,
    pub primary: Option<Seq<char>>,
    pub fields: Seq<FieldView>,
}

pub open spec fn option_view(o: Option<String>) -> Option<Seq<char>> {
    match o {
        Some(s) => Some(s@),
        None => None,
    }
}

impl View for Schema {
    type V = SchemaView;

    open spec fn view(&self) -> SchemaView {
        SchemaView {
            root: self.root@,
            element: self.element@,
            without_rowid: self.without_rowid,
            primary: option_view(self.primary),
            fields: self.fields@.map_values(|f: Field| f@),
        }
    }
}

/// The key-value metadata of a schema, in the order it is written.
pub open spec fn metadata_entries(s: SchemaView) -> Seq<(Seq<char>, Seq<char>)> {
    let base = seq![("root"@, s.root), ("element"@, s.element)];
    let with_rowid = if s.without_rowid {
        base.push(("without_rowid"@, "true"@))
    } else {
        base
    };
    match s.primary {
        Some(p) => with_rowid.push(("primary"@, p)),
        None => with_rowid,
    }
}

/// The plain value of a list of string pairs.
pub open spec fn pairs_view(v: Seq<(String, String)>) -> Seq<(Seq<char>, Seq<char>)> {
    v.map_values(|p: (String, String)| (p.0@, p.1@))
}

/// The definition lines of the given fields, each followed by a newline.
pub open spec fn message_body(fields: Seq<FieldView>) -> Seq<char>
    decreases fields.len(),
{
    if fields.len() == 0 {
        Seq::empty()
    } else {
        message_body(fields.drop_last()) + parquet_line(fields.last().xsd, fields.last().name)
            + "\n"@
    }
}

/// The Parquet message type of a schema.
pub open spec fn parquet_message(fields: Seq<FieldView>) -> Seq<char> {
    "message schema {\n"@ + message_body(fields) + "}"@
}

/// No key occurs twice in a schema's metadata, so the pairs can stand for a
/// map from keys to values.
pub proof fn lemma_metadata_keys_distinct(s: SchemaView)
    ensures
        forall|i: int, j: int|
            0 <= i < j < metadata_entries(s).len() ==> #[trigger] metadata_entries(s)[i].0
                != #[trigger] metadata_entries(s)[j].0,
{
    reveal_strlit("root");
    reveal_strlit("element");
    reveal_strlit("without_rowid");
    reveal_strlit("primary");
    assert("root"@.len() == 4);
    assert("element"@.len() == 7);
    assert("without_rowid"@.len() == 13);
    assert("primary"@.len() == 7);
    assert("element"@[0] != "primary"@[0]);
}

/// The metadata holds the root and record element names; it marks the
/// schema `without_rowid` exactly when the flag is set, whatever the primary
/// key; it names the primary key exactly when there is one; and it holds
/// nothing else.
pub proof fn lemma_metadata_contents(s: SchemaView)
    ensures
        metadata_entries(s).contains(("root"@, s.root)),
        metadata_entries(s).contains(("element"@, s.element)),
        metadata_entries(s).contains(("without_rowid"@, "true"@)) <==> s.without_rowid,
        (exists|i: int|
            0 <= i < metadata_entries(s).len() && #[trigger] metadata_entries(s)[i].0
                == "without_rowid"@) <==> s.without_rowid,
        forall|p: Seq<char>|
            metadata_entries(s).contains(("primary"@, p)) <==> s.primary == Some(p),
        (exists|i: int|
            0 <= i < metadata_entries(s).len() && #[trigger] metadata_entries(s)[i].0 == "primary"@)
            <==> s.primary is Some,
        forall|i: int|
            0 <= i < metadata_entries(s).len() ==> {
                let k = #[trigger] metadata_entries(s)[i].0;
                k == "root"@ || k == "element"@ || k == "without_rowid"@ || k == "primary"@
            },
{
    reveal_strlit("root");
    reveal_strlit("element");
    reveal_strlit("without_rowid");
    reveal_strlit("primary");
    reveal_strlit("true");
    assert("root"@.len() == 4);
    assert("element"@.len() == 7);
    assert("without_rowid"@.len() == 13);
    assert("primary"@.len() == 7);
    assert("element"@[0] != "primary"@[0]);
    let e = metadata_entries(s);
    let r = ("root"@, s.root);
    let el = ("element"@, s.element);
    let w = ("without_rowid"@, "true"@);
    match s.primary {
        Some(p) => {
            let pr = ("primary"@, p);
            if s.without_rowid {
                assert(e =~= seq![r, el, w, pr]);
                assert(e[2].0 == "without_rowid"@);
            } else {
                assert(e =~= seq![r, el, pr]);
            }
            assert(e[e.len() - 1].0 == "primary"@);
            assert(e[e.len() - 1] == pr);
        },
        None => {
            if s.without_rowid {
                assert(e =~= seq![r, el, w]);
                assert(e[2].0 == "without_rowid"@);
            } else {
                assert(e =~= seq![r, el]);
            }
        },
    }
    assert(e[0] == r);
    assert(e[1] == el);
}

impl Schema {
    /// The metadata pairs that describe this schema: `root` and `element`
    /// always, `without_rowid` when it is set, `primary` when a primary key
    /// is given.
    pub fn get_metadata(&self) -> (r: Vec<(String, String)>)
        ensures
            pairs_view(r@) == metadata_entries(self@),
    {
        let mut map: Vec<(String, String)> = Vec::new();
        map.push((String::from_str("root"), self.root.clone()));
        map.push((String::from_str("element"), self.element.clone()));
        if self.without_rowid {
            map.push((String::from_str("without_rowid"), String::from_str("true")));
        }
        match &self.primary {
            Some(primary) => {
                map.push((String::from_str("primary"), primary.clone()));
            },
            None => {},
        }
        assert(pairs_view(map@) =~= metadata_entries(self@));
        map
    }

    /// The Parquet message type with one optional column per field.
    pub fn to_parquet_message_type(&self) -> (r: String)
        ensures
            r@ == parquet_message(self@.fields),
    {
        let mut msg = String::from_str("message schema {\n");
        let n = self.fields.len();
        let ghost fields = self@.fields;
        for i in 0..n
            invariant
                n == self.fields@.len(),
                fields == self@.fields,
                msg@ == "message schema {\n"@ + message_body(fields.take(i as int)),
        {
            let field = &self.fields[i];
            let line = field.xsd.parquet_type_str(field.name.as_str());
            msg.append(line.as_str());
            msg.append("\n");
            assert(fields.take(i + 1).drop_last() =~= fields.take(i as int));
            assert(fields.take(i + 1).last() == field@);
        }
        assert(fields.take(n as int) =~= fields);
        msg.append("}");
        msg
    }
}

} // verus!
