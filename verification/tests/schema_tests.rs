use mastr_export::schema::{Field, Schema, XsdType};

fn schema_of(fields: &[(&str, XsdType)]) -> Schema {
    Schema {
        root: "Einheiten".to_string(),
        element: "Einheit".to_string(),
        without_rowid: false,
        primary: None,
        fields: fields
            .iter()
            .map(|(n, t)| Field { name: n.to_string(), xsd: *t })
            .collect(),
    }
}

#[test]
fn default_type_is_string() {
    assert_eq!(XsdType::default(), XsdType::String);
}

#[test]
fn parquet_lines_of_every_type() {
    let cases = [
        (XsdType::Date, "  OPTIONAL INT32 x (DATE);"),
        (XsdType::DateTime, "  OPTIONAL INT64 x (TIMESTAMP(MICROS,false));"),
        (XsdType::Float, "  OPTIONAL FLOAT x;"),
        (XsdType::Double, "  OPTIONAL DOUBLE x;"),
        (XsdType::Byte, "  OPTIONAL INT32 x (INTEGER(8,true));"),
        (XsdType::Short, "  OPTIONAL INT32 x (INTEGER(16,true));"),
        (XsdType::Int, "  OPTIONAL INT32 x;"),
        (XsdType::NonNegativeInteger, "  OPTIONAL INT64 x (INTEGER(64,false));"),
        (XsdType::Boolean, "  OPTIONAL BOOLEAN x;"),
        (XsdType::String, "  OPTIONAL BINARY x (UTF8);"),
    ];
    for (t, expected) in cases {
        assert_eq!(t.parquet_type_str("x"), expected);
    }
}

#[test]
fn message_type_lists_fields_in_order() {
    let schema = schema_of(&[("EinheitMastrNummer", XsdType::String), ("Datum", XsdType::Date)]);
    assert_eq!(
        schema.to_parquet_message_type(),
        "message schema {\n  OPTIONAL BINARY EinheitMastrNummer (UTF8);\n  OPTIONAL INT32 Datum (DATE);\n}"
    );
}

#[test]
fn message_type_without_fields() {
    let schema = schema_of(&[]);
    assert_eq!(schema.to_parquet_message_type(), "message schema {\n}");
}

#[test]
fn metadata_minimal() {
    let schema = schema_of(&[]);
    assert_eq!(
        schema.get_metadata(),
        vec![
            ("root".to_string(), "Einheiten".to_string()),
            ("element".to_string(), "Einheit".to_string()),
        ]
    );
}

#[test]
fn metadata_with_rowid_flag_and_primary_key() {
    let mut schema = schema_of(&[]);
    schema.without_rowid = true;
    schema.primary = Some("EinheitMastrNummer".to_string());
    let meta = schema.get_metadata();
    assert_eq!(
        meta,
        vec![
            ("root".to_string(), "Einheiten".to_string()),
            ("element".to_string(), "Einheit".to_string()),
            ("without_rowid".to_string(), "true".to_string()),
            ("primary".to_string(), "EinheitMastrNummer".to_string()),
        ]
    );
    // no key occurs twice
    for i in 0..meta.len() {
        for j in (i + 1)..meta.len() {
            assert_ne!(meta[i].0, meta[j].0);
        }
    }
}

#[test]
fn metadata_primary_without_rowid() {
    let mut schema = schema_of(&[]);
    schema.primary = Some("Id".to_string());
    let meta = schema.get_metadata();
    assert_eq!(meta.len(), 3);
    assert_eq!(meta[2], ("primary".to_string(), "Id".to_string()));
}
