use mastr_export::columns::{
    encode_column, parse_datetime_micros, parse_int32_column, parse_int64_column, ColumnData,
    ColumnError,
};
use mastr_export::schema::XsdType;

fn cells(v: &[Option<&str>]) -> Vec<Option<String>> {
    v.iter().map(|o| o.map(|s| s.to_string())).collect()
}

fn int32(values: &[Option<&str>], kind: XsdType) -> Result<(Vec<i32>, Vec<i16>), (XsdType, String)> {
    match encode_column(&cells(values), kind) {
        Ok(ColumnData::Int32 { values, def_levels }) => Ok((values, def_levels)),
        Ok(other) => panic!("unexpected column {:?}", other),
        Err(ColumnError { kind, value }) => Err((kind, value)),
    }
}

fn int64(values: &[Option<&str>], kind: XsdType) -> Result<(Vec<i64>, Vec<i16>), (XsdType, String)> {
    match encode_column(&cells(values), kind) {
        Ok(ColumnData::Int64 { values, def_levels }) => Ok((values, def_levels)),
        Ok(other) => panic!("unexpected column {:?}", other),
        Err(ColumnError { kind, value }) => Err((kind, value)),
    }
}

#[test]
fn int32_column_with_closure() {
    let values = cells(&[Some("7"), None, Some("-3")]);
    let r = parse_int32_column(&values, |s| {
        s.parse::<i32>().map_err(|_| ColumnError { kind: XsdType::Int, value: s.to_string() })
    });
    let (vals, defs) = r.unwrap();
    assert_eq!(vals, vec![7, -3]);
    assert_eq!(defs, vec![1, 0, 1]);
}

#[test]
fn int32_column_stops_at_first_failure() {
    let values = cells(&[Some("1"), Some("x"), Some("y")]);
    let mut seen = std::cell::RefCell::new(Vec::new());
    let r = parse_int32_column(&values, |s| {
        seen.borrow_mut().push(s.to_string());
        s.parse::<i32>().map_err(|_| ColumnError { kind: XsdType::Int, value: s.to_string() })
    });
    let e = r.unwrap_err();
    assert_eq!(e.value, "x");
    assert_eq!(seen.get_mut().clone(), vec!["1".to_string(), "x".to_string()]);
}

#[test]
fn int64_column_with_closure() {
    let values = cells(&[None, Some("9000000000")]);
    let (vals, defs) = parse_int64_column(&values, |s| {
        s.parse::<i64>().map_err(|_| ColumnError { kind: XsdType::DateTime, value: s.to_string() })
    })
    .unwrap();
    assert_eq!(vals, vec![9000000000]);
    assert_eq!(defs, vec![0, 1]);
}

#[test]
fn byte_short_int_ranges() {
    assert_eq!(int32(&[Some("127"), Some("-128"), Some("+5")], XsdType::Byte), Ok((vec![127, -128, 5], vec![1, 1, 1])));
    assert_eq!(int32(&[Some("128")], XsdType::Byte), Err((XsdType::Byte, "128".to_string())));
    assert_eq!(int32(&[Some("-32768"), Some("32767")], XsdType::Short), Ok((vec![-32768, 32767], vec![1, 1])));
    assert_eq!(int32(&[Some("32768")], XsdType::Short), Err((XsdType::Short, "32768".to_string())));
    assert_eq!(int32(&[Some("2147483647"), None], XsdType::Int), Ok((vec![2147483647], vec![1, 0])));
    assert_eq!(int32(&[Some("2147483648")], XsdType::Int), Err((XsdType::Int, "2147483648".to_string())));
    assert_eq!(int32(&[Some(" 5")], XsdType::Int), Err((XsdType::Int, " 5".to_string())));
    assert_eq!(int32(&[Some("")], XsdType::Int), Err((XsdType::Int, "".to_string())));
    assert_eq!(int32(&[Some("-")], XsdType::Int), Err((XsdType::Int, "-".to_string())));
}

#[test]
fn dates_are_days_since_the_epoch() {
    assert_eq!(
        int32(&[Some("1970-01-01"), Some("1970-01-02"), Some("2020-01-01"), None], XsdType::Date),
        Ok((vec![0, 1, 18262], vec![1, 1, 1, 0]))
    );
    assert_eq!(int32(&[Some("1969-12-31")], XsdType::Date), Ok((vec![-1], vec![1])));
    // only the first ten bytes are read
    assert_eq!(int32(&[Some("2020-01-01T12:00:00")], XsdType::Date), Ok((vec![18262], vec![1])));
    assert_eq!(int32(&[Some("2020-13-01")], XsdType::Date), Err((XsdType::Date, "2020-13-01".to_string())));
}

#[test]
fn timestamps_in_three_forms() {
    assert_eq!(parse_datetime_micros("2020-01-01T00:00:00").unwrap(), 1_577_836_800_000_000);
    assert_eq!(parse_datetime_micros("2020-01-01T00:00:00.5").unwrap(), 1_577_836_800_500_000);
    assert_eq!(parse_datetime_micros("2020-01-01T01:00:00+01:00").unwrap(), 1_577_836_800_000_000);
    let e = parse_datetime_micros("yesterday").unwrap_err();
    assert_eq!(e.kind, XsdType::DateTime);
    assert_eq!(e.value, "yesterday");
    assert_eq!(
        int64(&[Some("1970-01-01T00:00:01"), None], XsdType::DateTime),
        Ok((vec![1_000_000], vec![1, 0]))
    );
}

#[test]
fn non_negative_integers_keep_their_bits() {
    assert_eq!(
        int64(&[Some("18446744073709551615"), Some("42")], XsdType::NonNegativeInteger),
        Ok((vec![-1, 42], vec![1, 1]))
    );
    assert_eq!(
        int64(&[Some("-1")], XsdType::NonNegativeInteger),
        Err((XsdType::NonNegativeInteger, "-1".to_string()))
    );
    assert_eq!(
        int64(&[Some("18446744073709551616")], XsdType::NonNegativeInteger),
        Err((XsdType::NonNegativeInteger, "18446744073709551616".to_string()))
    );
}

#[test]
fn booleans() {
    match encode_column(&cells(&[Some("true"), Some("0"), None, Some("1"), Some("false")]), XsdType::Boolean) {
        Ok(ColumnData::Boolean { values, def_levels }) => {
            assert_eq!(values, vec![true, false, true, false]);
            assert_eq!(def_levels, vec![1, 1, 0, 1, 1]);
        }
        other => panic!("unexpected result {:?}", other),
    }
    match encode_column(&cells(&[Some("yes")]), XsdType::Boolean) {
        Err(e) => {
            assert_eq!(e.kind, XsdType::Boolean);
            assert_eq!(e.value, "yes");
        }
        other => panic!("unexpected result {:?}", other),
    }
}

#[test]
fn text_and_floating_point_columns_keep_their_texts() {
    let values = cells(&[Some("a"), None, Some("1.5")]);
    match encode_column(&values, XsdType::String) {
        Ok(ColumnData::Text { values, def_levels }) => {
            assert_eq!(values, vec!["a".to_string(), "1.5".to_string()]);
            assert_eq!(def_levels, vec![1, 0, 1]);
        }
        other => panic!("unexpected result {:?}", other),
    }
    assert!(matches!(encode_column(&values, XsdType::Float), Ok(ColumnData::Float { .. })));
    assert!(matches!(encode_column(&values, XsdType::Double), Ok(ColumnData::Double { .. })));
}

#[test]
fn encoded_shape_has_a_level_per_cell() {
    let values = cells(&[None, Some("1"), None, Some("2"), None]);
    let (vals, defs) = int32(&[None, Some("1"), None, Some("2"), None], XsdType::Int).unwrap();
    assert_eq!(defs.len(), values.len());
    assert_eq!(vals.len(), defs.iter().filter(|l| **l == 1).count());
}

#[test]
fn reading_a_concatenation_gives_the_concatenated_readings() {
    let a = cells(&[Some("1"), None]);
    let b = cells(&[None, Some("2"), Some("3")]);
    let parse = |s: &str| {
        s.parse::<i32>().map_err(|_| ColumnError { kind: XsdType::Int, value: s.to_string() })
    };
    let (va, da) = parse_int32_column(&a, parse).unwrap();
    let (vb, db) = parse_int32_column(&b, parse).unwrap();
    let ab = [a.clone(), b.clone()].concat();
    let (vab, dab) = parse_int32_column(&ab, parse).unwrap();
    assert_eq!(vab, [va, vb].concat());
    assert_eq!(dab, [da, db].concat());

    let bad = cells(&[Some("x")]);
    let worse = cells(&[Some("y")]);
    let joined = [a, bad, worse].concat();
    match encode_column(&joined, XsdType::Int) {
        Err(e) => assert_eq!(e.value, "x"),
        other => panic!("unexpected result {:?}", other),
    }
}

#[test]
fn definition_line_names_the_physical_type_of_the_encoding() {
    let values = cells(&[Some("1"), None]);
    for (kind, physical) in [
        (XsdType::Date, "INT32"),
        (XsdType::Byte, "INT32"),
        (XsdType::Short, "INT32"),
        (XsdType::Int, "INT32"),
        (XsdType::DateTime, "INT64"),
        (XsdType::NonNegativeInteger, "INT64"),
        (XsdType::Boolean, "BOOLEAN"),
        (XsdType::String, "BINARY"),
        (XsdType::Float, "FLOAT"),
        (XsdType::Double, "DOUBLE"),
    ] {
        let line = kind.parquet_type_str("f");
        assert!(line.starts_with(&format!("  OPTIONAL {} f", physical)), "{}", line);
        let encoded_physical = match kind {
            XsdType::Date => match encode_column(&cells(&[Some("2020-01-02"), None]), kind).unwrap() {
                ColumnData::Int32 { .. } => "INT32",
                other => panic!("unexpected column {:?}", other),
            },
            XsdType::DateTime => {
                match encode_column(&cells(&[Some("2020-01-02T03:04:05"), None]), kind).unwrap() {
                    ColumnData::Int64 { .. } => "INT64",
                    other => panic!("unexpected column {:?}", other),
                }
            }
            XsdType::Boolean => match encode_column(&cells(&[Some("true"), None]), kind).unwrap() {
                ColumnData::Boolean { .. } => "BOOLEAN",
                other => panic!("unexpected column {:?}", other),
            },
            _ => match encode_column(&values, kind).unwrap() {
                ColumnData::Int32 { .. } => "INT32",
                ColumnData::Int64 { .. } => "INT64",
                ColumnData::Text { .. } => "BINARY",
                ColumnData::Float { .. } => "FLOAT",
                ColumnData::Double { .. } => "DOUBLE",
                other => panic!("unexpected column {:?}", other),
            },
        };
        assert_eq!(encoded_physical, physical);
    }
}

#[test]
fn decimal_reading_agrees_with_str_parse() {
    let texts = [
        "0", "+0", "-0", "007", "-00128", "-129", "+", "-", "", "1a", "a1", "١", "12٣", "+-1", "--1",
        "99999999999999999999999999", "-99999999999999999999999999", "2147483647", "-2147483648",
        "18446744073709551615", "18446744073709551616", "+18446744073709551615", "-18446744073709551615",
    ];
    for t in texts {
        let byte = int32(&[Some(t)], XsdType::Byte).ok().map(|(v, _)| v[0]);
        assert_eq!(byte, t.parse::<i8>().ok().map(i32::from), "byte {:?}", t);
        let short = int32(&[Some(t)], XsdType::Short).ok().map(|(v, _)| v[0]);
        assert_eq!(short, t.parse::<i16>().ok().map(i32::from), "short {:?}", t);
        let int = int32(&[Some(t)], XsdType::Int).ok().map(|(v, _)| v[0]);
        assert_eq!(int, t.parse::<i32>().ok(), "int {:?}", t);
        let unsigned = int64(&[Some(t)], XsdType::NonNegativeInteger).ok().map(|(v, _)| v[0] as u64);
        assert_eq!(unsigned, t.parse::<u64>().ok(), "unsigned {:?}", t);
    }
}
