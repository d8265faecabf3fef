use mastr_export::archive_names::{file_stem, table_prefix};

#[test]
fn table_prefix_stops_at_underscore_or_dot() {
    assert_eq!(table_prefix("EinheitenSolar_12.xml"), Some("EinheitenSolar".to_string()));
    assert_eq!(table_prefix("Katalogwerte.xml"), Some("Katalogwerte".to_string()));
    assert_eq!(table_prefix("a.b_c"), Some("a".to_string()));
    assert_eq!(table_prefix("_x"), Some("".to_string()));
    assert_eq!(table_prefix("README"), None);
}

#[test]
fn file_stem_stops_at_the_first_dot() {
    assert_eq!(file_stem("EinheitenSolar_12.xml"), Some("EinheitenSolar_12".to_string()));
    assert_eq!(file_stem("a.b.c"), Some("a".to_string()));
    assert_eq!(file_stem("Größe_ä.xml"), Some("Größe_ä".to_string()));
    assert_eq!(file_stem("noext"), None);
}
