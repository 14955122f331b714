use fauxrrt::parse::rows_testable;
use fauxrrt::parse::{
    decode_text, delimiter_from_label, schema_alt_is_km, schema_rows, schema_xyz_is_km,
    settle_schema,
};
use fauxrrt::schema::{detect_preview, detect_schema, ColumnMapping, DetectedSchema, Delimiter, Frame};

#[test]
fn decoding_drops_the_byte_order_mark() {
    assert_eq!(decode_text(&[0xEF, 0xBB, 0xBF, b'a', b',', b'b']), "a,b");
    assert_eq!(decode_text(b"x y"), "x y");
    assert_eq!(decode_text(&[b'a', 0xFF, b'b']), "a\u{FFFD}b");
    assert_eq!(decode_text(&[0xEF, 0xBB]), "\u{FFFD}");
}

#[test]
fn labels_name_delimiters() {
    assert_eq!(delimiter_from_label("tab"), Delimiter::Tab);
    assert_eq!(delimiter_from_label("semicolon"), Delimiter::Semicolon);
    assert_eq!(delimiter_from_label("pipe"), Delimiter::Pipe);
    assert_eq!(delimiter_from_label("whitespace"), Delimiter::Whitespace);
    assert_eq!(delimiter_from_label("comma"), Delimiter::Comma);
    assert_eq!(delimiter_from_label("csv"), Delimiter::Comma);
}

#[test]
fn data_rows_skip_comments_headers_and_short_lines() {
    let text = "# made by hand\ntime,lat,lon\n0,1,2\n\n3\n4 , 5 ,6   \n";
    let schema = DetectedSchema::generated();
    let rows = schema_rows(text, &schema);
    assert_eq!(rows, vec![vec!["0", "1", "2"], vec!["4", "5", "6"]]);
}

#[test]
fn whitespace_rows_without_header() {
    let text = "1 2 3\r\n  4\t5 6\n";
    let mut schema = DetectedSchema::generated();
    schema.delimiter = "whitespace".to_string();
    schema.has_header = false;
    let rows = schema_rows(text, &schema);
    assert_eq!(rows, vec![vec!["1", "2", "3"], vec!["4", "5", "6"]]);
}

#[test]
fn kilometre_columns() {
    let text = "t,lat,lon,Alt_KM\n0,1,2,3\n1,2,3,4\n";
    let preview = detect_preview(text).unwrap();
    let schema = detect_schema(&preview, None, None, None);
    assert!(schema_alt_is_km(&schema));
    assert!(!schema_xyz_is_km(&schema));
    let text = "x_km,y_km,z_km\n6378,0,0\n6378,1,1\n";
    let preview = detect_preview(text).unwrap();
    let schema = detect_schema(&preview, None, None, None);
    assert_eq!(schema.frame, Frame::Ecef);
    assert!(schema_xyz_is_km(&schema));
    assert!(!schema_alt_is_km(&schema));
}

#[test]
fn settling_applies_the_mapping_and_checks_position_columns() {
    let schema = DetectedSchema::generated();
    assert!(settle_schema(schema.clone(), None).is_ok());
    let none = ColumnMapping::default();
    assert_eq!(
        settle_schema(schema.clone(), Some(&none)).err(),
        Some("could not find lat/lon or ECEF X/Y/Z columns".to_string())
    );
    let ecef = ColumnMapping { x_col: Some(1), y_col: Some(2), z_col: Some(3), ..ColumnMapping::default() };
    let settled = settle_schema(schema, Some(&ecef)).unwrap();
    assert_eq!(settled.frame, Frame::Ecef);
    assert_eq!(settled.x_col, Some(1));
}

#[test]
fn rows_can_be_tested_unless_a_prefix_cuts_a_character() {
    assert!(rows_testable("a,b\n1,2\n"));
    assert!(!rows_testable("1,2\nxyz\u{e9}\n"));
}
