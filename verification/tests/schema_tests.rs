use fauxrrt::schema::{comment_test_ok, named_time_column, preview_testable};
use fauxrrt::schema::{
    detect_schema,
    detect_preview, is_comment_line, looks_like_datetime, mostly_datetimes, role_from_header, row_is_header,
    ColumnMapping, ColumnRole, DetectedSchema, Delimiter, Frame,
};

#[test]
fn preview_of_lla_csv_has_header_and_rows() {
    let text = "time,lat,lon,alt\n0,37.7,-122.4,100\n1,37.8,-122.3,120\n2,37.9,-122.2,140\n";
    let preview = detect_preview(text).unwrap();
    assert_eq!(preview.delimiter, Delimiter::Comma);
    assert!(preview.has_header);
    assert_eq!(preview.names, vec!["time", "lat", "lon", "alt"]);
    assert_eq!(preview.rows.len(), 3);
    assert_eq!(preview.rows[0], vec!["0", "37.7", "-122.4", "100"]);
}

#[test]
fn preview_of_ecef_whitespace() {
    let text = "X Y Z\n6378137 0 0\n6378130 10000 2000\n6378120 20000 4000\n";
    let preview = detect_preview(text).unwrap();
    assert_eq!(preview.delimiter, Delimiter::Whitespace);
    assert!(preview.has_header);
    assert_eq!(preview.names, vec!["X", "Y", "Z"]);
    assert_eq!(preview.rows.len(), 3);
}

#[test]
fn preview_without_header_names_columns() {
    let text = "# comment\n1\t2\t3\n4\t5\t6\n";
    let preview = detect_preview(text).unwrap();
    assert_eq!(preview.delimiter, Delimiter::Tab);
    assert!(!preview.has_header);
    assert_eq!(preview.names, vec!["col_0", "col_1", "col_2"]);
    assert_eq!(preview.rows.len(), 2);
}

#[test]
fn preview_needs_two_numeric_lines() {
    assert!(detect_preview("a,b\n1,2\n").is_none());
    assert!(detect_preview("").is_none());
    assert!(detect_preview("1\n2\n3\n").is_none());
}

#[test]
fn comment_lines() {
    assert!(is_comment_line("   "));
    assert!(is_comment_line("# x"));
    assert!(is_comment_line("% x"));
    assert!(is_comment_line("! x"));
    assert!(is_comment_line("// x"));
    assert!(is_comment_line("; no commas"));
    assert!(!is_comment_line("; a, b"));
    assert!(is_comment_line("BEGIN Ephemeris"));
    assert!(is_comment_line("END Ephemeris"));
    assert!(is_comment_line("stk.v.11.0"));
    assert!(is_comment_line("  ScenarioEpoch 1 Jan"));
    assert!(is_comment_line("EPHEMERISTimePosVel"));
    assert!(!is_comment_line("1,2,3"));
    assert!(!is_comment_line("time,lat"));
}

#[test]
fn header_rows() {
    let s = |v: &[&str]| v.iter().map(|x| x.to_string()).collect::<Vec<_>>();
    assert!(row_is_header(&s(&["time", "lat", "lon"])));
    assert!(!row_is_header(&s(&["1", "2.5", "-3e4"])));
    assert!(row_is_header(&s(&["name", "1"])));
    assert!(!row_is_header(&s(&["", "", "x", "1"])));
    assert!(!row_is_header(&[]));
    assert!(!row_is_header(&s(&["inf", "NaN", "\"7\""])));
    assert!(row_is_header(&s(&[".", "e5"])));
}

#[test]
fn delimiter_labels_and_splits() {
    assert_eq!(Delimiter::Comma.as_label(), "comma");
    assert_eq!(Delimiter::Tab.as_label(), "tab");
    assert_eq!(Delimiter::Semicolon.as_label(), "semicolon");
    assert_eq!(Delimiter::Pipe.as_label(), "pipe");
    assert_eq!(Delimiter::Whitespace.as_label(), "whitespace");
    assert_eq!(Delimiter::Comma.split(" a , b,,c "), vec!["a", "b", "", "c"]);
    assert_eq!(Delimiter::Pipe.split("1|2"), vec!["1", "2"]);
    assert_eq!(Delimiter::Whitespace.split("  1 \t 2\n3 "), vec!["1", "2", "3"]);
    assert_eq!(Delimiter::Semicolon.split(""), vec![""]);
}

#[test]
fn header_names_map_to_roles() {
    assert_eq!(role_from_header("Latitude"), Some(ColumnRole::Lat));
    assert_eq!(role_from_header("\"LON\""), Some(ColumnRole::Lon));
    assert_eq!(role_from_header(" ECEF-X "), Some(ColumnRole::X));
    assert_eq!(role_from_header("Time (UTC)"), None);
    assert_eq!(role_from_header("Time_UTC"), Some(ColumnRole::Time));
    assert_eq!(role_from_header("alt_km"), Some(ColumnRole::Alt));
    assert_eq!(role_from_header("speed"), None);
}

#[test]
fn datetimes() {
    assert!(looks_like_datetime("2024-01-01T00:00:00Z"));
    assert!(looks_like_datetime("1/2/2024 10:00"));
    assert!(!looks_like_datetime("12.5"));
    assert!(!looks_like_datetime("1-2:3"));
}

#[test]
fn mapping_roundtrip_and_usable() {
    let mut schema = DetectedSchema::generated();
    assert!(schema.is_usable());
    let mapping = ColumnMapping {
        time_col: None,
        lat_col: None,
        lon_col: None,
        alt_col: None,
        x_col: Some(1),
        y_col: Some(2),
        z_col: Some(3),
    };
    schema.apply_mapping(&mapping);
    assert_eq!(schema.frame, Frame::Ecef);
    assert_eq!(schema.mapping(), mapping);
    assert!(schema.is_usable());
    assert_eq!(schema.columns[0].role, ColumnRole::Other);
    assert_eq!(schema.columns[1].role, ColumnRole::X);
    assert_eq!(schema.columns[3].name, "alt");
    schema.apply_mapping(&ColumnMapping::default());
    assert_eq!(schema.frame, Frame::Lla);
    assert!(!schema.is_usable());
}

// The value-based guesses handed to `detect_schema` below are what the
// numeric column inference yields for these rows.

#[test]
fn detects_lla_csv() {
    let text = "time,lat,lon,alt\n0,37.7,-122.4,100\n1,37.8,-122.3,120\n2,37.9,-122.2,140\n";
    let preview = detect_preview(text).unwrap();
    let schema = detect_schema(&preview, Some(0), None, Some((1, 2, Some(3))));
    assert_eq!(schema.frame, Frame::Lla);
    assert_eq!(schema.lat_col, Some(1));
    assert_eq!(schema.lon_col, Some(2));
}

#[test]
fn detects_ecef_whitespace() {
    let text = "X Y Z\n6378137 0 0\n6378130 10000 2000\n6378120 20000 4000\n";
    let preview = detect_preview(text).unwrap();
    let schema = detect_schema(&preview, Some(1), None, None);
    assert_eq!(schema.frame, Frame::Ecef);
    assert_eq!(schema.x_col, Some(0));
}

#[test]
fn named_columns_set_roles_and_confidence() {
    let text = "time,lat,lon,alt\n0,37.7,-122.4,100\n1,37.8,-122.3,120\n2,37.9,-122.2,140\n";
    let preview = detect_preview(text).unwrap();
    let schema = detect_schema(&preview, None, None, None);
    assert_eq!(schema.delimiter, "comma");
    assert!(schema.has_header);
    assert_eq!(schema.confidence, 90);
    assert_eq!(schema.time_col, Some(0));
    assert_eq!(schema.alt_col, Some(3));
    assert_eq!(schema.x_col, None);
    let roles: Vec<ColumnRole> = schema.columns.iter().map(|c| c.role).collect();
    assert_eq!(roles, vec![ColumnRole::Time, ColumnRole::Lat, ColumnRole::Lon, ColumnRole::Alt]);
    assert_eq!(schema.columns[2].name, "lon");
    assert_eq!(schema.columns[2].index, 2);
}

#[test]
fn unnamed_columns_take_the_guesses() {
    let text = "1\t2\t3\t4\n5\t6\t7\t8\n";
    let preview = detect_preview(text).unwrap();
    // No ECEF guess: the LLA guess is taken, with its altitude column.
    let schema = detect_schema(&preview, Some(0), None, Some((2, 1, Some(3))));
    assert_eq!(schema.frame, Frame::Lla);
    assert_eq!(schema.confidence, 74);
    assert_eq!(schema.time_col, Some(0));
    assert_eq!((schema.lat_col, schema.lon_col, schema.alt_col), (Some(2), Some(1), Some(3)));
    assert_eq!(schema.columns[0].role, ColumnRole::Time);
    assert_eq!(schema.columns[1].role, ColumnRole::Lon);
    // An ECEF guess wins over an LLA guess.
    let schema = detect_schema(&preview, None, Some((1, 2, 3)), Some((2, 1, None)));
    assert_eq!(schema.frame, Frame::Ecef);
    assert_eq!(schema.confidence, 78);
    assert_eq!((schema.x_col, schema.y_col, schema.z_col), (Some(1), Some(2), Some(3)));
    assert_eq!(schema.lat_col, None);
    assert_eq!(schema.columns[0].role, ColumnRole::Other);
    // No guess at all.
    let schema = detect_schema(&preview, None, None, None);
    assert_eq!(schema.confidence, 35);
    assert!(!schema.is_usable());
}

#[test]
fn named_lla_ignores_value_guesses() {
    let text = "lat,lon,z_km,alt\n1,2,3,4\n5,6,7,8\n";
    let preview = detect_preview(text).unwrap();
    let schema = detect_schema(&preview, Some(3), Some((0, 1, 2)), None);
    assert_eq!(schema.frame, Frame::Lla);
    assert_eq!(schema.confidence, 90);
    assert_eq!(schema.x_col, None);
    assert_eq!(schema.z_col, Some(2));
    assert_eq!(schema.time_col, Some(3));
    assert_eq!(schema.columns[3].role, ColumnRole::Time);
}

#[test]
fn comment_tests_that_would_cut_a_character() {
    let chars = |s: &str| s.chars().collect::<Vec<char>>();
    assert!(comment_test_ok(&chars("# anything")));
    assert!(comment_test_ok(&chars("1,2,3")));
    assert!(comment_test_ok(&chars("stk.v.11.0")));
    assert!(!comment_test_ok(&chars("abc\u{e9}")));
    assert!(comment_test_ok(&chars("ab\u{e9}")));
    assert!(preview_testable("time,lat\n0,1\n1,2\n"));
    assert!(!preview_testable("time,lat\nabc\u{e9}x\n"));
}

#[test]
fn named_time_and_common_width() {
    let names: Vec<String> = ["x", "Epoch", "utc"].iter().map(|s| s.to_string()).collect();
    assert_eq!(named_time_column(&names), Some(1));
    assert_eq!(named_time_column(&["lat".to_string()]), None);
    let preview = detect_preview("a,b,c\n1,2,3\n4,5,6\n7,8\n9,10,11\n").unwrap();
    assert_eq!(preview.names, vec!["a", "b", "c"]);
    assert_eq!(preview.rows.len(), 3);
    assert_eq!(preview.rows[2], vec!["9", "10", "11"]);
}

fn role_holds(schema: &DetectedSchema, col: Option<usize>, role: ColumnRole) -> bool {
    col.map_or(true, |k| k < schema.columns.len() && schema.columns[k].role == role)
}

#[test]
fn guesses_apart_from_named_columns_keep_roles_consistent() {
    let text = "a\tb\tc\talt\n1\t2\t3\t4\n5\t6\t7\t8\n";
    let preview = detect_preview(text).unwrap();
    let schema = detect_schema(&preview, Some(0), None, Some((2, 1, None)));
    assert_eq!(schema.time_col, Some(0));
    assert_eq!((schema.lat_col, schema.lon_col, schema.alt_col), (Some(2), Some(1), None));
    assert_eq!(schema.columns[3].role, ColumnRole::Alt);
    assert!(role_holds(&schema, schema.time_col, ColumnRole::Time));
    assert!(role_holds(&schema, schema.lat_col, ColumnRole::Lat));
    assert!(role_holds(&schema, schema.lon_col, ColumnRole::Lon));
    assert!(role_holds(&schema, schema.alt_col, ColumnRole::Alt));
}

#[test]
fn a_time_guess_on_a_named_axis_shares_its_column() {
    // The time guess lands on the column named Y: both picks name column 1,
    // and the column's role is the time.
    let text = "X Y Z\n6378137 0 0\n6378130 10000 2000\n6378120 20000 4000\n";
    let preview = detect_preview(text).unwrap();
    let schema = detect_schema(&preview, Some(1), None, None);
    assert_eq!((schema.time_col, schema.y_col), (Some(1), Some(1)));
    assert_eq!(schema.columns[1].role, ColumnRole::Time);
}

#[test]
fn half_datetime_fields_make_a_time_column() {
    let col = |v: &[&str]| v.iter().map(|s| s.to_string()).collect::<Vec<String>>();
    assert!(mostly_datetimes(&col(&["2024-01-02T03:04:05Z", "x", "2024-01-02 03:04:06", "y"])));
    assert!(!mostly_datetimes(&col(&["2024-01-02T03:04:05Z", "x", "y"])));
    assert!(mostly_datetimes(&col(&["01/02/2024 03:04"])));
    assert!(!mostly_datetimes(&col(&[])));
    assert!(!mostly_datetimes(&col(&["12.5", "13.5"])));
}
