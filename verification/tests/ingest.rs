use data_visualizer::decimal::{format_coordinate, parse_coordinate};
use data_visualizer::error::IngestError;
use data_visualizer::ingest::{
    format_for_extension, parse, parse_by_extension, parse_file, Format,
};
use data_visualizer::model::{DatasetCollection, Point};
use data_visualizer::structured::{datasets_from_json, parse_structured, Json, NOT_A_LIST};
use data_visualizer::tabular::{
    datasets_from_records, parse_tabular, rows_from_records, TabularLayout, DEFAULT_NAME,
};

const FLAT: TabularLayout = TabularLayout { has_header: false, grouped: false };
const GROUPED: TabularLayout = TabularLayout { has_header: false, grouped: true };

fn point(x: i64, y: i64) -> Point {
    Point { x: x * 1_000_000, y: y * 1_000_000 }
}

fn names(c: &DatasetCollection) -> Vec<String> {
    c.as_slice().iter().map(|d| d.name.clone()).collect()
}

#[test]
fn coordinate_of_whole_number() {
    assert_eq!(parse_coordinate("1"), Some(1_000_000));
    assert_eq!(parse_coordinate("0"), Some(0));
    assert_eq!(parse_coordinate("42"), Some(42_000_000));
    assert_eq!(parse_coordinate("007"), Some(7_000_000));
}

#[test]
fn coordinate_of_fraction() {
    assert_eq!(parse_coordinate("1.0"), Some(1_000_000));
    assert_eq!(parse_coordinate("2.5"), Some(2_500_000));
    assert_eq!(parse_coordinate("0.000001"), Some(1));
    assert_eq!(parse_coordinate("3.141592"), Some(3_141_592));
    assert_eq!(parse_coordinate("1.5000000000"), Some(1_500_000));
}

#[test]
fn coordinate_with_sign() {
    assert_eq!(parse_coordinate("-0.5"), Some(-500_000));
    assert_eq!(parse_coordinate("+3"), Some(3_000_000));
    assert_eq!(parse_coordinate("-0"), Some(0));
    assert_eq!(parse_coordinate("-"), None);
    assert_eq!(parse_coordinate("+"), None);
    assert_eq!(parse_coordinate("--1"), None);
}

#[test]
fn coordinate_with_bare_point() {
    assert_eq!(parse_coordinate(".5"), Some(500_000));
    assert_eq!(parse_coordinate("5."), Some(5_000_000));
    assert_eq!(parse_coordinate("."), None);
    assert_eq!(parse_coordinate("1.2.3"), None);
}

#[test]
fn coordinate_with_exponent() {
    assert_eq!(parse_coordinate("1e3"), Some(1_000_000_000));
    assert_eq!(parse_coordinate("1E3"), Some(1_000_000_000));
    assert_eq!(parse_coordinate("1e+3"), Some(1_000_000_000));
    assert_eq!(parse_coordinate("1e-6"), Some(1));
    assert_eq!(parse_coordinate("2.5e-1"), Some(250_000));
    assert_eq!(parse_coordinate("1500e-3"), Some(1_500_000));
    assert_eq!(parse_coordinate("0.0000001e1"), Some(1));
    assert_eq!(parse_coordinate("1e"), None);
    assert_eq!(parse_coordinate("1e+"), None);
    assert_eq!(parse_coordinate("e5"), None);
    assert_eq!(parse_coordinate("1e5x"), None);
}

#[test]
fn coordinate_is_read_to_the_nearest_millionth() {
    assert_eq!(parse_coordinate("1.2345670"), Some(1_234_567));
    assert_eq!(parse_coordinate("1.2345674"), Some(1_234_567));
    assert_eq!(parse_coordinate("1.2345675"), Some(1_234_568));
    assert_eq!(parse_coordinate("1.2345678"), Some(1_234_568));
    assert_eq!(parse_coordinate("1.23456749999999999999999"), Some(1_234_567));
    assert_eq!(parse_coordinate("-1.2345675"), Some(-1_234_568));
    assert_eq!(parse_coordinate("-1.2345674"), Some(-1_234_567));
    assert_eq!(parse_coordinate("0.9999995"), Some(1_000_000));
    assert_eq!(parse_coordinate("0.0000001"), Some(0));
    assert_eq!(parse_coordinate("0.0000004999"), Some(0));
    assert_eq!(parse_coordinate("0.0000005"), Some(1));
    assert_eq!(parse_coordinate("-0.0000005"), Some(-1));
    assert_eq!(parse_coordinate("-0.0000004"), Some(0));
    assert_eq!(parse_coordinate("1e-7"), Some(0));
    assert_eq!(parse_coordinate("5e-7"), Some(1));
    assert_eq!(parse_coordinate("9.5e-7"), Some(1));
    assert_eq!(parse_coordinate("9e-8"), Some(0));
    assert_eq!(parse_coordinate("12345678e-7"), Some(1_234_568));
    assert_eq!(parse_coordinate("0.1"), Some(100_000));
}

#[test]
fn coordinate_agrees_with_the_nearest_float() {
    for text in ["0.3333333333", "2.7182818284", "-3.1415926535", "123.4567891", "1e-3", "6.02e2"] {
        let nearest = (text.parse::<f64>().unwrap() * 1e6).round() as i64;
        assert_eq!(parse_coordinate(text), Some(nearest), "{}", text);
    }
}

#[test]
fn coordinate_at_the_limits() {
    assert_eq!(parse_coordinate("9223372036854.775807"), Some(i64::MAX));
    assert_eq!(parse_coordinate("9223372036854.775808"), None);
    assert_eq!(parse_coordinate("-9223372036854.775808"), Some(i64::MIN));
    assert_eq!(parse_coordinate("-9223372036854.775809"), None);
    assert_eq!(parse_coordinate("1e13"), None);
    assert_eq!(parse_coordinate("1e400"), None);
    assert_eq!(parse_coordinate("1e99999999999999999999999999"), None);
    assert_eq!(parse_coordinate("0e99999999999999999999999999"), Some(0));
    assert_eq!(parse_coordinate("0e-99999999999999999999999999"), Some(0));
    assert_eq!(parse_coordinate("1e-99999999999999999999999999"), Some(0));
    assert_eq!(parse_coordinate("9223372036854.7758074"), Some(i64::MAX));
    assert_eq!(parse_coordinate("9223372036854.7758075"), None);
    assert_eq!(parse_coordinate("-9223372036854.7758084"), Some(i64::MIN));
    assert_eq!(parse_coordinate("-9223372036854.7758085"), None);
    assert_eq!(parse_coordinate("00000000000000000000000000000001"), Some(1_000_000));
    assert_eq!(parse_coordinate("10000000000000000000000000e-25"), Some(1_000_000));
}

#[test]
fn text_that_is_no_number_is_refused() {
    assert_eq!(parse_coordinate(""), None);
    assert_eq!(parse_coordinate("abc"), None);
    assert_eq!(parse_coordinate(" 1"), None);
    assert_eq!(parse_coordinate("1 "), None);
    assert_eq!(parse_coordinate("inf"), None);
    assert_eq!(parse_coordinate("NaN"), None);
    assert_eq!(parse_coordinate("1,5"), None);
    assert_eq!(parse_coordinate("١"), None);
}

#[test]
fn malformed_row_is_passed_over() {
    let c = parse_tabular(b"1.0,2.0\nabc,def\n", FLAT);
    assert_eq!(c.len(), 1);
    let d = c.get(0).unwrap();
    assert_eq!(d.name, DEFAULT_NAME);
    assert_eq!(d.points, vec![point(1, 2)]);
}

#[test]
fn grouped_rows_fan_out_by_name() {
    let c = parse_tabular(b"A,1,2\nB,3,4\nA,5,6\n", GROUPED);
    assert_eq!(names(&c), vec!["A".to_string(), "B".to_string()]);
    assert_eq!(c.get(0).unwrap().points, vec![point(1, 2), point(5, 6)]);
    assert_eq!(c.get(1).unwrap().points, vec![point(3, 4)]);
    assert_eq!(c.selected(), None);
}

#[test]
fn datasets_stand_in_first_seen_order() {
    let c = parse_tabular(b"z,1,1\na,2,2\nm,3,3\na,4,4\nz,5,5\n", GROUPED);
    assert_eq!(names(&c), vec!["z".to_string(), "a".to_string(), "m".to_string()]);
    assert_eq!(c.get(0).unwrap().points, vec![point(1, 1), point(5, 5)]);
    assert_eq!(c.get(1).unwrap().points, vec![point(2, 2), point(4, 4)]);
    assert_eq!(c.get(2).unwrap().points, vec![point(3, 3)]);
}

#[test]
fn header_is_left_out_on_request() {
    let with = TabularLayout { has_header: true, grouped: false };
    let c = parse_tabular(b"x,y\n1,2\n3,4\n", with);
    assert_eq!(c.len(), 1);
    assert_eq!(c.get(0).unwrap().points, vec![point(1, 2), point(3, 4)]);
    let c = parse_tabular(b"1,2\n3,4\n", with);
    assert_eq!(c.get(0).unwrap().points, vec![point(3, 4)]);
    let c = parse_tabular(b"x,y\n1,2\n", FLAT);
    assert_eq!(c.get(0).unwrap().points, vec![point(1, 2)]);
}

#[test]
fn row_of_wrong_length_is_passed_over() {
    let c = parse_tabular(b"1,2,3\n4,5\n6\n\n7,8\n", FLAT);
    assert_eq!(c.get(0).unwrap().points, vec![point(4, 5), point(7, 8)]);
    let c = parse_tabular(b"1,2\nA,3,4\nB,5,6,7\n", GROUPED);
    assert_eq!(names(&c), vec!["A".to_string()]);
    assert_eq!(c.get(0).unwrap().points, vec![point(3, 4)]);
}

#[test]
fn row_with_one_bad_number_is_passed_over_whole() {
    let c = parse_tabular(b"1,x\ny,2\n3,4\n", FLAT);
    assert_eq!(c.get(0).unwrap().points, vec![point(3, 4)]);
}

#[test]
fn source_without_rows_has_no_dataset() {
    assert!(parse_tabular(b"", FLAT).is_empty());
    assert!(parse_tabular(b"abc,def\n", FLAT).is_empty());
    assert!(parse_tabular(b"x,y\n", TabularLayout { has_header: true, grouped: false }).is_empty());
}

#[test]
fn quoted_fields_are_read_by_the_rules_of_csv() {
    let c = parse_tabular(b"\"a,b\",1,2\n\"say \"\"hi\"\"\",3,4\r\n", GROUPED);
    assert_eq!(names(&c), vec!["a,b".to_string(), "say \"hi\"".to_string()]);
}

#[test]
fn record_that_is_not_utf8_is_passed_over() {
    let c = parse_tabular(b"A,1,2\n\xff\xfe,3,4\nB,5,6\n", GROUPED);
    assert_eq!(names(&c), vec!["A".to_string(), "B".to_string()]);
}

#[test]
fn fields_are_not_trimmed() {
    let c = parse_tabular(b"1, 2\n3,4\n", FLAT);
    assert_eq!(c.get(0).unwrap().points, vec![point(3, 4)]);
}

#[test]
fn records_given_by_hand() {
    let records = vec![
        Some(vec!["A".to_string(), "1".to_string(), "2".to_string()]),
        None,
        Some(vec!["A".to_string(), "nope".to_string(), "2".to_string()]),
        Some(vec!["B".to_string(), "0.5".to_string(), "-1".to_string()]),
    ];
    let rows = rows_from_records(&records, true);
    assert_eq!(rows.len(), 2);
    assert_eq!(rows[0].name, "A");
    assert_eq!(rows[0].point, point(1, 2));
    assert_eq!(rows[1].name, "B");
    assert_eq!(rows[1].point, Point { x: 500_000, y: -1_000_000 });
    let c = datasets_from_records(&records, true);
    assert_eq!(c.len(), 2);
    assert!(rows_from_records(&records, false).is_empty());
}

#[test]
fn structured_datasets_are_read() {
    let source = br#"[
        {"name": "first", "points": [{"x": 1, "y": 2}, {"x": 2.5, "y": -4}]},
        {"name": "second", "points": []}
    ]"#;
    let c = parse_structured(source).unwrap();
    assert_eq!(names(&c), vec!["first".to_string(), "second".to_string()]);
    assert_eq!(
        c.get(0).unwrap().points,
        vec![point(1, 2), Point { x: 2_500_000, y: -4_000_000 }]
    );
    assert!(c.get(1).unwrap().points.is_empty());
}

#[test]
fn structured_flat_points_are_read() {
    let c = parse_structured(br#"[{"x": 1, "y": 2}, {"x": 3, "y": 4}]"#).unwrap();
    assert_eq!(names(&c), vec![DEFAULT_NAME.to_string()]);
    assert_eq!(c.get(0).unwrap().points, vec![point(1, 2), point(3, 4)]);
}

#[test]
fn structured_numbers_in_every_notation() {
    let c = parse_structured(br#"[{"x": 0.000001, "y": 1e3}, {"x": 1.0, "y": -2.50}]"#).unwrap();
    assert_eq!(
        c.get(0).unwrap().points,
        vec![Point { x: 1, y: 1_000_000_000 }, Point { x: 1_000_000, y: -2_500_000 }]
    );
}

#[test]
fn structured_entries_that_are_nothing_are_passed_over() {
    let source = br#"[
        1, "text", null, {"x": 1}, {"x": "1", "y": 2}, {"name": "n"},
        {"name": 7, "points": []},
        {"name": "kept", "points": [{"x": 1, "y": 1}, {"x": 0.0000001, "y": 1}, 5, {"y": 2}]}
    ]"#;
    let c = parse_structured(source).unwrap();
    assert_eq!(names(&c), vec!["kept".to_string()]);
    assert_eq!(c.get(0).unwrap().points, vec![point(1, 1), Point { x: 0, y: 1_000_000 }]);
}

#[test]
fn structured_datasets_of_one_name_are_joined() {
    let source = br#"[
        {"name": "a", "points": [{"x": 1, "y": 1}]},
        {"name": "b", "points": [{"x": 2, "y": 2}]},
        {"name": "a", "points": [{"x": 3, "y": 3}]}
    ]"#;
    let c = parse_structured(source).unwrap();
    assert_eq!(names(&c), vec!["a".to_string(), "b".to_string()]);
    assert_eq!(c.get(0).unwrap().points, vec![point(1, 1), point(3, 3)]);
}

#[test]
fn empty_list_has_no_dataset() {
    assert!(parse_structured(b"[]").unwrap().is_empty());
}

#[test]
fn source_that_is_no_document_is_refused() {
    assert!(matches!(
        parse_structured(b"[{\"x\": 1,"),
        Err(IngestError::StructuredFormatInvalid { .. })
    ));
    assert!(matches!(parse_structured(b""), Err(IngestError::StructuredFormatInvalid { .. })));
    assert!(matches!(
        parse_structured(b"1,2\n3,4\n"),
        Err(IngestError::StructuredFormatInvalid { .. })
    ));
}

#[test]
fn document_that_is_no_list_is_refused() {
    assert!(matches!(
        parse_structured(br#"{"x": 1, "y": 2}"#),
        Err(IngestError::StructuredFormatInvalid { .. })
    ));
    assert!(matches!(parse_structured(b"3"), Err(IngestError::StructuredFormatInvalid { .. })));
    assert!(matches!(
        datasets_from_json(&Json::Text("list".to_string())),
        Err(IngestError::StructuredFormatInvalid { .. })
    ));
}

#[test]
fn document_given_by_hand() {
    let entry = Json::Object(vec![
        ("y".to_string(), Json::Number("2".to_string())),
        ("x".to_string(), Json::Number("1".to_string())),
        ("x".to_string(), Json::Number("9".to_string())),
    ]);
    let c = datasets_from_json(&Json::Array(vec![entry, Json::Flag(true)])).unwrap();
    assert_eq!(c.get(0).unwrap().points, vec![point(1, 2)]);
}

#[test]
fn format_follows_the_extension() {
    assert_eq!(format_for_extension("csv"), Ok(Format::Tabular));
    assert_eq!(format_for_extension("json"), Ok(Format::Structured));
    assert_eq!(
        format_for_extension("xml"),
        Err(IngestError::UnsupportedFormat { extension: "xml".to_string() })
    );
    assert_eq!(
        format_for_extension(""),
        Err(IngestError::UnsupportedFormat { extension: String::new() })
    );
    assert!(format_for_extension("CSV").is_err());
}

#[test]
fn format_is_not_sniffed_from_the_content() {
    let json = br#"[{"x": 1, "y": 2}]"#;
    let c = parse(json, Format::Tabular, FLAT).unwrap();
    assert!(c.is_empty());
    assert!(parse(b"1,2\n", Format::Structured, FLAT).is_err());
}

#[test]
fn parse_by_extension_picks_the_reader() {
    let c = parse_by_extension(b"1,2\n", "csv", FLAT).unwrap();
    assert_eq!(c.get(0).unwrap().points, vec![point(1, 2)]);
    let c = parse_by_extension(br#"[{"x": 1, "y": 2}]"#, "json", FLAT).unwrap();
    assert_eq!(c.get(0).unwrap().points, vec![point(1, 2)]);
    assert!(matches!(
        parse_by_extension(b"1,2\n", "txt", FLAT),
        Err(IngestError::UnsupportedFormat { .. })
    ));
}

#[test]
fn error_messages() {
    let e = IngestError::FileUnreadable { cause: "no such file".to_string() };
    assert_eq!(e.message(), "File error: no such file");
    let e = IngestError::UnsupportedFormat { extension: "xml".to_string() };
    assert_eq!(e.message(), "Unsupported format: xml");
    let e = parse_structured(b"{").unwrap_err();
    assert!(e.message().starts_with("Serde JSON error: "));
    assert!(e.message().len() > "Serde JSON error: ".len());
}

#[test]
fn coordinate_is_written_with_all_places() {
    assert_eq!(format_coordinate(0), "0.000000");
    assert_eq!(format_coordinate(1_500_000), "1.500000");
    assert_eq!(format_coordinate(-1), "-0.000001");
    assert_eq!(format_coordinate(999_999), "0.999999");
    assert_eq!(format_coordinate(-12_000_340), "-12.000340");
    assert_eq!(format_coordinate(i64::MAX), "9223372036854.775807");
    assert_eq!(format_coordinate(i64::MIN), "-9223372036854.775808");
}

#[test]
fn written_coordinate_reads_back() {
    let mut v: i64 = 1;
    let mut values = vec![0, i64::MAX, i64::MIN, i64::MAX - 1, i64::MIN + 1];
    while v < i64::MAX / 7 {
        values.push(v);
        values.push(-v);
        values.push(v + 3);
        v = v * 7 + 1;
    }
    for v in values {
        assert_eq!(parse_coordinate(&format_coordinate(v)), Some(v));
    }
}

#[test]
fn parse_file_hands_back_the_reason_of_a_failed_read() {
    assert_eq!(
        parse_file(Err("gone".to_string()), "csv", FLAT),
        Err(IngestError::FileUnreadable { cause: "gone".to_string() })
    );
    let c = parse_file(Ok(b"1,2\n".to_vec()), "csv", FLAT).unwrap();
    assert_eq!(c.get(0).unwrap().points, vec![point(1, 2)]);
    assert!(matches!(
        parse_file(Ok(Vec::new()), "", FLAT),
        Err(IngestError::UnsupportedFormat { .. })
    ));
}

#[test]
fn refused_source_carries_what_the_reader_said() {
    for source in [&b"{"[..], b"", b"[1, 2", b"[{\"x\": 1,}]", b"nul", b"[1] 2", b"\xff"] {
        let said = serde_json::from_slice::<serde_json::Value>(source).unwrap_err().to_string();
        assert!(!said.is_empty());
        assert_eq!(
            parse_structured(source),
            Err(IngestError::StructuredFormatInvalid { cause: said.clone() })
        );
        assert_eq!(
            parse(source, Format::Structured, FLAT),
            Err(IngestError::StructuredFormatInvalid { cause: said.clone() })
        );
        assert_eq!(
            parse_file(Ok(source.to_vec()), "json", FLAT),
            Err(IngestError::StructuredFormatInvalid { cause: said.clone() })
        );
        let message = parse_structured(source).unwrap_err().message();
        assert_eq!(message, format!("Serde JSON error: {}", said));
    }
}

#[test]
fn document_that_is_no_list_carries_that_cause() {
    assert_eq!(NOT_A_LIST, "the document is not a list");
    for source in [&b"{}"[..], b"3", b"\"text\"", b"null", b"true"] {
        assert_eq!(
            parse_structured(source),
            Err(IngestError::StructuredFormatInvalid { cause: NOT_A_LIST.to_string() })
        );
    }
    assert_eq!(
        datasets_from_json(&Json::Null),
        Err(IngestError::StructuredFormatInvalid { cause: NOT_A_LIST.to_string() })
    );
}

#[test]
fn row_with_many_decimal_places_is_kept() {
    let c = parse_tabular(b"0.12345678,2.00000049\n1e-9,-7.5e-7\n", FLAT);
    assert_eq!(
        c.get(0).unwrap().points,
        vec![Point { x: 123_457, y: 2_000_000 }, Point { x: 0, y: -1 }]
    );
}

#[test]
fn row_with_a_number_beyond_the_range_is_passed_over() {
    let c = parse_tabular(b"1e13,0\n1,2\n0,-9223372036855\n", FLAT);
    assert_eq!(c.get(0).unwrap().points, vec![point(1, 2)]);
}

#[test]
fn message_tells_the_kind_and_keeps_the_cause_whole() {
    let cause = "missing field `x` at line 1 column 2".to_string();
    assert_eq!(
        IngestError::FileUnreadable { cause: cause.clone() }.message(),
        format!("File error: {}", cause)
    );
    assert_eq!(
        IngestError::StructuredFormatInvalid { cause: cause.clone() }.message(),
        format!("Serde JSON error: {}", cause)
    );
    assert_eq!(
        IngestError::StructuredFormatInvalid { cause: String::new() }.message(),
        "Serde JSON error: "
    );
    assert_eq!(
        IngestError::StructuredFormatInvalid { cause: "the document is not a list".to_string() }
            .message(),
        "Serde JSON error: the document is not a list"
    );
}
