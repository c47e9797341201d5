use zen_engine::engine::{auto_detect_preamble, date_in_range, field_contains, export_bounds, export_headers, extract_field, get_rows, infer_schema, is_json_format, json_keys, line_around, match_row_index, row_fields, search_rows, RowLayout};
use zen_engine::types::DataType;

fn plain() -> RowLayout {
    RowLayout { delimiter: b',', has_header: true, rfc_4180: false, skip_rows: 0, strip_quotes: false }
}

fn rfc(strip: bool) -> RowLayout {
    RowLayout { delimiter: b',', has_header: true, rfc_4180: true, skip_rows: 0, strip_quotes: strip }
}

#[test]
fn plain_fields() {
    let l = plain();
    let line = b"a,bb,,c";
    assert_eq!(extract_field(&l, line, 0), Some(&b"a"[..]));
    assert_eq!(extract_field(&l, line, 1), Some(&b"bb"[..]));
    assert_eq!(extract_field(&l, line, 2), Some(&b""[..]));
    assert_eq!(extract_field(&l, line, 3), Some(&b"c"[..]));
    assert_eq!(extract_field(&l, line, 4), None);
    assert_eq!(extract_field(&l, b"", 0), Some(&b""[..]));
}

#[test]
fn rfc4180_fields() {
    let line = b"1,\"x,y\",\"q\"";
    assert_eq!(extract_field(&rfc(false), line, 1), Some(&b"\"x,y\""[..]));
    assert_eq!(extract_field(&rfc(true), line, 1), Some(&b"x,y"[..]));
    assert_eq!(extract_field(&rfc(true), line, 2), Some(&b"q"[..]));
    assert_eq!(extract_field(&rfc(true), line, 3), None);
    assert_eq!(extract_field(&rfc(true), b"\"", 0), Some(&b"\""[..]));
}

fn sample() -> (Vec<u8>, Vec<u64>) {
    let data = b"name,city\nAnn,Paris\nBob,Rome\nCid,paris\n".to_vec();
    (data, vec![10, 20, 29])
}

#[test]
fn search_by_column_and_whole_line() {
    let (data, offs) = sample();
    let l = plain();
    let r = search_rows(&l, &data, &offs, "Paris", Some(1), 10, false, false);
    assert_eq!(r, vec![(1, "Ann,Paris".to_string())]);
    let r = search_rows(&l, &data, &offs, "PARIS", Some(1), 10, true, false);
    assert_eq!(r, vec![(1, "Ann,Paris".to_string()), (3, "Cid,paris".to_string())]);
    let r = search_rows(&l, &data, &offs, "o", None, 10, false, true);
    assert_eq!(r, vec![(2, String::new())]);
    let r = search_rows(&l, &data, &offs, "ARI", None, 10, true, false);
    assert_eq!(r.len(), 2);
}

#[test]
fn search_limit() {
    let (data, offs) = sample();
    let l = plain();
    assert_eq!(search_rows(&l, &data, &offs, "", None, 2, false, false).len(), 2);
    assert_eq!(search_rows(&l, &data, &offs, "", None, 0, false, false).len(), 1);
    assert!(search_rows(&l, &data, &offs, "zzz", None, 5, false, false).is_empty());
}

#[test]
fn rows_are_decoded_lossily() {
    let data = b"ok\n\xff\xfe x\n".to_vec();
    let offs = vec![0u64, 3];
    let rows = get_rows(&data, &offs, 0, 10);
    assert_eq!(rows, vec!["ok".to_string(), "\u{fffd}\u{fffd} x".to_string()]);
    assert!(get_rows(&data, &offs, 2, 1).is_empty());
    assert_eq!(get_rows(&data, &offs, 1, 2).len(), 1);
}

#[test]
fn search_text_is_trimmed() {
    let data = b"  padded row \t\n".to_vec();
    let r = search_rows(&plain(), &data, &[0], "row", None, 1, false, false);
    assert_eq!(r, vec![(1, "padded row".to_string())]);
}

#[test]
fn schema_from_header_after_preamble() {
    let data = b"title line\nid ; name ;total\n1;a;2\n";
    let l = RowLayout { delimiter: b';', has_header: true, rfc_4180: false, skip_rows: 1, strip_quotes: false };
    let cols = infer_schema(&l, data, 1);
    let names: Vec<&str> = cols.iter().map(|c| c.name.as_str()).collect();
    assert_eq!(names, vec!["id", "name", "total"]);
    assert!(cols.iter().all(|c| c.data_type == DataType::Numeric && c.format.is_none() && c.currency_symbol.is_none()));
}

#[test]
fn schema_without_header_is_one_column() {
    let l = RowLayout { delimiter: b',', has_header: false, rfc_4180: false, skip_rows: 0, strip_quotes: false };
    let cols = infer_schema(&l, b"1,2,3\n", 0);
    assert_eq!(cols.len(), 1);
    assert_eq!(cols[0].name, "col_0");
}

#[test]
fn schema_of_non_utf8_header_is_one_empty_name() {
    let cols = infer_schema(&plain(), b"a,\xff\nx\n", 0);
    assert_eq!(cols.len(), 1);
    assert_eq!(cols[0].name, "");
}

#[test]
fn json_detection() {
    assert!(is_json_format(None, b"  \n {\"a\":1}"));
    assert!(!is_json_format(None, b"a,b\n"));
    assert!(!is_json_format(None, b"   "));
    assert!(is_json_format(Some("ndjson"), b"a,b"));
    assert!(is_json_format(Some("json"), b""));
    assert!(!is_json_format(Some("csv"), b"{}"));
    assert!(!is_json_format(Some("logs"), b"{}"));
    assert!(is_json_format(Some("other"), b"{}"));
}

#[test]
fn preamble_is_zero() {
    assert_eq!(auto_detect_preamble(b"# comment\n# more\na,b\n1,2\n"), 0);
    assert_eq!(auto_detect_preamble(b""), 0);
}

#[test]
fn match_positions_map_to_rows() {
    let offs = [0u64, 4, 8];
    assert_eq!(match_row_index(&offs, true, 2), None);
    assert_eq!(match_row_index(&offs, true, 5), Some(0));
    assert_eq!(match_row_index(&offs, true, 100), Some(1));
    assert_eq!(match_row_index(&offs, false, 5), Some(1));
    assert_eq!(match_row_index(&offs, false, 4), Some(1));
    assert_eq!(match_row_index(&[], true, 42), Some(42));
    assert_eq!(match_row_index(&[3, 6], false, 1), Some(0));
    assert_eq!(match_row_index(&[3, 6], true, 1), None);
}

#[test]
fn line_around_a_match() {
    let data = b"a,b\n  hello \nlast";
    assert_eq!(line_around(data, 6), "hello");
    assert_eq!(line_around(data, 3), "a,b");
    assert_eq!(line_around(data, data.len()), "last");
    assert_eq!(line_around(b"x\xffy\n", 0), "x\u{fffd}y");
}

fn strs(v: &[&str]) -> Vec<String> {
    v.iter().map(|s| s.to_string()).collect()
}

#[test]
fn plain_row_fields_are_trimmed() {
    assert_eq!(row_fields(&plain(), b"a , b,,c "), strs(&["a", "b", "", "c"]));
    assert_eq!(row_fields(&plain(), b"x\xff,y"), strs(&[""]));
    assert_eq!(row_fields(&plain(), b""), strs(&[""]));
}

#[test]
fn quoted_row_fields() {
    assert_eq!(row_fields(&rfc(true), b"1,\"x,y\",z"), strs(&["1", "x,y", "z"]));
    assert_eq!(row_fields(&rfc(false), b"1,\"x,y\",z"), strs(&["1", "\"x,y\"", "z"]));
    assert_eq!(row_fields(&rfc(true), b""), strs(&[""]));
    assert_eq!(row_fields(&rfc(true), b"a,"), strs(&["a", ""]));
}

#[test]
fn export_header_names() {
    let l = RowLayout { delimiter: b';', has_header: true, rfc_4180: false, skip_rows: 1, strip_quotes: false };
    assert_eq!(export_headers(&l, b"\xEF\xBB\xBFa; b\n1;2\n"), strs(&["a", "b"]));
    let n = RowLayout { has_header: false, ..l };
    assert!(export_headers(&n, b"a;b\n").is_empty());
}

#[test]
fn json_keys_fall_back_to_numbered_names() {
    assert_eq!(json_keys(&[], 3), strs(&["col_0", "col_1", "col_2"]));
    assert_eq!(json_keys(&strs(&["x"]), 3), strs(&["x"]));
    assert_eq!(json_keys(&[], 11)[10], "col_10");
    assert!(json_keys(&[], 0).is_empty());
}

#[test]
fn export_row_bounds() {
    let data = b"aa\nbb\ncc";
    let offs = [0u64, 3, 6];
    assert_eq!(export_bounds(data, &offs, 0, false), (0, 2));
    assert_eq!(export_bounds(data, &offs, 1, false), (3, 5));
    assert_eq!(export_bounds(data, &offs, 2, false), (6, 8));
    assert_eq!(export_bounds(data, &offs, 0, true), (0, 2));
}

#[test]
fn date_filter_of_a_row() {
    let l = plain();
    let line = b"a,2024-03-15,x";
    assert!(date_in_range(&l, line, 1, Some(20240101), Some(20241231)));
    assert!(date_in_range(&l, line, 1, None, None));
    assert!(date_in_range(&l, line, 1, Some(20240315), Some(20240315)));
    assert!(!date_in_range(&l, line, 1, Some(20240316), None));
    assert!(!date_in_range(&l, line, 1, None, Some(20240314)));
    // no date in the field, or no such field
    assert!(!date_in_range(&l, line, 0, None, None));
    assert!(!date_in_range(&l, line, 7, None, None));
}

#[test]
fn text_filter_of_a_row() {
    let l = plain();
    let line = b"alpha,needle in hay,z";
    assert!(field_contains(&l, line, 1, b"needle"));
    assert!(!field_contains(&l, line, 0, b"needle"));
    assert!(!field_contains(&l, line, 9, b"a"));
    assert!(field_contains(&l, line, 2, b""));
}
