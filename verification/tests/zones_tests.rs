use zen_engine::engine::RowLayout;
use zen_engine::zones::{check_zone_columns, detect_num_cols, zone_layout, ColumnMismatch, ZoneBounds};
use zen_engine::index::{build_index_data, INDEX_CHUNK_SIZE};

fn layout(delimiter: u8, has_header: bool, skip_rows: usize) -> RowLayout {
    RowLayout { delimiter, has_header, rfc_4180: false, skip_rows, strip_quotes: false }
}

fn zb(start_row: u64, end_row: u64, start_offset: u64, end_offset: u64) -> ZoneBounds {
    ZoneBounds { start_row, end_row, start_offset, end_offset }
}

#[test]
fn zones_of_two_rows() {
    let data = b"h1,h2\n1,2\n3,4\n5,6\n";
    let z = zone_layout(&layout(b',', true, 0), data, 2);
    assert_eq!(z.num_cols, 2);
    assert_eq!(z.zones, vec![zb(0, 2, 6, 14), zb(2, 3, 14, 18)]);
}

#[test]
fn zone_size_zero_gives_one_row_per_zone() {
    let data = b"h1,h2\n1,2\n3,4\n5,6\n";
    let z = zone_layout(&layout(b',', true, 0), data, 0);
    assert_eq!(z.zones, vec![zb(0, 1, 6, 10), zb(1, 2, 10, 14), zb(2, 3, 14, 18)]);
}

#[test]
fn large_zone_size_gives_one_zone() {
    let data = b"1,2\n3,4\n";
    let z = zone_layout(&layout(b',', false, 0), data, 1000);
    assert_eq!(z.num_cols, 2);
    assert_eq!(z.zones, vec![zb(0, 2, 0, 8)]);
}

#[test]
fn header_only_file_has_no_zones() {
    let z = zone_layout(&layout(b',', true, 0), b"a,b\n", 10);
    assert_eq!(z.num_cols, 0);
    assert!(z.zones.is_empty());
}

#[test]
fn bom_preamble_and_header_are_skipped() {
    let data = b"\xEF\xBB\xBFtitle\nx;y;z\n1;2;3";
    let l = layout(b';', true, 1);
    assert_eq!(detect_num_cols(&l, data), 3);
    let z = zone_layout(&l, data, 4);
    assert_eq!(z.zones, vec![zb(0, 1, 15, 20)]);
}

#[test]
fn non_utf8_first_row_has_no_columns() {
    assert_eq!(detect_num_cols(&layout(b',', false, 0), b"a,\xff\n1,2\n"), 0);
    assert_eq!(detect_num_cols(&layout(b',', false, 0), b"a,b,c\n"), 3);
    assert_eq!(detect_num_cols(&layout(b',', false, 0), b"\nfoo"), 0);
}

#[test]
fn stored_column_count_is_checked() {
    let data = b"a,b\n1,2\n";
    let l = layout(b',', true, 0);
    assert_eq!(check_zone_columns(0, &l, data), Ok(()));
    assert_eq!(check_zone_columns(2, &l, data), Ok(()));
    assert_eq!(check_zone_columns(3, &l, data), Err(ColumnMismatch { actual: 2, stored: 3 }));
}

#[test]
fn zones_count_the_rows_of_the_index() {
    let data = b"h1,h2\n1,2\n3,4\n\n5,6\n7,8";
    let l = layout(b',', true, 0);
    let index = build_index_data(data, 0, true, INDEX_CHUNK_SIZE);
    for zone_size in [0u64, 1, 2, 3, 100] {
        let z = zone_layout(&l, data, zone_size);
        assert_eq!(z.zones.last().unwrap().end_row as usize, index.offsets.len());
        assert_eq!(z.zones[0].start_row, 0);
    }
}
