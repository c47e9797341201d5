use zen_engine::history::{
    chrono_now, days_to_ymd, format_timestamp, is_leap, record_id, sanitize, ConfigManager,
    DiffStatus, HistoryManager,
};

#[test]
fn leap_years() {
    assert!(is_leap(2000));
    assert!(is_leap(2024));
    assert!(!is_leap(1900));
    assert!(!is_leap(2023));
}

#[test]
fn calendar_dates() {
    assert_eq!(days_to_ymd(0), (1970, 1, 1));
    assert_eq!(days_to_ymd(31), (1970, 2, 1));
    assert_eq!(days_to_ymd(19782), (2024, 2, 29));
    assert_eq!(days_to_ymd(11322), (2000, 12, 31));
}

#[test]
fn timestamps() {
    assert_eq!(format_timestamp(0), "1970-01-01T00:00:00Z");
    assert_eq!(format_timestamp(86399), "1970-01-01T23:59:59Z");
    assert_eq!(format_timestamp(951782400), "2000-02-29T00:00:00Z");
    assert_eq!(format_timestamp(1700000000), "2023-11-14T22:13:20Z");
    assert_eq!(format_timestamp(4102444799), "2099-12-31T23:59:59Z");
    let now = chrono_now();
    assert_eq!(now.len(), 20);
    assert!(now.ends_with('Z'));
}

#[test]
fn sanitized_names() {
    assert_eq!(sanitize("/data/my-file.v2.csv"), "my_file_v2");
    assert_eq!(sanitize("ñandú data.csv"), "ñandú_data");
    assert_eq!(sanitize(""), "file");
    assert_eq!(sanitize("/"), "file");
    assert_eq!(sanitize(".hidden"), "_hidden");
}

#[test]
fn record_ids() {
    assert_eq!(record_id("/x/logs.csv", "2024-01-02T03:04:05Z"), "logs-2024-01-02T03-04-05");
}

#[test]
fn manager_paths() {
    assert_eq!(HistoryManager::new(Some("/home/u")).path, "/home/u/.zen-engine-history.json");
    assert_eq!(HistoryManager::new(Some("/home/u/")).path, "/home/u/.zen-engine-history.json");
    assert_eq!(HistoryManager::new(None).path, "./.zen-engine-history.json");
    assert_eq!(ConfigManager::new(Some("/r")).path, "/r/.zen-engine-config.json");
}

#[test]
fn deleting_the_records_of_a_file() {
    let h = HistoryManager::new(None);
    let paths = vec!["a.csv".to_string(), "b.csv".to_string(), "a.csv".to_string()];
    let (kept, removed) = h.delete_for(&paths, "a.csv");
    assert_eq!(kept, vec![1]);
    assert_eq!(removed, 2);
    let (kept, removed) = h.delete_for(&paths, "c.csv");
    assert_eq!(kept, vec![0, 1, 2]);
    assert_eq!(removed, 0);
}

#[test]
fn compare_pairs_columns_by_name() {
    let a: Vec<String> = ["b", "a", "c", "a"].iter().map(|s| s.to_string()).collect();
    let b: Vec<String> = ["c", "d", "B"].iter().map(|s| s.to_string()).collect();
    let r = HistoryManager::compare_columns(&a, &b);
    let got: Vec<(String, DiffStatus, Option<usize>, Option<usize>)> =
        r.into_iter().map(|p| (p.column, p.status, p.a_index, p.b_index)).collect();
    assert_eq!(
        got,
        vec![
            ("B".to_string(), DiffStatus::OnlyInB, None, Some(2)),
            ("a".to_string(), DiffStatus::OnlyInA, Some(3), None),
            ("b".to_string(), DiffStatus::OnlyInA, Some(0), None),
            ("c".to_string(), DiffStatus::Changed, Some(2), Some(0)),
            ("d".to_string(), DiffStatus::OnlyInB, None, Some(1)),
        ]
    );
}

#[test]
fn compare_of_empty_scans_is_empty() {
    assert!(HistoryManager::compare_columns(&[], &[]).is_empty());
}

#[test]
fn listing_filters_by_path_substring() {
    let m = HistoryManager::new(Some("/home/u"));
    let paths: Vec<String> = ["/d/a.csv", "/d/b.csv", "/e/a.csv"].iter().map(|s| s.to_string()).collect();
    assert_eq!(m.list(&paths, None), vec![0, 1, 2]);
    assert_eq!(m.list(&paths, Some("a.csv")), vec![0, 2]);
    assert_eq!(m.list(&paths, Some("/d/")), vec![0, 1]);
    assert_eq!(m.list(&paths, Some("zzz")), Vec::<usize>::new());
    assert_eq!(m.list(&paths, Some("")), vec![0, 1, 2]);
}

#[test]
fn latest_record_is_the_last_with_that_path() {
    let m = HistoryManager::new(None);
    let paths: Vec<String> = ["/d/a.csv", "/d/b.csv", "/d/a.csv"].iter().map(|s| s.to_string()).collect();
    assert_eq!(m.latest_for(&paths, "/d/a.csv"), Some(2));
    assert_eq!(m.latest_for(&paths, "/d/b.csv"), Some(1));
    assert_eq!(m.latest_for(&paths, "a.csv"), None);
}

#[test]
fn record_id_takes_the_first_nineteen_bytes() {
    // Two 2-byte characters and 15 ASCII bytes make the first 19 bytes.
    assert_eq!(record_id("/x/a.csv", "\u{e9}\u{e9}2024-01-02T03:04:05Z"), "a-\u{e9}\u{e9}2024-01-02T03-0");
}
