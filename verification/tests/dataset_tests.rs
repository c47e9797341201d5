use zen_engine::dataset::{correlation_source, find_engine, row_spans, total_row_count, unify_columns};

#[test]
fn spans_across_files() {
    let counts = [3usize, 0, 4, 2];
    assert_eq!(total_row_count(&counts), 9);
    assert_eq!(row_spans(&counts, 2, 6), vec![(0, 2, 3), (2, 0, 3)]);
    assert_eq!(row_spans(&counts, 0, 100), vec![(0, 0, 3), (2, 0, 4), (3, 0, 2)]);
    assert!(row_spans(&counts, 5, 5).is_empty());
    assert!(row_spans(&counts, 20, 30).is_empty());
}

#[test]
fn covered_rows_match_the_range() {
    let counts = [5usize, 1, 7];
    for (s, e) in [(0usize, 13usize), (4, 9), (6, 6), (12, 40)] {
        let covered: usize = row_spans(&counts, s, e).iter().map(|p| p.2 - p.1).sum();
        let hi = e.min(13);
        assert_eq!(covered, hi.saturating_sub(s));
    }
}

#[test]
fn columns_merge_by_trimmed_lowercase_name() {
    let files: Vec<Vec<String>> = vec![
        vec!["Name".to_string(), " AGE ".to_string()],
        vec!["age".to_string(), "City".to_string(), "name".to_string()],
        vec![],
    ];
    let u = unify_columns(&files);
    assert_eq!(u.first, vec![(0, 0), (0, 1), (1, 1)]);
    assert_eq!(u.targets, vec![vec![0, 1], vec![1, 2, 0], vec![]]);
}

#[test]
fn correlations_come_from_the_largest_file() {
    use_correlation_source();
}

fn use_correlation_source() {
    let f = correlation_source;
    assert_eq!(f(&[0, 5, 3, 5]), Some(1));
    assert_eq!(f(&[0, 0]), None);
    assert_eq!(f(&[]), None);
    assert_eq!(f(&[7]), Some(0));
}

#[test]
fn edits_go_to_the_first_matching_file() {
    let paths: Vec<String> = ["/d/sales_2023.csv", "/d/sales_2024.csv", "/e/sales_2024.csv"]
        .iter()
        .map(|s| s.to_string())
        .collect();
    assert_eq!(find_engine(&paths, "2024"), Some(1));
    assert_eq!(find_engine(&paths, "sales"), Some(0));
    assert_eq!(find_engine(&paths, "/e/"), Some(2));
    assert_eq!(find_engine(&paths, "2025"), None);
}

fn expand(spans: &[(usize, usize, usize)]) -> Vec<(usize, usize)> {
    spans.iter().flat_map(|&(f, a, b)| (a..b).map(move |k| (f, k))).collect()
}

#[test]
fn adjacent_row_ranges_join() {
    let counts = [3usize, 0, 4, 2];
    let total = 9;
    for a in 0..=11 {
        for b in a..=11 {
            for c in b..=11 {
                let whole = expand(&row_spans(&counts, a, c));
                let mut joined = expand(&row_spans(&counts, a, b));
                let first = joined.len();
                joined.extend(expand(&row_spans(&counts, b, c)));
                assert_eq!(whole, joined);
                assert_eq!(first, b.min(total) - a.min(total));
            }
        }
    }
}
