use zen_engine::report::{card_title, category_label, column_year, detection_label, executive_facts, profile_label, ColumnFacts};
use zen_engine::types::DataType;

fn col(name: &str, count: u64, nulls: u64, distinct: u64, categorical: bool, cats: &[&str]) -> ColumnFacts {
    ColumnFacts {
        name: name.to_string(),
        count,
        null_count: nulls,
        distinct_count: distinct,
        is_categorical: categorical,
        categories: cats.iter().map(|s| s.to_string()).collect(),
    }
}

#[test]
fn years_from_column_names() {
    assert_eq!(column_year("2019"), Some(2019));
    assert_eq!(column_year("\"\"2020\""), Some(2020));
    assert_eq!(column_year("+1999"), Some(1999));
    assert_eq!(column_year("1900"), None);
    assert_eq!(column_year("2100"), None);
    assert_eq!(column_year("20x9"), None);
    assert_eq!(column_year("99999999999999999999"), None);
    assert_eq!(column_year("-2000"), None);
    assert_eq!(column_year("+"), None);
    assert_eq!(column_year("\"\""), None);
    assert_eq!(column_year("02019"), Some(2019));
}

#[test]
fn executive_summary_facts() {
    let cols = vec![
        col("2021", 10, 2, 0, false, &[]),
        col("Series Name", 5, 0, 3, true, &["GDP", "", "Pop", "GDP"]),
        col("Country", 5, 1, 40, true, &[]),
        col("2019", 0, 7, 0, false, &[]),
        col("indicator code", 3, 0, 2, true, &["Pop", "Life"]),
        col("Location", 4, 0, 12, true, &[]),
    ];
    let f = executive_facts("data/wb.csv", &cols);
    assert_eq!(f.years, vec![2019, 2021]);
    assert_eq!(f.indicators, vec!["GDP".to_string(), "Pop".to_string(), "Life".to_string()]);
    assert_eq!(f.locations, 40);
    assert_eq!(f.total_nulls, 3);
    assert_eq!(f.total_values, 30);
    assert!(!f.is_dir);
    assert!(executive_facts("data/", &[]).is_dir);
    assert!(executive_facts("folder", &[]).is_dir);
}

#[test]
fn card_labels() {
    assert_eq!(card_title("price"), "\"price\"");
    assert_eq!(card_title("\"q\""), "\"q\"");
    assert_eq!(card_title("  "), "\"_unnamed_\"");
    assert_eq!(card_title("\""), "\"");
    assert_eq!(profile_label(true, Some(DataType::IP)), "Network: IPv4/v6");
    assert_eq!(profile_label(true, None), "Categorical");
    assert_eq!(profile_label(false, Some(DataType::Date)), "Temporal/Date");
    assert_eq!(profile_label(false, Some(DataType::IP)), "Numeric/Float");
    assert_eq!(detection_label(true, true, false), "Constante");
    assert_eq!(detection_label(false, true, true), "Incremental (ID?)");
    assert_eq!(detection_label(false, false, true), "Decremental");
    assert_eq!(detection_label(false, false, false), "Variable");
}

#[test]
fn category_labels_are_cut_on_character_boundaries() {
    assert_eq!(category_label("short"), ("short", false));
    assert_eq!(category_label("exactly12byt"), ("exactly12byt", false));
    assert_eq!(category_label("abcdefghijklm"), ("abcdefghi", true));
    // The euro sign spans bytes 8..11, so the cut falls before it.
    assert_eq!(category_label("abcdefgh\u{20ac}xyz"), ("abcdefgh", true));
}
