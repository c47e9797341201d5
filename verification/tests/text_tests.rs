use zen_engine::text::{chars_eq, chars_lt, stable_order_by_text};

fn strs(v: &[&str]) -> Vec<String> {
    v.iter().map(|s| s.to_string()).collect()
}

#[test]
fn stable_order_sorts_by_name_keeping_ties_in_place() {
    assert_eq!(stable_order_by_text(&strs(&["b", "a", "b", "c", "a"])), vec![1, 4, 0, 2, 3]);
    assert_eq!(stable_order_by_text(&strs(&["Z", "a", ""])), vec![2, 0, 1]);
    assert!(stable_order_by_text(&[]).is_empty());
}

#[test]
fn code_point_order() {
    let c = |s: &str| s.chars().collect::<Vec<char>>();
    assert!(chars_lt(&c("ab"), &c("b")));
    assert!(chars_lt(&c("a"), &c("ab")));
    assert!(!chars_lt(&c("ab"), &c("ab")));
    assert!(chars_lt(&c("Z"), &c("a")));
    assert!(chars_lt(&c(""), &c("a")));
    assert!(chars_eq(&c("é"), &c("é")));
    assert!(!chars_eq(&c("e"), &c("é")));
}
