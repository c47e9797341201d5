use zen_engine::blueprint::{formula_shape, FormulaOp, OperandRef};

fn strs(v: &[&str]) -> Vec<String> {
    v.iter().map(|s| s.to_string()).collect()
}

fn col(o: &OperandRef) -> Option<usize> {
    match o {
        OperandRef::Column(i) => Some(*i),
        OperandRef::Literal(_) => None,
    }
}

fn lit(o: &OperandRef) -> Option<String> {
    match o {
        OperandRef::Column(_) => None,
        OperandRef::Literal(s) => Some(s.clone()),
    }
}

#[test]
fn formula_with_two_columns() {
    let h = strs(&["price", "cost", "price"]);
    let f = formula_shape("  price -\tcost ", &h).expect("three words");
    assert_eq!(col(&f.left), Some(0));
    assert_eq!(f.op, Some(FormulaOp::Sub));
    assert_eq!(col(&f.right), Some(1));
}

#[test]
fn formula_with_a_constant_and_unknown_operator() {
    let h = strs(&["a"]);
    let f = formula_shape("a % 2.5", &h).expect("three words");
    assert_eq!(col(&f.left), Some(0));
    assert_eq!(f.op, None);
    assert_eq!(lit(&f.right), Some("2.5".to_string()));
    let g = formula_shape("x / y", &h).expect("three words");
    assert_eq!(lit(&g.left), Some("x".to_string()));
    assert_eq!(g.op, Some(FormulaOp::Div));
}

#[test]
fn formula_needs_three_words() {
    assert!(formula_shape("a+b", &strs(&["a", "b"])).is_none());
    assert!(formula_shape("a + b + c", &strs(&["a"])).is_none());
    assert!(formula_shape("", &[]).is_none());
}
