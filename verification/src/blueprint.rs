//! Derived-column formulas of a blueprint: `left op right`, each operand a column
//! named by its header or a constant. This module reads the shape of a formula; the
//! constants and the arithmetic are floating point and belong to the caller.
use vstd::prelude::*;
use crate::discovery::{split_words, words_from};
use crate::text::{chars_eq, chars_of, string_from_chars, strings_view};

verus! {

/// The operation of a derived column.
#[derive(Debug, Clone, Copy, PartialEq, Eq, Structural)]
pub enum FormulaOp {
    Add,
    Sub,
    Mul,
    Div,
}

/// Where an operand comes from: the column whose header has its name, or, when no
/// header does, its own text (to be read as a constant).
pub enum OperandRef {
    Column(usize),
    Literal(String),
}

pub enum OperandView {
    Column(usize),
    Literal(Seq<char>),
}

impl View for OperandRef {
    type V = OperandView;

    open spec fn view(&self) -> OperandView {
        match self {
            OperandRef::Column(i) => OperandView::Column(*i),
            OperandRef::Literal(s) => OperandView::Literal(s@),
        }
    }
}

/// The parts of a formula `left op right`.
pub struct FormulaShape {
    pub left: OperandRef,
    pub op: Option<FormulaOp>,
    pub right: OperandRef,
}

/// Index of the first header equal to `name`.
pub open spec fn first_header(headers: Seq<Seq<char>>, name: Seq<char>, i: int) -> Option<usize>
    decreases headers.len() - i,
{
    if i < 0 || i >= headers.len() {
        None
    } else if headers[i] == name {
        Some(i as usize)
    } else {
        first_header(headers, name, i + 1)
    }
}

pub open spec fn operand_of(headers: Seq<Seq<char>>, word: Seq<char>) -> OperandView {
    match first_header(headers, word, 0) {
        Some(i) => OperandView::Column(i),
        None => OperandView::Literal(word),
    }
}

pub open spec fn op_of(word: Seq<char>) -> Option<FormulaOp> {
    if word == seq!['+'] {
        Some(FormulaOp::Add)
    } else if word == seq!['-'] {
        Some(FormulaOp::Sub)
    } else if word == seq!['*'] {
        Some(FormulaOp::Mul)
    } else if word == seq!['/'] {
        Some(FormulaOp::Div)
    } else {
        None
    }
}

/// A formula has a shape when its text is exactly three words (split at white
/// space): the left operand, the operator and the right operand.
pub open spec fn spec_formula_shape(expression: Seq<char>, headers: Seq<Seq<char>>) -> Option<
    (OperandView, Option<FormulaOp>, OperandView),
> {
    let w = words_from(expression, 0);
    if w.len() == 3 {
        Some((operand_of(headers, w[0]), op_of(w[1]), operand_of(headers, w[2])))
    } else {
        None
    }
}

fn operand(headers: &Vec<Vec<char>>, word: &Vec<char>, Ghost(hv): Ghost<Seq<Seq<char>>>) -> (r: OperandRef)
    requires
        hv == headers@.map_values(|h: Vec<char>| h@),
    ensures
        r@ == operand_of(hv, word@),
{
    let mut i: usize = 0;
    while i < headers.len()
        invariant
            i <= headers@.len(),
            hv == headers@.map_values(|h: Vec<char>| h@),
            first_header(hv, word@, 0) == first_header(hv, word@, i as int),
        decreases headers@.len() - i,
    {
        if chars_eq(headers[i].as_slice(), word.as_slice()) {
            return OperandRef::Column(i);
        }
        i = i + 1;
    }
    OperandRef::Literal(string_from_chars(word.as_slice()))
}

fn op_word(word: &Vec<char>) -> (r: Option<FormulaOp>)
    ensures
        r == op_of(word@),
{
    if word.len() != 1 {
        proof {
            assert(word@ != seq!['+'] && word@ != seq!['-'] && word@ != seq!['*'] && word@ != seq!['/']);
        }
        return None;
    }
    let c = word[0];
    proof {
        assert(word@ =~= seq![c]);
    }
    if c == '+' {
        Some(FormulaOp::Add)
    } else if c == '-' {
        Some(FormulaOp::Sub)
    } else if c == '*' {
        Some(FormulaOp::Mul)
    } else if c == '/' {
        Some(FormulaOp::Div)
    } else {
        None
    }
}

/// Reads a formula's shape against the headers of its file (see `spec_formula_shape`).
pub fn formula_shape(expression: &str, headers: &[String]) -> (r: Option<FormulaShape>)
    ensures
        match r {
            Some(f) => spec_formula_shape(expression@, strings_view(headers@)) == Some((f.left@, f.op, f.right@)),
            None => spec_formula_shape(expression@, strings_view(headers@)) is None,
        },
{
    let words = split_words(expression);
    if words.len() != 3 {
        return None;
    }
    let mut hs: Vec<Vec<char>> = Vec::new();
    let mut k: usize = 0;
    while k < headers.len()
        invariant
            k <= headers@.len(),
            hs@.map_values(|h: Vec<char>| h@) == strings_view(headers@.take(k as int)),
        decreases headers@.len() - k,
    {
        let ghost before = hs@.map_values(|h: Vec<char>| h@);
        let cs = chars_of(headers[k].as_str());
        hs.push(cs);
        proof {
            assert(hs@.map_values(|h: Vec<char>| h@) =~= before.push(cs@));
            assert(strings_view(headers@.take(k + 1)) =~= strings_view(headers@.take(k as int)).push(
                headers@[k as int]@,
            ));
        }
        k = k + 1;
    }
    let ghost hv = strings_view(headers@);
    proof {
        assert(headers@.take(headers@.len() as int) =~= headers@);
        assert(words@[0]@ == words_from(expression@, 0)[0]);
        assert(words@[1]@ == words_from(expression@, 0)[1]);
        assert(words@[2]@ == words_from(expression@, 0)[2]);
    }
    let left = operand(&hs, &words[0], Ghost(hv));
    let op = op_word(&words[1]);
    let right = operand(&hs, &words[2], Ghost(hv));
    Some(FormulaShape { left, op, right })
}

} // verus!
