//! The row-filter language: `$3 > 100 AND ($1 == "x" || $2 != 'y')`.
//! Tokenizer and recursive-descent parser; numerals are kept as their text.
use vstd::prelude::*;
use crate::text::{trim, trimmed, chars_of, unicode_white_space, char_is_whitespace, unicode_alphabetic, char_is_alphabetic, string_from_chars};

verus! {

pub open spec fn is_digit(c: char) -> bool {
    '0' <= c <= '9'
}

/// A token of the filter language. Numbers keep the text of their numeral.
#[derive(Debug, Clone, PartialEq)]
pub enum Token {
    ColRef(usize),
    Number(String),
    String(String),
    And,
    Or,
    Eq,
    Neq,
    Gt,
    Gte,
    Lt,
    Lte,
    LParen,
    RParen,
}

/// The mathematical form of a token.
pub enum TokenView {
    ColRef(usize),
    Number(Seq<char>),
    Str(Seq<char>),
    And,
    Or,
    Eq,
    Neq,
    Gt,
    Gte,
    Lt,
    Lte,
    LParen,
    RParen,
}

impl View for Token {
    type V = TokenView;

    open spec fn view(&self) -> TokenView {
        match self {
            Token::ColRef(c) => TokenView::ColRef(*c),
            Token::Number(n) => TokenView::Number(n@),
            Token::String(s) => TokenView::Str(s@),
            Token::And => TokenView::And,
            Token::Or => TokenView::Or,
            Token::Eq => TokenView::Eq,
            Token::Neq => TokenView::Neq,
            Token::Gt => TokenView::Gt,
            Token::Gte => TokenView::Gte,
            Token::Lt => TokenView::Lt,
            Token::Lte => TokenView::Lte,
            Token::LParen => TokenView::LParen,
            Token::RParen => TokenView::RParen,
        }
    }
}

/// Why a filter expression is refused.
#[derive(Debug, Clone, PartialEq)]
pub enum FilterError {
    /// `$` not followed by a digit.
    ExpectedColumnIndex,
    /// The column index after `$` does not fit a `usize`.
    ColumnIndexTooLarge,
    /// A quote that is never closed.
    UnterminatedString,
    /// A numeral with more than one decimal point.
    InvalidNumber,
    /// `!` not followed by `=`.
    UnexpectedBang,
    /// `&` not followed by `&`.
    ExpectedAnd,
    /// `|` not followed by `|`.
    ExpectedOr,
    /// A word other than `AND` / `OR`.
    UnexpectedKeyword(String),
    /// A character that starts no token.
    UnexpectedChar(char),
    /// `(` without its `)`.
    ExpectedClosingParen,
    /// A comparison that does not start with `$n`.
    ExpectedColumnRef,
    /// A comparison without its operator.
    ExpectedOperator,
    /// A comparison without its number or string.
    ExpectedValue,
    /// Tokens left after a complete expression.
    TrailingTokens,
}

/// The mathematical form of a refusal.
pub enum FilterErrorView {
    ExpectedColumnIndex,
    ColumnIndexTooLarge,
    UnterminatedString,
    InvalidNumber,
    UnexpectedBang,
    ExpectedAnd,
    ExpectedOr,
    UnexpectedKeyword(Seq<char>),
    UnexpectedChar(char),
    ExpectedClosingParen,
    ExpectedColumnRef,
    ExpectedOperator,
    ExpectedValue,
    TrailingTokens,
}

impl View for FilterError {
    type V = FilterErrorView;

    open spec fn view(&self) -> FilterErrorView {
        match self {
            FilterError::ExpectedColumnIndex => FilterErrorView::ExpectedColumnIndex,
            FilterError::ColumnIndexTooLarge => FilterErrorView::ColumnIndexTooLarge,
            FilterError::UnterminatedString => FilterErrorView::UnterminatedString,
            FilterError::InvalidNumber => FilterErrorView::InvalidNumber,
            FilterError::UnexpectedBang => FilterErrorView::UnexpectedBang,
            FilterError::ExpectedAnd => FilterErrorView::ExpectedAnd,
            FilterError::ExpectedOr => FilterErrorView::ExpectedOr,
            FilterError::UnexpectedKeyword(w) => FilterErrorView::UnexpectedKeyword(w@),
            FilterError::UnexpectedChar(c) => FilterErrorView::UnexpectedChar(*c),
            FilterError::ExpectedClosingParen => FilterErrorView::ExpectedClosingParen,
            FilterError::ExpectedColumnRef => FilterErrorView::ExpectedColumnRef,
            FilterError::ExpectedOperator => FilterErrorView::ExpectedOperator,
            FilterError::ExpectedValue => FilterErrorView::ExpectedValue,
            FilterError::TrailingTokens => FilterErrorView::TrailingTokens,
        }
    }
}

/// First index at or after `i` whose character fails `p` (or the length).
pub open spec fn run_end(cs: Seq<char>, i: int, p: spec_fn(char) -> bool) -> int
    decreases cs.len() - i,
{
    if i < 0 || i >= cs.len() {
        cs.len() as int
    } else if !p(cs[i]) {
        i
    } else {
        run_end(cs, i + 1, p)
    }
}

pub proof fn lemma_run_end(cs: Seq<char>, i: int, p: spec_fn(char) -> bool)
    requires
        0 <= i <= cs.len(),
    ensures
        i <= run_end(cs, i, p) <= cs.len(),
        forall|j: int| i <= j < run_end(cs, i, p) ==> p(#[trigger] cs[j]),
        run_end(cs, i, p) < cs.len() ==> !p(cs[run_end(cs, i, p)]),
    decreases cs.len() - i,
{
    if i < cs.len() && p(cs[i]) {
        lemma_run_end(cs, i + 1, p);
    }
}

pub open spec fn digit_char() -> spec_fn(char) -> bool {
    |c: char| is_digit(c)
}

pub open spec fn numeral_char() -> spec_fn(char) -> bool {
    |c: char| is_digit(c) || c == '.'
}

pub open spec fn word_char() -> spec_fn(char) -> bool {
    |c: char| unicode_alphabetic(c)
}

pub open spec fn other_than(q: char) -> spec_fn(char) -> bool {
    |c: char| c != q
}

pub open spec fn digit_end(cs: Seq<char>, i: int) -> int {
    run_end(cs, i, digit_char())
}

pub open spec fn numeral_end(cs: Seq<char>, i: int) -> int {
    run_end(cs, i, numeral_char())
}

pub open spec fn word_end(cs: Seq<char>, i: int) -> int {
    run_end(cs, i, word_char())
}

pub open spec fn quote_end(cs: Seq<char>, i: int, q: char) -> int {
    run_end(cs, i, other_than(q))
}

/// Decimal value of a string of digits.
pub open spec fn decimal_value(ds: Seq<char>) -> nat
    decreases ds.len(),
{
    if ds.len() == 0 {
        0
    } else {
        decimal_value(ds.drop_last()) * 10 + ((ds.last() as u32) - ('0' as u32)) as nat
    }
}

/// Number of `.` in a character string.
pub open spec fn dot_count(cs: Seq<char>) -> nat
    decreases cs.len(),
{
    if cs.len() == 0 {
        0
    } else {
        dot_count(cs.drop_last()) + if cs.last() == '.' {
            1nat
        } else {
            0nat
        }
    }
}

/// `c` is `l` or, when `c` is an ASCII capital, its lowercase is `l`.
pub open spec fn ci_char_eq(c: char, l: char) -> bool {
    c == l || ('A' <= c <= 'Z' && (c as u32) + 32 == l as u32)
}

/// ASCII-case-insensitive equality with a lowercase word.
pub open spec fn ci_equals(w: Seq<char>, lower: Seq<char>) -> bool {
    w.len() == lower.len() && forall|k: int| 0 <= k < w.len() ==> ci_char_eq(#[trigger] w[k], lower[k])
}

/// One step of the tokenizer at `i < cs.len()`: the token read there (none for
/// whitespace) and the index after it, or the refusal.
pub open spec fn token_at(cs: Seq<char>, i: int) -> Result<(Option<TokenView>, int), FilterErrorView> {
    let c = cs[i];
    let n = cs.len() as int;
    let next_is = |ch: char| i + 1 < n && cs[i + 1] == ch;
    if unicode_white_space(c) {
        Ok((None, i + 1))
    } else if c == '$' {
        let e = digit_end(cs, i + 1);
        if e == i + 1 {
            Err(FilterErrorView::ExpectedColumnIndex)
        } else if decimal_value(cs.subrange(i + 1, e)) > usize::MAX {
            Err(FilterErrorView::ColumnIndexTooLarge)
        } else {
            Ok((Some(TokenView::ColRef(decimal_value(cs.subrange(i + 1, e)) as usize)), e))
        }
    } else if c == '"' || c == '\'' {
        let e = quote_end(cs, i + 1, c);
        if e >= n {
            Err(FilterErrorView::UnterminatedString)
        } else {
            Ok((Some(TokenView::Str(cs.subrange(i + 1, e))), e + 1))
        }
    } else if is_digit(c) || (c == '-' && i + 1 < n && is_digit(cs[i + 1])) {
        let e = if c == '-' {
            numeral_end(cs, i + 1)
        } else {
            numeral_end(cs, i)
        };
        if dot_count(cs.subrange(i, e)) > 1 {
            Err(FilterErrorView::InvalidNumber)
        } else {
            Ok((Some(TokenView::Number(cs.subrange(i, e))), e))
        }
    } else if c == '(' {
        Ok((Some(TokenView::LParen), i + 1))
    } else if c == ')' {
        Ok((Some(TokenView::RParen), i + 1))
    } else if c == '=' {
        Ok((Some(TokenView::Eq), if next_is('=') { i + 2 } else { i + 1 }))
    } else if c == '!' {
        if next_is('=') {
            Ok((Some(TokenView::Neq), i + 2))
        } else {
            Err(FilterErrorView::UnexpectedBang)
        }
    } else if c == '>' {
        if next_is('=') {
            Ok((Some(TokenView::Gte), i + 2))
        } else {
            Ok((Some(TokenView::Gt), i + 1))
        }
    } else if c == '<' {
        if next_is('=') {
            Ok((Some(TokenView::Lte), i + 2))
        } else {
            Ok((Some(TokenView::Lt), i + 1))
        }
    } else if c == '&' {
        if next_is('&') {
            Ok((Some(TokenView::And), i + 2))
        } else {
            Err(FilterErrorView::ExpectedAnd)
        }
    } else if c == '|' {
        if next_is('|') {
            Ok((Some(TokenView::Or), i + 2))
        } else {
            Err(FilterErrorView::ExpectedOr)
        }
    } else {
        let e = word_end(cs, i);
        let w = cs.subrange(i, e);
        if ci_equals(w, seq!['a', 'n', 'd']) {
            Ok((Some(TokenView::And), e))
        } else if ci_equals(w, seq!['o', 'r']) {
            Ok((Some(TokenView::Or), e))
        } else if w.len() > 0 {
            Err(FilterErrorView::UnexpectedKeyword(w))
        } else {
            Err(FilterErrorView::UnexpectedChar(c))
        }
    }
}


proof fn lemma_token_at_advances(cs: Seq<char>, i: int)
    requires
        0 <= i < cs.len(),
    ensures
        token_at(cs, i) matches Ok((_, j)) ==> i < j <= cs.len(),
{
    let c = cs[i];
    lemma_run_end(cs, i + 1, digit_char());
    lemma_run_end(cs, i + 1, other_than(c));
    lemma_run_end(cs, i + 1, numeral_char());
    lemma_run_end(cs, i, numeral_char());
    lemma_run_end(cs, i, word_char());
}

/// The tokens of `cs[i..]`, or the first refusal met.
pub open spec fn tokenize_from(cs: Seq<char>, i: int) -> Result<Seq<TokenView>, FilterErrorView>
    decreases cs.len() - i,
    via tokenize_from_decreases
{
    if i < 0 || i >= cs.len() {
        Ok(Seq::empty())
    } else {
        match token_at(cs, i) {
            Err(e) => Err(e),
            Ok((t, j)) => match tokenize_from(cs, j) {
                Err(e) => Err(e),
                Ok(rest) => Ok(
                    match t {
                        Some(tk) => seq![tk] + rest,
                        None => rest,
                    },
                ),
            },
        }
    }
}

#[via_fn]
proof fn tokenize_from_decreases(cs: Seq<char>, i: int) {
    if 0 <= i < cs.len() {
        lemma_token_at_advances(cs, i);
    }
}

/// Law: `&&` reads as the `And` token and `||` as the `Or` token, wherever they stand:
/// the tokens from an `&&` are `And` followed by the tokens after it (and likewise
/// `Or` for `||`); a refusal after it is the refusal of the whole.
pub proof fn lemma_symbol_connectives(cs: Seq<char>, i: int)
    requires
        0 <= i,
        i + 1 < cs.len(),
    ensures
        cs[i] == '&' && cs[i + 1] == '&' ==> tokenize_from(cs, i) == match tokenize_from(cs, i + 2) {
            Ok(rest) => Ok(seq![TokenView::And] + rest),
            Err(e) => Err(e),
        },
        cs[i] == '|' && cs[i + 1] == '|' ==> tokenize_from(cs, i) == match tokenize_from(cs, i + 2) {
            Ok(rest) => Ok(seq![TokenView::Or] + rest),
            Err(e) => Err(e),
        },
{
}

/// Law: the comparison symbols: `==` and `=` read as `Eq`, `!=` as `Neq`, `>=` as
/// `Gte`, `<=` as `Lte`, and `>` and `<` followed by anything else as `Gt` and `Lt`.
pub proof fn lemma_comparison_symbols(cs: Seq<char>, i: int)
    requires
        0 <= i < cs.len(),
    ensures
        ({
            let two = i + 1 < cs.len() && cs[i + 1] == '=';
            &&& cs[i] == '=' ==> token_at(cs, i) == Ok::<(Option<TokenView>, int), FilterErrorView>(
                (Some(TokenView::Eq), if two { i + 2 } else { i + 1 }),
            )
            &&& cs[i] == '!' && two ==> token_at(cs, i) == Ok::<(Option<TokenView>, int), FilterErrorView>(
                (Some(TokenView::Neq), i + 2),
            )
            &&& cs[i] == '>' ==> token_at(cs, i) == Ok::<(Option<TokenView>, int), FilterErrorView>(
                (Some(if two { TokenView::Gte } else { TokenView::Gt }), if two { i + 2 } else { i + 1 }),
            )
            &&& cs[i] == '<' ==> token_at(cs, i) == Ok::<(Option<TokenView>, int), FilterErrorView>(
                (Some(if two { TokenView::Lte } else { TokenView::Lt }), if two { i + 2 } else { i + 1 }),
            )
        }),
{
}

/// A word of alphabetic characters ending at `e` (the end, or a character that is not
/// alphabetic) runs from the start to `e`.
proof fn lemma_word_run(cs: Seq<char>, e: int)
    requires
        0 <= e <= cs.len(),
        forall|k: int| 0 <= k < e ==> unicode_alphabetic(#[trigger] cs[k]),
        e == cs.len() || !unicode_alphabetic(cs[e]),
    ensures
        word_end(cs, 0) == e,
{
    lemma_run_from(cs, 0, e);
}

proof fn lemma_run_from(cs: Seq<char>, i: int, e: int)
    requires
        0 <= i <= e <= cs.len(),
        forall|k: int| i <= k < e ==> unicode_alphabetic(#[trigger] cs[k]),
        e == cs.len() || !unicode_alphabetic(cs[e]),
    ensures
        run_end(cs, i, word_char()) == e,
    decreases e - i,
{
    if i < e {
        lemma_run_from(cs, i + 1, e);
    }
}

/// Law: the symbol `&&` and the keyword `and` (in any ASCII case, as a whole word)
/// give the same token, and so do `||` and `or`.
pub proof fn lemma_connective_spellings(sym: Seq<char>, word: Seq<char>, rest: Seq<char>)
    requires
        rest.len() == 0 || !unicode_alphabetic(rest[0]),
        forall|k: int| 0 <= k < word.len() ==> unicode_alphabetic(#[trigger] word[k]),
        (sym == seq!['&', '&'] && ci_equals(word, seq!['a', 'n', 'd'])) || (sym == seq!['|', '|'] && ci_equals(
            word,
            seq!['o', 'r'],
        )),
    ensures
        token_at(sym + rest, 0) matches Ok((Some(t), _)) && token_at(word + rest, 0) matches Ok((Some(u), _))
            && t == u,
{
    let a = word + rest;
    assert(a.subrange(0, word.len() as int) =~= word);
    assert forall|k: int| 0 <= k < word.len() implies unicode_alphabetic(#[trigger] a[k]) by {
        assert(a[k] == word[k]);
    }
    if rest.len() > 0 {
        assert(a[word.len() as int] == rest[0]);
    }
    lemma_word_run(a, word.len() as int);
    if ci_equals(word, seq!['a', 'n', 'd']) {
        assert(!unicode_white_space(word[0])) by {
            assert(ci_char_eq(word[0], 'a'));
        }
    }
}

/// The tokens of a filter expression, or the first refusal met.
pub open spec fn spec_tokenize(s: Seq<char>) -> Result<Seq<TokenView>, FilterErrorView> {
    tokenize_from(s, 0)
}

/// End of the run of `cs` from `i` on whose characters are digits.
fn digits_end(cs: &Vec<char>, i: usize) -> (r: usize)
    requires
        i <= cs@.len(),
    ensures
        r == digit_end(cs@, i as int),
{
    proof {
        lemma_run_end(cs@, i as int, digit_char());
    }
    let mut j = i;
    while j < cs.len() && '0' <= cs[j] && cs[j] <= '9'
        invariant
            i <= j <= cs@.len(),
            forall|k: int| i <= k < j ==> is_digit(#[trigger] cs@[k]),
            digit_end(cs@, i as int) >= j,
            i <= digit_end(cs@, i as int) <= cs@.len(),
            forall|k: int| i <= k < digit_end(cs@, i as int) ==> is_digit(#[trigger] cs@[k]),
            digit_end(cs@, i as int) < cs@.len() ==> !is_digit(cs@[digit_end(cs@, i as int)]),
        decreases cs.len() - j,
    {
        j = j + 1;
    }
    j
}

/// End of the run of `cs` from `i` on whose characters are digits or `.`.
fn numeral_run_end(cs: &Vec<char>, i: usize) -> (r: usize)
    requires
        i <= cs@.len(),
    ensures
        r == numeral_end(cs@, i as int),
{
    proof {
        lemma_run_end(cs@, i as int, numeral_char());
    }
    let mut j = i;
    while j < cs.len() && (('0' <= cs[j] && cs[j] <= '9') || cs[j] == '.')
        invariant
            i <= j <= numeral_end(cs@, i as int),
            i <= numeral_end(cs@, i as int) <= cs@.len(),
            forall|k: int|
                i <= k < numeral_end(cs@, i as int) ==> is_digit(#[trigger] cs@[k]) || cs@[k]
                    == '.',
            numeral_end(cs@, i as int) < cs@.len() ==> !(is_digit(
                cs@[numeral_end(cs@, i as int)],
            ) || cs@[numeral_end(cs@, i as int)] == '.'),
        decreases cs.len() - j,
    {
        j = j + 1;
    }
    j
}

/// End of the run of `cs` from `i` on whose characters are alphabetic.
fn word_run_end(cs: &Vec<char>, i: usize) -> (r: usize)
    requires
        i <= cs@.len(),
    ensures
        r == word_end(cs@, i as int),
{
    proof {
        lemma_run_end(cs@, i as int, word_char());
    }
    let mut j = i;
    while j < cs.len() && char_is_alphabetic(cs[j])
        invariant
            i <= j <= word_end(cs@, i as int),
            i <= word_end(cs@, i as int) <= cs@.len(),
            forall|k: int|
                i <= k < word_end(cs@, i as int) ==> unicode_alphabetic(#[trigger] cs@[k]),
            word_end(cs@, i as int) < cs@.len() ==> !unicode_alphabetic(
                cs@[word_end(cs@, i as int)],
            ),
        decreases cs.len() - j,
    {
        j = j + 1;
    }
    j
}

/// Index of the first `q` in `cs` from `i` on (or the length).
fn quote_run_end(cs: &Vec<char>, i: usize, q: char) -> (r: usize)
    requires
        i <= cs@.len(),
    ensures
        r == quote_end(cs@, i as int, q),
{
    proof {
        lemma_run_end(cs@, i as int, other_than(q));
    }
    let mut j = i;
    while j < cs.len() && cs[j] != q
        invariant
            i <= j <= quote_end(cs@, i as int, q),
            i <= quote_end(cs@, i as int, q) <= cs@.len(),
            forall|k: int| i <= k < quote_end(cs@, i as int, q) ==> #[trigger] cs@[k] != q,
            quote_end(cs@, i as int, q) < cs@.len() ==> cs@[quote_end(cs@, i as int, q)] == q,
        decreases cs.len() - j,
    {
        j = j + 1;
    }
    j
}


proof fn lemma_decimal_prefix(w: Seq<char>, k: int)
    requires
        0 <= k <= w.len(),
    ensures
        decimal_value(w.subrange(0, k)) <= decimal_value(w),
    decreases w.len() - k,
{
    if k < w.len() {
        assert(w.drop_last() =~= w.subrange(0, w.len() - 1));
        lemma_decimal_prefix(w.drop_last(), k);
        assert(w.drop_last().subrange(0, k) =~= w.subrange(0, k));
    } else {
        assert(w.subrange(0, k) =~= w);
    }
}

/// Value of the digits `cs[i..e]`, when it fits a `usize`.
fn decimal_of(cs: &Vec<char>, i: usize, e: usize) -> (r: Option<usize>)
    requires
        i <= e <= cs@.len(),
        forall|k: int| i <= k < e ==> is_digit(#[trigger] cs@[k]),
    ensures
        match r {
            Some(v) => v == decimal_value(cs@.subrange(i as int, e as int)),
            None => decimal_value(cs@.subrange(i as int, e as int)) > usize::MAX,
        },
{
    let ghost w = cs@.subrange(i as int, e as int);
    let mut v: usize = 0;
    let mut j = i;
    proof {
        assert(w.subrange(0, 0) =~= Seq::<char>::empty());
    }
    while j < e
        invariant
            i <= j <= e <= cs@.len(),
            w == cs@.subrange(i as int, e as int),
            forall|k: int| i <= k < e ==> is_digit(#[trigger] cs@[k]),
            v == decimal_value(w.subrange(0, j - i)),
        decreases e - j,
    {
        let d = (cs[j] as u32 - '0' as u32) as usize;
        proof {
            assert(is_digit(cs@[j as int]));
            assert(w.subrange(0, j + 1 - i).drop_last() =~= w.subrange(0, j - i));
            assert(w.subrange(0, j + 1 - i).last() == cs@[j as int]);
        }
        match v.checked_mul(10) {
            None => {
                proof {
                    lemma_decimal_prefix(w, j + 1 - i);
                }
                return None;
            },
            Some(m) => match m.checked_add(d) {
                None => {
                    proof {
                        lemma_decimal_prefix(w, j + 1 - i);
                    }
                    return None;
                },
                Some(t) => {
                    v = t;
                },
            },
        }
        j = j + 1;
    }
    proof {
        assert(w.subrange(0, e - i) =~= w);
    }
    Some(v)
}

/// Number of `.` among `cs[i..e]`.
fn dots_in(cs: &Vec<char>, i: usize, e: usize) -> (r: usize)
    requires
        i <= e <= cs@.len(),
    ensures
        r == dot_count(cs@.subrange(i as int, e as int)),
{
    let ghost w = cs@.subrange(i as int, e as int);
    let mut n: usize = 0;
    let mut j = i;
    proof {
        assert(w.subrange(0, 0) =~= Seq::<char>::empty());
    }
    while j < e
        invariant
            i <= j <= e <= cs@.len(),
            w == cs@.subrange(i as int, e as int),
            n == dot_count(w.subrange(0, j - i)),
            n <= j - i,
        decreases e - j,
    {
        proof {
            assert(w.subrange(0, j + 1 - i).drop_last() =~= w.subrange(0, j - i));
            assert(w.subrange(0, j + 1 - i).last() == cs@[j as int]);
        }
        if cs[j] == '.' {
            n = n + 1;
        }
        j = j + 1;
    }
    proof {
        assert(w.subrange(0, e - i) =~= w);
    }
    n
}

/// Whether `cs[i..e]` equals, ignoring ASCII case, the lowercase word `lower`.
pub(crate) fn ci_matches(cs: &Vec<char>, i: usize, e: usize, lower: &[char]) -> (r: bool)
    requires
        i <= e <= cs@.len(),
    ensures
        r == ci_equals(cs@.subrange(i as int, e as int), lower@),
{
    if e - i != lower.len() {
        return false;
    }
    let mut k: usize = 0;
    while k < lower.len()
        invariant
            e - i == lower@.len(),
            i <= e <= cs@.len(),
            k <= lower@.len(),
            forall|m: int| 0 <= m < k ==> ci_char_eq(#[trigger] cs@[i + m], lower@[m]),
        decreases lower.len() - k,
    {
        let c = cs[i + k];
        let l = lower[k];
        let same = c == l || ('A' <= c && c <= 'Z' && (c as u32) + 32 == l as u32);
        if !same {
            proof {
                assert(cs@.subrange(i as int, e as int)[k as int] == cs@[i + k]);
            }
            return false;
        }
        k = k + 1;
    }
    proof {
        let w = cs@.subrange(i as int, e as int);
        assert forall|m: int| 0 <= m < w.len() implies ci_char_eq(#[trigger] w[m], lower@[m]) by {
            assert(w[m] == cs@[i + m]);
        }
    }
    true
}


pub open spec fn opt_token_view(t: Option<Token>) -> Option<TokenView> {
    match t {
        Some(tk) => Some(tk@),
        None => None,
    }
}

/// One tokenizer step at `i`: the token there (none for whitespace) and the index after it.
fn next_token(cs: &Vec<char>, i: usize) -> (r: Result<(Option<Token>, usize), FilterError>)
    requires
        i < cs@.len(),
    ensures
        match (r, token_at(cs@, i as int)) {
            (Ok((t, j)), Ok((st, sj))) => j == sj && opt_token_view(t) == st,
            (Err(e), Err(se)) => e@ == se,
            _ => false,
        },
{
    let c = cs[i];
    let n = cs.len();
    if char_is_whitespace(c) {
        return Ok((None, i + 1));
    }
    if c == '$' {
        let e = digits_end(cs, i + 1);
        if e == i + 1 {
            return Err(FilterError::ExpectedColumnIndex);
        }
        proof {
            lemma_run_end(cs@, i + 1, digit_char());
        }
        return match decimal_of(cs, i + 1, e) {
            Some(v) => Ok((Some(Token::ColRef(v)), e)),
            None => Err(FilterError::ColumnIndexTooLarge),
        };
    }
    if c == '"' || c == '\'' {
        let e = quote_run_end(cs, i + 1, c);
        proof {
            lemma_run_end(cs@, i + 1, other_than(c));
        }
        if e >= n {
            return Err(FilterError::UnterminatedString);
        }
        let s = string_from_chars(&cs.as_slice()[i + 1..e]);
        return Ok((Some(Token::String(s)), e + 1));
    }
    let next_digit = i + 1 < n && '0' <= cs[i + 1] && cs[i + 1] <= '9';
    if ('0' <= c && c <= '9') || (c == '-' && next_digit) {
        let e = if c == '-' {
            numeral_run_end(cs, i + 1)
        } else {
            numeral_run_end(cs, i)
        };
        proof {
            lemma_run_end(cs@, i + 1, numeral_char());
            lemma_run_end(cs@, i as int, numeral_char());
        }
        if dots_in(cs, i, e) > 1 {
            return Err(FilterError::InvalidNumber);
        }
        let s = string_from_chars(&cs.as_slice()[i..e]);
        return Ok((Some(Token::Number(s)), e));
    }
    let next_eq = i + 1 < n && cs[i + 1] == '=';
    if c == '(' {
        Ok((Some(Token::LParen), i + 1))
    } else if c == ')' {
        Ok((Some(Token::RParen), i + 1))
    } else if c == '=' {
        Ok((Some(Token::Eq), if next_eq { i + 2 } else { i + 1 }))
    } else if c == '!' {
        if next_eq {
            Ok((Some(Token::Neq), i + 2))
        } else {
            Err(FilterError::UnexpectedBang)
        }
    } else if c == '>' {
        if next_eq {
            Ok((Some(Token::Gte), i + 2))
        } else {
            Ok((Some(Token::Gt), i + 1))
        }
    } else if c == '<' {
        if next_eq {
            Ok((Some(Token::Lte), i + 2))
        } else {
            Ok((Some(Token::Lt), i + 1))
        }
    } else if c == '&' {
        if i + 1 < n && cs[i + 1] == '&' {
            Ok((Some(Token::And), i + 2))
        } else {
            Err(FilterError::ExpectedAnd)
        }
    } else if c == '|' {
        if i + 1 < n && cs[i + 1] == '|' {
            Ok((Some(Token::Or), i + 2))
        } else {
            Err(FilterError::ExpectedOr)
        }
    } else {
        let e = word_run_end(cs, i);
        proof {
            lemma_run_end(cs@, i as int, word_char());
        }
        let and_word: [char; 3] = ['a', 'n', 'd'];
        let or_word: [char; 2] = ['o', 'r'];
        proof {
            assert(and_word@ =~= seq!['a', 'n', 'd']);
            assert(or_word@ =~= seq!['o', 'r']);
        }
        if ci_matches(cs, i, e, &and_word) {
            Ok((Some(Token::And), e))
        } else if ci_matches(cs, i, e, &or_word) {
            Ok((Some(Token::Or), e))
        } else if e > i {
            let w = string_from_chars(&cs.as_slice()[i..e]);
            Err(FilterError::UnexpectedKeyword(w))
        } else {
            Err(FilterError::UnexpectedChar(c))
        }
    }
}


pub open spec fn tokens_view(ts: Seq<Token>) -> Seq<TokenView> {
    ts.map_values(|t: Token| t@)
}

/// Splits a filter expression into tokens.
pub fn tokenize(input: &str) -> (r: Result<Vec<Token>, FilterError>)
    ensures
        match (r, spec_tokenize(input@)) {
            (Ok(v), Ok(st)) => tokens_view(v@) == st,
            (Err(e), Err(se)) => e@ == se,
            _ => false,
        },
{
    let cs = chars_of(input);
    let mut tokens: Vec<Token> = Vec::new();
    let mut i: usize = 0;
    while i < cs.len()
        invariant
            i <= cs@.len(),
            cs@ == input@,
            tokenize_from(cs@, 0) == match tokenize_from(cs@, i as int) {
                Ok(rest) => Ok(tokens_view(tokens@) + rest),
                Err(e) => Err(e),
            },
        decreases cs.len() - i,
    {
        proof {
            lemma_token_at_advances(cs@, i as int);
        }
        match next_token(&cs, i) {
            Err(e) => {
                return Err(e);
            },
            Ok((t, j)) => {
                let ghost before = tokens@;
                let ghost tg = t;
                match t {
                    Some(tk) => {
                        tokens.push(tk);
                    },
                    None => {},
                }
                proof {
                    match tokenize_from(cs@, j as int) {
                        Ok(rest) => {
                            match tg {
                                Some(tk) => {
                                    assert(tokens_view(tokens@) =~= tokens_view(before).push(tk@));
                                    assert(tokens_view(before) + (seq![tk@] + rest)
                                        =~= tokens_view(tokens@) + rest);
                                },
                                None => {
                                    assert(tokens@ =~= before);
                                },
                            }
                        },
                        Err(_) => {},
                    }
                }
                i = j;
            },
        }
    }
    proof {
        assert(tokens_view(tokens@) + Seq::<TokenView>::empty() =~= tokens_view(tokens@));
    }
    Ok(tokens)
}


/// A comparison operator.
#[derive(Debug, Clone, Copy, PartialEq, Eq, Structural)]
pub enum Op {
    Eq,
    Neq,
    Gt,
    Gte,
    Lt,
    Lte,
}

/// The value a column is compared with; a number keeps the text of its numeral.
#[derive(Debug, Clone, PartialEq)]
pub enum Value {
    Number(String),
    String(String),
}

pub enum ValueView {
    Number(Seq<char>),
    Str(Seq<char>),
}

impl View for Value {
    type V = ValueView;

    open spec fn view(&self) -> ValueView {
        match self {
            Value::Number(n) => ValueView::Number(n@),
            Value::String(s) => ValueView::Str(s@),
        }
    }
}

/// A parsed filter expression.
#[derive(Debug, PartialEq)]
pub enum Expr {
    And(Box<Expr>, Box<Expr>),
    Or(Box<Expr>, Box<Expr>),
    Compare(usize, Op, Value),
}

pub enum ExprView {
    And(Box<ExprView>, Box<ExprView>),
    Or(Box<ExprView>, Box<ExprView>),
    Compare(usize, Op, ValueView),
}

impl View for Expr {
    type V = ExprView;

    open spec fn view(&self) -> ExprView
        decreases self,
    {
        match self {
            Expr::And(l, r) => ExprView::And(Box::new((**l)@), Box::new((**r)@)),
            Expr::Or(l, r) => ExprView::Or(Box::new((**l)@), Box::new((**r)@)),
            Expr::Compare(c, o, v) => ExprView::Compare(*c, *o, v@),
        }
    }
}

/// The comparison operator a token stands for.
pub open spec fn op_of(t: TokenView) -> Option<Op> {
    match t {
        TokenView::Eq => Some(Op::Eq),
        TokenView::Neq => Some(Op::Neq),
        TokenView::Gt => Some(Op::Gt),
        TokenView::Gte => Some(Op::Gte),
        TokenView::Lt => Some(Op::Lt),
        TokenView::Lte => Some(Op::Lte),
        _ => None,
    }
}

/// `primary := '(' or ')' | ColRef Op Value`, read from token `p`; gives the
/// expression and the index of the first token after it.
pub open spec fn parse_primary_at(t: Seq<TokenView>, p: int) -> Result<(ExprView, int), FilterErrorView>
    decreases t.len() - p, 0int,
{
    if p < 0 {
        Err(FilterErrorView::ExpectedColumnRef)
    } else if p < t.len() && t[p] is LParen {
        match parse_or_at(t, p + 1) {
            Err(e) => Err(e),
            Ok((e, q)) => if q < t.len() && t[q] is RParen {
                Ok((e, q + 1))
            } else {
                Err(FilterErrorView::ExpectedClosingParen)
            },
        }
    } else if !(p < t.len() && t[p] is ColRef) {
        Err(FilterErrorView::ExpectedColumnRef)
    } else if !(p + 1 < t.len() && op_of(t[p + 1]) is Some) {
        Err(FilterErrorView::ExpectedOperator)
    } else if !(p + 2 < t.len() && (t[p + 2] is Number || t[p + 2] is Str)) {
        Err(FilterErrorView::ExpectedValue)
    } else {
        let v = match t[p + 2] {
            TokenView::Number(n) => ValueView::Number(n),
            TokenView::Str(s) => ValueView::Str(s),
            _ => ValueView::Str(Seq::empty()),
        };
        Ok((ExprView::Compare(t[p]->ColRef_0, op_of(t[p + 1])->0, v), p + 3))
    }
}

/// The `AND` chain continuing `left` from token `q`.
pub open spec fn and_rest_at(t: Seq<TokenView>, q: int, left: ExprView) -> Result<
    (ExprView, int),
    FilterErrorView,
>
    decreases t.len() - q, 1int,
{
    if 0 <= q < t.len() && t[q] is And {
        match parse_primary_at(t, q + 1) {
            Err(e) => Err(e),
            Ok((r, q2)) => if q < q2 <= t.len() {
                and_rest_at(t, q2, ExprView::And(Box::new(left), Box::new(r)))
            } else {
                Err(FilterErrorView::ExpectedColumnRef)
            },
        }
    } else {
        Ok((left, q))
    }
}

/// `and := primary (AND primary)*`, left-associative.
pub open spec fn parse_and_at(t: Seq<TokenView>, p: int) -> Result<(ExprView, int), FilterErrorView>
    decreases t.len() - p, 2int,
{
    match parse_primary_at(t, p) {
        Err(e) => Err(e),
        Ok((e, q)) => if p < q <= t.len() {
            and_rest_at(t, q, e)
        } else {
            Err(FilterErrorView::ExpectedColumnRef)
        },
    }
}

/// The `OR` chain continuing `left` from token `q`.
pub open spec fn or_rest_at(t: Seq<TokenView>, q: int, left: ExprView) -> Result<
    (ExprView, int),
    FilterErrorView,
>
    decreases t.len() - q, 3int,
{
    if 0 <= q < t.len() && t[q] is Or {
        match parse_and_at(t, q + 1) {
            Err(e) => Err(e),
            Ok((r, q2)) => if q < q2 <= t.len() {
                or_rest_at(t, q2, ExprView::Or(Box::new(left), Box::new(r)))
            } else {
                Err(FilterErrorView::ExpectedColumnRef)
            },
        }
    } else {
        Ok((left, q))
    }
}

/// `or := and (OR and)*`, left-associative.
pub open spec fn parse_or_at(t: Seq<TokenView>, p: int) -> Result<(ExprView, int), FilterErrorView>
    decreases t.len() - p, 4int,
{
    match parse_and_at(t, p) {
        Err(e) => Err(e),
        Ok((e, q)) => if p < q <= t.len() {
            or_rest_at(t, q, e)
        } else {
            Err(FilterErrorView::ExpectedColumnRef)
        },
    }
}

/// The parsed form of a filter expression: all of its tokens must form one expression.
pub open spec fn spec_parse_filter(s: Seq<char>) -> Result<ExprView, FilterErrorView> {
    match spec_tokenize(s) {
        Err(e) => Err(e),
        Ok(t) => match parse_or_at(t, 0) {
            Err(e) => Err(e),
            Ok((e, q)) => if q < t.len() {
                Err(FilterErrorView::TrailingTokens)
            } else {
                Ok(e)
            },
        },
    }
}


/// Recursive-descent parser over a token list.
struct Parser {
    tokens: Vec<Token>,
    pos: usize,
}

impl Parser {
    fn new(tokens: Vec<Token>) -> (r: Self)
        ensures
            r.tokens@ == tokens@,
            r.pos == 0,
    {
        Parser { tokens, pos: 0 }
    }

    spec fn toks(&self) -> Seq<TokenView> {
        tokens_view(self.tokens@)
    }

    fn next_is_and(&self) -> (r: bool)
        ensures
            r == (self.pos < self.tokens@.len() && self.toks()[self.pos as int] is And),
            r ==> self.pos < self.tokens.len(),
    {
        if self.pos < self.tokens.len() {
            match &self.tokens[self.pos] {
                Token::And => true,
                _ => false,
            }
        } else {
            false
        }
    }

    fn next_is_or(&self) -> (r: bool)
        ensures
            r == (self.pos < self.tokens@.len() && self.toks()[self.pos as int] is Or),
            r ==> self.pos < self.tokens.len(),
    {
        if self.pos < self.tokens.len() {
            match &self.tokens[self.pos] {
                Token::Or => true,
                _ => false,
            }
        } else {
            false
        }
    }

    fn next_is_lparen(&self) -> (r: bool)
        ensures
            r == (self.pos < self.tokens@.len() && self.toks()[self.pos as int] is LParen),
            r ==> self.pos < self.tokens.len(),
    {
        if self.pos < self.tokens.len() {
            match &self.tokens[self.pos] {
                Token::LParen => true,
                _ => false,
            }
        } else {
            false
        }
    }

    fn next_is_rparen(&self) -> (r: bool)
        ensures
            r == (self.pos < self.tokens@.len() && self.toks()[self.pos as int] is RParen),
            r ==> self.pos < self.tokens.len(),
    {
        if self.pos < self.tokens.len() {
            match &self.tokens[self.pos] {
                Token::RParen => true,
                _ => false,
            }
        } else {
            false
        }
    }

    fn parse_primary(&mut self) -> (r: Result<Expr, FilterError>)
        requires
            old(self).pos <= old(self).tokens@.len(),
        ensures
            final(self).tokens@ == old(self).tokens@,
            match (r, parse_primary_at(old(self).toks(), old(self).pos as int)) {
                (Ok(e), Ok((se, q))) => e@ == se && final(self).pos == q && old(self).pos
                    < final(self).pos <= final(self).tokens@.len(),
                (Err(e), Err(se)) => e@ == se,
                _ => false,
            },
        decreases old(self).tokens@.len() - old(self).pos, 0int,
    {
        let ghost t = self.toks();
        if self.next_is_lparen() {
            self.pos = self.pos + 1;
            let e = match self.parse_or() {
                Ok(e) => e,
                Err(err) => {
                    return Err(err);
                },
            };
            if self.next_is_rparen() {
                self.pos = self.pos + 1;
                return Ok(e);
            } else {
                return Err(FilterError::ExpectedClosingParen);
            }
        }
        let n = self.tokens.len();
        let p = self.pos;
        if p >= n {
            return Err(FilterError::ExpectedColumnRef);
        }
        let col = match &self.tokens[p] {
            Token::ColRef(c) => *c,
            _ => {
                return Err(FilterError::ExpectedColumnRef);
            },
        };
        if p + 1 >= n {
            return Err(FilterError::ExpectedOperator);
        }
        let op = match &self.tokens[p + 1] {
            Token::Eq => Op::Eq,
            Token::Neq => Op::Neq,
            Token::Gt => Op::Gt,
            Token::Gte => Op::Gte,
            Token::Lt => Op::Lt,
            Token::Lte => Op::Lte,
            _ => {
                return Err(FilterError::ExpectedOperator);
            },
        };
        if p + 2 >= n {
            return Err(FilterError::ExpectedValue);
        }
        let val = match &self.tokens[p + 2] {
            Token::Number(num) => Value::Number(num.clone()),
            Token::String(st) => Value::String(st.clone()),
            _ => {
                return Err(FilterError::ExpectedValue);
            },
        };
        self.pos = p + 3;
        Ok(Expr::Compare(col, op, val))
    }

    fn parse_and(&mut self) -> (r: Result<Expr, FilterError>)
        requires
            old(self).pos <= old(self).tokens@.len(),
        ensures
            final(self).tokens@ == old(self).tokens@,
            match (r, parse_and_at(old(self).toks(), old(self).pos as int)) {
                (Ok(e), Ok((se, q))) => e@ == se && final(self).pos == q && old(self).pos
                    < final(self).pos <= final(self).tokens@.len(),
                (Err(e), Err(se)) => e@ == se,
                _ => false,
            },
        decreases old(self).tokens@.len() - old(self).pos, 2int,
    {
        let ghost t = self.toks();
        let ghost p0 = self.pos as int;
        let mut node = match self.parse_primary() {
            Ok(e) => e,
            Err(err) => {
                return Err(err);
            },
        };
        while self.next_is_and()
            invariant
                self.toks() == t,
                self.tokens@ == old(self).tokens@,
                p0 == old(self).pos,
                p0 < self.pos <= self.tokens@.len(),
                parse_and_at(t, p0) == and_rest_at(t, self.pos as int, node@),
            decreases self.tokens@.len() - self.pos,
        {
            self.pos = self.pos + 1;
            let right = match self.parse_primary() {
                Ok(e) => e,
                Err(err) => {
                    return Err(err);
                },
            };
            node = Expr::And(Box::new(node), Box::new(right));
        }
        Ok(node)
    }

    fn parse_or(&mut self) -> (r: Result<Expr, FilterError>)
        requires
            old(self).pos <= old(self).tokens@.len(),
        ensures
            final(self).tokens@ == old(self).tokens@,
            match (r, parse_or_at(old(self).toks(), old(self).pos as int)) {
                (Ok(e), Ok((se, q))) => e@ == se && final(self).pos == q && old(self).pos
                    < final(self).pos <= final(self).tokens@.len(),
                (Err(e), Err(se)) => e@ == se,
                _ => false,
            },
        decreases old(self).tokens@.len() - old(self).pos, 4int,
    {
        let ghost t = self.toks();
        let ghost p0 = self.pos as int;
        let mut node = match self.parse_and() {
            Ok(e) => e,
            Err(err) => {
                return Err(err);
            },
        };
        while self.next_is_or()
            invariant
                self.toks() == t,
                self.tokens@ == old(self).tokens@,
                p0 == old(self).pos,
                p0 < self.pos <= self.tokens@.len(),
                parse_or_at(t, p0) == or_rest_at(t, self.pos as int, node@),
            decreases self.tokens@.len() - self.pos,
        {
            self.pos = self.pos + 1;
            let right = match self.parse_and() {
                Ok(e) => e,
                Err(err) => {
                    return Err(err);
                },
            };
            node = Expr::Or(Box::new(node), Box::new(right));
        }
        Ok(node)
    }
}

/// Parses a filter expression; every token must belong to it.
pub fn parse_filter(input: &str) -> (r: Result<Expr, FilterError>)
    ensures
        match (r, spec_parse_filter(input@)) {
            (Ok(e), Ok(se)) => e@ == se,
            (Err(e), Err(se)) => e@ == se,
            _ => false,
        },
{
    let tokens = match tokenize(input) {
        Ok(t) => t,
        Err(e) => {
            return Err(e);
        },
    };
    let mut parser = Parser::new(tokens);
    let ast = match parser.parse_or() {
        Ok(e) => e,
        Err(e) => {
            return Err(e);
        },
    };
    if parser.pos < parser.tokens.len() {
        return Err(FilterError::TrailingTokens);
    }
    Ok(ast)
}

// ------------------------------------------------------- evaluating a filter

/// The code of a character with ASCII capitals lowered.
pub open spec fn ascii_lower_code(c: char) -> u32 {
    if 'A' <= c <= 'Z' {
        ((c as u32) + 32) as u32
    } else {
        c as u32
    }
}

/// Equality ignoring ASCII case (`str::eq_ignore_ascii_case`).
pub open spec fn eq_ignore_ascii_case(a: Seq<char>, b: Seq<char>) -> bool {
    a.len() == b.len() && forall|k: int| 0 <= k < a.len() ==> ascii_lower_code(#[trigger] a[k]) == ascii_lower_code(b[k])
}

/// The text of a field that a comparison looks at: trimmed, and without one pair of
/// surrounding double quotes.
pub open spec fn compare_text(field: Seq<char>) -> Seq<char> {
    let t = trim(field);
    if t.len() >= 2 && t[0] == '"' && t.last() == '"' {
        t.subrange(1, t.len() - 1)
    } else {
        t
    }
}

/// The text of a field that a comparison looks at (see `compare_text`).
pub fn comparison_text(field: &str) -> (r: Vec<char>)
    ensures
        r@ == compare_text(field@),
{
    let t = trimmed(field);
    let cs = chars_of(t.as_str());
    let n = cs.len();
    if n >= 2 && cs[0] == '"' && cs[n - 1] == '"' {
        let mut out: Vec<char> = Vec::new();
        let mut i: usize = 1;
        while i < n - 1
            invariant
                1 <= i <= n - 1,
                n == cs@.len(),
                out@ == cs@.subrange(1, i as int),
            decreases n - 1 - i,
        {
            out.push(cs[i]);
            proof {
                assert(out@ =~= cs@.subrange(1, i + 1));
            }
            i = i + 1;
        }
        out
    } else {
        cs
    }
}

fn lower_code(c: char) -> (r: u32)
    ensures
        r == ascii_lower_code(c),
{
    if 'A' <= c && c <= 'Z' {
        (c as u32) + 32
    } else {
        c as u32
    }
}

/// Whether two texts are equal ignoring ASCII case.
pub fn eq_ignore_case(a: &[char], b: &[char]) -> (r: bool)
    ensures
        r == eq_ignore_ascii_case(a@, b@),
{
    if a.len() != b.len() {
        return false;
    }
    let mut k: usize = 0;
    while k < a.len()
        invariant
            k <= a@.len(),
            a@.len() == b@.len(),
            forall|j: int| 0 <= j < k ==> ascii_lower_code(#[trigger] a@[j]) == ascii_lower_code(b@[j]),
        decreases a@.len() - k,
    {
        if lower_code(a[k]) != lower_code(b[k]) {
            return false;
        }
        k = k + 1;
    }
    true
}

/// A comparison of a field with a text value: `=` and `!=` ignore ASCII case; an
/// ordering comparison of texts is never true.
pub open spec fn spec_compare_with_text(field: Seq<char>, op: Op, value: Seq<char>) -> bool {
    match op {
        Op::Eq => eq_ignore_ascii_case(compare_text(field), value),
        Op::Neq => !eq_ignore_ascii_case(compare_text(field), value),
        _ => false,
    }
}

/// Evaluates a comparison of a field with a text value (see `spec_compare_with_text`).
pub fn compare_with_text(field: &str, op: &Op, value: &str) -> (r: bool)
    ensures
        r == spec_compare_with_text(field@, *op, value@),
{
    let t = comparison_text(field);
    let v = chars_of(value);
    let same = eq_ignore_case(t.as_slice(), v.as_slice());
    match op {
        Op::Eq => same,
        Op::Neq => !same,
        _ => false,
    }
}

} // verus!
