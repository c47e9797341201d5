//! Row-level access to a delimited text dataset held as bytes: field extraction
//! (plain and RFC 4180), row search, and the line-offset index with its cache format.
use vstd::prelude::*;
use crate::scan::{find_byte_from, next_byte, lemma_next_byte_bounds, memmem_find, occurs_at};
use crate::text::{strings_view, lossy_string, utf8_lossy, trimmed, trim, chars_of, string_from_chars, string_from_utf8};
use crate::index::{after_lines, bom_len};
use crate::history::{push_padded, dec_digits, dec_padded, digit_char};
use crate::parsers::JsonParser;
use crate::utils::{parse_date_fast, spec_parse_date};
use crate::types::{ColumnSchema, DataType};
use vstd::utf8::{valid_utf8, decode_utf8};
use vstd::utf8::encode_utf8;

verus! {

/// How the rows of a dataset are laid out.
#[derive(Debug, Clone, Copy, PartialEq, Eq, Structural)]
pub struct RowLayout {
    /// Field separator.
    pub delimiter: u8,
    /// The first row after the preamble is a header.
    pub has_header: bool,
    /// Quoted fields may contain the separator.
    pub rfc_4180: bool,
    /// Preamble rows skipped before the header.
    pub skip_rows: usize,
    /// RFC 4180 fields lose their surrounding quotes.
    pub strip_quotes: bool,
}

/// Bounds of field `col` of `line` when fields are split at every `delim`,
/// the current field starting at `from`.
pub open spec fn split_field(line: Seq<u8>, delim: u8, from: int, col: nat) -> Option<(int, int)>
    decreases line.len() + 1 - from,
    via split_field_decreases
{
    if from < 0 || from > line.len() {
        None
    } else {
        let e = next_byte(line, delim, from);
        if col == 0 {
            Some((from, e))
        } else if e >= line.len() {
            None
        } else {
            split_field(line, delim, e + 1, (col - 1) as nat)
        }
    }
}

#[via_fn]
proof fn split_field_decreases(line: Seq<u8>, delim: u8, from: int, col: nat) {
    if 0 <= from <= line.len() {
        lemma_next_byte_bounds(line, delim, from);
    }
}

/// Bounds `[s, e)` without surrounding quotes, when stripping applies.
pub open spec fn unquoted(line: Seq<u8>, strip: bool, s: int, e: int) -> (int, int) {
    if strip && e - s >= 2 && line[s] == 0x22 && line[e - 1] == 0x22 {
        (s + 1, e - 1)
    } else {
        (s, e)
    }
}

/// Bounds of RFC 4180 field `col`: a separator inside double quotes does not split;
/// the scan is at `i`, inside quotes or not, in field `idx` that started at `start`.
pub open spec fn rfc_field(
    line: Seq<u8>,
    delim: u8,
    strip: bool,
    col: nat,
    i: int,
    in_quotes: bool,
    idx: nat,
    start: int,
) -> Option<(int, int)>
    decreases line.len() - i,
{
    if i < 0 || i >= line.len() {
        if idx == col {
            Some(unquoted(line, strip, start, line.len() as int))
        } else {
            None
        }
    } else if line[i] == 0x22 {
        rfc_field(line, delim, strip, col, i + 1, !in_quotes, idx, start)
    } else if line[i] == delim && !in_quotes {
        if idx == col {
            Some(unquoted(line, strip, start, i))
        } else {
            rfc_field(line, delim, strip, col, i + 1, in_quotes, idx + 1, i + 1)
        }
    } else {
        rfc_field(line, delim, strip, col, i + 1, in_quotes, idx, start)
    }
}

/// Bounds of field `col` of `line` under `layout`.
pub open spec fn field_bounds(layout: RowLayout, line: Seq<u8>, col: nat) -> Option<(int, int)> {
    if layout.rfc_4180 {
        rfc_field(line, layout.delimiter, layout.strip_quotes, col, 0, false, 0, 0)
    } else {
        split_field(line, layout.delimiter, 0, col)
    }
}

/// The bytes of a field, as `field_bounds` places it.
pub open spec fn field_of(layout: RowLayout, line: Seq<u8>, col: nat) -> Option<Seq<u8>> {
    match field_bounds(layout, line, col) {
        Some((s, e)) => Some(line.subrange(s, e)),
        None => None,
    }
}

proof fn lemma_split_field_bounds(line: Seq<u8>, delim: u8, from: int, col: nat)
    requires
        0 <= from <= line.len(),
    ensures
        split_field(line, delim, from, col) matches Some((s, e)) ==> from <= s <= e <= line.len(),
    decreases line.len() + 1 - from,
{
    lemma_next_byte_bounds(line, delim, from);
    let e = next_byte(line, delim, from);
    if col > 0 && e < line.len() {
        lemma_split_field_bounds(line, delim, e + 1, (col - 1) as nat);
    }
}

proof fn lemma_rfc_field_bounds(
    line: Seq<u8>,
    delim: u8,
    strip: bool,
    col: nat,
    i: int,
    in_quotes: bool,
    idx: nat,
    start: int,
)
    requires
        0 <= start <= i <= line.len(),
    ensures
        rfc_field(line, delim, strip, col, i, in_quotes, idx, start) matches Some((s, e)) ==> 0
            <= s <= e <= line.len(),
    decreases line.len() - i,
{
    if i < line.len() {
        if line[i] == 0x22 {
            lemma_rfc_field_bounds(line, delim, strip, col, i + 1, !in_quotes, idx, start);
        } else if line[i] == delim && !in_quotes {
            if idx != col {
                lemma_rfc_field_bounds(line, delim, strip, col, i + 1, in_quotes, idx + 1, i + 1);
            }
        } else {
            lemma_rfc_field_bounds(line, delim, strip, col, i + 1, in_quotes, idx, start);
        }
    }
}

/// Field `col` of a row split at every separator; `None` past the last field.
pub fn extract_field_plain(line: &[u8], delim: u8, col: usize) -> (r: Option<&[u8]>)
    ensures
        match (r, split_field(line@, delim, 0, col as nat)) {
            (Some(f), Some((s, e))) => f@ == line@.subrange(s, e),
            (None, None) => true,
            _ => false,
        },
{
    let mut start: usize = 0;
    let mut idx: usize = 0;
    while idx < col
        invariant
            start <= line@.len(),
            idx <= col,
            split_field(line@, delim, 0, col as nat) == split_field(
                line@,
                delim,
                start as int,
                (col - idx) as nat,
            ),
        decreases col - idx,
    {
        let e = find_byte_from(line, delim, start);
        if e >= line.len() {
            return None;
        }
        start = e + 1;
        idx = idx + 1;
    }
    let e = find_byte_from(line, delim, start);
    Some(&line[start..e])
}

/// Field `col` of an RFC 4180 row: separators inside double quotes do not split,
/// and with `strip_quotes` a field's surrounding quotes are dropped.
pub fn extract_field_rfc4180<'a>(layout: &RowLayout, line: &'a [u8], col: usize) -> (r: Option<&'a [u8]>)
    ensures
        match (r, rfc_field(line@, layout.delimiter, layout.strip_quotes, col as nat, 0, false, 0, 0)) {
            (Some(f), Some((s, e))) => f@ == line@.subrange(s, e),
            (None, None) => true,
            _ => false,
        },
{
    let delim = layout.delimiter;
    let strip = layout.strip_quotes;
    let mut idx: usize = 0;
    let mut start: usize = 0;
    let mut in_quotes = false;
    let mut i: usize = 0;
    while i < line.len()
        invariant
            start <= i <= line@.len(),
            idx <= col,
            delim == layout.delimiter,
            strip == layout.strip_quotes,
            rfc_field(line@, delim, strip, col as nat, 0, false, 0, 0) == rfc_field(
                line@,
                delim,
                strip,
                col as nat,
                i as int,
                in_quotes,
                idx as nat,
                start as int,
            ),
        decreases line.len() - i,
    {
        let b = line[i];
        if b == 0x22u8 {
            in_quotes = !in_quotes;
        } else if b == delim && !in_quotes {
            if idx == col {
                let mut field = &line[start..i];
                proof {
                    assert(field@ =~= line@.subrange(start as int, i as int));
                }
                if strip && field.len() >= 2 && field[0] == 0x22u8 && field[field.len() - 1] == 0x22u8 {
                    field = &line[start + 1..i - 1];
                }
                proof {
                    let (s, e) = unquoted(line@, strip, start as int, i as int);
                    assert(field@ =~= line@.subrange(s, e));
                    assert(line@[i as int] == delim);
                    assert(rfc_field(line@, delim, strip, col as nat, i as int, in_quotes, idx as nat, start as int)
                        == Some(unquoted(line@, strip, start as int, i as int)));
                }
                return Some(field);
            }
            idx = idx + 1;
            start = i + 1;
        }
        i = i + 1;
    }
    if idx == col {
        let n = line.len();
        let mut field = &line[start..n];
        proof {
            assert(field@ =~= line@.subrange(start as int, n as int));
        }
        if strip && field.len() >= 2 && field[0] == 0x22u8 && field[field.len() - 1] == 0x22u8 {
            field = &line[start + 1..n - 1];
        }
        proof {
            let (s, e) = unquoted(line@, strip, start as int, n as int);
            assert(field@ =~= line@.subrange(s, e));
        }
        return Some(field);
    }
    None
}

/// Field `col` of a row under `layout` (RFC 4180 rules when it says so).
pub fn extract_field<'a>(layout: &RowLayout, line: &'a [u8], col: usize) -> (r: Option<&'a [u8]>)
    ensures
        match (r, field_of(*layout, line@, col as nat)) {
            (Some(f), Some(sf)) => f@ == sf,
            (None, None) => true,
            _ => false,
        },
{
    if layout.rfc_4180 {
        extract_field_rfc4180(layout, line, col)
    } else {
        extract_field_plain(line, layout.delimiter, col)
    }
}

/// The date in field `col` of `line` lies within the bounds that are given
/// (`from` and `to` inclusive); false when the field is missing or holds no date.
pub open spec fn spec_date_in_range(
    layout: RowLayout,
    line: Seq<u8>,
    col: nat,
    from: Option<u32>,
    to: Option<u32>,
) -> bool {
    match field_of(layout, line, col) {
        None => false,
        Some(f) => match spec_parse_date(f) {
            None => false,
            Some(v) => (match from {
                Some(lo) => lo <= v,
                None => true,
            }) && (match to {
                Some(hi) => v <= hi,
                None => true,
            }),
        },
    }
}

/// The date filter of a row (see `spec_date_in_range`).
pub fn date_in_range(layout: &RowLayout, line: &[u8], col: usize, from: Option<u32>, to: Option<u32>) -> (r: bool)
    ensures
        r == spec_date_in_range(*layout, line@, col as nat, from, to),
{
    match extract_field(layout, line, col) {
        None => false,
        Some(f) => match parse_date_fast(f) {
            None => false,
            Some(v) => {
                let above = match from {
                    Some(lo) => lo <= v,
                    None => true,
                };
                let below = match to {
                    Some(hi) => v <= hi,
                    None => true,
                };
                above && below
            },
        },
    }
}

/// Field `col` of `line` exists and contains `needle`.
pub open spec fn spec_field_contains(layout: RowLayout, line: Seq<u8>, col: nat, needle: Seq<u8>) -> bool {
    match field_of(layout, line, col) {
        None => false,
        Some(f) => exists|j: int| occurs_at(f, needle, j),
    }
}

/// The text filter of a row (see `spec_field_contains`).
pub fn field_contains(layout: &RowLayout, line: &[u8], col: usize, needle: &[u8]) -> (r: bool)
    ensures
        r == spec_field_contains(*layout, line@, col as nat, needle@),
{
    match extract_field(layout, line, col) {
        None => false,
        Some(f) => memmem_find(f, needle).is_some(),
    }
}


/// The line of `data` that starts at `off`, without its `\n`.
pub open spec fn line_at(data: Seq<u8>, off: int) -> Seq<u8> {
    data.subrange(off, next_byte(data, 0x0a, off))
}

/// The line starting at `off`.
pub fn line_from(data: &[u8], off: usize) -> (r: &[u8])
    requires
        off <= data@.len(),
    ensures
        r@ == line_at(data@, off as int),
{
    let e = find_byte_from(data, 0x0au8, off);
    &data[off..e]
}

pub open spec fn ascii_lower_byte(b: u8) -> u8 {
    if 0x41 <= b <= 0x5a {
        (b + 32) as u8
    } else {
        b
    }
}

/// Equality ignoring ASCII case (`<[u8]>::eq_ignore_ascii_case`).
pub open spec fn eq_ignore_ascii_case(a: Seq<u8>, b: Seq<u8>) -> bool {
    a.len() == b.len() && forall|k: int| 0 <= k < a.len() ==> ascii_lower_byte(#[trigger] a[k])
        == ascii_lower_byte(b[k])
}

/// `needle` occurs in `hay` at `i`, ignoring ASCII case.
pub open spec fn occurs_ci_at(hay: Seq<u8>, needle: Seq<u8>, i: int) -> bool {
    0 <= i && i + needle.len() <= hay.len() && eq_ignore_ascii_case(
        hay.subrange(i, i + needle.len()),
        needle,
    )
}

fn lower_byte(b: u8) -> (r: u8)
    ensures
        r == ascii_lower_byte(b),
{
    if 0x41 <= b && b <= 0x5a {
        b + 32
    } else {
        b
    }
}

/// `hay[i..i + needle.len()]` equals `needle` ignoring ASCII case.
fn ci_eq_at(hay: &[u8], i: usize, needle: &[u8]) -> (r: bool)
    requires
        i + needle@.len() <= hay@.len(),
    ensures
        r == eq_ignore_ascii_case(hay@.subrange(i as int, i + needle@.len()), needle@),
{
    let hlen = hay.len();
    let mut k: usize = 0;
    while k < needle.len()
        invariant
            hlen == hay@.len(),
            i + needle@.len() <= hay@.len(),
            k <= needle@.len(),
            forall|m: int| 0 <= m < k ==> ascii_lower_byte(#[trigger] hay@[i + m]) == ascii_lower_byte(needle@[m]),
        decreases needle.len() - k,
    {
        proof {
            assert(i + k < hay@.len());
        }
        if lower_byte(hay[i + k]) != lower_byte(needle[k]) {
            proof {
                assert(hay@.subrange(i as int, i + needle@.len())[k as int] == hay@[i + k]);
            }
            return false;
        }
        k = k + 1;
    }
    proof {
        let w = hay@.subrange(i as int, i + needle@.len());
        assert forall|m: int| 0 <= m < w.len() implies ascii_lower_byte(#[trigger] w[m])
            == ascii_lower_byte(needle@[m]) by {
            assert(w[m] == hay@[i + m]);
        }
    }
    true
}

/// Byte strings equal ignoring ASCII case.
pub fn bytes_eq_ignore_case(a: &[u8], b: &[u8]) -> (r: bool)
    ensures
        r == eq_ignore_ascii_case(a@, b@),
{
    if a.len() != b.len() {
        return false;
    }
    let r = ci_eq_at(a, 0, b);
    proof {
        assert(a@.subrange(0, b@.len() as int) =~= a@);
    }
    r
}

/// Whether `needle` occurs somewhere in `hay`, ignoring ASCII case.
fn contains_ignore_case(hay: &[u8], needle: &[u8]) -> (r: bool)
    ensures
        r == exists|i: int| occurs_ci_at(hay@, needle@, i),
{
    if needle.len() == 0 {
        proof {
            assert(hay@.subrange(0, 0) =~= needle@);
            assert(occurs_ci_at(hay@, needle@, 0));
        }
        return true;
    }
    if needle.len() > hay.len() {
        return false;
    }
    let hlen = hay.len();
    let last = hlen - needle.len();
    let mut i: usize = 0;
    while i <= last
        invariant
            hlen == hay@.len(),
            needle@.len() >= 1,
            last + needle@.len() == hay@.len(),
            i <= last + 1,
            forall|j: int| 0 <= j < i ==> !occurs_ci_at(hay@, needle@, j),
        decreases last + 1 - i,
    {
        if ci_eq_at(hay, i, needle) {
            assert(occurs_ci_at(hay@, needle@, i as int));
            return true;
        }
        i = i + 1;
    }
    proof {
        assert forall|j: int| !occurs_ci_at(hay@, needle@, j) by {
            if 0 <= j && j + needle@.len() <= hay@.len() {
                assert(j < i);
            }
        }
    }
    false
}


/// Whether a row answers a query: with a column, its field contains the query (or,
/// ignoring ASCII case, equals it); without, the whole line contains it.
pub open spec fn query_matches(
    layout: RowLayout,
    line: Seq<u8>,
    q: Seq<u8>,
    col: Option<usize>,
    ignore_case: bool,
) -> bool {
    match col {
        Some(c) => match field_of(layout, line, c as nat) {
            Some(f) => if ignore_case {
                eq_ignore_ascii_case(f, q)
            } else {
                exists|j: int| occurs_at(f, q, j)
            },
            None => false,
        },
        None => if ignore_case {
            exists|j: int| occurs_ci_at(line, q, j)
        } else {
            exists|j: int| occurs_at(line, q, j)
        },
    }
}

/// Indices, in order, of the rows among the first `n` that answer the query.
pub open spec fn matching_rows(
    layout: RowLayout,
    data: Seq<u8>,
    offsets: Seq<u64>,
    q: Seq<u8>,
    col: Option<usize>,
    ignore_case: bool,
    n: int,
) -> Seq<int>
    decreases n,
{
    if n <= 0 {
        Seq::empty()
    } else {
        let before = matching_rows(layout, data, offsets, q, col, ignore_case, n - 1);
        if query_matches(layout, line_at(data, offsets[n - 1] as int), q, col, ignore_case) {
            before.push(n - 1)
        } else {
            before
        }
    }
}

proof fn lemma_matching_rows_prefix(
    layout: RowLayout,
    data: Seq<u8>,
    offsets: Seq<u64>,
    q: Seq<u8>,
    col: Option<usize>,
    ic: bool,
    i: int,
    n: int,
)
    requires
        0 <= i <= n,
    ensures
        matching_rows(layout, data, offsets, q, col, ic, i).len() <= matching_rows(
            layout,
            data,
            offsets,
            q,
            col,
            ic,
            n,
        ).len(),
        matching_rows(layout, data, offsets, q, col, ic, n).take(
            matching_rows(layout, data, offsets, q, col, ic, i).len() as int,
        ) == matching_rows(layout, data, offsets, q, col, ic, i),
    decreases n - i,
{
    let a = matching_rows(layout, data, offsets, q, col, ic, i);
    if i == n {
        assert(a.take(a.len() as int) =~= a);
    } else {
        lemma_matching_rows_prefix(layout, data, offsets, q, col, ic, i, n - 1);
        let b = matching_rows(layout, data, offsets, q, col, ic, n - 1);
        let c = matching_rows(layout, data, offsets, q, col, ic, n);
        assert(c.take(a.len() as int) =~= b.take(a.len() as int));
    }
}

/// Law: a case-sensitive search in a column answers exactly the rows whose field in
/// that column contains the query somewhere (a longer field holding it matches too);
/// a row without that column never answers.
pub proof fn lemma_column_search_is_substring(layout: RowLayout, line: Seq<u8>, q: Seq<u8>, c: usize)
    ensures
        query_matches(layout, line, q, Some(c), false) <==> (field_of(layout, line, c as nat) matches Some(f)
            && exists|j: int| 0 <= j && j + q.len() <= f.len() && #[trigger] f.subrange(j, j + q.len()) == q),
        field_of(layout, line, c as nat) matches Some(f) && f.len() > q.len() && f.subrange(0, q.len() as int)
            == q ==> query_matches(layout, line, q, Some(c), false),
{
    if let Some(f) = field_of(layout, line, c as nat) {
        if exists|j: int| occurs_at(f, q, j) {
            let j = choose|j: int| occurs_at(f, q, j);
            assert(0 <= j && j + q.len() <= f.len() && f.subrange(j, j + q.len()) == q);
        }
        if exists|j: int| 0 <= j && j + q.len() <= f.len() && #[trigger] f.subrange(j, j + q.len()) == q {
            let j = choose|j: int| 0 <= j && j + q.len() <= f.len() && #[trigger] f.subrange(j, j + q.len()) == q;
            assert(occurs_at(f, q, j));
        }
        if f.len() > q.len() && f.subrange(0, q.len() as int) == q {
            assert(occurs_at(f, q, 0));
        }
    }
}

/// Law: how the search modes relate. A field equal to the query answers the column
/// search with and without case; ignoring case, a field of another length never
/// answers; a row whose line holds the query answers the whole-line search, and a
/// row answering it answers the case-ignoring whole-line search too.
pub proof fn lemma_search_modes(layout: RowLayout, line: Seq<u8>, q: Seq<u8>, c: usize)
    ensures
        field_of(layout, line, c as nat) == Some(q) ==> query_matches(layout, line, q, Some(c), false)
            && query_matches(layout, line, q, Some(c), true),
        (field_of(layout, line, c as nat) matches Some(f) && f.len() != q.len()) ==> !query_matches(
            layout,
            line,
            q,
            Some(c),
            true,
        ),
        (exists|j: int| 0 <= j && j + q.len() <= line.len() && #[trigger] line.subrange(j, j + q.len()) == q)
            ==> query_matches(layout, line, q, None, false),
        query_matches(layout, line, q, None, false) ==> query_matches(layout, line, q, None, true),
{
    if let Some(f) = field_of(layout, line, c as nat) {
        if f == q {
            assert(f.subrange(0, q.len() as int) =~= q);
            assert(occurs_at(f, q, 0));
            assert(eq_ignore_ascii_case(f, q));
        }
    }
    if exists|j: int| 0 <= j && j + q.len() <= line.len() && #[trigger] line.subrange(j, j + q.len()) == q {
        let j = choose|j: int| 0 <= j && j + q.len() <= line.len() && #[trigger] line.subrange(j, j + q.len()) == q;
        assert(occurs_at(line, q, j));
    }
    if query_matches(layout, line, q, None, false) {
        let j = choose|j: int| occurs_at(line, q, j);
        assert(occurs_ci_at(line, q, j));
    }
}

/// Law: among the first `n` rows, the search lists row `i` exactly when its field in
/// column `c` contains the query (case-sensitive), and lists rows in increasing order.
pub proof fn lemma_column_search_rows(
    layout: RowLayout,
    data: Seq<u8>,
    offsets: Seq<u64>,
    q: Seq<u8>,
    c: usize,
    n: int,
)
    ensures
        forall|i: int|
            0 <= i < n ==> (matching_rows(layout, data, offsets, q, Some(c), false, n).contains(i) <==> (
            field_of(layout, line_at(data, offsets[i] as int), c as nat) matches Some(f) && exists|j: int|
                occurs_at(f, q, j))),
        forall|a: int, b: int|
            0 <= a < b < matching_rows(layout, data, offsets, q, Some(c), false, n).len() ==> matching_rows(
                layout,
                data,
                offsets,
                q,
                Some(c),
                false,
                n,
            )[a] < matching_rows(layout, data, offsets, q, Some(c), false, n)[b],
        forall|k: int|
            0 <= k < matching_rows(layout, data, offsets, q, Some(c), false, n).len() ==> 0 <= #[trigger] matching_rows(
                layout,
                data,
                offsets,
                q,
                Some(c),
                false,
                n,
            )[k] < n,
    decreases n,
{
    if n > 0 {
        lemma_column_search_rows(layout, data, offsets, q, c, n - 1);
        let before = matching_rows(layout, data, offsets, q, Some(c), false, n - 1);
        let now = matching_rows(layout, data, offsets, q, Some(c), false, n);
        assert forall|i: int| 0 <= i < n implies (now.contains(i) <==> (field_of(
            layout,
            line_at(data, offsets[i] as int),
            c as nat,
        ) matches Some(f) && exists|j: int| occurs_at(f, q, j))) by {
            if i < n - 1 {
                if now.contains(i) && now != before {
                    let w = choose|w: int| 0 <= w < now.len() && now[w] == i;
                    if w < before.len() {
                        assert(before[w] == i);
                    }
                }
                if before.contains(i) {
                    let w = choose|w: int| 0 <= w < before.len() && before[w] == i;
                    assert(now[w] == i);
                }
            } else {
                if now.contains(i) && now == before {
                    let w = choose|w: int| 0 <= w < before.len() && before[w] == i;
                }
                if now != before {
                    assert(now[now.len() - 1] == i);
                }
            }
        }
    }
}

/// The text reported for a row: empty when only indices are wanted, else the line
/// decoded (lossily) and trimmed.
pub open spec fn row_text(data: Seq<u8>, off: int, indices_only: bool) -> Seq<char> {
    if indices_only {
        Seq::empty()
    } else {
        trim(utf8_lossy(line_at(data, off)))
    }
}

/// Whether the row `line` answers the query.
fn row_answers(
    layout: &RowLayout,
    line: &[u8],
    needle: &[u8],
    col: Option<usize>,
    ignore_case: bool,
) -> (r: bool)
    requires
        !(ignore_case && col is None && needle@.len() == 0),
    ensures
        r == query_matches(*layout, line@, needle@, col, ignore_case),
{
    match col {
        Some(c) => match extract_field(layout, line, c) {
            Some(field) => {
                if ignore_case {
                    bytes_eq_ignore_case(field, needle)
                } else {
                    memmem_find(field, needle).is_some()
                }
            },
            None => false,
        },
        None => {
            if ignore_case {
                contains_ignore_case(line, needle)
            } else {
                memmem_find(line, needle).is_some()
            }
        },
    }
}

/// Rows (1-based index, text) that answer the query, in order; the search stops once
/// `limit` rows are found (and after the first one when `limit` is 0).
pub fn search_rows(
    layout: &RowLayout,
    data: &[u8],
    offsets: &[u64],
    query: &str,
    col: Option<usize>,
    limit: usize,
    ignore_case: bool,
    indices_only: bool,
) -> (r: Vec<(usize, String)>)
    requires
        forall|i: int| 0 <= i < offsets@.len() ==> offsets@[i] <= data@.len(),
        !(ignore_case && col is None && query@.len() == 0 && offsets@.len() > 0),
    ensures
        ({
            let hits = matching_rows(
                *layout,
                data@,
                offsets@,
                encode_utf8(query@),
                col,
                ignore_case,
                offsets@.len() as int,
            );
            let k = if hits.len() < (if limit == 0 { 1 } else { limit as int }) {
                hits.len() as int
            } else {
                (if limit == 0 { 1 } else { limit as int })
            };
            &&& r@.len() == k
            &&& forall|j: int|
                0 <= j < k ==> (#[trigger] r@[j]).0 == hits[j] + 1 && r@[j].1@ == row_text(
                    data@,
                    offsets@[hits[j]] as int,
                    indices_only,
                )
        }),
{
    let needle = query.as_bytes();
    let ghost q = encode_utf8(query@);
    proof {
        if query@.len() > 0 {
            assert(encode_utf8(query@).len() > 0);
        }
    }
    let ghost n = offsets@.len() as int;
    let dlen = data.len();
    let mut results: Vec<(usize, String)> = Vec::new();
    let mut i: usize = 0;
    while i < offsets.len()
        invariant
            dlen == data@.len(),
            i <= offsets@.len(),
            n == offsets@.len(),
            needle@ == q,
            q == encode_utf8(query@),
            forall|m: int| 0 <= m < offsets@.len() ==> offsets@[m] <= data@.len(),
            !(ignore_case && col is None && q.len() == 0 && offsets@.len() > 0),
            results@.len() < (if limit == 0 { 1 } else { limit as int }),
            results@.len() == matching_rows(*layout, data@, offsets@, q, col, ignore_case, i as int).len(),
            forall|j: int|
                0 <= j < results@.len() ==> (#[trigger] results@[j]).0 == matching_rows(
                    *layout,
                    data@,
                    offsets@,
                    q,
                    col,
                    ignore_case,
                    i as int,
                )[j] + 1 && results@[j].1@ == row_text(
                    data@,
                    offsets@[matching_rows(*layout, data@, offsets@, q, col, ignore_case, i as int)[j]] as int,
                    indices_only,
                ),
        decreases offsets.len() - i,
    {
        let off = offsets[i] as usize;
        let line = line_from(data, off);
        let matched = row_answers(layout, line, needle, col, ignore_case);
        let ghost before = results@;
        if matched {
            let text = if indices_only {
                String::new()
            } else {
                let raw = lossy_string(line);
                trimmed(raw.as_str())
            };
            results.push((i + 1, text));
            proof {
                let mr = matching_rows(*layout, data@, offsets@, q, col, ignore_case, i + 1);
                assert(mr == matching_rows(*layout, data@, offsets@, q, col, ignore_case, i as int).push(i as int));
                assert forall|j: int| 0 <= j < results@.len() implies (#[trigger] results@[j]).0 == mr[j] + 1
                    && results@[j].1@ == row_text(data@, offsets@[mr[j]] as int, indices_only) by {
                    if j < before.len() {
                        assert(results@[j] == before[j]);
                    }
                }
            }
            if results.len() >= limit {
                proof {
                    lemma_matching_rows_prefix(*layout, data@, offsets@, q, col, ignore_case, i + 1, n);
                    let mr = matching_rows(*layout, data@, offsets@, q, col, ignore_case, i + 1);
                    let hits = matching_rows(*layout, data@, offsets@, q, col, ignore_case, n);
                    assert forall|j: int| 0 <= j < mr.len() implies hits[j] == mr[j] by {
                        assert(hits.take(mr.len() as int)[j] == hits[j]);
                    }
                    let lim: int = if limit == 0 { 1 } else { limit as int };
                    assert(before.len() < lim);
                    assert(results@.len() == before.len() + 1);
                    assert(results@.len() == lim);
                    assert(mr.len() == results@.len());
                    assert(hits.len() >= lim);
                    assert forall|j: int| 0 <= j < lim implies (#[trigger] results@[j]).0 == hits[j]
                        + 1 && results@[j].1@ == row_text(data@, offsets@[hits[j]] as int, indices_only) by {
                        assert(hits[j] == mr[j]);
                    }
                }
                return results;
            }
        }
        i = i + 1;
    }
    proof {
        lemma_matching_rows_prefix(*layout, data@, offsets@, q, col, ignore_case, n, n);
    }
    results
}

/// The rows `start..end` (clamped to the index) as text, each line decoded lossily.
pub fn get_rows(data: &[u8], offsets: &[u64], start: usize, end: usize) -> (r: Vec<String>)
    requires
        forall|i: int| 0 <= i < offsets@.len() ==> offsets@[i] <= data@.len(),
    ensures
        ({
            let lim = if end < offsets@.len() { end as int } else { offsets@.len() as int };
            let k = if start < lim { lim - start } else { 0 };
            &&& r@.len() == k
            &&& forall|j: int|
                0 <= j < k ==> (#[trigger] r@[j])@ == utf8_lossy(
                    line_at(data@, offsets@[start + j] as int),
                )
        }),
{
    let mut results: Vec<String> = Vec::new();
    let limit = if end < offsets.len() {
        end
    } else {
        offsets.len()
    };
    let dlen = data.len();
    let mut i = start;
    while i < limit
        invariant
            dlen == data@.len(),
            limit <= offsets@.len(),
            limit == if end < offsets@.len() { end as int } else { offsets@.len() as int },
            i >= start,
            i <= limit || i == start,
            forall|m: int| 0 <= m < offsets@.len() ==> offsets@[m] <= data@.len(),
            results@.len() == i - start,
            forall|j: int|
                0 <= j < results@.len() ==> (#[trigger] results@[j])@ == utf8_lossy(
                    line_at(data@, offsets@[start + j] as int),
                ),
        decreases limit - i,
    {
        let line = line_from(data, offsets[i] as usize);
        results.push(lossy_string(line));
        i = i + 1;
    }
    results
}


/// Index of the first `c` in `cs` from `i` on (or the length).
pub open spec fn first_of(cs: Seq<char>, c: char, i: int) -> int
    decreases cs.len() - i,
{
    if i < 0 || i >= cs.len() {
        cs.len() as int
    } else if cs[i] == c {
        i
    } else {
        first_of(cs, c, i + 1)
    }
}

proof fn lemma_first_of(cs: Seq<char>, c: char, i: int)
    requires
        0 <= i <= cs.len(),
    ensures
        i <= first_of(cs, c, i) <= cs.len(),
        forall|j: int| i <= j < first_of(cs, c, i) ==> cs[j] != c,
        first_of(cs, c, i) < cs.len() ==> cs[first_of(cs, c, i)] == c,
    decreases cs.len() - i,
{
    if i < cs.len() && cs[i] != c {
        lemma_first_of(cs, c, i + 1);
    }
}

/// Pieces of `cs` between occurrences of `c` (`str::split` with a character).
pub open spec fn split_on(cs: Seq<char>, c: char) -> Seq<Seq<char>>
    decreases cs.len(),
    via split_on_decreases
{
    let k = first_of(cs, c, 0);
    if k >= cs.len() {
        seq![cs]
    } else {
        seq![cs.subrange(0, k)] + split_on(cs.subrange(k + 1, cs.len() as int), c)
    }
}

#[via_fn]
proof fn split_on_decreases(cs: Seq<char>, c: char) {
    lemma_first_of(cs, c, 0);
}

/// Column names of a dataset: with a header, the header line (after `skip_rows` lines)
/// split at the delimiter and trimmed (an empty name list piece when it is not UTF-8);
/// without, the single name `col_0`.
pub open spec fn spec_header_names(layout: RowLayout, data: Seq<u8>, skip_rows: nat) -> Seq<Seq<char>> {
    if layout.has_header {
        let start = after_lines(data, 0, skip_rows);
        let end = next_byte(data, 0x0a, start);
        let bytes = data.subrange(start, end);
        let text = if valid_utf8(bytes) {
            decode_utf8(bytes)
        } else {
            Seq::empty()
        };
        split_on(text, (layout.delimiter as char)).map_values(|p: Seq<char>| trim(p))
    } else {
        seq!["col_0"@]
    }
}

proof fn lemma_split_step(cs: Seq<char>, c: char, k: int)
    requires
        0 <= k < cs.len(),
        cs[k] == c,
        forall|j: int| 0 <= j < k ==> cs[j] != c,
    ensures
        split_on(cs, c) == seq![cs.subrange(0, k)] + split_on(cs.subrange(k + 1, cs.len() as int), c),
{
    lemma_first_of(cs, c, 0);
    let f = first_of(cs, c, 0);
    if f < k {
        assert(cs[f] == c);
    } else if f > k {
        assert(cs[k] != c);
    }
}

proof fn lemma_split_none(cs: Seq<char>, c: char)
    requires
        forall|j: int| 0 <= j < cs.len() ==> cs[j] != c,
    ensures
        split_on(cs, c) == seq![cs],
{
    lemma_first_of(cs, c, 0);
}

/// The schema guessed for a dataset: every column numeric, named from the header.
#[verifier::rlimit(50)]
pub fn infer_schema(layout: &RowLayout, data: &[u8], skip_rows: usize) -> (r: Vec<ColumnSchema>)
    ensures
        r@.map_values(|c: ColumnSchema| c.name@) == spec_header_names(*layout, data@, skip_rows as nat),
        forall|i: int| 0 <= i < r@.len() ==> (#[trigger] r@[i]).data_type == DataType::Numeric
            && r@[i].format is None && r@[i].currency_symbol is None,
{
    let mut out: Vec<ColumnSchema> = Vec::new();
    if !layout.has_header {
        out.push(ColumnSchema::new("col_0", DataType::Numeric));
        proof {
            assert(out@.map_values(|c: ColumnSchema| c.name@) =~= seq!["col_0"@]);
        }
        return out;
    }
    let n = data.len();
    let mut start: usize = 0;
    let mut k: usize = 0;
    proof {
        crate::index::lemma_after_lines_bounds(data@, 0, skip_rows as nat);
    }
    while k < skip_rows
        invariant
            n == data@.len(),
            k <= skip_rows,
            start <= n,
            after_lines(data@, 0, skip_rows as nat) == after_lines(data@, start as int, (skip_rows - k) as nat),
        decreases skip_rows - k,
    {
        let e = find_byte_from(data, 0x0au8, start);
        start = if e < n {
            e + 1
        } else {
            e
        };
        k = k + 1;
    }
    let end = find_byte_from(data, 0x0au8, start);
    let bytes = &data[start..end];
    let text: Vec<char> = match string_from_utf8(bytes) {
        Some(t) => chars_of(t.as_str()),
        None => Vec::new(),
    };
    let names = split_trimmed(&text, layout.delimiter as char);
    let ghost nv = strings_view(names@);
    let mut i: usize = 0;
    while i < names.len()
        invariant
            i <= names@.len(),
            nv == strings_view(names@),
            out@.map_values(|c: ColumnSchema| c.name@) == nv.take(i as int),
            forall|m: int|
                0 <= m < out@.len() ==> (#[trigger] out@[m]).data_type == DataType::Numeric
                    && out@[m].format is None && out@[m].currency_symbol is None,
        decreases names@.len() - i,
    {
        let name = names[i].as_str().to_owned();
        let ghost before = out@;
        out.push(ColumnSchema { name, data_type: DataType::Numeric, format: None, currency_symbol: None });
        proof {
            let f = |c: ColumnSchema| c.name@;
            assert(name@ == nv[i as int]);
            assert(out@.map_values(f) =~= before.map_values(f).push(nv[i as int]));
            assert(nv.take(i + 1) =~= nv.take(i as int).push(nv[i as int]));
        }
        i = i + 1;
    }
    proof {
        assert(nv.take(nv.len() as int) =~= nv);
        let start_s = after_lines(data@, 0, skip_rows as nat);
        assert(bytes@ =~= data@.subrange(start_s, next_byte(data@, 0x0a, start_s)));
    }
    out
}

/// Whether a dataset is read as NDJSON: a forced `json`/`ndjson` says yes, a forced
/// `csv`/`logs` says no, otherwise its first non-blank byte opens an object.
pub open spec fn spec_is_json(forced: Option<Seq<char>>, data: Seq<u8>) -> bool {
    match forced {
        Some(f) => if f == "json"@ || f == "ndjson"@ {
            true
        } else if f == "csv"@ || f == "logs"@ {
            false
        } else {
            JsonParser::spec_probe(data)
        },
        None => JsonParser::spec_probe(data),
    }
}

fn text_is(cs: &Vec<char>, w: &str) -> (r: bool)
    ensures
        r == (cs@ == w@),
{
    let y = chars_of(w);
    if cs.len() != y.len() {
        return false;
    }
    let mut i: usize = 0;
    while i < cs.len()
        invariant
            y@ == w@,
            cs@.len() == y@.len(),
            i <= cs@.len(),
            forall|k: int| 0 <= k < i ==> cs@[k] == y@[k],
        decreases cs.len() - i,
    {
        if cs[i] != y[i] {
            return false;
        }
        i = i + 1;
    }
    proof {
        assert(cs@ =~= y@);
    }
    true
}

/// Whether a dataset is read as NDJSON (see `spec_is_json`).
pub fn is_json_format(forced_format: Option<&str>, data: &[u8]) -> (r: bool)
    ensures
        r == spec_is_json(
            match forced_format {
                Some(f) => Some(f@),
                None => None,
            },
            data@,
        ),
{
    if let Some(f) = forced_format {
        let cs = chars_of(f);
        if text_is(&cs, "json") || text_is(&cs, "ndjson") {
            return true;
        }
        if text_is(&cs, "csv") || text_is(&cs, "logs") {
            return false;
        }
    }
    JsonParser::new().probe(data)
}

/// Rows of preamble before the header; no preamble is detected, so this is always 0.
pub fn auto_detect_preamble(_data: &[u8]) -> (r: usize)
    ensures
        r == 0,
{
    0
}

// ------------------------------------------------------- raw match positions

/// How many offsets are at most `pos`.
pub open spec fn count_le(offsets: Seq<u64>, pos: int) -> nat
    decreases offsets.len(),
{
    if offsets.len() == 0 {
        0
    } else {
        count_le(offsets.drop_last(), pos) + (if offsets.last() <= pos {
            1nat
        } else {
            0nat
        })
    }
}

pub open spec fn non_decreasing(s: Seq<u64>) -> bool {
    forall|i: int, j: int| 0 <= i <= j < s.len() ==> s[i] <= s[j]
}

/// The data row that holds the byte at `pos`: the last row whose offset is at most
/// `pos`, counted without the header row, and `None` inside the header row. Without
/// an index the position itself is reported.
pub open spec fn spec_match_row(offsets: Seq<u64>, has_header: bool, pos: int) -> Option<int> {
    if offsets.len() == 0 {
        Some(pos)
    } else {
        let c = count_le(offsets, pos);
        let p = if c > 0 {
            c - 1
        } else {
            0
        };
        if has_header && p == 0 {
            None
        } else if has_header {
            Some(p - 1)
        } else {
            Some(p)
        }
    }
}

proof fn lemma_count_le_split(s: Seq<u64>, pos: int, k: int)
    requires
        0 <= k <= s.len(),
        forall|i: int| 0 <= i < k ==> s[i] <= pos,
        forall|i: int| k <= i < s.len() ==> s[i] > pos,
    ensures
        count_le(s, pos) == k,
    decreases s.len(),
{
    if s.len() > 0 {
        if k == s.len() {
            lemma_count_le_split(s.drop_last(), pos, k - 1);
        } else {
            lemma_count_le_split(s.drop_last(), pos, k);
        }
    }
}

/// The row of a match at byte `pos` (see `spec_match_row`), by binary search over
/// the sorted row offsets.
pub fn match_row_index(offsets: &[u64], has_header: bool, pos: usize) -> (r: Option<usize>)
    requires
        non_decreasing(offsets@),
    ensures
        match r {
            Some(i) => spec_match_row(offsets@, has_header, pos as int) == Some(i as int),
            None => spec_match_row(offsets@, has_header, pos as int) is None,
        },
{
    if offsets.len() == 0 {
        return Some(pos);
    }
    let mut lo: usize = 0;
    let mut hi: usize = offsets.len();
    while lo < hi
        invariant
            0 <= lo <= hi <= offsets@.len(),
            non_decreasing(offsets@),
            forall|i: int| 0 <= i < lo ==> offsets@[i] <= pos,
            forall|i: int| hi <= i < offsets@.len() ==> offsets@[i] > pos,
        decreases hi - lo,
    {
        let mid = lo + (hi - lo) / 2;
        if offsets[mid] <= pos as u64 {
            lo = mid + 1;
        } else {
            hi = mid;
        }
    }
    proof {
        lemma_count_le_split(offsets@, pos as int, lo as int);
    }
    let p = if lo > 0 {
        lo - 1
    } else {
        0
    };
    if has_header && p == 0 {
        None
    } else if has_header {
        Some(p - 1)
    } else {
        Some(p)
    }
}

/// Where the line holding byte `p` starts: just after the last `\n` before `p`.
pub open spec fn line_start_of(data: Seq<u8>, p: int) -> int
    decreases p,
{
    if p <= 0 {
        0
    } else if data[p - 1] == 0x0a {
        p
    } else {
        line_start_of(data, p - 1)
    }
}

/// The text of the line holding byte `pos`, decoded leniently and trimmed.
pub open spec fn spec_line_around(data: Seq<u8>, pos: int) -> Seq<char> {
    trim(utf8_lossy(data.subrange(line_start_of(data, pos), next_byte(data, 0x0a, pos))))
}

/// The line holding byte `pos` of `data`, decoded leniently and trimmed.
pub fn line_around(data: &[u8], pos: usize) -> (r: String)
    requires
        pos <= data@.len(),
    ensures
        r@ == spec_line_around(data@, pos as int),
{
    let mut s: usize = pos;
    while s > 0 && data[s - 1] != 0x0au8
        invariant
            s <= pos <= data@.len(),
            line_start_of(data@, pos as int) == line_start_of(data@, s as int),
        decreases s,
    {
        s = s - 1;
    }
    let e = find_byte_from(data, 0x0au8, pos);
    let raw = lossy_string(&data[s..e]);
    proof {
        assert(data@.subrange(s as int, e as int) =~= data@.subrange(s as int, e as int));
    }
    trimmed(raw.as_str())
}

// ------------------------------------------------------------- row fields

proof fn lemma_rfc_field_past_end(
    line: Seq<u8>,
    delim: u8,
    strip: bool,
    col: nat,
    i: int,
    in_quotes: bool,
    idx: nat,
    start: int,
)
    requires
        0 <= i <= line.len(),
        col > idx + (line.len() - i),
    ensures
        rfc_field(line, delim, strip, col, i, in_quotes, idx, start) is None,
    decreases line.len() - i,
{
    if i < line.len() {
        if line[i] == 0x22 {
            lemma_rfc_field_past_end(line, delim, strip, col, i + 1, !in_quotes, idx, start);
        } else if line[i] == delim && !in_quotes {
            lemma_rfc_field_past_end(line, delim, strip, col, i + 1, in_quotes, idx + 1, i + 1);
        } else {
            lemma_rfc_field_past_end(line, delim, strip, col, i + 1, in_quotes, idx, start);
        }
    }
}

/// The RFC 4180 fields of a line from column `col` on, up to the first column that
/// does not exist.
pub open spec fn quoted_fields_from(layout: RowLayout, line: Seq<u8>, col: nat) -> Seq<Seq<u8>>
    decreases line.len() + 1 - col,
{
    if col > line.len() {
        Seq::empty()
    } else {
        match rfc_field(line, layout.delimiter, layout.strip_quotes, col, 0, false, 0, 0) {
            Some((s, e)) => seq![line.subrange(s, e)] + quoted_fields_from(layout, line, col + 1),
            None => Seq::empty(),
        }
    }
}

/// The fields of a row as trimmed text: RFC 4180 fields decoded leniently, or, for a
/// plain row, its text (none when it is not UTF-8) split at the delimiter.
pub open spec fn spec_row_fields(layout: RowLayout, line: Seq<u8>) -> Seq<Seq<char>> {
    if layout.rfc_4180 {
        quoted_fields_from(layout, line, 0).map_values(|f: Seq<u8>| trim(utf8_lossy(f)))
    } else {
        let text = if valid_utf8(line) {
            decode_utf8(line)
        } else {
            Seq::empty()
        };
        split_on(text, (layout.delimiter as char)).map_values(|p: Seq<char>| trim(p))
    }
}

/// The pieces of `text` between occurrences of `dc`, each trimmed.
pub fn split_trimmed(text: &[char], dc: char) -> (r: Vec<String>)
    ensures
        strings_view(r@) == split_on(text@, dc).map_values(|p: Seq<char>| trim(p)),
{
    let ghost whole = text@;
    let mut out: Vec<String> = Vec::new();
    let mut piece: Vec<char> = Vec::new();
    let mut i: usize = 0;
    proof {
        assert(whole.subrange(0, whole.len() as int) =~= whole);
        assert(piece@ =~= whole.subrange(0, 0));
        assert(strings_view(out@) =~= Seq::<Seq<char>>::empty());
    }
    while i < text.len()
        invariant
            i <= text@.len(),
            whole == text@,
            i >= piece@.len(),
            forall|j: int| 0 <= j < piece@.len() ==> piece@[j] != dc,
            piece@ == whole.subrange(i - piece@.len(), i as int),
            strings_view(out@) + split_on(whole.subrange(i - piece@.len(), whole.len() as int), dc).map_values(
                |p: Seq<char>| trim(p),
            ) == split_on(whole, dc).map_values(|p: Seq<char>| trim(p)),
        decreases text.len() - i,
    {
        let c = text[i];
        if c == dc {
            let ghost ps = i - piece@.len();
            let ghost rest = whole.subrange(ps, whole.len() as int);
            let ghost tail = whole.subrange(i + 1, whole.len() as int);
            proof {
                assert(rest[piece@.len() as int] == dc);
                assert forall|j: int| 0 <= j < piece@.len() implies rest[j] != dc by {
                    assert(rest[j] == piece@[j]);
                }
                lemma_split_step(rest, dc, piece@.len() as int);
                assert(rest.subrange(0, piece@.len() as int) =~= piece@);
                assert(rest.subrange(piece@.len() as int + 1, rest.len() as int) =~= tail);
            }
            let name = trimmed(string_from_chars(piece.as_slice()).as_str());
            let ghost before = strings_view(out@);
            let ghost p0 = piece@;
            out.push(name);
            piece = Vec::new();
            proof {
                let g = |p: Seq<char>| trim(p);
                assert(strings_view(out@) =~= before.push(trim(p0)));
                assert(split_on(rest, dc).map_values(g) =~= seq![trim(p0)] + split_on(tail, dc).map_values(g));
                assert(strings_view(out@) + split_on(tail, dc).map_values(g) =~= before + split_on(
                    rest,
                    dc,
                ).map_values(g));
                assert(piece@ =~= whole.subrange(i + 1, i + 1));
            }
        } else {
            piece.push(c);
            proof {
                assert(piece@ =~= whole.subrange(i + 1 - piece@.len(), i + 1));
            }
        }
        i = i + 1;
    }
    let ghost ps = i - piece@.len();
    let ghost rest = whole.subrange(ps, whole.len() as int);
    proof {
        assert(rest =~= piece@);
        lemma_split_none(rest, dc);
    }
    let name = trimmed(string_from_chars(piece.as_slice()).as_str());
    let ghost before = strings_view(out@);
    out.push(name);
    proof {
        let g = |p: Seq<char>| trim(p);
        assert(split_on(rest, dc) == seq![rest]);
        assert(split_on(rest, dc).map_values(g) =~= seq![trim(rest)]);
        assert(strings_view(out@) =~= before + split_on(rest, dc).map_values(g));
    }
    out
}

/// The fields of a row as trimmed text (see `spec_row_fields`).
pub fn row_fields(layout: &RowLayout, line: &[u8]) -> (r: Vec<String>)
    requires
        line@.len() < usize::MAX,
    ensures
        strings_view(r@) == spec_row_fields(*layout, line@),
{
    if layout.rfc_4180 {
        let mut out: Vec<String> = Vec::new();
        let mut col: usize = 0;
        let ghost g = |f: Seq<u8>| trim(utf8_lossy(f));
        proof {
            assert(strings_view(out@) =~= Seq::<Seq<char>>::empty());
        }
        loop
            invariant_except_break
                col <= line@.len() + 1,
                line@.len() < usize::MAX,
                g == (|f: Seq<u8>| trim(utf8_lossy(f))),
                strings_view(out@) + quoted_fields_from(*layout, line@, col as nat).map_values(g)
                    == quoted_fields_from(*layout, line@, 0).map_values(g),
            ensures
                strings_view(out@) == quoted_fields_from(*layout, line@, 0).map_values(g),
            decreases line@.len() + 1 - col,
        {
            if col > line.len() {
                proof {
                    assert(strings_view(out@) + Seq::<Seq<char>>::empty() =~= strings_view(out@));
                }
                break;
            }
            match extract_field_rfc4180(layout, line, col) {
                Some(field) => {
                    let ghost before = strings_view(out@);
                    let text = trimmed(lossy_string(field).as_str());
                    out.push(text);
                    proof {
                        let rest = quoted_fields_from(*layout, line@, (col + 1) as nat);
                        assert(quoted_fields_from(*layout, line@, col as nat) == seq![field@] + rest);
                        assert(strings_view(out@) =~= before.push(g(field@)));
                        assert((seq![field@] + rest).map_values(g) =~= seq![g(field@)] + rest.map_values(g));
                        assert(strings_view(out@) + rest.map_values(g) =~= before + (seq![field@]
                            + rest).map_values(g));
                    }
                    col = col + 1;
                },
                None => {
                    proof {
                        assert(quoted_fields_from(*layout, line@, col as nat) =~= Seq::<Seq<u8>>::empty());
                        assert(strings_view(out@) + Seq::<Seq<char>>::empty() =~= strings_view(out@));
                    }
                    break;
                },
            }
        }
        out
    } else {
        let text: Vec<char> = match string_from_utf8(line) {
            Some(t) => chars_of(t.as_str()),
            None => Vec::new(),
        };
        split_trimmed(&text, layout.delimiter as char)
    }
}

/// The names an export gives the fields: those of the header row (right after a
/// byte-order mark; the preamble is not skipped) when the file has one, else none.
pub open spec fn spec_export_headers(layout: RowLayout, data: Seq<u8>) -> Seq<Seq<char>> {
    if layout.has_header {
        let s = bom_len(data);
        spec_row_fields(layout, data.subrange(s, next_byte(data, 0x0a, s)))
    } else {
        Seq::empty()
    }
}

/// The header names used when exporting rows (see `spec_export_headers`).
pub fn export_headers(layout: &RowLayout, data: &[u8]) -> (r: Vec<String>)
    requires
        data@.len() < usize::MAX,
    ensures
        strings_view(r@) == spec_export_headers(*layout, data@),
{
    if !layout.has_header {
        let v: Vec<String> = Vec::new();
        proof {
            assert(strings_view(v@) =~= Seq::<Seq<char>>::empty());
        }
        return v;
    }
    let s: usize = if data.len() >= 3 && data[0] == 0xefu8 && data[1] == 0xbbu8 && data[2] == 0xbfu8 {
        3
    } else {
        0
    };
    let e = find_byte_from(data, 0x0au8, s);
    let header = &data[s..e];
    proof {
        assert(header@ =~= data@.subrange(s as int, e as int));
    }
    row_fields(layout, header)
}

/// `col_<i>` for `i` in `0..n`.
pub open spec fn numbered_names(n: nat) -> Seq<Seq<char>> {
    Seq::new(n, |i: int| "col_"@ + dec_digits(i as nat))
}

/// The keys of an exported JSON row of `n` fields: the header names, or `col_<i>`
/// names when there are none.
pub open spec fn spec_json_keys(headers: Seq<Seq<char>>, n: nat) -> Seq<Seq<char>> {
    if headers.len() > 0 {
        headers
    } else {
        numbered_names(n)
    }
}

/// The keys of an exported JSON row (see `spec_json_keys`).
pub fn json_keys(headers: &[String], n: usize) -> (r: Vec<String>)
    ensures
        strings_view(r@) == spec_json_keys(strings_view(headers@), n as nat),
{
    if headers.len() > 0 {
        let mut out: Vec<String> = Vec::new();
        let mut i: usize = 0;
        while i < headers.len()
            invariant
                i <= headers@.len(),
                strings_view(out@) == strings_view(headers@.take(i as int)),
            decreases headers@.len() - i,
        {
            let h = headers[i].as_str().to_owned();
            let ghost before = strings_view(out@);
            out.push(h);
            proof {
                assert(h@ == headers@[i as int]@);
                assert(strings_view(out@) =~= before.push(h@));
                assert(strings_view(headers@.take(i + 1)) =~= strings_view(headers@.take(i as int)).push(
                    headers@[i as int]@,
                ));
            }
            i = i + 1;
        }
        proof {
            assert(headers@.take(headers@.len() as int) =~= headers@);
        }
        return out;
    }
    let mut out: Vec<String> = Vec::new();
    let mut i: usize = 0;
    proof {
        reveal_strlit("col_");
    }
    while i < n
        invariant
            i <= n,
            strings_view(out@) == numbered_names(i as nat),
            "col_"@ == seq!['c', 'o', 'l', '_'],
        decreases n - i,
    {
        let mut cs: Vec<char> = Vec::new();
        cs.push('c');
        cs.push('o');
        cs.push('l');
        cs.push('_');
        push_padded(&mut cs, i as u64, 1);
        proof {
            let d = dec_digits(i as nat);
            assert(d.len() >= 1) by {
                if i < 10 {
                } else {
                    assert(d == dec_digits((i / 10) as nat).push(digit_char((i % 10) as int)));
                }
            }
            assert(dec_padded(i as nat, 1) == d);
            assert(cs@ =~= "col_"@ + d);
        }
        let name = string_from_chars(cs.as_slice());
        let ghost before = strings_view(out@);
        out.push(name);
        proof {
            assert(strings_view(out@) =~= before.push(name@));
            assert(numbered_names((i + 1) as nat) =~= numbered_names(i as nat).push("col_"@ + dec_digits(
                i as nat,
            )));
        }
        i = i + 1;
    }
    out
}

/// Bounds of the row at `offsets[i]` when exporting: up to the byte before the next
/// offset, or, for the last row of a batch, up to its `\n` (or the end of the data).
pub open spec fn spec_export_bounds(data: Seq<u8>, offsets: Seq<u64>, i: int, last_in_batch: bool) -> (int, int) {
    let s = offsets[i] as int;
    if !last_in_batch && i + 1 < offsets.len() {
        let n = offsets[i + 1] as int;
        (s, if n > 0 { n - 1 } else { 0 })
    } else {
        (s, next_byte(data, 0x0a, s))
    }
}

/// The bytes `[start, end)` of row `i` in an export (see `spec_export_bounds`).
pub fn export_bounds(data: &[u8], offsets: &[u64], i: usize, last_in_batch: bool) -> (r: (usize, usize))
    requires
        i < offsets@.len(),
        offsets@[i as int] <= data@.len(),
        !last_in_batch && i + 1 < offsets@.len() ==> offsets@[i as int] < offsets@[i + 1] <= data@.len() + 1,
    ensures
        (r.0 as int, r.1 as int) == spec_export_bounds(data@, offsets@, i as int, last_in_batch),
        r.0 <= r.1 <= data@.len(),
{
    let dl = data.len();
    let s0 = offsets[i];
    assert(s0 <= dl);
    let s = s0 as usize;
    assert(s as int == s0 as int);
    if !last_in_batch && i + 1 < offsets.len() {
        let n = offsets[i + 1];
        let e = if n > 0 {
            let m = n - 1;
            assert(m <= data@.len());
            let e0 = m as usize;
            assert(e0 as int == m as int);
            e0
        } else {
            0
        };
        (s, e)
    } else {
        (s, find_byte_from(data, 0x0au8, s))
    }
}

} // verus!
