//! A dataset made of several files read as one sequence of rows: locating a global
//! row range inside the files.
use vstd::prelude::*;
use crate::text::{chars_of, chars_eq, trim, trimmed, strings_view};
use crate::discovery::{to_lowercase, unicode_lower, contains_text, text_contains};

verus! {

/// Rows of the files before file `i`.
pub open spec fn rows_before(counts: Seq<usize>, i: int) -> int
    decreases i,
{
    if i <= 0 {
        0
    } else {
        rows_before(counts, i - 1) + counts[i - 1]
    }
}

/// Pieces (file, first row, end row) of the global rows `start..end` that lie in files
/// `i..`, the rows before file `i` numbering `cur`.
pub open spec fn spans_from(counts: Seq<usize>, i: int, cur: int, start: int, end: int) -> Seq<
    (int, int, int),
>
    decreases counts.len() - i,
{
    if i < 0 || i >= counts.len() || cur >= end {
        Seq::empty()
    } else {
        let rows = counts[i] as int;
        let file_end = cur + rows;
        let rs = if start > cur {
            start - cur
        } else {
            0
        };
        let re = if end < file_end {
            end - cur
        } else {
            rows
        };
        let here = if start < file_end && end > cur && rs < re {
            seq![(i, rs, re)]
        } else {
            Seq::empty()
        };
        here + spans_from(counts, i + 1, file_end, start, end)
    }
}

/// Total rows of all files.
pub open spec fn total_rows(counts: Seq<usize>) -> int {
    rows_before(counts, counts.len() as int)
}

/// Where the global rows `start..end` lie: for each file that holds some of them, its
/// index and the range of its own rows.
pub fn row_spans(counts: &[usize], start: usize, end: usize) -> (r: Vec<(usize, usize, usize)>)
    requires
        total_rows(counts@) <= usize::MAX,
    ensures
        r@.map_values(|p: (usize, usize, usize)| (p.0 as int, p.1 as int, p.2 as int))
            == spans_from(counts@, 0, 0, start as int, end as int),
{
    let mut out: Vec<(usize, usize, usize)> = Vec::new();
    let mut cur: usize = 0;
    let mut i: usize = 0;
    proof {
        lemma_rows_before_mono(counts@, 0, counts@.len() as int);
    }
    while i < counts.len()
        invariant
            i <= counts@.len(),
            cur == rows_before(counts@, i as int),
            total_rows(counts@) <= usize::MAX,
            out@.map_values(|p: (usize, usize, usize)| (p.0 as int, p.1 as int, p.2 as int))
                + spans_from(counts@, i as int, cur as int, start as int, end as int) == spans_from(
                counts@,
                0,
                0,
                start as int,
                end as int,
            ),
        ensures
            out@.map_values(|p: (usize, usize, usize)| (p.0 as int, p.1 as int, p.2 as int))
                == spans_from(counts@, 0, 0, start as int, end as int),
        decreases counts.len() - i,
    {
        if cur >= end {
            proof {
                let f = |p: (usize, usize, usize)| (p.0 as int, p.1 as int, p.2 as int);
                assert(out@.map_values(f) + Seq::<(int, int, int)>::empty() =~= out@.map_values(f));
            }
            break;
        }
        proof {
            lemma_rows_before_mono(counts@, i + 1, counts@.len() as int);
        }
        let rows = counts[i];
        let file_end = cur + rows;
        let ghost before = out@;
        if start < file_end && end > cur {
            let rs = if start > cur {
                start - cur
            } else {
                0
            };
            let re = if end < file_end {
                end - cur
            } else {
                rows
            };
            if rs < re {
                out.push((i, rs, re));
            }
        }
        proof {
            let f = |p: (usize, usize, usize)| (p.0 as int, p.1 as int, p.2 as int);
            assert(out@.map_values(f) + spans_from(counts@, i + 1, file_end as int, start as int, end as int)
                =~= before.map_values(f) + spans_from(counts@, i as int, cur as int, start as int, end as int));
        }
        cur = file_end;
        i = i + 1;
        proof {
            if i == counts@.len() {
                let f = |p: (usize, usize, usize)| (p.0 as int, p.1 as int, p.2 as int);
                assert(out@.map_values(f) + Seq::<(int, int, int)>::empty() =~= out@.map_values(f));
            }
        }
    }
    out
}

/// Rows of all files together.
pub fn total_row_count(counts: &[usize]) -> (r: usize)
    requires
        total_rows(counts@) <= usize::MAX,
    ensures
        r == total_rows(counts@),
{
    let mut sum: usize = 0;
    let mut i: usize = 0;
    proof {
        lemma_rows_before_mono(counts@, 0, counts@.len() as int);
    }
    while i < counts.len()
        invariant
            i <= counts@.len(),
            sum == rows_before(counts@, i as int),
            total_rows(counts@) <= usize::MAX,
        decreases counts.len() - i,
    {
        proof {
            lemma_rows_before_mono(counts@, i + 1, counts@.len() as int);
        }
        sum = sum + counts[i];
        i = i + 1;
    }
    sum
}

proof fn lemma_rows_before_mono(counts: Seq<usize>, i: int, j: int)
    requires
        0 <= i <= j <= counts.len(),
    ensures
        rows_before(counts, i) <= rows_before(counts, j),
    decreases j - i,
{
    if i < j {
        lemma_rows_before_mono(counts, i, j - 1);
    }
}

/// Number of rows the pieces cover.
pub open spec fn span_rows(s: Seq<(int, int, int)>) -> int
    decreases s.len(),
{
    if s.len() == 0 {
        0
    } else {
        (s[0].2 - s[0].1) + span_rows(s.drop_first())
    }
}

proof fn lemma_span_rows_concat(a: Seq<(int, int, int)>, b: Seq<(int, int, int)>)
    ensures
        span_rows(a + b) == span_rows(a) + span_rows(b),
    decreases a.len(),
{
    if a.len() > 0 {
        assert((a + b).drop_first() =~= a.drop_first() + b);
        lemma_span_rows_concat(a.drop_first(), b);
    } else {
        assert(a + b =~= b);
    }
}

proof fn lemma_spans_count(counts: Seq<usize>, i: int, cur: int, start: int, end: int)
    requires
        0 <= i <= counts.len(),
        cur == rows_before(counts, i),
        0 <= start,
    ensures
        span_rows(spans_from(counts, i, cur, start, end)) == ({
            let lo = if start > cur {
                start
            } else {
                cur
            };
            let hi = if end < total_rows(counts) {
                end
            } else {
                total_rows(counts)
            };
            if hi > lo {
                hi - lo
            } else {
                0
            }
        }),
    decreases counts.len() - i,
{
    lemma_rows_before_mono(counts, i, counts.len() as int);
    if i < counts.len() && cur < end {
        let rows = counts[i] as int;
        let file_end = cur + rows;
        lemma_spans_count(counts, i + 1, file_end, start, end);
        let rs = if start > cur {
            start - cur
        } else {
            0
        };
        let re = if end < file_end {
            end - cur
        } else {
            rows
        };
        let here = if start < file_end && end > cur && rs < re {
            seq![(i, rs, re)]
        } else {
            Seq::<(int, int, int)>::empty()
        };
        lemma_span_rows_concat(here, spans_from(counts, i + 1, file_end, start, end));
        if start < file_end && end > cur && rs < re {
            assert(span_rows(here) == re - rs) by {
                assert(here.drop_first() =~= Seq::<(int, int, int)>::empty());
            }
        }
        lemma_rows_before_mono(counts, i + 1, counts.len() as int);
    } else if i < counts.len() {
        lemma_rows_before_mono(counts, i, counts.len() as int);
    }
}

/// Law: the pieces of `start..end` cover exactly the rows of that range that exist, as
/// many as `min(end, total) - start` (none when that is not positive).
pub proof fn lemma_row_spans_cover(counts: Seq<usize>, start: int, end: int)
    requires
        0 <= start,
    ensures
        span_rows(spans_from(counts, 0, 0, start, end)) == ({
            let hi = if end < total_rows(counts) {
                end
            } else {
                total_rows(counts)
            };
            if hi > start {
                hi - start
            } else {
                0
            }
        }),
{
    lemma_spans_count(counts, 0, 0, start, end);
}

/// The rows `lo..hi` of file `i`, as (file, row) pairs.
pub open spec fn row_range(i: int, lo: int, hi: int) -> Seq<(int, int)> {
    if lo < hi {
        Seq::new((hi - lo) as nat, |k: int| (i, lo + k))
    } else {
        Seq::empty()
    }
}

/// The (file, row) pairs that the pieces cover, piece after piece.
pub open spec fn expand(s: Seq<(int, int, int)>) -> Seq<(int, int)>
    decreases s.len(),
{
    if s.len() == 0 {
        Seq::empty()
    } else {
        row_range(s[0].0, s[0].1, s[0].2) + expand(s.drop_first())
    }
}

/// `x` clamped to `[0, rows]`.
pub open spec fn clamp(x: int, rows: int) -> int {
    if x < 0 {
        0
    } else if x > rows {
        rows
    } else {
        x
    }
}

proof fn lemma_row_range_split(i: int, x: int, y: int, z: int)
    requires
        x <= y <= z,
    ensures
        row_range(i, x, z) == row_range(i, x, y) + row_range(i, y, z),
{
    assert(row_range(i, x, z) =~= row_range(i, x, y) + row_range(i, y, z));
}

proof fn lemma_expand_concat(a: Seq<(int, int, int)>, b: Seq<(int, int, int)>)
    ensures
        expand(a + b) == expand(a) + expand(b),
    decreases a.len(),
{
    if a.len() > 0 {
        assert((a + b).drop_first() =~= a.drop_first() + b);
        lemma_expand_concat(a.drop_first(), b);
        assert(expand(a + b) =~= expand(a) + expand(b));
    } else {
        assert(a + b =~= b);
        assert(expand(a) + expand(b) =~= expand(b));
    }
}

/// The pairs of file `i`'s piece are its rows between the clamped range ends.
proof fn lemma_here(counts: Seq<usize>, i: int, cur: int, start: int, end: int)
    requires
        0 <= i < counts.len(),
        cur < end,
    ensures
        ({
            let rows = counts[i] as int;
            let file_end = cur + rows;
            let rs = if start > cur { start - cur } else { 0 };
            let re = if end < file_end { end - cur } else { rows };
            let here = if start < file_end && end > cur && rs < re {
                seq![(i, rs, re)]
            } else {
                Seq::<(int, int, int)>::empty()
            };
            expand(here) == row_range(i, clamp(start - cur, rows), clamp(end - cur, rows))
        }),
{
    let rows = counts[i] as int;
    let file_end = cur + rows;
    let rs = if start > cur { start - cur } else { 0 };
    let re = if end < file_end { end - cur } else { rows };
    if start < file_end && end > cur && rs < re {
        let here = seq![(i, rs, re)];
        assert(here.drop_first() =~= Seq::<(int, int, int)>::empty());
        assert(expand(here.drop_first()) == Seq::<(int, int)>::empty());
        assert(expand(here) =~= row_range(i, rs, re));
    } else {
        assert(row_range(i, clamp(start - cur, rows), clamp(end - cur, rows)) =~= Seq::<(int, int)>::empty());
    }
}

/// Once the range starts at or before the current file, where it starts no longer matters.
proof fn lemma_spans_start_free(counts: Seq<usize>, i: int, cur: int, s1: int, s2: int, end: int)
    requires
        0 <= i <= counts.len(),
        s1 <= cur,
        s2 <= cur,
    ensures
        spans_from(counts, i, cur, s1, end) == spans_from(counts, i, cur, s2, end),
    decreases counts.len() - i,
{
    if i < counts.len() && cur < end {
        lemma_spans_start_free(counts, i + 1, cur + counts[i] as int, s1, s2, end);
    }
}

proof fn lemma_expand_split(counts: Seq<usize>, i: int, cur: int, a: int, b: int, c: int)
    requires
        0 <= i <= counts.len(),
        a <= b <= c,
    ensures
        expand(spans_from(counts, i, cur, a, c)) == expand(spans_from(counts, i, cur, a, b)) + expand(
            spans_from(counts, i, cur, b, c),
        ),
    decreases counts.len() - i,
{
    let ac = spans_from(counts, i, cur, a, c);
    let ab = spans_from(counts, i, cur, a, b);
    let bc = spans_from(counts, i, cur, b, c);
    if i >= counts.len() || cur >= c {
        assert(expand(ab) + expand(bc) =~= expand(ac));
    } else if cur >= b {
        lemma_spans_start_free(counts, i, cur, a, b, c);
        assert(ab =~= Seq::<(int, int, int)>::empty());
        assert(expand(ab) + expand(bc) =~= expand(ac));
    } else {
        let rows = counts[i] as int;
        let fe = cur + rows;
        lemma_here(counts, i, cur, a, c);
        lemma_here(counts, i, cur, a, b);
        lemma_here(counts, i, cur, b, c);
        let h_ac = row_range(i, clamp(a - cur, rows), clamp(c - cur, rows));
        let h_ab = row_range(i, clamp(a - cur, rows), clamp(b - cur, rows));
        let h_bc = row_range(i, clamp(b - cur, rows), clamp(c - cur, rows));
        lemma_row_range_split(i, clamp(a - cur, rows), clamp(b - cur, rows), clamp(c - cur, rows));
        lemma_expand_split(counts, i + 1, fe, a, b, c);
        let t_ac = spans_from(counts, i + 1, fe, a, c);
        let t_ab = spans_from(counts, i + 1, fe, a, b);
        let t_bc = spans_from(counts, i + 1, fe, b, c);
        let rs = if a > cur { a - cur } else { 0 };
        let re = if c < fe { c - cur } else { rows };
        let here_ac = if a < fe && c > cur && rs < re {
            seq![(i, rs, re)]
        } else {
            Seq::<(int, int, int)>::empty()
        };
        let rs1 = if a > cur { a - cur } else { 0 };
        let re1 = if b < fe { b - cur } else { rows };
        let here_ab = if a < fe && b > cur && rs1 < re1 {
            seq![(i, rs1, re1)]
        } else {
            Seq::<(int, int, int)>::empty()
        };
        let rs2 = if b > cur { b - cur } else { 0 };
        let re2 = if c < fe { c - cur } else { rows };
        let here_bc = if b < fe && c > cur && rs2 < re2 {
            seq![(i, rs2, re2)]
        } else {
            Seq::<(int, int, int)>::empty()
        };
        assert(ac == here_ac + t_ac);
        assert(ab == here_ab + t_ab);
        assert(bc == here_bc + t_bc);
        lemma_expand_concat(here_ac, t_ac);
        lemma_expand_concat(here_ab, t_ab);
        lemma_expand_concat(here_bc, t_bc);
        if b > fe {
            assert(h_bc =~= Seq::<(int, int)>::empty());
            assert(expand(ab) + expand(bc) =~= expand(ac));
        } else {
            assert(t_ab =~= Seq::<(int, int, int)>::empty());
            assert(expand(t_ab) =~= Seq::<(int, int)>::empty());
            assert(expand(ab) + expand(bc) =~= expand(ac));
        }
    }
}

/// Law: reading the rows `a..c` of a multi-file dataset reads the rows `a..b` and then
/// the rows `b..c`: the (file, row) pairs of the two ranges join to those of the whole,
/// and `a..b` holds `min(b, total) - min(a, total)` of them.
pub proof fn lemma_row_spans_join(counts: Seq<usize>, a: int, b: int, c: int)
    requires
        0 <= a <= b <= c,
    ensures
        expand(spans_from(counts, 0, 0, a, c)) == expand(spans_from(counts, 0, 0, a, b)) + expand(
            spans_from(counts, 0, 0, b, c),
        ),
        expand(spans_from(counts, 0, 0, a, b)).len() == (if b < total_rows(counts) {
            b
        } else {
            total_rows(counts)
        }) - (if a < total_rows(counts) {
            a
        } else {
            total_rows(counts)
        }),
{
    lemma_expand_split(counts, 0, 0, a, b, c);
    lemma_spans_valid(counts, 0, 0, a, b);
    lemma_expand_len(spans_from(counts, 0, 0, a, b));
    lemma_row_spans_cover(counts, a, b);
    lemma_rows_before_mono(counts, 0, counts.len() as int);
}

proof fn lemma_expand_len(s: Seq<(int, int, int)>)
    requires
        forall|k: int| 0 <= k < s.len() ==> (#[trigger] s[k]).1 <= s[k].2,
    ensures
        expand(s).len() == span_rows(s),
    decreases s.len(),
{
    if s.len() > 0 {
        assert forall|k: int| 0 <= k < s.drop_first().len() implies (#[trigger] s.drop_first()[k]).1
            <= s.drop_first()[k].2 by {
            assert(s.drop_first()[k] == s[k + 1]);
        }
        lemma_expand_len(s.drop_first());
    }
}

/// Every piece is a non-empty range of rows.
proof fn lemma_spans_valid(counts: Seq<usize>, i: int, cur: int, start: int, end: int)
    ensures
        forall|k: int|
            0 <= k < spans_from(counts, i, cur, start, end).len() ==> (#[trigger] spans_from(
                counts,
                i,
                cur,
                start,
                end,
            )[k]).1 < spans_from(counts, i, cur, start, end)[k].2,
    decreases counts.len() - i,
{
    if 0 <= i < counts.len() && cur < end {
        let rows = counts[i] as int;
        let fe = cur + rows;
        lemma_spans_valid(counts, i + 1, fe, start, end);
        let sf = spans_from(counts, i, cur, start, end);
        let rest = spans_from(counts, i + 1, fe, start, end);
        assert forall|k: int| 0 <= k < sf.len() implies (#[trigger] sf[k]).1 < sf[k].2 by {
            if sf.len() > rest.len() && k > 0 {
                assert(sf[k] == rest[k - 1]);
            } else if sf.len() == rest.len() {
                assert(sf[k] == rest[k]);
            }
        }
    }
}

// --------------------------------------------------------- merging columns

/// The key under which columns of different files are merged: the name trimmed and
/// in lowercase.
pub open spec fn column_key(name: Seq<char>) -> Seq<char> {
    unicode_lower(trim(name))
}

pub open spec fn files_view(files: Seq<Vec<String>>) -> Seq<Seq<Seq<char>>> {
    files.map_values(|v: Vec<String>| strings_view(v@))
}

/// `(f, c)` names column `c` of file `f`.
pub open spec fn valid_pos(files: Seq<Seq<Seq<char>>>, p: (usize, usize)) -> bool {
    p.0 < files.len() && p.1 < files[p.0 as int].len()
}

/// `p` comes before `q`: an earlier file, or the same file and an earlier column.
pub open spec fn pos_lt(p: (usize, usize), q: (usize, usize)) -> bool {
    p.0 < q.0 || (p.0 == q.0 && p.1 < q.1)
}

pub open spec fn key_at(files: Seq<Seq<Seq<char>>>, p: (usize, usize)) -> Seq<char> {
    column_key(files[p.0 as int][p.1 as int])
}

/// The columns of several files merged by key.
pub struct ColumnUnion {
    /// For each merged column, the file and the column where its key first appears;
    /// merged columns are in order of first appearance.
    pub first: Vec<(usize, usize)>,
    /// For each file, the merged position of each of its columns.
    pub targets: Vec<Vec<usize>>,
}

/// `first` lists exactly the first appearances of keys, in order.
pub open spec fn firsts_ok(files: Seq<Seq<Seq<char>>>, first: Seq<(usize, usize)>) -> bool {
    &&& forall|i: int| 0 <= i < first.len() ==> valid_pos(files, #[trigger] first[i])
    &&& forall|i: int, p: (usize, usize)|
        0 <= i < first.len() && valid_pos(files, p) && pos_lt(p, #[trigger] first[i]) ==> #[trigger] key_at(
            files,
            p,
        ) != key_at(files, first[i])
    &&& forall|i: int, j: int| 0 <= i < j < first.len() ==> pos_lt(#[trigger] first[i], #[trigger] first[j])
}

/// Merges the columns of several files by key (trimmed, lowercase name): each key
/// once, with the file and column of its first appearance, and for every column of
/// every file the merged position of its key.
pub fn unify_columns(files: &[Vec<String>]) -> (r: ColumnUnion)
    ensures
        r.targets@.len() == files@.len(),
        forall|f: int| 0 <= f < files@.len() ==> (#[trigger] r.targets@[f])@.len() == files@[f]@.len(),
        forall|f: int, c: int|
            0 <= f < files@.len() && 0 <= c < files@[f]@.len() ==> {
                let t = (#[trigger] r.targets@[f]@[c]) as int;
                &&& 0 <= t < r.first@.len()
                &&& key_at(files_view(files@), r.first@[t]) == column_key(files@[f]@[c]@)
            },
        firsts_ok(files_view(files@), r.first@),
{
    let ghost fv = files_view(files@);
    let mut keys: Vec<Vec<char>> = Vec::new();
    let mut first: Vec<(usize, usize)> = Vec::new();
    let mut targets: Vec<Vec<usize>> = Vec::new();
    let mut f: usize = 0;
    while f < files.len()
        invariant
            f <= files@.len(),
            fv == files_view(files@),
            keys@.len() == first@.len(),
            forall|i: int| 0 <= i < keys@.len() ==> (#[trigger] keys@[i])@ == key_at(fv, first@[i]),
            firsts_ok(fv, first@),
            forall|i: int| 0 <= i < first@.len() ==> (#[trigger] first@[i]).0 < f,
            targets@.len() == f,
            forall|g: int| 0 <= g < f ==> (#[trigger] targets@[g])@.len() == files@[g]@.len(),
            forall|g: int, c: int|
                0 <= g < f && 0 <= c < files@[g]@.len() ==> {
                    let t = (#[trigger] targets@[g]@[c]) as int;
                    &&& 0 <= t < first@.len()
                    &&& key_at(fv, first@[t]) == column_key(files@[g]@[c]@)
                },
        decreases files@.len() - f,
    {
        let names = &files[f];
        let mut row: Vec<usize> = Vec::new();
        let mut c: usize = 0;
        while c < names.len()
            invariant
                f < files@.len(),
                names == files@[f as int],
                c <= names@.len(),
                fv == files_view(files@),
                keys@.len() == first@.len(),
                forall|i: int| 0 <= i < keys@.len() ==> (#[trigger] keys@[i])@ == key_at(fv, first@[i]),
                firsts_ok(fv, first@),
                forall|i: int| 0 <= i < first@.len() ==> pos_lt(#[trigger] first@[i], (f, c)),
                targets@.len() == f,
                forall|g: int| 0 <= g < f ==> (#[trigger] targets@[g])@.len() == files@[g]@.len(),
                forall|g: int, d: int|
                    0 <= g < f && 0 <= d < files@[g]@.len() ==> {
                        let t = (#[trigger] targets@[g]@[d]) as int;
                        &&& 0 <= t < first@.len()
                        &&& key_at(fv, first@[t]) == column_key(files@[g]@[d]@)
                    },
                row@.len() == c,
                forall|d: int|
                    0 <= d < c ==> {
                        let t = (#[trigger] row@[d]) as int;
                        &&& 0 <= t < first@.len()
                        &&& key_at(fv, first@[t]) == column_key(files@[f as int]@[d]@)
                    },
            decreases names@.len() - c,
        {
            let t = trimmed(names[c].as_str());
            let low = to_lowercase(t.as_str());
            let key = chars_of(low.as_str());
            proof {
                assert(fv[f as int][c as int] == names@[c as int]@);
                assert(key@ == key_at(fv, (f, c)));
            }
            let mut i: usize = 0;
            while i < keys.len()
                invariant
                    i <= keys@.len(),
                    forall|j: int| 0 <= j < i ==> (#[trigger] keys@[j])@ != key@,
                ensures
                    i <= keys@.len(),
                    forall|j: int| 0 <= j < i ==> (#[trigger] keys@[j])@ != key@,
                    i < keys@.len() ==> keys@[i as int]@ == key@,
                decreases keys@.len() - i,
            {
                if chars_eq(keys[i].as_slice(), key.as_slice()) {
                    break;
                }
                i = i + 1;
            }
            if i == keys.len() {
                let ghost old_first = first@;
                proof {
                    assert forall|p: (usize, usize)| valid_pos(fv, p) && pos_lt(p, (f, c)) implies #[trigger] key_at(
                        fv,
                        p,
                    ) != key_at(fv, (f, c)) by {
                        if p.0 < f {
                            let t = targets@[p.0 as int]@[p.1 as int] as int;
                            assert(fv[p.0 as int][p.1 as int] == files@[p.0 as int]@[p.1 as int]@);
                            assert(keys@[t]@ == key_at(fv, first@[t]));
                        } else {
                            let t = row@[p.1 as int] as int;
                            assert(fv[p.0 as int][p.1 as int] == files@[p.0 as int]@[p.1 as int]@);
                            assert(keys@[t]@ == key_at(fv, first@[t]));
                        }
                    }
                }
                keys.push(key);
                first.push((f, c));
                proof {
                    assert forall|a: int, p: (usize, usize)|
                        0 <= a < first@.len() && valid_pos(fv, p) && pos_lt(p, #[trigger] first@[a]) implies #[trigger] key_at(
                        fv,
                        p,
                    ) != key_at(fv, first@[a]) by {
                        if a < old_first.len() {
                            assert(first@[a] == old_first[a]);
                        }
                    }
                    assert forall|a: int, b: int| 0 <= a < b < first@.len() implies pos_lt(
                        #[trigger] first@[a],
                        #[trigger] first@[b],
                    ) by {
                        if b < old_first.len() {
                            assert(first@[a] == old_first[a] && first@[b] == old_first[b]);
                        } else {
                            assert(first@[a] == old_first[a]);
                        }
                    }
                }
            }
            let ghost prev_row = row@;
            row.push(i);
            proof {
                assert forall|i2: int| 0 <= i2 < first@.len() implies pos_lt(#[trigger] first@[i2], (f, (c + 1) as usize)) by {
                }
                assert forall|d: int| 0 <= d < c + 1 implies {
                    let t = (#[trigger] row@[d]) as int;
                    &&& 0 <= t < first@.len()
                    &&& key_at(fv, first@[t]) == column_key(files@[f as int]@[d]@)
                } by {
                    if d < c {
                        assert(row@[d] == prev_row[d]);
                    } else {
                        assert(fv[f as int][c as int] == files@[f as int]@[c as int]@);
                    }
                }
            }
            c = c + 1;
        }
        let ghost prev_targets = targets@;
        targets.push(row);
        proof {
            assert forall|g: int| 0 <= g < f + 1 implies (#[trigger] targets@[g])@.len() == files@[g]@.len() by {
                if g < f {
                    assert(targets@[g] == prev_targets[g]);
                }
            }
            assert forall|g: int, d: int| 0 <= g < f + 1 && 0 <= d < files@[g]@.len() implies {
                let t = (#[trigger] targets@[g]@[d]) as int;
                &&& 0 <= t < first@.len()
                &&& key_at(fv, first@[t]) == column_key(files@[g]@[d]@)
            } by {
                if g < f {
                    assert(targets@[g] == prev_targets[g]);
                }
            }
        }
        f = f + 1;
    }
    ColumnUnion { first, targets }
}

/// The file whose correlations a merged analysis keeps: the first one with the most
/// rows, if any file has rows.
pub fn correlation_source(row_counts: &[u64]) -> (r: Option<usize>)
    ensures
        match r {
            Some(i) => i < row_counts@.len() && row_counts@[i as int] > 0 && (forall|j: int|
                0 <= j < i ==> row_counts@[j] < row_counts@[i as int]) && (forall|j: int|
                0 <= j < row_counts@.len() ==> row_counts@[j] <= row_counts@[i as int]),
            None => forall|j: int| 0 <= j < row_counts@.len() ==> row_counts@[j] == 0,
        },
{
    let mut best: u64 = 0;
    let mut at: Option<usize> = None;
    let mut i: usize = 0;
    while i < row_counts.len()
        invariant
            i <= row_counts@.len(),
            match at {
                Some(k) => k < i && row_counts@[k as int] == best && best > 0 && (forall|j: int|
                    0 <= j < k ==> row_counts@[j] < best),
                None => best == 0,
            },
            forall|j: int| 0 <= j < i ==> row_counts@[j] <= best,
        decreases row_counts@.len() - i,
    {
        if row_counts[i] > best {
            best = row_counts[i];
            at = Some(i);
        }
        i = i + 1;
    }
    at
}

/// The file an edit addressed by `file_name` goes to: the first whose path contains it.
pub fn find_engine(paths: &[String], file_name: &str) -> (r: Option<usize>)
    ensures
        match r {
            Some(i) => i < paths@.len() && text_contains(paths@[i as int]@, file_name@) && forall|j: int|
                0 <= j < i ==> !text_contains(#[trigger] paths@[j]@, file_name@),
            None => forall|j: int| 0 <= j < paths@.len() ==> !text_contains(#[trigger] paths@[j]@, file_name@),
        },
{
    let needle = chars_of(file_name);
    let mut i: usize = 0;
    while i < paths.len()
        invariant
            i <= paths@.len(),
            needle@ == file_name@,
            forall|j: int| 0 <= j < i ==> !text_contains(#[trigger] paths@[j]@, file_name@),
        decreases paths@.len() - i,
    {
        let hay = chars_of(paths[i].as_str());
        if contains_text(&hay, &needle) {
            return Some(i);
        }
        i = i + 1;
    }
    None
}

} // verus!
