//! Byte and substring search, through the `memchr` crate.
use vstd::prelude::*;

verus! {

/// `needle` occurs at no index of `hay` in `[from, to)`.
pub open spec fn absent_in(hay: Seq<u8>, needle: u8, from: int, to: int) -> bool {
    forall|j: int| from <= j < to ==> hay[j] != needle
}

/// Index of the first `needle` at or after `from`, or the length when there is none.
pub open spec fn next_byte(hay: Seq<u8>, needle: u8, from: int) -> int
    decreases hay.len() - from,
{
    if from < 0 || from >= hay.len() {
        hay.len() as int
    } else if hay[from] == needle {
        from
    } else {
        next_byte(hay, needle, from + 1)
    }
}

/// `needle` occurs in `hay` starting at `i`.
pub open spec fn occurs_at(hay: Seq<u8>, needle: Seq<u8>, i: int) -> bool {
    0 <= i && i + needle.len() <= hay.len() && hay.subrange(i, i + needle.len()) == needle
}

/// `memchr::memchr`: the index of the first occurrence of a byte, if any.
#[verifier::external_body]
pub(crate) fn memchr(needle: u8, haystack: &[u8]) -> (r: Option<usize>)
    ensures
        match r {
            Some(i) => i < haystack@.len() && haystack@[i as int] == needle && absent_in(
                haystack@,
                needle,
                0,
                i as int,
            ),
            None => absent_in(haystack@, needle, 0, haystack@.len() as int),
        },
{
    memchr::memchr(needle, haystack)
}

/// `memchr::memmem::find`: the index of the first occurrence of a byte string, if any.
#[verifier::external_body]
pub(crate) fn memmem_find(haystack: &[u8], needle: &[u8]) -> (r: Option<usize>)
    ensures
        match r {
            Some(i) => occurs_at(haystack@, needle@, i as int) && forall|j: int|
                0 <= j < i ==> !occurs_at(haystack@, needle@, j),
            None => forall|j: int| !occurs_at(haystack@, needle@, j),
        },
{
    memchr::memmem::find(haystack, needle)
}

/// The next-byte position agrees with a first-occurrence answer.
pub proof fn lemma_next_byte_found(hay: Seq<u8>, needle: u8, from: int, i: int)
    requires
        0 <= from <= i < hay.len(),
        hay[i] == needle,
        absent_in(hay, needle, from, i),
    ensures
        next_byte(hay, needle, from) == i,
    decreases i - from,
{
    if from < i {
        lemma_next_byte_found(hay, needle, from + 1, i);
    }
}

/// With no occurrence from `from` on, the next-byte position is the length.
pub proof fn lemma_next_byte_absent(hay: Seq<u8>, needle: u8, from: int)
    requires
        0 <= from <= hay.len(),
        absent_in(hay, needle, from, hay.len() as int),
    ensures
        next_byte(hay, needle, from) == hay.len(),
    decreases hay.len() - from,
{
    if from < hay.len() {
        lemma_next_byte_absent(hay, needle, from + 1);
    }
}

/// The next-byte position lies between the start and the length.
/// Where `next_byte` stops short of the end, the needle is there.
pub proof fn lemma_next_byte_hit(hay: Seq<u8>, needle: u8, from: int)
    requires
        0 <= from,
        next_byte(hay, needle, from) < hay.len(),
    ensures
        hay[next_byte(hay, needle, from)] == needle,
    decreases hay.len() - from,
{
    if from < hay.len() && hay[from] != needle {
        lemma_next_byte_hit(hay, needle, from + 1);
    }
}

pub proof fn lemma_next_byte_bounds(hay: Seq<u8>, needle: u8, from: int)
    requires
        0 <= from <= hay.len(),
    ensures
        from <= next_byte(hay, needle, from) <= hay.len(),
    decreases hay.len() - from,
{
    if from < hay.len() && hay[from] != needle {
        lemma_next_byte_bounds(hay, needle, from + 1);
    }
}

/// Position of the first `needle` in `hay[from..]`, or the length; through `memchr`.
pub fn find_byte_from(hay: &[u8], needle: u8, from: usize) -> (r: usize)
    requires
        from <= hay@.len(),
    ensures
        r == next_byte(hay@, needle, from as int),
        from <= r <= hay@.len(),
{
    let tail = &hay[from..hay.len()];
    match memchr(needle, tail) {
        Some(i) => {
            proof {
                assert forall|j: int| from <= j < from + i implies hay@[j] != needle by {
                    assert(tail@[j - from] == hay@[j]);
                }
                assert(tail@[i as int] == hay@[from + i]);
                lemma_next_byte_found(hay@, needle, from as int, from + i);
            }
            from + i
        },
        None => {
            proof {
                assert forall|j: int| from <= j < hay@.len() implies hay@[j] != needle by {
                    assert(tail@[j - from] == hay@[j]);
                }
                lemma_next_byte_absent(hay@, needle, from as int);
            }
            hay.len()
        },
    }
}

// ------------------------------------------------------ counting a substring

/// The first position at or after `i` where `needle` occurs in `hay`.
pub open spec fn next_match(hay: Seq<u8>, needle: Seq<u8>, i: int) -> Option<int>
    decreases hay.len() + 1 - i,
{
    if i < 0 || i + needle.len() > hay.len() {
        None
    } else if occurs_at(hay, needle, i) {
        Some(i)
    } else {
        next_match(hay, needle, i + 1)
    }
}

proof fn lemma_next_match_bounds(hay: Seq<u8>, needle: Seq<u8>, i: int)
    ensures
        next_match(hay, needle, i) matches Some(m) ==> i <= m && m + needle.len() <= hay.len()
            && occurs_at(hay, needle, m),
    decreases hay.len() + 1 - i,
{
    if 0 <= i && i + needle.len() <= hay.len() && !occurs_at(hay, needle, i) {
        lemma_next_match_bounds(hay, needle, i + 1);
    }
}

/// Occurrences of a non-empty `needle` in `hay` from `i` on, counted without
/// overlap, leftmost first.
pub open spec fn match_count(hay: Seq<u8>, needle: Seq<u8>, i: int) -> nat
    decreases hay.len() - i,
    via match_count_decreases
{
    if needle.len() == 0 {
        0
    } else {
        match next_match(hay, needle, i) {
            Some(m) => 1 + match_count(hay, needle, m + needle.len()),
            None => 0,
        }
    }
}

#[via_fn]
proof fn match_count_decreases(hay: Seq<u8>, needle: Seq<u8>, i: int) {
    lemma_next_match_bounds(hay, needle, i);
}

/// Occurrences counted chunk by chunk: the data cut into pieces of `chunk` bytes
/// from `off` on, and the occurrences of each piece added up (an occurrence across
/// two pieces is not counted).
pub open spec fn chunked_match_count(data: Seq<u8>, needle: Seq<u8>, off: int, chunk: int) -> nat
    decreases data.len() + chunk - off,
{
    if chunk <= 0 || off < 0 || off >= data.len() {
        0
    } else {
        let end = if off + chunk < data.len() {
            off + chunk
        } else {
            data.len() as int
        };
        match_count(data.subrange(off, end), needle, 0) + chunked_match_count(data, needle, off + chunk, chunk)
    }
}

proof fn lemma_next_match_found(hay: Seq<u8>, needle: Seq<u8>, i: int, m: int)
    requires
        0 <= i <= m,
        occurs_at(hay, needle, m),
        forall|j: int| i <= j < m ==> !occurs_at(hay, needle, j),
    ensures
        next_match(hay, needle, i) == Some(m),
    decreases m - i,
{
    if i < m {
        lemma_next_match_found(hay, needle, i + 1, m);
    }
}

proof fn lemma_next_match_none(hay: Seq<u8>, needle: Seq<u8>, i: int)
    requires
        0 <= i,
        forall|j: int| i <= j ==> !occurs_at(hay, needle, j),
    ensures
        next_match(hay, needle, i) is None,
    decreases hay.len() + 1 - i,
{
    if i + needle.len() <= hay.len() {
        lemma_next_match_none(hay, needle, i + 1);
    }
}

proof fn lemma_match_count_bound(hay: Seq<u8>, needle: Seq<u8>, i: int)
    requires
        0 <= i <= hay.len(),
    ensures
        match_count(hay, needle, i) <= hay.len() - i,
    decreases hay.len() - i,
{
    if needle.len() > 0 {
        lemma_next_match_bounds(hay, needle, i);
        if let Some(m) = next_match(hay, needle, i) {
            lemma_match_count_bound(hay, needle, m + needle.len());
        }
    }
}

proof fn lemma_chunked_bound(data: Seq<u8>, needle: Seq<u8>, off: int, chunk: int)
    requires
        0 <= off,
        chunk > 0,
    ensures
        chunked_match_count(data, needle, off, chunk) <= (if off < data.len() {
            data.len() - off
        } else {
            0
        }),
    decreases data.len() + chunk - off,
{
    if off < data.len() {
        let end = if off + chunk < data.len() {
            off + chunk
        } else {
            data.len() as int
        };
        lemma_match_count_bound(data.subrange(off, end), needle, 0);
        lemma_chunked_bound(data, needle, off + chunk, chunk);
    }
}

/// Non-overlapping occurrences of `needle` in one piece, through `memmem`.
fn count_in_piece(piece: &[u8], needle: &[u8]) -> (r: u64)
    requires
        needle@.len() > 0,
    ensures
        r == match_count(piece@, needle@, 0),
{
    let mut count: u64 = 0;
    let mut at: usize = 0;
    proof {
        lemma_match_count_bound(piece@, needle@, 0);
    }
    loop
        invariant_except_break
            at <= piece@.len(),
            needle@.len() > 0,
            count + match_count(piece@, needle@, at as int) == match_count(piece@, needle@, 0),
            match_count(piece@, needle@, 0) <= piece@.len(),
        ensures
            count == match_count(piece@, needle@, 0),
        decreases piece@.len() - at,
    {
        let rest = &piece[at..piece.len()];
        proof {
            assert forall|j: int| 0 <= j implies occurs_at(rest@, needle@, j) == occurs_at(piece@, needle@, at + j) by {
                if 0 <= j && j + needle@.len() <= rest@.len() {
                    assert(rest@.subrange(j, j + needle@.len()) =~= piece@.subrange(at + j, at + j + needle@.len()));
                }
            }
        }
        match memmem_find(rest, needle) {
            Some(m) => {
                proof {
                    assert forall|j: int| at <= j < at + m implies !occurs_at(piece@, needle@, j) by {
                        assert(occurs_at(rest@, needle@, j - at) == occurs_at(piece@, needle@, j));
                    }
                    lemma_next_match_found(piece@, needle@, at as int, at + m);
                    lemma_match_count_bound(piece@, needle@, at + m + needle@.len());
                }
                count = count + 1;
                at = at + m + needle.len();
            },
            None => {
                proof {
                    assert forall|j: int| at <= j implies !occurs_at(piece@, needle@, j) by {
                        assert(occurs_at(rest@, needle@, j - at) == occurs_at(piece@, needle@, j));
                    }
                    lemma_next_match_none(piece@, needle@, at as int);
                }
                break;
            },
        }
    }
    count
}

/// Occurrences of a non-empty `needle` in `data`, counted piece by piece of `chunk`
/// bytes (see `chunked_match_count`).
pub fn count_matches_chunked(data: &[u8], needle: &[u8], chunk: usize) -> (r: u64)
    requires
        needle@.len() > 0,
        chunk > 0,
        data@.len() + chunk <= usize::MAX,
    ensures
        r == chunked_match_count(data@, needle@, 0, chunk as int),
{
    let n = data.len();
    let mut total: u64 = 0;
    let mut off: usize = 0;
    proof {
        lemma_chunked_bound(data@, needle@, 0, chunk as int);
    }
    while off < n
        invariant
            n == data@.len(),
            chunk > 0,
            n + chunk <= usize::MAX,
            needle@.len() > 0,
            total + chunked_match_count(data@, needle@, off as int, chunk as int) == chunked_match_count(
                data@,
                needle@,
                0,
                chunk as int,
            ),
            chunked_match_count(data@, needle@, 0, chunk as int) <= n,
        decreases n + chunk - off,
    {
        let end = if off + chunk < n {
            off + chunk
        } else {
            n
        };
        let piece = &data[off..end];
        proof {
            assert(piece@ =~= data@.subrange(off as int, end as int));
            lemma_match_count_bound(piece@, needle@, 0);
        }
        let c = count_in_piece(piece, needle);
        total = total + c;
        off = off + chunk;
    }
    total
}

} // verus!
