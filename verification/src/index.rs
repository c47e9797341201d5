//! The line-offset index of a dataset: where the body starts, how it is cut into
//! chunks, the offsets of the rows in each chunk, the BLAKE3 hash of each chunk,
//! and the `ZENFOREN` cache file that stores them.
use vstd::prelude::*;
use crate::scan::{find_byte_from, next_byte, lemma_next_byte_bounds, lemma_next_byte_hit};
use crate::types::HardwareMode;
use crate::pcap::current_num_threads;
use crate::bytes::{le64_at, le64_bytes, push_le64, push_all, read_le_u64, lemma_le64_roundtrip};

verus! {

/// Chunk size used when indexing: 64 MiB.
pub const INDEX_CHUNK_SIZE: usize = 67108864;

/// Length of a leading UTF-8 byte-order mark (0 or 3).
pub open spec fn bom_len(data: Seq<u8>) -> int {
    if data.len() >= 3 && data[0] == 0xef && data[1] == 0xbb && data[2] == 0xbf {
        3
    } else {
        0
    }
}

/// Position after skipping `k` lines from `from` (a last line without `\n` ends at the length).
pub open spec fn after_lines(data: Seq<u8>, from: int, k: nat) -> int
    decreases k,
{
    if k == 0 {
        from
    } else {
        let e = next_byte(data, 0x0a, from);
        after_lines(data, if e < data.len() { e + 1 } else { e }, (k - 1) as nat)
    }
}

/// Where the rows begin: after the byte-order mark, `skip_rows` preamble lines and,
/// when there is one, the header line.
pub open spec fn spec_body_start(data: Seq<u8>, skip_rows: nat, has_header: bool) -> int {
    let p = after_lines(data, bom_len(data), skip_rows);
    if has_header {
        let e = next_byte(data, 0x0a, p) + 1;
        if e < data.len() {
            e
        } else {
            data.len() as int
        }
    } else {
        p
    }
}

pub proof fn lemma_after_lines_bounds(data: Seq<u8>, from: int, k: nat)
    requires
        0 <= from <= data.len(),
    ensures
        from <= after_lines(data, from, k) <= data.len(),
    decreases k,
{
    if k > 0 {
        lemma_next_byte_bounds(data, 0x0a, from);
        let e = next_byte(data, 0x0a, from);
        lemma_after_lines_bounds(data, if e < data.len() { e + 1 } else { e }, (k - 1) as nat);
    }
}

/// Offset of the first row of `data` (see `spec_body_start`).
pub fn body_start(data: &[u8], skip_rows: usize, has_header: bool) -> (r: usize)
    ensures
        r == spec_body_start(data@, skip_rows as nat, has_header),
        r <= data@.len(),
{
    let n = data.len();
    let mut p: usize = if n >= 3 && data[0] == 0xefu8 && data[1] == 0xbbu8 && data[2] == 0xbfu8 {
        3
    } else {
        0
    };
    let mut k: usize = 0;
    proof {
        lemma_after_lines_bounds(data@, bom_len(data@), skip_rows as nat);
    }
    while k < skip_rows
        invariant
            n == data@.len(),
            k <= skip_rows,
            p <= n,
            after_lines(data@, bom_len(data@), skip_rows as nat) == after_lines(
                data@,
                p as int,
                (skip_rows - k) as nat,
            ),
        decreases skip_rows - k,
    {
        let e = find_byte_from(data, 0x0au8, p);
        p = if e < n {
            e + 1
        } else {
            e
        };
        k = k + 1;
    }
    if has_header {
        let e = find_byte_from(data, 0x0au8, p);
        if e < n && e + 1 < n {
            e + 1
        } else {
            n
        }
    } else {
        p
    }
}

/// Where the chunk after the one starting at `cursor` starts: `chunk` bytes further,
/// moved past the end of the line met there.
pub open spec fn next_chunk_start(body: Seq<u8>, cursor: int, chunk: int) -> int {
    let c = cursor + chunk;
    if c < body.len() {
        next_byte(body, 0x0a, c) + 1
    } else {
        c
    }
}

/// End (exclusive) of the chunk starting at `start`: the first `\n` at or after
/// `start + chunk`, or the end of the body.
pub open spec fn chunk_end(body: Seq<u8>, start: int, chunk: int) -> int {
    if start + chunk < body.len() {
        next_byte(body, 0x0a, start + chunk)
    } else {
        body.len() as int
    }
}

/// Starts of the chunks from `cursor` on.
pub open spec fn chunk_starts_from(body: Seq<u8>, cursor: int, chunk: int) -> Seq<int>
    decreases (if cursor < body.len() { body.len() + 1 - cursor } else { 0 }),
    via chunk_starts_decreases
{
    if chunk <= 0 || cursor < 0 || cursor >= body.len() {
        Seq::empty()
    } else {
        seq![cursor] + chunk_starts_from(body, next_chunk_start(body, cursor, chunk), chunk)
    }
}

#[via_fn]
proof fn chunk_starts_decreases(body: Seq<u8>, cursor: int, chunk: int) {
    if chunk > 0 && 0 <= cursor < body.len() && cursor + chunk < body.len() {
        lemma_next_byte_bounds(body, 0x0a, cursor + chunk);
    }
}

/// Row starts that follow the `\n` bytes of `body[i..j)`, the body starting at `hoff`
/// in the file: the byte after each `\n` that is not the body's last byte.
pub open spec fn nl_range(body: Seq<u8>, hoff: int, i: int, j: int) -> Seq<u64>
    decreases j - i,
{
    if i < 0 || i >= j || j > body.len() {
        Seq::empty()
    } else {
        (if body[i] == 0x0a && i + 1 < body.len() {
            seq![(hoff + i + 1) as u64]
        } else {
            Seq::empty()
        }) + nl_range(body, hoff, i + 1, j)
    }
}

/// Row offsets of the chunk `body[start..end)`: the chunk's own start (every chunk
/// starts a row) and the row after each `\n` in it.
pub open spec fn chunk_offsets(body: Seq<u8>, hoff: int, start: int, end: int) -> Seq<u64> {
    seq![(hoff + start) as u64] + nl_range(body, hoff, start, end)
}

/// The start of every row of the body, in order: the body's first byte and the byte
/// after each `\n` but a final one; none for an empty body.
pub open spec fn row_starts(body: Seq<u8>, hoff: int) -> Seq<u64> {
    if body.len() == 0 {
        Seq::empty()
    } else {
        chunk_offsets(body, hoff, 0, body.len() as int)
    }
}

/// Offsets of the rows of `body[start..end)`, the body starting at `hoff` in the file.
pub fn index_chunk(body: &[u8], hoff: usize, start: usize, end: usize) -> (r: Vec<u64>)
    requires
        start <= end <= body@.len(),
        hoff + body@.len() <= u64::MAX,
    ensures
        r@ == chunk_offsets(body@, hoff as int, start as int, end as int),
{
    let base = hoff as u64 + start as u64;
    let mut out: Vec<u64> = Vec::new();
    out.push(base);
    let ghost head = out@;
    let n = body.len();
    let mut i: usize = start;
    while i < end
        invariant
            start <= i <= end <= body@.len(),
            n == body@.len(),
            base == hoff + start,
            hoff + body@.len() <= u64::MAX,
            head == seq![base],
            out@ + nl_range(body@, hoff as int, i as int, end as int) == head + nl_range(
                body@,
                hoff as int,
                start as int,
                end as int,
            ),
        decreases end - i,
    {
        let ghost before = out@;
        if body[i] == 0x0au8 && i + 1 < n {
            out.push(hoff as u64 + (i as u64) + 1);
        }
        proof {
            assert(out@ + nl_range(body@, hoff as int, i + 1, end as int) =~= before + nl_range(
                body@,
                hoff as int,
                i as int,
                end as int,
            ));
        }
        i = i + 1;
    }
    proof {
        assert(out@ + Seq::<u64>::empty() =~= out@);
    }
    out
}

/// End (exclusive) of the chunk starting at `start`.
pub fn chunk_end_at(body: &[u8], start: usize, chunk: usize) -> (r: usize)
    requires
        start <= body@.len(),
        body@.len() + chunk <= usize::MAX,
    ensures
        r == chunk_end(body@, start as int, chunk as int),
        start <= r <= body@.len(),
{
    if start + chunk < body.len() {
        proof {
            lemma_next_byte_bounds(body@, 0x0a, start + chunk);
        }
        find_byte_from(body, 0x0au8, start + chunk)
    } else {
        body.len()
    }
}

/// Where the chunk after the one at `cursor` starts.
pub(crate) fn next_chunk_at(body: &[u8], cursor: usize, chunk: usize) -> (r: usize)
    requires
        cursor < body@.len(),
        chunk > 0,
        body@.len() + chunk <= usize::MAX,
    ensures
        r == next_chunk_start(body@, cursor as int, chunk as int),
        cursor < r,
{
    let c = cursor + chunk;
    if c < body.len() {
        proof {
            lemma_next_byte_bounds(body@, 0x0a, c as int);
        }
        find_byte_from(body, 0x0au8, c) + 1
    } else {
        c
    }
}

/// Starts of the chunks of `body`: the first at 0, each next one `chunk` bytes further,
/// moved to the start of the following line.
pub fn chunk_starts(body: &[u8], chunk: usize) -> (r: Vec<usize>)
    requires
        chunk > 0,
        body@.len() + chunk <= usize::MAX,
    ensures
        r@.map_values(|x: usize| x as int) == chunk_starts_from(body@, 0, chunk as int),
{
    let mut out: Vec<usize> = Vec::new();
    let mut cursor: usize = 0;
    while cursor < body.len()
        invariant
            chunk > 0,
            body@.len() + chunk <= usize::MAX,
            out@.map_values(|x: usize| x as int) + chunk_starts_from(body@, cursor as int, chunk as int)
                == chunk_starts_from(body@, 0, chunk as int),
        decreases (if cursor < body@.len() { body@.len() + 1 - cursor } else { 0 }),
    {
        let ghost before = out@;
        out.push(cursor);
        let next = next_chunk_at(body, cursor, chunk);
        proof {
            assert(out@.map_values(|x: usize| x as int) =~= before.map_values(|x: usize| x as int).push(
                cursor as int,
            ));
            assert(out@.map_values(|x: usize| x as int) + chunk_starts_from(body@, next as int, chunk as int)
                =~= before.map_values(|x: usize| x as int) + chunk_starts_from(body@, cursor as int, chunk as int));
        }
        cursor = next;
    }
    proof {
        assert(out@.map_values(|x: usize| x as int) + Seq::<int>::empty() =~= out@.map_values(
            |x: usize| x as int,
        ));
    }
    out
}

/// The BLAKE3 digest of a byte string.
pub uninterp spec fn blake3_digest(data: Seq<u8>) -> Seq<u8>;

/// `blake3::hash`: the 32-byte BLAKE3 digest of the input.
#[verifier::external_body]
pub(crate) fn blake3_hash(data: &[u8]) -> (r: [u8; 32])
    ensures
        r@ == blake3_digest(data@),
{
    *blake3::hash(data).as_bytes()
}

/// Row offsets of the chunks from `cursor` on, the body starting at `hoff` in the file.
pub open spec fn offsets_from(body: Seq<u8>, hoff: int, cursor: int, chunk: int) -> Seq<u64>
    decreases (if cursor < body.len() { body.len() + 1 - cursor } else { 0 }),
    via offsets_from_decreases
{
    if chunk <= 0 || cursor < 0 || cursor >= body.len() {
        Seq::empty()
    } else {
        chunk_offsets(body, hoff, cursor, chunk_end(body, cursor, chunk)) + offsets_from(
            body,
            hoff,
            next_chunk_start(body, cursor, chunk),
            chunk,
        )
    }
}

#[via_fn]
proof fn offsets_from_decreases(body: Seq<u8>, hoff: int, cursor: int, chunk: int) {
    if chunk > 0 && 0 <= cursor < body.len() && cursor + chunk < body.len() {
        lemma_next_byte_bounds(body, 0x0a, cursor + chunk);
    }
}

/// (digest, length) of each chunk from `cursor` on.
pub open spec fn hashes_from(body: Seq<u8>, cursor: int, chunk: int) -> Seq<(Seq<u8>, int)>
    decreases (if cursor < body.len() { body.len() + 1 - cursor } else { 0 }),
    via hashes_from_decreases
{
    if chunk <= 0 || cursor < 0 || cursor >= body.len() {
        Seq::empty()
    } else {
        let c = body.subrange(cursor, chunk_end(body, cursor, chunk));
        seq![(blake3_digest(c), c.len() as int)] + hashes_from(
            body,
            next_chunk_start(body, cursor, chunk),
            chunk,
        )
    }
}

#[via_fn]
proof fn hashes_from_decreases(body: Seq<u8>, cursor: int, chunk: int) {
    if chunk > 0 && 0 <= cursor < body.len() && cursor + chunk < body.len() {
        lemma_next_byte_bounds(body, 0x0a, cursor + chunk);
    }
}

/// The row offsets and the chunk hashes of a dataset.
pub struct IndexData {
    pub offsets: Vec<u64>,
    pub block_hashes: Vec<([u8; 32], usize)>,
}

pub open spec fn hashes_view(h: Seq<([u8; 32], usize)>) -> Seq<(Seq<u8>, int)> {
    h.map_values(|p: ([u8; 32], usize)| (p.0@, p.1 as int))
}

/// The body of `data` (after preamble and header).
pub open spec fn body_of(data: Seq<u8>, skip_rows: nat, has_header: bool) -> Seq<u8> {
    data.subrange(spec_body_start(data, skip_rows, has_header), data.len() as int)
}

/// What one chunk of the body contributes to the index: its row offsets, and its
/// hash with its length.
pub type ChunkIndex = (Vec<u64>, ([u8; 32], usize));

/// The row offsets of the chunk `body[start..end)` and its BLAKE3 hash and length.
pub fn index_and_hash_chunk(body: &[u8], hoff: usize, start: usize, end: usize) -> (r: ChunkIndex)
    requires
        start <= end <= body@.len(),
        hoff + body@.len() <= u64::MAX,
    ensures
        r.0@ == chunk_offsets(body@, hoff as int, start as int, end as int),
        r.1.0@ == blake3_digest(body@.subrange(start as int, end as int)),
        r.1.1 == end - start,
{
    let offsets = index_chunk(body, hoff, start, end);
    let digest = blake3_hash(&body[start..end]);
    (offsets, (digest, end - start))
}

/// `part` is what `index_and_hash_chunk` gives for the chunk starting at `start`.
pub open spec fn is_chunk_index(body: Seq<u8>, hoff: int, chunk: int, start: int, part: ChunkIndex) -> bool {
    let end = chunk_end(body, start, chunk);
    &&& part.0@ == chunk_offsets(body, hoff, start, end)
    &&& part.1.0@ == blake3_digest(body.subrange(start, end))
    &&& part.1.1 == end - start
}

/// Joins the per-chunk results, in chunk order, into the index of the whole body.
pub fn assemble_index(
    body: &[u8],
    hoff: usize,
    chunk: usize,
    starts: &Vec<usize>,
    parts: &Vec<ChunkIndex>,
) -> (r: IndexData)
    requires
        chunk > 0,
        starts@.map_values(|x: usize| x as int) == chunk_starts_from(body@, 0, chunk as int),
        parts@.len() == starts@.len(),
        forall|k: int|
            0 <= k < parts@.len() ==> is_chunk_index(
                body@,
                hoff as int,
                chunk as int,
                starts@[k] as int,
                #[trigger] parts@[k],
            ),
    ensures
        r.offsets@ == offsets_from(body@, hoff as int, 0, chunk as int),
        hashes_view(r.block_hashes@) == hashes_from(body@, 0, chunk as int),
{
    let ghost sv = starts@.map_values(|x: usize| x as int);
    let mut offsets: Vec<u64> = Vec::new();
    let mut hashes: Vec<([u8; 32], usize)> = Vec::new();
    let ghost mut cur: int = 0;
    let mut k: usize = 0;
    while k < parts.len()
        invariant
            chunk > 0,
            sv == starts@.map_values(|x: usize| x as int),
            sv == chunk_starts_from(body@, 0, chunk as int),
            parts@.len() == starts@.len(),
            forall|k: int|
                0 <= k < parts@.len() ==> is_chunk_index(
                    body@,
                    hoff as int,
                    chunk as int,
                    starts@[k] as int,
                    #[trigger] parts@[k],
                ),
            k <= parts@.len(),
            0 <= cur,
            sv.subrange(k as int, sv.len() as int) == chunk_starts_from(body@, cur, chunk as int),
            offsets@ + offsets_from(body@, hoff as int, cur, chunk as int) == offsets_from(
                body@,
                hoff as int,
                0,
                chunk as int,
            ),
            hashes_view(hashes@) + hashes_from(body@, cur, chunk as int) == hashes_from(
                body@,
                0,
                chunk as int,
            ),
        decreases parts@.len() - k,
    {
        let part = &parts[k];
        proof {
            assert(sv.subrange(k as int, sv.len() as int)[0] == sv[k as int]);
            assert(cur < body@.len());
            assert(starts@[k as int] as int == cur);
            if cur + chunk < body@.len() {
                lemma_next_byte_bounds(body@, 0x0a, cur + chunk);
            }
            assert(sv.subrange(k + 1, sv.len() as int) =~= sv.subrange(k as int, sv.len() as int).drop_first());
        }
        let ghost ob = offsets@;
        let ghost hb = hashes@;
        let mut i: usize = 0;
        while i < part.0.len()
            invariant
                i <= part.0@.len(),
                offsets@ == ob + part.0@.take(i as int),
            decreases part.0@.len() - i,
        {
            offsets.push(part.0[i]);
            i = i + 1;
            proof {
                assert(offsets@ =~= ob + part.0@.take(i as int));
            }
        }
        hashes.push(part.1);
        proof {
            let end = chunk_end(body@, cur, chunk as int);
            let next = next_chunk_start(body@, cur, chunk as int);
            assert(part.0@.take(part.0@.len() as int) =~= part.0@);
            assert(offsets@ + offsets_from(body@, hoff as int, next, chunk as int) =~= ob + offsets_from(
                body@,
                hoff as int,
                cur,
                chunk as int,
            ));
            assert(hashes_view(hashes@) =~= hashes_view(hb).push(
                (blake3_digest(body@.subrange(cur, end)), (end - cur) as int),
            ));
            assert(hashes_view(hashes@) + hashes_from(body@, next, chunk as int) =~= hashes_view(hb)
                + hashes_from(body@, cur, chunk as int));
            cur = next;
        }
        k = k + 1;
    }
    proof {
        assert(sv.subrange(k as int, sv.len() as int) =~= Seq::<int>::empty());
        if cur < body@.len() {
            assert(chunk_starts_from(body@, cur, chunk as int).len() > 0);
        }
        assert(offsets@ + Seq::<u64>::empty() =~= offsets@);
        assert(hashes_view(hashes@) + Seq::<(Seq<u8>, int)>::empty() =~= hashes_view(hashes@));
    }
    IndexData { offsets, block_hashes: hashes }
}

/// Indexes a dataset: the offsets of its rows, chunk by chunk, and each chunk's hash.
/// The offsets are the start of every row of the body.
pub fn build_index_data(data: &[u8], skip_rows: usize, has_header: bool, chunk: usize) -> (r: IndexData)
    requires
        chunk > 0,
        data@.len() + chunk <= usize::MAX,
        data@.len() <= u64::MAX,
    ensures
        ({
            let h = spec_body_start(data@, skip_rows as nat, has_header);
            let body = body_of(data@, skip_rows as nat, has_header);
            &&& r.offsets@ == offsets_from(body, h, 0, chunk as int)
            &&& r.offsets@ == row_starts(body, h)
            &&& hashes_view(r.block_hashes@) == hashes_from(body, 0, chunk as int)
        }),
{
    let h = body_start(data, skip_rows, has_header);
    let body = &data[h..data.len()];
    let ghost bv = body_of(data@, skip_rows as nat, has_header);
    proof {
        assert(body@ =~= bv);
    }
    let starts = chunk_starts(body, chunk);
    let ghost sv = starts@.map_values(|x: usize| x as int);
    let mut parts: Vec<ChunkIndex> = Vec::new();
    let mut k: usize = 0;
    while k < starts.len()
        invariant
            chunk > 0,
            body@ == bv,
            h + body@.len() == data@.len(),
            data@.len() + chunk <= usize::MAX,
            data@.len() <= u64::MAX,
            sv == starts@.map_values(|x: usize| x as int),
            sv == chunk_starts_from(bv, 0, chunk as int),
            k <= starts@.len(),
            parts@.len() == k,
            forall|j: int|
                0 <= j < k ==> is_chunk_index(bv, h as int, chunk as int, starts@[j] as int, #[trigger] parts@[j]),
        decreases starts@.len() - k,
    {
        let s = starts[k];
        proof {
            lemma_chunk_starts_in_body(bv, 0, chunk as int);
            assert(sv[k as int] == s as int);
        }
        let e = chunk_end_at(body, s, chunk);
        let part = index_and_hash_chunk(body, h, s, e);
        parts.push(part);
        proof {
            assert forall|j: int| 0 <= j < k + 1 implies is_chunk_index(
                bv,
                h as int,
                chunk as int,
                starts@[j] as int,
                #[trigger] parts@[j],
            ) by {
                if j == k {
                    assert(parts@[j] == part);
                }
            }
        }
        k = k + 1;
    }
    let r = assemble_index(body, h, chunk, &starts, &parts);
    proof {
        lemma_index_offsets_are_row_starts(bv, h as int, chunk as int);
    }
    r
}

/// Every chunk start lies inside the body.
proof fn lemma_chunk_starts_in_body(body: Seq<u8>, cursor: int, chunk: int)
    ensures
        forall|k: int|
            0 <= k < chunk_starts_from(body, cursor, chunk).len() ==> 0 <= #[trigger] chunk_starts_from(
                body,
                cursor,
                chunk,
            )[k] < body.len(),
    decreases (if cursor < body.len() { body.len() + 1 - cursor } else { 0 }),
{
    if chunk > 0 && 0 <= cursor < body.len() {
        if cursor + chunk < body.len() {
            lemma_next_byte_bounds(body, 0x0a, cursor + chunk);
        }
        let next = next_chunk_start(body, cursor, chunk);
        lemma_chunk_starts_in_body(body, next, chunk);
        let s = chunk_starts_from(body, cursor, chunk);
        assert forall|k: int| 0 <= k < s.len() implies 0 <= #[trigger] s[k] < body.len() by {
            if k > 0 {
                assert(s[k] == chunk_starts_from(body, next, chunk)[k - 1]);
            }
        }
    }
}

/// `s` is strictly increasing.
pub open spec fn strictly_increasing(s: Seq<u64>) -> bool {
    forall|a: int, b: int| 0 <= a < b < s.len() ==> s[a] < s[b]
}

/// The newline row starts of `[a, c)` are those of `[a, b)` followed by those of `[b, c)`.
proof fn lemma_nl_split(body: Seq<u8>, hoff: int, a: int, b: int, c: int)
    requires
        0 <= a <= b <= c <= body.len(),
    ensures
        nl_range(body, hoff, a, c) == nl_range(body, hoff, a, b) + nl_range(body, hoff, b, c),
    decreases b - a,
{
    if a < b {
        lemma_nl_split(body, hoff, a + 1, b, c);
        let x = if body[a] == 0x0a && a + 1 < body.len() {
            seq![(hoff + a + 1) as u64]
        } else {
            Seq::<u64>::empty()
        };
        assert(x + (nl_range(body, hoff, a + 1, b) + nl_range(body, hoff, b, c)) =~= (x + nl_range(
            body,
            hoff,
            a + 1,
            b,
        )) + nl_range(body, hoff, b, c));
    } else {
        assert(nl_range(body, hoff, a, b) =~= Seq::<u64>::empty());
        assert(Seq::<u64>::empty() + nl_range(body, hoff, b, c) =~= nl_range(body, hoff, b, c));
    }
}

/// The offsets of the chunks from a chunk start `cursor` on are the start of the
/// row at `cursor` and every later row start.
proof fn lemma_offsets_from_rows(body: Seq<u8>, hoff: int, cursor: int, chunk: int)
    requires
        chunk > 0,
        0 <= cursor < body.len(),
    ensures
        offsets_from(body, hoff, cursor, chunk) == chunk_offsets(body, hoff, cursor, body.len() as int),
    decreases body.len() + 1 - cursor,
{
    let n = body.len() as int;
    let e = chunk_end(body, cursor, chunk);
    let next = next_chunk_start(body, cursor, chunk);
    if cursor + chunk < n {
        lemma_next_byte_bounds(body, 0x0a, cursor + chunk);
        lemma_nl_split(body, hoff, cursor, e, n);
        if e < n {
            lemma_next_byte_hit(body, 0x0a, cursor + chunk);
            lemma_nl_split(body, hoff, e, e + 1, n);
            assert(nl_range(body, hoff, e + 1, e + 1) =~= Seq::<u64>::empty());
            if e + 1 < n {
                lemma_offsets_from_rows(body, hoff, e + 1, chunk);
                assert(nl_range(body, hoff, e, e + 1) =~= seq![(hoff + e + 1) as u64]);
                assert(chunk_offsets(body, hoff, cursor, e) + offsets_from(body, hoff, next, chunk)
                    =~= chunk_offsets(body, hoff, cursor, n));
            } else {
                assert(nl_range(body, hoff, e, e + 1) =~= Seq::<u64>::empty());
                assert(nl_range(body, hoff, e + 1, n) =~= Seq::<u64>::empty());
                assert(offsets_from(body, hoff, next, chunk) =~= Seq::<u64>::empty());
                assert(chunk_offsets(body, hoff, cursor, e) + offsets_from(body, hoff, next, chunk)
                    =~= chunk_offsets(body, hoff, cursor, n));
            }
        } else {
            assert(nl_range(body, hoff, n, n) =~= Seq::<u64>::empty());
            assert(offsets_from(body, hoff, next, chunk) =~= Seq::<u64>::empty());
            assert(chunk_offsets(body, hoff, cursor, e) + offsets_from(body, hoff, next, chunk)
                =~= chunk_offsets(body, hoff, cursor, n));
        }
    } else {
        assert(offsets_from(body, hoff, next, chunk) =~= Seq::<u64>::empty());
        assert(chunk_offsets(body, hoff, cursor, e) + offsets_from(body, hoff, next, chunk)
            =~= chunk_offsets(body, hoff, cursor, n));
    }
}

/// Law: cutting the body into chunks loses no row: the index of every chunk size is
/// the start of every row of the body.
pub proof fn lemma_index_offsets_are_row_starts(body: Seq<u8>, hoff: int, chunk: int)
    requires
        chunk > 0,
    ensures
        offsets_from(body, hoff, 0, chunk) == row_starts(body, hoff),
{
    if body.len() > 0 {
        lemma_offsets_from_rows(body, hoff, 0, chunk);
    }
}

proof fn lemma_nl_range(body: Seq<u8>, hoff: int, i: int, j: int)
    requires
        0 <= i <= j <= body.len(),
        0 <= hoff,
        hoff + body.len() <= u64::MAX,
    ensures
        strictly_increasing(nl_range(body, hoff, i, j)),
        forall|k: int|
            0 <= k < nl_range(body, hoff, i, j).len() ==> {
                let e = #[trigger] nl_range(body, hoff, i, j)[k] as int;
                &&& hoff + i + 1 <= e < hoff + body.len()
                &&& body[e - hoff - 1] == 0x0a
            },
    decreases j - i,
{
    if i < j {
        lemma_nl_range(body, hoff, i + 1, j);
        let rest = nl_range(body, hoff, i + 1, j);
        let s = nl_range(body, hoff, i, j);
        if body[i] == 0x0a && i + 1 < body.len() {
            assert(s == seq![(hoff + i + 1) as u64] + rest);
            assert forall|k: int| 0 <= k < s.len() implies {
                let e = #[trigger] s[k] as int;
                &&& hoff + i + 1 <= e < hoff + body.len()
                &&& body[e - hoff - 1] == 0x0a
            } by {
                if k > 0 {
                    assert(s[k] == rest[k - 1]);
                }
            }
            assert forall|a: int, b: int| 0 <= a < b < s.len() implies s[a] < s[b] by {
                assert(s[b] == rest[b - 1]);
                if a > 0 {
                    assert(s[a] == rest[a - 1]);
                }
            }
        } else {
            assert(s =~= rest);
        }
    }
}

/// Law: the index lists row starts in increasing order. Each offset lies inside the
/// dataset and is either where the body begins or the byte after a `\n`; and every
/// such position before the end is listed.
pub proof fn lemma_index_offsets_start_rows(
    data: Seq<u8>,
    skip_rows: nat,
    has_header: bool,
    chunk: int,
)
    requires
        chunk > 0,
        data.len() <= u64::MAX,
    ensures
        ({
            let h = spec_body_start(data, skip_rows, has_header);
            let offs = offsets_from(body_of(data, skip_rows, has_header), h, 0, chunk);
            &&& strictly_increasing(offs)
            &&& forall|k: int|
                0 <= k < offs.len() ==> {
                    let e = #[trigger] offs[k] as int;
                    &&& h <= e < data.len()
                    &&& (e == h || data[e - 1] == 0x0a)
                }
            &&& h < data.len() ==> offs.contains(h as u64)
            &&& forall|j: int|
                h <= j && j + 1 < data.len() && data[j] == 0x0a ==> offs.contains((j + 1) as u64)
        }),
{
    let h = spec_body_start(data, skip_rows, has_header);
    lemma_after_lines_bounds(data, bom_len(data), skip_rows);
    let p = after_lines(data, bom_len(data), skip_rows);
    lemma_next_byte_bounds(data, 0x0a, p);
    assert(0 <= h <= data.len());
    let body = body_of(data, skip_rows, has_header);
    let n = body.len() as int;
    lemma_index_offsets_are_row_starts(body, h, chunk);
    let offs = offsets_from(body, h, 0, chunk);
    if n > 0 {
        lemma_nl_range(body, h, 0, n);
        let nl = nl_range(body, h, 0, n);
        assert(offs == seq![h as u64] + nl);
        assert(offs[0] == h as u64);
        assert forall|k: int| 0 <= k < offs.len() implies {
            let e = #[trigger] offs[k] as int;
            &&& h <= e < data.len()
            &&& (e == h || data[e - 1] == 0x0a)
        } by {
            if k > 0 {
                assert(offs[k] == nl[k - 1]);
                let e = offs[k] as int;
                assert(body[e - h - 1] == data[e - 1]);
            }
        }
        assert forall|a: int, b: int| 0 <= a < b < offs.len() implies offs[a] < offs[b] by {
            assert(offs[b] == nl[b - 1]);
            if a > 0 {
                assert(offs[a] == nl[a - 1]);
            }
        }
        assert forall|j: int| h <= j && j + 1 < data.len() && data[j] == 0x0a implies offs.contains(
            (j + 1) as u64,
        ) by {
            let w = lemma_nl_member(body, h, 0, n, j - h);
            assert(offs[w + 1] == nl[w]);
        }
    }
}

/// A `\n` at `t` in `[i, j)` that is not the body's last byte is listed.
proof fn lemma_nl_member(body: Seq<u8>, hoff: int, i: int, j: int, t: int) -> (w: int)
    requires
        0 <= i <= t < j <= body.len(),
        body[t] == 0x0a,
        t + 1 < body.len(),
    ensures
        0 <= w < nl_range(body, hoff, i, j).len(),
        nl_range(body, hoff, i, j)[w] == (hoff + t + 1) as u64,
    decreases t - i,
{
    let rest = nl_range(body, hoff, i + 1, j);
    if t == i {
        0
    } else {
        let w0 = lemma_nl_member(body, hoff, i + 1, j, t);
        if body[i] == 0x0a && i + 1 < body.len() {
            assert(nl_range(body, hoff, i, j)[w0 + 1] == rest[w0]);
            w0 + 1
        } else {
            assert(nl_range(body, hoff, i, j) =~= rest);
            w0
        }
    }
}

/// The `ZENFOREN` tag of the index cache file.
pub open spec fn index_magic() -> Seq<u8> {
    seq![0x5au8, 0x45u8, 0x4eu8, 0x46u8, 0x4fu8, 0x52u8, 0x45u8, 0x4eu8]
}

/// Little-endian bytes of each value, in order.
pub open spec fn le64_seq(s: Seq<u64>) -> Seq<u8>
    decreases s.len(),
{
    if s.len() == 0 {
        Seq::empty()
    } else {
        le64_seq(s.drop_last()) + le64_bytes(s.last())
    }
}

/// Each (digest, size) record: the 32 digest bytes, then the size in little-endian.
pub open spec fn hash_records(h: Seq<(Seq<u8>, u64)>) -> Seq<u8>
    decreases h.len(),
{
    if h.len() == 0 {
        Seq::empty()
    } else {
        hash_records(h.drop_last()) + h.last().0 + le64_bytes(h.last().1)
    }
}

/// The index cache file:
///   [File Size: 8]["ZENFOREN"][Offset Count: 8][Offset: 8]*
///   [Hash Count: 8]([Digest: 32][Chunk Size: 8])*
pub open spec fn spec_encode_index(fs: u64, offs: Seq<u64>, hashes: Seq<(Seq<u8>, u64)>) -> Seq<u8> {
    le64_bytes(fs) + index_magic() + le64_bytes(offs.len() as u64) + le64_seq(offs) + le64_bytes(
        hashes.len() as u64,
    ) + hash_records(hashes)
}

pub open spec fn records_view(h: Seq<([u8; 32], usize)>) -> Seq<(Seq<u8>, u64)> {
    h.map_values(|p: ([u8; 32], usize)| (p.0@, p.1 as u64))
}

/// Serialises the index as its cache file.
pub fn encode_index(file_size: u64, offsets: &[u64], hashes: &[([u8; 32], usize)]) -> (r: Vec<u8>)
    ensures
        r@ == spec_encode_index(file_size, offsets@, records_view(hashes@)),
{
    let mut out: Vec<u8> = Vec::new();
    push_le64(&mut out, file_size);
    out.push(0x5au8);
    out.push(0x45u8);
    out.push(0x4eu8);
    out.push(0x46u8);
    out.push(0x4fu8);
    out.push(0x52u8);
    out.push(0x45u8);
    out.push(0x4eu8);
    push_le64(&mut out, offsets.len() as u64);
    let ghost head = out@;
    let mut i: usize = 0;
    while i < offsets.len()
        invariant
            i <= offsets@.len(),
            out@ == head + le64_seq(offsets@.take(i as int)),
        decreases offsets.len() - i,
    {
        push_le64(&mut out, offsets[i]);
        proof {
            assert(offsets@.take(i + 1).drop_last() =~= offsets@.take(i as int));
        }
        i = i + 1;
    }
    proof {
        assert(offsets@.take(offsets@.len() as int) =~= offsets@);
    }
    push_le64(&mut out, hashes.len() as u64);
    let ghost mid = out@;
    let mut j: usize = 0;
    while j < hashes.len()
        invariant
            j <= hashes@.len(),
            out@ == mid + hash_records(records_view(hashes@).take(j as int)),
        decreases hashes.len() - j,
    {
        let (digest, size) = hashes[j];
        push_all(&mut out, &digest);
        push_le64(&mut out, size as u64);
        proof {
            let rv = records_view(hashes@);
            assert(rv.take(j + 1).drop_last() =~= rv.take(j as int));
            assert(rv.take(j + 1).last() == (digest@, size as u64));
            assert(out@ =~= mid + hash_records(rv.take(j + 1)));
        }
        j = j + 1;
    }
    proof {
        assert(records_view(hashes@).take(hashes@.len() as int) =~= records_view(hashes@));
        assert(out@ =~= spec_encode_index(file_size, offsets@, records_view(hashes@)));
    }
    out
}


/// What a cache file gives back.
pub enum CachedIndex {
    /// A `ZENFOREN` file: offsets and chunk hashes.
    Full(IndexData),
    /// An older file of bare offsets after the size.
    OffsetsOnly(Vec<u64>),
    /// Unusable for this dataset: the index is to be rebuilt.
    Miss,
}

pub enum CachedIndexView {
    Full(Seq<u64>, Seq<(Seq<u8>, u64)>),
    OffsetsOnly(Seq<u64>),
    Miss,
}

impl View for CachedIndex {
    type V = CachedIndexView;

    open spec fn view(&self) -> CachedIndexView {
        match self {
            CachedIndex::Full(d) => CachedIndexView::Full(d.offsets@, records_view(d.block_hashes@)),
            CachedIndex::OffsetsOnly(o) => CachedIndexView::OffsetsOnly(o@),
            CachedIndex::Miss => CachedIndexView::Miss,
        }
    }
}

/// `n` little-endian values stored from `start` on.
pub open spec fn le64s_at(m: Seq<u8>, start: int, n: nat) -> Seq<u64> {
    Seq::new(n, |k: int| le64_at(m, start + 8 * k) as u64)
}

/// Hash record `k` of a cache file whose records start at `at`.
pub open spec fn record_at(m: Seq<u8>, at: int, k: int) -> (Seq<u8>, u64) {
    (m.subrange(at + 40 * k, at + 40 * k + 32), (le64_at(m, at + 40 * k + 32) as usize) as u64)
}

/// A cache file that carries the tag but stops before its offset count.
pub open spec fn truncated_tagged(m: Seq<u8>, fs: u64) -> bool {
    16 <= m.len() < 24 && le64_at(m, 0) == fs && m.subrange(8, 16) == index_magic()
}

/// Reading a cache file for a dataset of `fs` bytes: it must record that size; a tagged
/// file gives its offsets and as many announced hash records as it holds; an untagged
/// file whose length is a multiple of 8 gives the offsets after the size.
pub open spec fn spec_decode_index(m: Seq<u8>, fs: u64) -> CachedIndexView {
    if m.len() < 16 || le64_at(m, 0) != fs {
        CachedIndexView::Miss
    } else if m.subrange(8, 16) == index_magic() {
        let oc = le64_at(m, 16);
        let off_end = 24 + oc * 8;
        if m.len() >= off_end + 8 {
            let hc = le64_at(m, off_end);
            let avail = (m.len() - off_end - 8) / 40;
            let n = if hc < avail {
                hc
            } else {
                avail
            };
            CachedIndexView::Full(
                le64s_at(m, 24, oc as nat),
                Seq::new(n as nat, |k: int| record_at(m, off_end + 8, k)),
            )
        } else {
            CachedIndexView::Miss
        }
    } else if m.len() % 8 == 0 {
        CachedIndexView::OffsetsOnly(le64s_at(m, 8, ((m.len() - 8) / 8) as nat))
    } else {
        CachedIndexView::Miss
    }
}

/// `n` little-endian values stored from `start` on.
fn read_le64s(m: &[u8], start: usize, n: usize) -> (r: Vec<u64>)
    requires
        start + 8 * n <= m@.len(),
    ensures
        r@ == le64s_at(m@, start as int, n as nat),
{
    let mlen = m.len();
    let mut out: Vec<u64> = Vec::new();
    let mut k: usize = 0;
    while k < n
        invariant
            mlen == m@.len(),
            start + 8 * n <= m@.len(),
            k <= n,
            out@ =~= le64s_at(m@, start as int, k as nat),
        decreases n - k,
    {
        out.push(read_le_u64(m, start + 8 * k));
        k = k + 1;
    }
    out
}

/// Reads a cache file for a dataset of `file_size` bytes.
pub fn decode_index(m: &[u8], file_size: u64) -> (r: CachedIndex)
    requires
        !truncated_tagged(m@, file_size),
    ensures
        r@ == spec_decode_index(m@, file_size),
{
    let len = m.len();
    if len < 16 || read_le_u64(m, 0) != file_size {
        return CachedIndex::Miss;
    }
    let tagged = m[8] == 0x5au8 && m[9] == 0x45u8 && m[10] == 0x4eu8 && m[11] == 0x46u8 && m[12]
        == 0x4fu8 && m[13] == 0x52u8 && m[14] == 0x45u8 && m[15] == 0x4eu8;
    proof {
        assert(tagged == (m@.subrange(8, 16) =~= index_magic()));
    }
    if tagged {
        let oc = read_le_u64(m, 16);
        if len < 32 || oc > ((len - 32) / 8) as u64 {
            proof {
                assert(m@.len() < 24 + oc * 8 + 8);
            }
            return CachedIndex::Miss;
        }
        let oc = oc as usize;
        let off_end = 24 + oc * 8;
        let offsets = read_le64s(m, 24, oc);
        let hc = read_le_u64(m, off_end);
        let avail = (len - off_end - 8) / 40;
        let n = if hc < avail as u64 {
            hc as usize
        } else {
            avail
        };
        let at = off_end + 8;
        let mut hashes: Vec<([u8; 32], usize)> = Vec::new();
        let mut k: usize = 0;
        while k < n
            invariant
                len == m@.len(),
                n <= avail,
                avail == (m@.len() - at) / 40,
                at <= m@.len(),
                k <= n,
                records_view(hashes@) =~= Seq::new(k as nat, |j: int| record_at(m@, at as int, j)),
            decreases n - k,
        {
            let p = at + 40 * k;
            let mut digest = [0u8; 32];
            let mut b: usize = 0;
            while b < 32
                invariant
                    len == m@.len(),
                    p + 40 <= m@.len(),
                    b <= 32,
                    forall|x: int| 0 <= x < b ==> digest@[x] == m@[p + x],
                decreases 32 - b,
            {
                digest.set(b, m[p + b]);
                b = b + 1;
            }
            let size: usize = #[verifier::truncate] (read_le_u64(m, p + 32) as usize);
            let ghost before = hashes@;
            hashes.push((digest, size));
            proof {
                assert(digest@ =~= m@.subrange(p as int, p + 32));
                assert(records_view(hashes@) =~= records_view(before).push(record_at(m@, at as int, k as int)));
            }
            k = k + 1;
        }
        return CachedIndex::Full(IndexData { offsets, block_hashes: hashes });
    }
    if len % 8 == 0 {
        let count = (len - 8) / 8;
        let offsets = read_le64s(m, 8, count);
        return CachedIndex::OffsetsOnly(offsets);
    }
    CachedIndex::Miss
}


proof fn lemma_le64_seq(s: Seq<u64>)
    ensures
        le64_seq(s).len() == 8 * s.len(),
        forall|k: int|
            0 <= k < s.len() ==> #[trigger] le64_seq(s).subrange(8 * k, 8 * k + 8) == le64_bytes(
                s[k],
            ),
    decreases s.len(),
{
    if s.len() > 0 {
        let t = s.drop_last();
        lemma_le64_seq(t);
        assert forall|k: int| 0 <= k < s.len() implies #[trigger] le64_seq(s).subrange(
            8 * k,
            8 * k + 8,
        ) == le64_bytes(s[k]) by {
            if k < t.len() {
                assert(le64_seq(s).subrange(8 * k, 8 * k + 8) =~= le64_seq(t).subrange(8 * k, 8 * k + 8));
                assert(t[k] == s[k]);
            } else {
                assert(le64_seq(s).subrange(8 * k, 8 * k + 8) =~= le64_bytes(s.last()));
            }
        }
    }
}

proof fn lemma_hash_records(h: Seq<(Seq<u8>, u64)>)
    requires
        forall|i: int| 0 <= i < h.len() ==> (#[trigger] h[i]).0.len() == 32,
    ensures
        hash_records(h).len() == 40 * h.len(),
        forall|k: int|
            0 <= k < h.len() ==> #[trigger] hash_records(h).subrange(40 * k, 40 * k + 32) == h[k].0
                && hash_records(h).subrange(40 * k + 32, 40 * k + 40) == le64_bytes(h[k].1),
    decreases h.len(),
{
    if h.len() > 0 {
        let t = h.drop_last();
        assert forall|i: int| 0 <= i < t.len() implies (#[trigger] t[i]).0.len() == 32 by {
            assert(t[i] == h[i]);
        }
        lemma_hash_records(t);
        assert(h.last() == h[h.len() - 1]);
        assert forall|k: int| 0 <= k < h.len() implies #[trigger] hash_records(h).subrange(
            40 * k,
            40 * k + 32,
        ) == h[k].0 && hash_records(h).subrange(40 * k + 32, 40 * k + 40) == le64_bytes(h[k].1) by {
            if k < t.len() {
                assert(hash_records(h).subrange(40 * k, 40 * k + 32) =~= hash_records(t).subrange(
                    40 * k,
                    40 * k + 32,
                ));
                assert(hash_records(h).subrange(40 * k + 32, 40 * k + 40) =~= hash_records(
                    t,
                ).subrange(40 * k + 32, 40 * k + 40));
                assert(t[k] == h[k]);
            } else {
                assert(hash_records(h).subrange(40 * k, 40 * k + 32) =~= h.last().0);
                assert(hash_records(h).subrange(40 * k + 32, 40 * k + 40) =~= le64_bytes(
                    h.last().1,
                ));
            }
        }
    }
}

/// Law: reading back the cache file written for an index gives the same offsets and
/// the same chunk hashes (32-byte digests, sizes that a `usize` holds).
pub proof fn lemma_index_cache_roundtrip(fs: u64, offs: Seq<u64>, hashes: Seq<(Seq<u8>, u64)>)
    requires
        offs.len() <= u64::MAX,
        hashes.len() <= u64::MAX,
        24 + 8 * offs.len() <= u64::MAX,
        forall|i: int| 0 <= i < hashes.len() ==> (#[trigger] hashes[i]).0.len() == 32,
        forall|i: int| 0 <= i < hashes.len() ==> ((#[trigger] hashes[i]).1 as usize) as u64 == hashes[i].1,
    ensures
        spec_decode_index(spec_encode_index(fs, offs, hashes), fs) == CachedIndexView::Full(
            offs,
            hashes,
        ),
{
    let b = spec_encode_index(fs, offs, hashes);
    lemma_le64_seq(offs);
    lemma_hash_records(hashes);
    let n = offs.len() as int;
    let off_end = 24 + 8 * n;
    let at = off_end + 8;
    assert(b.len() == at + 40 * hashes.len());
    assert(b.subrange(0, 8) =~= le64_bytes(fs));
    lemma_le64_roundtrip(fs, b, 0);
    assert(b.subrange(8, 16) =~= index_magic());
    assert(b.subrange(16, 24) =~= le64_bytes(offs.len() as u64));
    lemma_le64_roundtrip(offs.len() as u64, b, 16);
    assert(b.subrange(off_end, off_end + 8) =~= le64_bytes(hashes.len() as u64));
    lemma_le64_roundtrip(hashes.len() as u64, b, off_end);
    assert((b.len() - off_end - 8) / 40 == hashes.len()) by (nonlinear_arith)
        requires
            b.len() - off_end - 8 == 40 * hashes.len(),
    ;
    let os = le64s_at(b, 24, offs.len());
    assert forall|k: int| 0 <= k < n implies os[k] == offs[k] by {
        assert(b.subrange(24 + 8 * k, 24 + 8 * k + 8) =~= le64_seq(offs).subrange(8 * k, 8 * k + 8));
        lemma_le64_roundtrip(offs[k], b, 24 + 8 * k);
    }
    assert(os =~= offs);
    let hs = Seq::new(hashes.len(), |k: int| record_at(b, at, k));
    assert forall|k: int| 0 <= k < hashes.len() implies hs[k] == hashes[k] by {
        assert(b.subrange(at + 40 * k, at + 40 * k + 32) =~= hash_records(hashes).subrange(
            40 * k,
            40 * k + 32,
        ));
        assert(b.subrange(at + 40 * k + 32, at + 40 * k + 40) =~= hash_records(hashes).subrange(
            40 * k + 32,
            40 * k + 40,
        ));
        lemma_le64_roundtrip(hashes[k].1, b, at + 40 * k + 32);
    }
    assert(hs =~= hashes);
}


/// The storage counts as mechanical: forced by the mode, or detected when automatic.
pub open spec fn mechanical(mode: HardwareMode, rotational: bool) -> bool {
    match mode {
        HardwareMode::Auto => rotational,
        HardwareMode::HDD => true,
        HardwareMode::SSD => false,
    }
}

/// Indexing threads for `available` pool workers: 2 on mechanical storage; otherwise
/// all of them, but at most 8 for bodies over 1 GB.
pub open spec fn spec_index_threads(mech: bool, body_len: int, available: int) -> int {
    if mech {
        2
    } else if body_len > 1_000_000_000 {
        if available < 8 {
            available
        } else {
            8
        }
    } else {
        available
    }
}

/// Worker threads for a full scan (zone maps, exports): two on a rotational
/// (mechanical) disk to limit head movement, else all `available`.
pub fn scan_threads(mode: HardwareMode, rotational: bool, available: usize) -> (r: usize)
    ensures
        r == (if mechanical(mode, rotational) {
            2
        } else {
            available as int
        }),
{
    let mech = match mode {
        HardwareMode::Auto => rotational,
        HardwareMode::HDD => true,
        HardwareMode::SSD => false,
    };
    if mech {
        2
    } else {
        available
    }
}

/// Indexing threads for a pool of `available` workers.
pub fn threads_for(mode: HardwareMode, rotational: bool, body_len: usize, available: usize) -> (r: usize)
    ensures
        r == spec_index_threads(mechanical(mode, rotational), body_len as int, available as int),
{
    let mech = match mode {
        HardwareMode::Auto => rotational,
        HardwareMode::HDD => true,
        HardwareMode::SSD => false,
    };
    if mech {
        2
    } else if body_len > 1_000_000_000 {
        if available < 8 {
            available
        } else {
            8
        }
    } else {
        available
    }
}

/// Indexing threads on this machine (the rayon pool's size decides the rest).
pub fn index_threads(mode: HardwareMode, rotational: bool, body_len: usize) -> (r: usize)
    ensures
        exists|available: int|
            0 <= available <= usize::MAX && r == spec_index_threads(
                mechanical(mode, rotational),
                body_len as int,
                available,
            ),
{
    let available = current_num_threads();
    threads_for(mode, rotational, body_len, available)
}

} // verus!
