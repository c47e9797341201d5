//! Zone maps: the body of a delimited file cut into zones of consecutive rows, so that
//! a range filter can skip whole zones by their per-column minimum and maximum.
//! This module decides where the zones lie and how many columns the file has; the
//! column ranges are floating-point values that the caller computes per zone.
use vstd::prelude::*;
use crate::scan::{find_byte_from, next_byte, lemma_next_byte_bounds, lemma_next_byte_hit};
use crate::index::{spec_body_start, body_start, next_chunk_start, next_chunk_at, body_of, offsets_from, nl_range,
    row_starts, lemma_index_offsets_are_row_starts, INDEX_CHUNK_SIZE};
use crate::engine::RowLayout;
use crate::text::{chars_of, string_from_utf8};
use vstd::utf8::{valid_utf8, decode_utf8};

verus! {

/// Bytes per parallel chunk when building a zone map: 64 MiB.
pub const ZONE_CHUNK_SIZE: usize = 67108864;

/// End of the line that starts at `c` inside a chunk ending at `e`: just past its `\n`,
/// or `e` when the chunk ends first.
pub open spec fn line_step(body: Seq<u8>, c: int, e: int) -> int {
    let p = next_byte(body, 0x0a, c);
    let q = if p < e {
        p
    } else {
        e
    };
    if q < e {
        q + 1
    } else {
        q
    }
}

proof fn lemma_line_step(body: Seq<u8>, c: int, e: int)
    requires
        0 <= c < e <= body.len(),
    ensures
        c < line_step(body, c, e) <= e,
{
    lemma_next_byte_bounds(body, 0x0a, c);
}

/// The zones `(rows, start, end)` of the part `[c, e)` of a chunk: rows are read line by
/// line, the open zone starting at `zstart` and holding `rows` rows so far; a zone
/// closes when it reaches `zone_size` rows or the chunk ends.
pub open spec fn zones_in(body: Seq<u8>, c: int, e: int, zone_size: int, zstart: int, rows: int) -> Seq<
    (int, int, int),
>
    decreases e - c,
    via zones_in_decreases
{
    if c < 0 || c >= e || e > body.len() {
        Seq::empty()
    } else {
        let nx = line_step(body, c, e);
        if rows + 1 >= zone_size || nx >= e {
            seq![(rows + 1, zstart, nx)] + zones_in(body, nx, e, zone_size, nx, 0)
        } else {
            zones_in(body, nx, e, zone_size, zstart, rows + 1)
        }
    }
}

#[via_fn]
proof fn zones_in_decreases(body: Seq<u8>, c: int, e: int, zone_size: int, zstart: int, rows: int) {
    if 0 <= c < e <= body.len() {
        lemma_line_step(body, c, e);
    }
}

/// The zones of `body[s..e)`, appended to `acc` as (rows, start, end).
fn chunk_zones(body: &[u8], s: usize, e: usize, zone_size: u64, acc: &mut Vec<(u64, usize, usize)>)
    requires
        s < e <= body@.len(),
    ensures
        final(acc)@.map_values(|z: (u64, usize, usize)| (z.0 as int, z.1 as int, z.2 as int))
            == old(acc)@.map_values(|z: (u64, usize, usize)| (z.0 as int, z.1 as int, z.2 as int))
            + zones_in(body@, s as int, e as int, zone_size as int, s as int, 0),
{
    let ghost f = |z: (u64, usize, usize)| (z.0 as int, z.1 as int, z.2 as int);
    let ghost start_view = acc@.map_values(f);
    let mut c: usize = s;
    let mut zstart: usize = s;
    let mut rows: u64 = 0;
    while c < e
        invariant
            s <= zstart <= c <= e <= body@.len(),
            rows <= c - zstart,
            f == (|z: (u64, usize, usize)| (z.0 as int, z.1 as int, z.2 as int)),
            acc@.map_values(f) + zones_in(body@, c as int, e as int, zone_size as int, zstart as int, rows as int)
                == start_view + zones_in(body@, s as int, e as int, zone_size as int, s as int, 0),
        decreases e - c,
    {
        proof {
            lemma_line_step(body@, c as int, e as int);
        }
        let p = find_byte_from(body, 0x0au8, c);
        let q = if p < e {
            p
        } else {
            e
        };
        let nx = if q < e {
            q + 1
        } else {
            q
        };
        let ghost before = acc@.map_values(f);
        if rows + 1 >= zone_size || nx >= e {
            acc.push((rows + 1, zstart, nx));
            proof {
                assert(acc@.map_values(f) =~= before.push((rows + 1, zstart as int, nx as int)));
                assert(acc@.map_values(f) + zones_in(body@, nx as int, e as int, zone_size as int, nx as int, 0)
                    =~= before + zones_in(body@, c as int, e as int, zone_size as int, zstart as int, rows as int));
            }
            zstart = nx;
            rows = 0;
        } else {
            rows = rows + 1;
        }
        c = nx;
    }
    proof {
        assert(acc@.map_values(f) + Seq::<(int, int, int)>::empty() =~= acc@.map_values(f));
    }
}

/// End of the chunk that starts at `s`: the start of the next chunk, or the body's end.
pub open spec fn zone_chunk_end(body: Seq<u8>, s: int) -> int {
    let n = next_chunk_start(body, s, ZONE_CHUNK_SIZE as int);
    if n < body.len() {
        n
    } else {
        body.len() as int
    }
}

/// The zones of the body from the chunk starting at `cursor` on, chunk after chunk.
pub open spec fn zones_from(body: Seq<u8>, cursor: int, zone_size: int) -> Seq<(int, int, int)>
    decreases (if cursor < body.len() { body.len() + 1 - cursor } else { 0 }),
    via zones_from_decreases
{
    if cursor < 0 || cursor >= body.len() {
        Seq::empty()
    } else {
        zones_in(body, cursor, zone_chunk_end(body, cursor), zone_size, cursor, 0) + zones_from(
            body,
            next_chunk_start(body, cursor, ZONE_CHUNK_SIZE as int),
            zone_size,
        )
    }
}

proof fn lemma_next_chunk(body: Seq<u8>, cursor: int)
    requires
        0 <= cursor < body.len(),
    ensures
        cursor < next_chunk_start(body, cursor, ZONE_CHUNK_SIZE as int),
        cursor < zone_chunk_end(body, cursor) <= body.len(),
{
    let c = cursor + ZONE_CHUNK_SIZE as int;
    if c < body.len() {
        lemma_next_byte_bounds(body, 0x0a, c);
    }
}

#[via_fn]
proof fn zones_from_decreases(body: Seq<u8>, cursor: int, zone_size: int) {
    if 0 <= cursor < body.len() {
        lemma_next_chunk(body, cursor);
    }
}

/// The zones of a whole body as (rows, start, end), offsets relative to the body.
fn body_zones(body: &[u8], zone_size: u64) -> (r: Vec<(u64, usize, usize)>)
    requires
        body@.len() + ZONE_CHUNK_SIZE <= usize::MAX,
    ensures
        r@.map_values(|z: (u64, usize, usize)| (z.0 as int, z.1 as int, z.2 as int)) == zones_from(
            body@,
            0,
            zone_size as int,
        ),
{
    let ghost f = |z: (u64, usize, usize)| (z.0 as int, z.1 as int, z.2 as int);
    let mut acc: Vec<(u64, usize, usize)> = Vec::new();
    let mut cursor: usize = 0;
    proof {
        assert(acc@.map_values(f) =~= Seq::<(int, int, int)>::empty());
    }
    while cursor < body.len()
        invariant
            body@.len() + ZONE_CHUNK_SIZE <= usize::MAX,
            f == (|z: (u64, usize, usize)| (z.0 as int, z.1 as int, z.2 as int)),
            acc@.map_values(f) + zones_from(body@, cursor as int, zone_size as int) == zones_from(
                body@,
                0,
                zone_size as int,
            ),
        decreases (if cursor < body@.len() { body@.len() + 1 - cursor } else { 0 }),
    {
        proof {
            lemma_next_chunk(body@, cursor as int);
        }
        let n = next_chunk_at(body, cursor, ZONE_CHUNK_SIZE);
        let e = if n < body.len() {
            n
        } else {
            body.len()
        };
        let ghost before = acc@.map_values(f);
        chunk_zones(body, cursor, e, zone_size, &mut acc);
        proof {
            assert(acc@.map_values(f) + zones_from(body@, n as int, zone_size as int) =~= before
                + zones_from(body@, cursor as int, zone_size as int));
        }
        cursor = n;
    }
    proof {
        assert(acc@.map_values(f) + Seq::<(int, int, int)>::empty() =~= acc@.map_values(f));
    }
    acc
}

// ------------------------------------------------------------------ tiling

/// `z` covers `[from, to)` exactly: each zone starts where the one before ended, holds
/// at least one row and no more rows than bytes.
pub open spec fn tiles(z: Seq<(int, int, int)>, from: int, to: int) -> bool
    decreases z.len(),
{
    if z.len() == 0 {
        from == to
    } else {
        z[0].1 == from && 1 <= z[0].0 <= z[0].2 - z[0].1 && tiles(z.drop_first(), z[0].2, to)
    }
}

/// No zone holds more than `zone_size` rows (one, when `zone_size` is 0).
pub open spec fn zone_rows_bounded(z: Seq<(int, int, int)>, zone_size: int) -> bool {
    forall|i: int| 0 <= i < z.len() ==> (#[trigger] z[i]).0 <= (if zone_size > 1 { zone_size } else { 1 })
}

proof fn lemma_tiles_concat(a: Seq<(int, int, int)>, b: Seq<(int, int, int)>, x: int, y: int, z: int)
    requires
        tiles(a, x, y),
        tiles(b, y, z),
    ensures
        tiles(a + b, x, z),
    decreases a.len(),
{
    if a.len() == 0 {
        assert(a + b =~= b);
    } else {
        lemma_tiles_concat(a.drop_first(), b, a[0].2, y, z);
        assert((a + b).drop_first() =~= a.drop_first() + b);
    }
}

proof fn lemma_zones_in_tiles(body: Seq<u8>, c: int, e: int, zone_size: int, zstart: int, rows: int)
    requires
        0 <= zstart <= c <= e <= body.len(),
        (zstart == c) == (rows == 0),
        0 <= rows <= c - zstart,
        c == e ==> zstart == c,
        rows < (if zone_size > 1 { zone_size } else { 1 }),
    ensures
        tiles(zones_in(body, c, e, zone_size, zstart, rows), zstart, e),
        zone_rows_bounded(zones_in(body, c, e, zone_size, zstart, rows), zone_size),
    decreases e - c,
{
    if c < e {
        lemma_line_step(body, c, e);
        let nx = line_step(body, c, e);
        if rows + 1 >= zone_size || nx >= e {
            lemma_zones_in_tiles(body, nx, e, zone_size, nx, 0);
            let rest = zones_in(body, nx, e, zone_size, nx, 0);
            let z = seq![(rows + 1, zstart, nx)] + rest;
            assert(z.drop_first() =~= rest);
            assert forall|i: int| 0 <= i < z.len() implies (#[trigger] z[i]).0 <= (if zone_size > 1 {
                zone_size
            } else {
                1
            }) by {
                if i > 0 {
                    assert(z[i] == rest[i - 1]);
                }
            }
        } else {
            lemma_zones_in_tiles(body, nx, e, zone_size, zstart, rows + 1);
        }
    }
}

proof fn lemma_zones_from_tiles(body: Seq<u8>, cursor: int, zone_size: int)
    requires
        0 <= cursor <= body.len(),
    ensures
        tiles(zones_from(body, cursor, zone_size), cursor, body.len() as int),
        zone_rows_bounded(zones_from(body, cursor, zone_size), zone_size),
    decreases body.len() - cursor,
{
    if cursor < body.len() {
        lemma_next_chunk(body, cursor);
        let e = zone_chunk_end(body, cursor);
        let n = next_chunk_start(body, cursor, ZONE_CHUNK_SIZE as int);
        let a = zones_in(body, cursor, e, zone_size, cursor, 0);
        lemma_zones_in_tiles(body, cursor, e, zone_size, cursor, 0);
        if n < body.len() {
            lemma_zones_from_tiles(body, n, zone_size);
            lemma_tiles_concat(a, zones_from(body, n, zone_size), cursor, e, body.len() as int);
        } else {
            assert(a + zones_from(body, n, zone_size) =~= a);
        }
        let z = zones_from(body, cursor, zone_size);
        let b = zones_from(body, n, zone_size);
        assert forall|i: int| 0 <= i < z.len() implies (#[trigger] z[i]).0 <= (if zone_size > 1 {
            zone_size
        } else {
            1
        }) by {
            if i < a.len() {
                assert(z[i] == a[i]);
            } else {
                assert(z[i] == b[i - a.len()]);
            }
        }
    }
}

/// Total rows of a list of zones.
pub open spec fn rows_sum(z: Seq<(int, int, int)>) -> int
    decreases z.len(),
{
    if z.len() == 0 {
        0
    } else {
        z[0].0 + rows_sum(z.drop_first())
    }
}

proof fn lemma_rows_sum_bound(z: Seq<(int, int, int)>, from: int, to: int)
    requires
        tiles(z, from, to),
    ensures
        0 <= rows_sum(z) <= to - from,
    decreases z.len(),
{
    if z.len() > 0 {
        lemma_rows_sum_bound(z.drop_first(), z[0].2, to);
    }
}

// --------------------------------------------------------------- columns

/// Occurrences of `c` in `cs`.
pub open spec fn count_char(cs: Seq<char>, c: char) -> nat
    decreases cs.len(),
{
    if cs.len() == 0 {
        0
    } else {
        count_char(cs.drop_last(), c) + (if cs.last() == c {
            1nat
        } else {
            0nat
        })
    }
}

/// Columns of a file: the pieces of its first body row split at the delimiter; none
/// when that row is empty or is not UTF-8.
pub open spec fn spec_num_cols(layout: RowLayout, data: Seq<u8>) -> nat {
    let bs = spec_body_start(data, layout.skip_rows as nat, layout.has_header);
    let row = data.subrange(bs, next_byte(data, 0x0a, bs));
    if row.len() == 0 || !valid_utf8(row) {
        0
    } else {
        count_char(decode_utf8(row), (layout.delimiter as char)) + 1
    }
}

proof fn lemma_decode_len(b: Seq<u8>)
    requires
        valid_utf8(b),
    ensures
        decode_utf8(b).len() <= b.len(),
    decreases b.len(),
{
    if b.len() > 0 {
        let l = vstd::utf8::length_of_first_scalar(b);
        assert(1 <= l <= b.len());
        let rest = vstd::utf8::pop_first_scalar(b);
        assert(rest.len() == b.len() - l);
        lemma_decode_len(rest);
    }
}

/// The number of columns of the file, counted on its first body row.
pub fn detect_num_cols(layout: &RowLayout, data: &[u8]) -> (r: usize)
    requires
        data@.len() < usize::MAX,
    ensures
        r == spec_num_cols(*layout, data@),
{
    let bs = body_start(data, layout.skip_rows, layout.has_header);
    let e = find_byte_from(data, 0x0au8, bs);
    if bs >= e {
        return 0;
    }
    let row = &data[bs..e];
    proof {
        assert(row@ =~= data@.subrange(bs as int, e as int));
    }
    match string_from_utf8(row) {
        None => 0,
        Some(s) => {
            let cs = chars_of(s.as_str());
            proof {
                lemma_decode_len(row@);
            }
            let d = layout.delimiter as char;
            let mut count: usize = 0;
            let mut i: usize = 0;
            while i < cs.len()
                invariant
                    i <= cs@.len(),
                    cs@.len() <= row@.len(),
                    row@.len() < usize::MAX,
                    count <= i,
                    count == count_char(cs@.take(i as int), d),
                decreases cs@.len() - i,
            {
                proof {
                    assert(cs@.take(i + 1).drop_last() =~= cs@.take(i as int));
                }
                if cs[i] == d {
                    count = count + 1;
                }
                i = i + 1;
            }
            proof {
                assert(cs@.take(cs@.len() as int) =~= cs@);
            }
            count + 1
        }
    }
}

// ------------------------------------------------------------------ layout

/// Where one zone lies: its rows `[start_row, end_row)` counted over the whole body,
/// and its bytes `[start_offset, end_offset)` in the file.
#[derive(Debug, Clone, Copy, PartialEq, Eq, Structural)]
pub struct ZoneBounds {
    pub start_row: u64,
    pub end_row: u64,
    pub start_offset: u64,
    pub end_offset: u64,
}

pub open spec fn bounds_view(z: ZoneBounds) -> (int, int, int, int) {
    (z.start_row as int, z.end_row as int, z.start_offset as int, z.end_offset as int)
}

/// The zones `(rows, start, end)` numbered: rows counted on from `row0`, offsets moved
/// by `base`, as (start_row, end_row, start_offset, end_offset).
pub open spec fn numbered(z: Seq<(int, int, int)>, row0: int, base: int) -> Seq<(int, int, int, int)>
    decreases z.len(),
{
    if z.len() == 0 {
        Seq::empty()
    } else {
        seq![(row0, row0 + z[0].0, base + z[0].1, base + z[0].2)] + numbered(
            z.drop_first(),
            row0 + z[0].0,
            base,
        )
    }
}

/// The column count and the zones of a file: none when it has no columns, else the
/// zones of its body (after the byte-order mark, the preamble and the header).
pub open spec fn spec_zone_layout(layout: RowLayout, data: Seq<u8>, zone_size: int) -> (nat, Seq<
    (int, int, int, int),
>) {
    let cols = spec_num_cols(layout, data);
    if cols == 0 {
        (0, Seq::empty())
    } else {
        let bs = spec_body_start(data, layout.skip_rows as nat, layout.has_header);
        (cols, numbered(zones_from(data.subrange(bs, data.len() as int), 0, zone_size), 0, bs))
    }
}

/// The geometry of a zone map: how many columns the file has and where its zones lie.
pub struct ZoneLayout {
    pub num_cols: usize,
    pub zones: Vec<ZoneBounds>,
}

proof fn lemma_rows_sum_split(z: Seq<(int, int, int)>, i: int)
    requires
        0 <= i < z.len(),
    ensures
        rows_sum(z.subrange(i, z.len() as int)) == z[i].0 + rows_sum(z.subrange(i + 1, z.len() as int)),
{
    assert(z.subrange(i, z.len() as int).drop_first() =~= z.subrange(i + 1, z.len() as int));
}

proof fn lemma_rows_sum_nonneg(z: Seq<(int, int, int)>)
    requires
        forall|i: int| 0 <= i < z.len() ==> (#[trigger] z[i]).0 >= 0,
    ensures
        rows_sum(z) >= 0,
    decreases z.len(),
{
    if z.len() > 0 {
        assert forall|i: int| 0 <= i < z.drop_first().len() implies (#[trigger] z.drop_first()[i]).0 >= 0 by {
            assert(z.drop_first()[i] == z[i + 1]);
        }
        lemma_rows_sum_nonneg(z.drop_first());
    }
}

/// The zone layout of a file: its column count and, when it has columns, its zones of
/// at most `zone_size` rows (one row each when `zone_size` is 0), cut chunk by chunk.
pub fn zone_layout(layout: &RowLayout, data: &[u8], zone_size: u64) -> (r: ZoneLayout)
    requires
        data@.len() + ZONE_CHUNK_SIZE <= usize::MAX,
    ensures
        r.num_cols == spec_zone_layout(*layout, data@, zone_size as int).0,
        r.zones@.map_values(|z: ZoneBounds| bounds_view(z)) == spec_zone_layout(
            *layout,
            data@,
            zone_size as int,
        ).1,
{
    let cols = detect_num_cols(layout, data);
    if cols == 0 {
        let v: Vec<ZoneBounds> = Vec::new();
        proof {
            assert(v@.map_values(|z: ZoneBounds| bounds_view(z)) =~= Seq::<(int, int, int, int)>::empty());
        }
        return ZoneLayout { num_cols: 0, zones: v };
    }
    let bs = body_start(data, layout.skip_rows, layout.has_header);
    let body = &data[bs..data.len()];
    let raw = body_zones(body, zone_size);
    let ghost f = |z: (u64, usize, usize)| (z.0 as int, z.1 as int, z.2 as int);
    let ghost rv = raw@.map_values(f);
    proof {
        assert(body@ =~= data@.subrange(bs as int, data@.len() as int));
        lemma_zones_from_tiles(body@, 0, zone_size as int);
        lemma_rows_sum_bound(rv, 0, body@.len() as int);
        assert(rv.subrange(0, rv.len() as int) =~= rv);
    }
    let mut out: Vec<ZoneBounds> = Vec::new();
    let mut total: u64 = 0;
    let mut i: usize = 0;
    while i < raw.len()
        invariant
            i <= raw@.len(),
            rv == raw@.map_values(f),
            f == (|z: (u64, usize, usize)| (z.0 as int, z.1 as int, z.2 as int)),
            bs + body@.len() == data@.len(),
            data@.len() <= usize::MAX,
            tiles(rv, 0, body@.len() as int),
            rows_sum(rv) <= body@.len(),
            total + rows_sum(rv.subrange(i as int, rv.len() as int)) == rows_sum(rv),
            out@.map_values(|z: ZoneBounds| bounds_view(z)) + numbered(
                rv.subrange(i as int, rv.len() as int),
                total as int,
                bs as int,
            ) == numbered(rv, 0, bs as int),
        decreases raw@.len() - i,
    {
        let (rows, s, e) = raw[i];
        proof {
            lemma_rows_sum_split(rv, i as int);
            let tail = rv.subrange(i + 1, rv.len() as int);
            assert forall|j: int| 0 <= j < tail.len() implies (#[trigger] tail[j]).0 >= 0 by {
                assert(tail[j] == f(raw@[i + 1 + j]));
            }
            lemma_rows_sum_nonneg(tail);
            assert(rv[i as int] == (rows as int, s as int, e as int));
            lemma_tiles_index(rv, 0, body@.len() as int, i as int);
        }
        let ghost before = out@.map_values(|z: ZoneBounds| bounds_view(z));
        let zb = ZoneBounds {
            start_row: total,
            end_row: total + rows,
            start_offset: (bs + s) as u64,
            end_offset: (bs + e) as u64,
        };
        out.push(zb);
        proof {
            let g = |z: ZoneBounds| bounds_view(z);
            let sub = rv.subrange(i as int, rv.len() as int);
            assert(sub.drop_first() =~= rv.subrange(i + 1, rv.len() as int));
            assert(sub[0] == rv[i as int]);
            assert(out@.map_values(g) =~= before.push(bounds_view(zb)));
            assert(out@.map_values(g) + numbered(rv.subrange(i + 1, rv.len() as int), total + rows, bs as int)
                =~= before + numbered(sub, total as int, bs as int));
        }
        total = total + rows;
        i = i + 1;
    }
    proof {
        assert(rv.subrange(i as int, rv.len() as int) =~= Seq::<(int, int, int)>::empty());
        let g = |z: ZoneBounds| bounds_view(z);
        assert(out@.map_values(g) + Seq::<(int, int, int, int)>::empty() =~= out@.map_values(g));
    }
    ZoneLayout { num_cols: cols, zones: out }
}

proof fn lemma_tiles_index(z: Seq<(int, int, int)>, from: int, to: int, i: int)
    requires
        tiles(z, from, to),
        0 <= i < z.len(),
    ensures
        from <= z[i].1,
        z[i].1 + z[i].0 <= z[i].2 <= to,
        1 <= z[i].0,
    decreases z.len(),
{
    lemma_tiles_within(z.drop_first(), z[0].2, to);
    if i > 0 {
        lemma_tiles_index(z.drop_first(), z[0].2, to, i - 1);
        assert(z.drop_first()[i - 1] == z[i]);
    }
}

proof fn lemma_tiles_within(z: Seq<(int, int, int)>, from: int, to: int)
    requires
        tiles(z, from, to),
    ensures
        from <= to,
    decreases z.len(),
{
    if z.len() > 0 {
        lemma_tiles_within(z.drop_first(), z[0].2, to);
    }
}

pub open spec fn zone_cap(zone_size: int) -> int {
    if zone_size > 1 {
        zone_size
    } else {
        1
    }
}

/// The numbered zones are contiguous in rows and in bytes, each holding between one
/// and `zone_cap` rows, and no more rows than bytes.
pub open spec fn well_laid(n: Seq<(int, int, int, int)>, zone_size: int) -> bool {
    &&& forall|i: int|
        0 <= i < n.len() - 1 ==> (#[trigger] n[i]).1 == n[i + 1].0 && n[i].3 == n[i + 1].2
    &&& forall|i: int|
        0 <= i < n.len() ==> 1 <= (#[trigger] n[i]).1 - n[i].0 <= zone_cap(zone_size) && n[i].1 - n[i].0
            <= n[i].3 - n[i].2
}

proof fn lemma_numbered(z: Seq<(int, int, int)>, row0: int, base: int, from: int, to: int, zone_size: int)
    requires
        tiles(z, from, to),
        zone_rows_bounded(z, zone_size),
        z.len() > 0,
    ensures
        numbered(z, row0, base).len() == z.len(),
        numbered(z, row0, base)[0].0 == row0,
        numbered(z, row0, base)[0].2 == base + from,
        numbered(z, row0, base).last().3 == base + to,
        numbered(z, row0, base).last().1 == row0 + rows_sum(z),
        well_laid(numbered(z, row0, base), zone_size),
    decreases z.len(),
{
    let n = numbered(z, row0, base);
    let rest = z.drop_first();
    let h = (row0, row0 + z[0].0, base + z[0].1, base + z[0].2);
    let r0 = row0 + z[0].0;
    assert(z[0].0 <= zone_cap(zone_size));
    assert(n == seq![h] + numbered(rest, r0, base));
    if rest.len() == 0 {
        assert(numbered(rest, r0, base) =~= Seq::<(int, int, int, int)>::empty());
        assert(n =~= seq![h]);
        assert(rows_sum(rest) == 0);
    } else {
        assert forall|i: int| 0 <= i < rest.len() implies (#[trigger] rest[i]).0 <= (if zone_size > 1 {
            zone_size
        } else {
            1
        }) by {
            assert(rest[i] == z[i + 1]);
        }
        lemma_numbered(rest, r0, base, z[0].2, to, zone_size);
        let m = numbered(rest, r0, base);
        assert(n.last() == m.last());
        assert forall|i: int| 0 <= i < n.len() - 1 implies (#[trigger] n[i]).1 == n[i + 1].0 && n[i].3
            == n[i + 1].2 by {
            if i > 0 {
                assert(n[i] == m[i - 1]);
                assert(n[i + 1] == m[i]);
            }
        }
        assert forall|i: int| 0 <= i < n.len() implies 1 <= (#[trigger] n[i]).1 - n[i].0 <= zone_cap(
            zone_size,
        ) && n[i].1 - n[i].0 <= n[i].3 - n[i].2 by {
            if i > 0 {
                assert(n[i] == m[i - 1]);
            }
        }
    }
}

/// Law: the zones of a file that has columns cover its body exactly. The first zone
/// starts at row 0 and at the first body byte, each next zone starts at the row and
/// byte where the one before ended, the last ends at the end of the file, and every
/// zone holds at least one row and at most `zone_size` rows (one when it is 0).
pub proof fn lemma_zone_layout_covers_body(layout: RowLayout, data: Seq<u8>, zone_size: int)
    ensures
        spec_zone_layout(layout, data, zone_size).0 > 0 ==> {
            let z = spec_zone_layout(layout, data, zone_size).1;
            &&& z.len() > 0
            &&& z[0].0 == 0
            &&& z[0].2 == spec_body_start(data, layout.skip_rows as nat, layout.has_header)
            &&& z.last().3 == data.len()
            &&& well_laid(z, zone_size)
        },
{
    if spec_num_cols(layout, data) > 0 {
        let bs = spec_body_start(data, layout.skip_rows as nat, layout.has_header);
        crate::index::lemma_after_lines_bounds(data, crate::index::bom_len(data), layout.skip_rows as nat);
        let p = crate::index::after_lines(data, crate::index::bom_len(data), layout.skip_rows as nat);
        lemma_next_byte_bounds(data, 0x0a, p);
        assert(0 <= bs <= data.len());
        lemma_next_byte_bounds(data, 0x0a, bs);
        let body = data.subrange(bs, data.len() as int);
        let raw = zones_from(body, 0, zone_size);
        lemma_zones_from_tiles(body, 0, zone_size);
        assert(body.len() > 0);
        assert(raw.len() > 0);
        lemma_numbered(raw, 0, bs, 0, body.len() as int, zone_size);
    }
}

/// A stored zone map built for another number of columns than the file now has.
#[derive(Debug, Clone, Copy, PartialEq, Eq, Structural)]
pub struct ColumnMismatch {
    pub actual: usize,
    pub stored: usize,
}

/// Whether a stored zone map fits the file: a map that records no column count (an
/// older map) always fits; otherwise its count must equal the file's.
pub fn check_zone_columns(stored: usize, layout: &RowLayout, data: &[u8]) -> (r: Result<(), ColumnMismatch>)
    requires
        data@.len() < usize::MAX,
    ensures
        r is Ok <==> (stored == 0 || spec_num_cols(*layout, data@) == stored),
        r matches Err(m) ==> m.actual == spec_num_cols(*layout, data@) && m.stored == stored,
{
    if stored > 0 {
        let actual = detect_num_cols(layout, data);
        if actual != stored {
            return Err(ColumnMismatch { actual, stored });
        }
    }
    Ok(())
}

// ------------------------------------------------------ zones and the index

/// The lines of `body` from `c` on, each ending just past its `\n` or at the end.
pub open spec fn line_count(body: Seq<u8>, c: int) -> nat
    decreases body.len() - c,
    via line_count_decreases
{
    if c < 0 || c >= body.len() {
        0
    } else {
        1 + line_count(body, line_step(body, c, body.len() as int))
    }
}

#[via_fn]
proof fn line_count_decreases(body: Seq<u8>, c: int) {
    if 0 <= c < body.len() {
        lemma_line_step(body, c, body.len() as int);
    }
}

/// The `\n` bytes of `body` at `i` or later that are not its last byte.
pub open spec fn inner_newlines(body: Seq<u8>, i: int) -> nat
    decreases body.len() - i,
{
    if i < 0 || i + 1 >= body.len() {
        0
    } else {
        (if body[i] == 0x0a {
            1nat
        } else {
            0nat
        }) + inner_newlines(body, i + 1)
    }
}

proof fn lemma_inner_skip(body: Seq<u8>, c: int, p: int)
    requires
        0 <= c <= p <= body.len(),
        forall|i: int| c <= i < p ==> body[i] != 0x0a,
    ensures
        inner_newlines(body, c) == inner_newlines(body, p),
    decreases p - c,
{
    if c < p {
        lemma_inner_skip(body, c + 1, p);
    }
}

proof fn lemma_line_count(body: Seq<u8>, c: int)
    requires
        0 <= c < body.len(),
    ensures
        line_count(body, c) == 1 + inner_newlines(body, c),
    decreases body.len() - c,
{
    let n = body.len() as int;
    let p = next_byte(body, 0x0a, c);
    lemma_next_byte_bounds(body, 0x0a, c);
    lemma_line_step(body, c, n);
    assert forall|i: int| c <= i < p implies body[i] != 0x0a by {
        lemma_next_byte_before(body, c, i);
    }
    lemma_inner_skip(body, c, p);
    assert(line_count(body, c) == 1 + line_count(body, line_step(body, c, n)));
    if p < n {
        lemma_next_byte_hit(body, 0x0a, c);
        assert(line_step(body, c, n) == p + 1);
        if p + 1 < n {
            lemma_line_count(body, p + 1);
            assert(inner_newlines(body, p) == 1 + inner_newlines(body, p + 1));
        } else {
            assert(line_count(body, p + 1) == 0);
            assert(inner_newlines(body, p) == 0);
        }
    } else {
        assert(line_step(body, c, n) == n);
        assert(line_count(body, n) == 0);
        assert(inner_newlines(body, n) == 0);
    }
}

proof fn lemma_next_byte_before(body: Seq<u8>, c: int, i: int)
    requires
        0 <= c <= i < next_byte(body, 0x0a, c),
    ensures
        body[i] != 0x0a,
    decreases i - c,
{
    if c < i {
        lemma_next_byte_before(body, c + 1, i);
    }
}


/// Lines read from `c` in a chunk ending at `e`.
pub open spec fn line_count_to(body: Seq<u8>, c: int, e: int) -> nat
    decreases e - c,
    via line_count_to_decreases
{
    if c < 0 || c >= e || e > body.len() {
        0
    } else {
        1 + line_count_to(body, line_step(body, c, e), e)
    }
}

#[via_fn]
proof fn line_count_to_decreases(body: Seq<u8>, c: int, e: int) {
    if 0 <= c < e <= body.len() {
        lemma_line_step(body, c, e);
    }
}

proof fn lemma_zone_rows(body: Seq<u8>, c: int, e: int, zone_size: int, zstart: int, rows: int)
    requires
        0 <= c <= e <= body.len(),
        c < e || rows == 0,
    ensures
        rows_sum(zones_in(body, c, e, zone_size, zstart, rows)) == rows + line_count_to(body, c, e),
    decreases e - c,
{
    if c < e {
        lemma_line_step(body, c, e);
        let nx = line_step(body, c, e);
        if rows + 1 >= zone_size || nx >= e {
            lemma_zone_rows(body, nx, e, zone_size, nx, 0);
            let rest = zones_in(body, nx, e, zone_size, nx, 0);
            assert((seq![(rows + 1, zstart, nx)] + rest).drop_first() =~= rest);
        } else {
            lemma_zone_rows(body, nx, e, zone_size, zstart, rows + 1);
        }
    }
}

proof fn lemma_rows_sum_concat(a: Seq<(int, int, int)>, b: Seq<(int, int, int)>)
    ensures
        rows_sum(a + b) == rows_sum(a) + rows_sum(b),
    decreases a.len(),
{
    if a.len() > 0 {
        lemma_rows_sum_concat(a.drop_first(), b);
        assert((a + b).drop_first() =~= a.drop_first() + b);
    } else {
        assert(a + b =~= b);
    }
}

/// Lines counted from `c` split at a line boundary `e`.
proof fn lemma_line_count_split(body: Seq<u8>, c: int, e: int)
    requires
        0 <= c <= e <= body.len(),
        e == body.len() || (e > 0 && body[e - 1] == 0x0a),
    ensures
        line_count(body, c) == line_count_to(body, c, e) + line_count(body, e),
    decreases e - c,
{
    let n = body.len() as int;
    if c < e {
        lemma_line_step(body, c, e);
        lemma_line_step(body, c, n);
        lemma_next_byte_bounds(body, 0x0a, c);
        if e < n {
            let p = next_byte(body, 0x0a, c);
            if p > e - 1 {
                lemma_next_byte_before(body, c, e - 1);
            }
            assert(line_step(body, c, e) == line_step(body, c, n));
        }
        lemma_line_count_split(body, line_step(body, c, e), e);
    }
}

/// The zones from a chunk start on hold as many rows as there are lines from it.
proof fn lemma_zones_from_rows(body: Seq<u8>, cursor: int, zone_size: int)
    requires
        0 <= cursor <= body.len(),
    ensures
        rows_sum(zones_from(body, cursor, zone_size)) == line_count(body, cursor),
    decreases body.len() - cursor,
{
    let len = body.len() as int;
    if cursor < len {
        lemma_next_chunk(body, cursor);
        let e = zone_chunk_end(body, cursor);
        let nx = next_chunk_start(body, cursor, ZONE_CHUNK_SIZE as int);
        let a = zones_in(body, cursor, e, zone_size, cursor, 0);
        lemma_zone_rows(body, cursor, e, zone_size, cursor, 0);
        lemma_rows_sum_concat(a, zones_from(body, nx, zone_size));
        if nx < len {
            let c = cursor + ZONE_CHUNK_SIZE as int;
            lemma_next_byte_bounds(body, 0x0a, c);
            lemma_next_byte_hit(body, 0x0a, c);
            lemma_zones_from_rows(body, nx, zone_size);
            lemma_line_count_split(body, cursor, nx);
        } else {
            assert(zones_from(body, nx, zone_size) =~= Seq::<(int, int, int)>::empty());
            lemma_line_count_split(body, cursor, len);
        }
    }
}

proof fn lemma_nl_range_len(c: Seq<u8>, base: int, i: int)
    requires
        0 <= i <= c.len(),
    ensures
        nl_range(c, base, i, c.len() as int).len() == inner_newlines(c, i),
    decreases c.len() - i,
{
    if i < c.len() {
        lemma_nl_range_len(c, base, i + 1);
    }
}

/// Law: the zone map and the row index count the same rows, whatever the size of
/// the body. The last zone ends at the number of index offsets, so the rows of every
/// zone are positions in the index.
pub proof fn lemma_zones_match_index(layout: RowLayout, data: Seq<u8>, zone_size: int)
    ensures
        spec_zone_layout(layout, data, zone_size).0 > 0 ==> spec_zone_layout(layout, data, zone_size).1.last().1
            == offsets_from(
            body_of(data, layout.skip_rows as nat, layout.has_header),
            spec_body_start(data, layout.skip_rows as nat, layout.has_header),
            0,
            INDEX_CHUNK_SIZE as int,
        ).len(),
{
    if spec_num_cols(layout, data) > 0 {
        lemma_zone_layout_covers_body(layout, data, zone_size);
        let bs = spec_body_start(data, layout.skip_rows as nat, layout.has_header);
        crate::index::lemma_after_lines_bounds(data, crate::index::bom_len(data), layout.skip_rows as nat);
        let p = crate::index::after_lines(data, crate::index::bom_len(data), layout.skip_rows as nat);
        lemma_next_byte_bounds(data, 0x0a, p);
        lemma_next_byte_bounds(data, 0x0a, bs);
        let body = data.subrange(bs, data.len() as int);
        let n = body.len() as int;
        assert(n > 0);
        let z = zones_from(body, 0, zone_size);
        lemma_zones_from_tiles(body, 0, zone_size);
        lemma_numbered(z, 0, bs, 0, n, zone_size);
        lemma_zones_from_rows(body, 0, zone_size);
        lemma_line_count(body, 0);
        lemma_nl_range_len(body, bs, 0);
        lemma_index_offsets_are_row_starts(body, bs, INDEX_CHUNK_SIZE as int);
    }
}

} // verus!
