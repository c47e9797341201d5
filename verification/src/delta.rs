//! Sidecar deltas for immutable datasets: a tombstone bitmap for deleted rows,
//! a map of replaced rows, their binary `.zen_delta` encoding, and compaction.
use vstd::prelude::*;
use std::collections::HashMap;
use vstd::utf8::{valid_utf8, decode_utf8, encode_utf8};
use crate::bytes::{
    le16_at, le32_at, le64_at, le16_bytes, le32_bytes, le64_bytes, read_le_u16, read_le_u32,
    read_le_u64, push_le16, push_le32, push_le64, push_all, lemma_le16_roundtrip,
    lemma_le32_roundtrip, lemma_le64_roundtrip,
};
use crate::text::string_from_utf8;
use crate::scan::{find_byte_from, next_byte, lemma_next_byte_bounds};

verus! {

broadcast use vstd::std_specs::hash::group_hash_axioms;

/// Direct command for mutability.
#[derive(Debug, PartialEq, Eq)]
pub enum DeltaOp {
    /// Row index, new row content (serialized)
    Update(u64, String),
    /// Row index to delete
    Delete(u64),
}

/// Reasons a `.zen_delta` byte stream is refused.
#[derive(Debug, PartialEq, Eq, Structural, Clone, Copy)]
pub enum DeltaError {
    /// The stream does not start with `ZEND`.
    InvalidMagic,
    /// The format version is not 1.
    UnsupportedVersion(u16),
    /// The stream ends before a field it announces.
    UnexpectedEof,
    /// A stored row is not valid UTF-8.
    InvalidUtf8,
}

/// Current version of the delta format.
pub const ZEN_DELTA_VERSION: u16 = 1;

/// Modifications to an immutable dataset file, kept beside it.
pub struct DeltaManager {
    /// Path to the original base dataset (e.g. data.csv)
    pub base_path: String,
    /// Path to the sidecar delta file (e.g. data.zen_delta)
    pub delta_path: String,
    /// Bitmap for deleted rows. A bit set to 1 means row is deleted.
    pub tombstone_mask: Vec<u8>,
    /// Modified rows (row index -> new serialized content)
    pub updates: HashMap<u64, String>,
}

/// Bit `k` (0..8) of a byte.
pub open spec fn bit_of(k: u64) -> u8 {
    (1u8 << (k as u8)) as u8
}

/// Row `r` is marked deleted in the bitmap.
pub open spec fn spec_deleted(mask: Seq<u8>, r: u64) -> bool {
    let bi = r / 8;
    bi < mask.len() && mask[bi as int] & bit_of(r % 8) != 0
}

/// The bitmap extended with zero bytes to at least `n` bytes.
pub open spec fn padded(m: Seq<u8>, n: int) -> Seq<u8> {
    if m.len() >= n {
        m
    } else {
        m + Seq::new((n - m.len()) as nat, |i: int| 0u8)
    }
}

/// The bitmap after marking row `r` deleted.
pub open spec fn mask_after_delete(m: Seq<u8>, r: u64) -> Seq<u8> {
    let bi = (r / 8) as int;
    let p = padded(m, bi + 1);
    p.update(bi, p[bi] | bit_of(r % 8))
}

/// The bitmap after clearing the mark of row `r`.
pub open spec fn mask_after_undelete(m: Seq<u8>, r: u64) -> Seq<u8> {
    let bi = (r / 8) as int;
    if bi < m.len() {
        m.update(bi, m[bi] & !bit_of(r % 8))
    } else {
        m
    }
}

/// Row contents as character sequences.
pub open spec fn updates_view(m: Map<u64, String>) -> Map<u64, Seq<char>> {
    m.map_values(|s: String| s@)
}

proof fn lemma_bit_set(b: u8, j: u64, k: u64)
    requires
        j < 8,
        k < 8,
    ensures
        (b | bit_of(k)) & bit_of(j) != 0 <==> (j == k || b & bit_of(j) != 0),
{
    let jj = j as u8;
    let kk = k as u8;
    assert(((b | ((1u8 << kk) as u8)) & ((1u8 << jj) as u8) != 0) <==> (jj == kk || b & ((1u8
        << jj) as u8) != 0)) by (bit_vector)
        requires
            jj < 8,
            kk < 8,
    ;
}

proof fn lemma_bit_clear(b: u8, j: u64, k: u64)
    requires
        j < 8,
        k < 8,
    ensures
        (b & !bit_of(k)) & bit_of(j) != 0 <==> (j != k && b & bit_of(j) != 0),
{
    let jj = j as u8;
    let kk = k as u8;
    assert(((b & !((1u8 << kk) as u8)) & ((1u8 << jj) as u8) != 0) <==> (jj != kk && b & ((1u8
        << jj) as u8) != 0)) by (bit_vector)
        requires
            jj < 8,
            kk < 8,
    ;
}

proof fn lemma_zero_byte(j: u64)
    requires
        j < 8,
    ensures
        0u8 & bit_of(j) == 0,
{
    let jj = j as u8;
    assert(0u8 & ((1u8 << jj) as u8) == 0) by (bit_vector);
}

/// Marking a row deleted marks it and leaves every other row as it was.
pub proof fn lemma_delete_marks(m: Seq<u8>, r: u64, x: u64)
    requires
        (r / 8) < usize::MAX,
    ensures
        spec_deleted(mask_after_delete(m, r), x) == (x == r || spec_deleted(m, x)),
{
    let bi = (r / 8) as int;
    let p = padded(m, bi + 1);
    let xb = (x / 8) as int;
    if xb == bi {
        lemma_bit_set(p[bi], x % 8, r % 8);
        if x != r {
            assert(x % 8 != r % 8);
        }
        if xb >= m.len() {
            lemma_zero_byte(x % 8);
        }
    } else if xb < p.len() && xb >= m.len() {
        lemma_zero_byte(x % 8);
    }
}

/// Clearing a row's mark clears it and leaves every other row as it was.
pub proof fn lemma_undelete_clears(m: Seq<u8>, r: u64, x: u64)
    ensures
        spec_deleted(mask_after_undelete(m, r), x) == (x != r && spec_deleted(m, x)),
{
    let bi = (r / 8) as int;
    let xb = (x / 8) as int;
    if bi < m.len() && xb == bi {
        lemma_bit_clear(m[bi], x % 8, r % 8);
        if x != r {
            assert(x % 8 != r % 8);
        }
    }
}

/// Law: after staging `content` for row `r`, reading row `r` gives `content` back and
/// the row is not deleted; after deleting row `r`, it is deleted and nothing is staged
/// for it. Every other row reads as before in both cases.
pub proof fn lemma_read_after_write(
    mask: Seq<u8>,
    updates: Map<u64, String>,
    r: u64,
    content: String,
    x: u64,
)
    requires
        r / 8 < usize::MAX,
    ensures
        updates.insert(r, content).contains_key(r),
        updates.insert(r, content)[r] == content,
        !spec_deleted(mask_after_undelete(mask, r), r),
        spec_deleted(mask_after_delete(mask, r), r),
        !updates.remove(r).contains_key(r),
        x != r ==> spec_deleted(mask_after_undelete(mask, r), x) == spec_deleted(mask, x),
        x != r ==> spec_deleted(mask_after_delete(mask, r), x) == spec_deleted(mask, x),
        x != r ==> updates.insert(r, content).contains_key(x) == updates.contains_key(x),
        x != r ==> updates.remove(r).contains_key(x) == updates.contains_key(x),
        x != r && updates.contains_key(x) ==> updates.insert(r, content)[x] == updates[x]
            && updates.remove(r)[x] == updates[x],
{
    lemma_undelete_clears(mask, r, r);
    lemma_undelete_clears(mask, r, x);
    lemma_delete_marks(mask, r, r);
    lemma_delete_marks(mask, r, x);
}

impl DeltaManager {
    /// An empty delta for `base_path`, stored at `delta_path`.
    pub fn new(base_path: String, delta_path: String) -> (r: Self)
        ensures
            r.base_path == base_path,
            r.delta_path == delta_path,
            r.tombstone_mask@ == Seq::<u8>::empty(),
            r.updates@ == Map::<u64, String>::empty(),
    {
        DeltaManager { base_path, delta_path, tombstone_mask: Vec::new(), updates: HashMap::new() }
    }

    /// Mark a row as deleted; a staged update of it is dropped.
    pub fn delete_row(&mut self, row_idx: u64)
        requires
            row_idx / 8 < usize::MAX,
        ensures
            final(self).tombstone_mask@ == mask_after_delete(old(self).tombstone_mask@, row_idx),
            final(self).updates@ == old(self).updates@.remove(row_idx),
            final(self).base_path == old(self).base_path,
            final(self).delta_path == old(self).delta_path,
            spec_deleted(final(self).tombstone_mask@, row_idx),
            forall|x: u64|
                x != row_idx ==> spec_deleted(final(self).tombstone_mask@, x) == spec_deleted(
                    old(self).tombstone_mask@,
                    x,
                ),
    {
        let byte_idx = (row_idx / 8) as usize;
        let bit_idx = (row_idx % 8) as u8;
        if byte_idx >= self.tombstone_mask.len() {
            self.tombstone_mask.resize(byte_idx + 1, 0);
        }
        proof {
            assert(self.tombstone_mask@ =~= padded(old(self).tombstone_mask@, byte_idx + 1));
        }
        let old_byte = self.tombstone_mask[byte_idx];
        let bit = 1u8 << bit_idx;
        self.tombstone_mask.set(byte_idx, old_byte | bit);
        self.updates.remove(&row_idx);
        proof {
            assert forall|x: u64|
                spec_deleted(self.tombstone_mask@, x) == (x == row_idx || spec_deleted(
                    old(self).tombstone_mask@,
                    x,
                )) by {
                lemma_delete_marks(old(self).tombstone_mask@, row_idx, x);
            }
        }
    }

    /// True when the row is marked deleted.
    pub fn is_deleted(&self, row_idx: u64) -> (r: bool)
        ensures
            r == spec_deleted(self.tombstone_mask@, row_idx),
    {
        let byte_idx = row_idx / 8;
        let bit_idx = (row_idx % 8) as u8;
        if byte_idx < self.tombstone_mask.len() as u64 {
            (self.tombstone_mask[byte_idx as usize] & (1u8 << bit_idx)) != 0
        } else {
            false
        }
    }

    /// Stage an update for a row; a deletion mark on it is cleared.
    pub fn update_row(&mut self, row_idx: u64, content: String)
        ensures
            final(self).tombstone_mask@ == mask_after_undelete(old(self).tombstone_mask@, row_idx),
            final(self).updates@ == old(self).updates@.insert(row_idx, content),
            final(self).base_path == old(self).base_path,
            final(self).delta_path == old(self).delta_path,
            !spec_deleted(final(self).tombstone_mask@, row_idx),
            forall|x: u64|
                x != row_idx ==> spec_deleted(final(self).tombstone_mask@, x) == spec_deleted(
                    old(self).tombstone_mask@,
                    x,
                ),
    {
        let byte_idx = row_idx / 8;
        let bit_idx = (row_idx % 8) as u8;
        if byte_idx < self.tombstone_mask.len() as u64 {
            let i = byte_idx as usize;
            let old_byte = self.tombstone_mask[i];
            let bit = 1u8 << bit_idx;
            self.tombstone_mask.set(i, old_byte & !bit);
        }
        self.updates.insert(row_idx, content);
        proof {
            assert(self.tombstone_mask@ =~= mask_after_undelete(
                old(self).tombstone_mask@,
                row_idx,
            ));
            assert forall|x: u64|
                spec_deleted(self.tombstone_mask@, x) == (x != row_idx && spec_deleted(
                    old(self).tombstone_mask@,
                    x,
                )) by {
                lemma_undelete_clears(old(self).tombstone_mask@, row_idx, x);
            }
        }
    }

    /// The staged content of a row, if any.
    pub fn get_update(&self, row_idx: u64) -> (r: Option<&String>)
        ensures
            match r {
                Some(s) => self.updates@.contains_key(row_idx) && *s == self.updates@[row_idx],
                None => !self.updates@.contains_key(row_idx),
            },
    {
        self.updates.get(&row_idx)
    }
}

/// Bytes of one staged row: index, byte length (32 bits), UTF-8 bytes.
pub open spec fn entry_bytes(e: (u64, Seq<char>)) -> Seq<u8> {
    le64_bytes(e.0) + le32_bytes(encode_utf8(e.1).len() as u32) + encode_utf8(e.1)
}

/// Bytes of a sequence of staged rows, in order.
pub open spec fn entries_bytes(es: Seq<(u64, Seq<char>)>) -> Seq<u8>
    decreases es.len(),
{
    if es.len() == 0 {
        Seq::empty()
    } else {
        entry_bytes(es[0]) + entries_bytes(es.drop_first())
    }
}

/// The `ZEND` signature and the format version.
pub open spec fn delta_header() -> Seq<u8> {
    seq![0x5au8, 0x45u8, 0x4eu8, 0x44u8] + le16_bytes(ZEN_DELTA_VERSION)
}

/// The `.zen_delta` encoding:
///   [Magic Bytes: 4][Version: 2]
///   [Tombstone Mask Len: 8][Mask Bytes...]
///   [Updates Count: 8]
///     [Row Idx: 8][Str Len: 4][Str Bytes...] * Updates Count
pub open spec fn spec_encode(mask: Seq<u8>, es: Seq<(u64, Seq<char>)>) -> Seq<u8> {
    delta_header() + le64_bytes(mask.len() as u64) + mask + le64_bytes(es.len() as u64)
        + entries_bytes(es)
}

/// `es` lists every staged row of `m` once, in some order.
pub open spec fn enumerates(es: Seq<(u64, Seq<char>)>, m: Map<u64, Seq<char>>) -> bool {
    &&& es.len() == m.dom().len()
    &&& forall|i: int| 0 <= i < es.len() ==> m.contains_key(#[trigger] es[i].0) && m[es[i].0] == es[i].1
    &&& forall|k: u64| m.contains_key(k) ==> exists|i: int| 0 <= i < es.len() && #[trigger] es[i].0 == k
    &&& forall|i: int, j: int| 0 <= i < j < es.len() ==> #[trigger] es[i].0 != #[trigger] es[j].0
}

/// The map after inserting the entries in order.
pub open spec fn insert_all(acc: Map<u64, Seq<char>>, es: Seq<(u64, Seq<char>)>) -> Map<
    u64,
    Seq<char>,
>
    decreases es.len(),
{
    if es.len() == 0 {
        acc
    } else {
        insert_all(acc.insert(es[0].0, es[0].1), es.drop_first())
    }
}

/// Decoding state of a delta stream.
pub struct DeltaState {
    pub mask: Seq<u8>,
    pub updates: Map<u64, Seq<char>>,
}

/// Decodes `n` staged rows starting at `pos`.
pub open spec fn decode_updates(b: Seq<u8>, pos: int, n: nat, acc: Map<u64, Seq<char>>) -> Result<
    Map<u64, Seq<char>>,
    DeltaError,
>
    decreases n,
{
    if n == 0 {
        Ok(acc)
    } else if pos < 0 || pos + 12 > b.len() {
        Err(DeltaError::UnexpectedEof)
    } else {
        let idx = le64_at(b, pos) as u64;
        let slen = le32_at(b, pos + 8);
        if pos + 12 + slen > b.len() {
            Err(DeltaError::UnexpectedEof)
        } else {
            let bytes = b.subrange(pos + 12, pos + 12 + slen);
            if !valid_utf8(bytes) {
                Err(DeltaError::InvalidUtf8)
            } else {
                decode_updates(b, pos + 12 + slen, (n - 1) as nat, acc.insert(idx, decode_utf8(bytes)))
            }
        }
    }
}

/// Decodes a `.zen_delta` byte stream.
pub open spec fn spec_decode(b: Seq<u8>) -> Result<DeltaState, DeltaError> {
    if b.len() < 4 {
        Err(DeltaError::UnexpectedEof)
    } else if !(b[0] == 0x5a && b[1] == 0x45 && b[2] == 0x4e && b[3] == 0x44) {
        Err(DeltaError::InvalidMagic)
    } else if b.len() < 6 {
        Err(DeltaError::UnexpectedEof)
    } else if le16_at(b, 4) != ZEN_DELTA_VERSION {
        Err(DeltaError::UnsupportedVersion(le16_at(b, 4) as u16))
    } else if b.len() < 14 {
        Err(DeltaError::UnexpectedEof)
    } else {
        let ml = le64_at(b, 6);
        let p = 14 + ml;
        if p + 8 > b.len() {
            Err(DeltaError::UnexpectedEof)
        } else {
            match decode_updates(b, p + 8, le64_at(b, p) as nat, Map::empty()) {
                Ok(m) => Ok(DeltaState { mask: b.subrange(14, p), updates: m }),
                Err(e) => Err(e),
            }
        }
    }
}

proof fn lemma_entries_bytes_push(es: Seq<(u64, Seq<char>)>, e: (u64, Seq<char>))
    ensures
        entries_bytes(es.push(e)) == entries_bytes(es) + entry_bytes(e),
    decreases es.len(),
{
    if es.len() == 0 {
        assert(es.push(e).drop_first() =~= Seq::<(u64, Seq<char>)>::empty());
        assert(entries_bytes(Seq::<(u64, Seq<char>)>::empty()) == Seq::<u8>::empty());
        assert(es.push(e)[0] == e);
        assert(entries_bytes(es.push(e)) =~= entry_bytes(e));
    } else {
        assert(es.push(e).drop_first() =~= es.drop_first().push(e));
        lemma_entries_bytes_push(es.drop_first(), e);
        assert(entries_bytes(es.push(e)) =~= entries_bytes(es) + entry_bytes(e));
    }
}

/// Staged rows whose UTF-8 encodings fit the 32-bit length field.
pub open spec fn lengths_fit(es: Seq<(u64, Seq<char>)>) -> bool {
    forall|i: int| 0 <= i < es.len() ==> #[trigger] encode_utf8(es[i].1).len() <= u32::MAX
}

/// Decoding the bytes of `es`, placed at `pos`, inserts its entries in order.
proof fn lemma_decode_entries(
    b: Seq<u8>,
    pos: int,
    es: Seq<(u64, Seq<char>)>,
    acc: Map<u64, Seq<char>>,
)
    requires
        0 <= pos,
        pos + entries_bytes(es).len() <= b.len(),
        b.subrange(pos, pos + entries_bytes(es).len()) == entries_bytes(es),
        lengths_fit(es),
    ensures
        decode_updates(b, pos, es.len(), acc) == Ok::<Map<u64, Seq<char>>, DeltaError>(
            insert_all(acc, es),
        ),
    decreases es.len(),
{
    if es.len() > 0 {
        let e = es[0];
        let enc = encode_utf8(e.1);
        let eb = entry_bytes(e);
        let rest = es.drop_first();
        assert(entries_bytes(es) == eb + entries_bytes(rest));
        assert(enc.len() <= u32::MAX);
        let l = enc.len() as int;
        assert((enc.len() as u32) as int == l);
        assert(b.subrange(pos, pos + 8) =~= le64_bytes(e.0)) by {
            assert(b.subrange(pos, pos + 8) =~= entries_bytes(es).subrange(0, 8));
        }
        lemma_le64_roundtrip(e.0, b, pos);
        assert(b.subrange(pos + 8, pos + 12) =~= le32_bytes(enc.len() as u32)) by {
            assert(b.subrange(pos + 8, pos + 12) =~= entries_bytes(es).subrange(8, 12));
        }
        lemma_le32_roundtrip(enc.len() as u32, b, pos + 8);
        assert(b.subrange(pos + 12, pos + 12 + l) =~= enc) by {
            assert(b.subrange(pos + 12, pos + 12 + l) =~= entries_bytes(es).subrange(12, 12 + l));
        }
        vstd::utf8::encode_utf8_valid_utf8(e.1);
        vstd::utf8::encode_utf8_decode_utf8(e.1);
        assert(b.subrange(pos + 12 + l, pos + 12 + l + entries_bytes(rest).len()) =~= entries_bytes(
            rest,
        )) by {
            assert(b.subrange(pos + 12 + l, pos + 12 + l + entries_bytes(rest).len())
                =~= entries_bytes(es).subrange(12 + l, entries_bytes(es).len() as int));
        }
        assert(lengths_fit(rest)) by {
            assert forall|i: int| 0 <= i < rest.len() implies #[trigger] encode_utf8(rest[i].1).len()
                <= u32::MAX by {
                assert(rest[i] == es[i + 1]);
            }
        }
        lemma_decode_entries(b, pos + 12 + l, rest, acc.insert(e.0, e.1));
    }
}

/// Inserting the entries of an enumeration of `m` into nothing rebuilds `m`.
proof fn lemma_insert_all_enumeration(acc: Map<u64, Seq<char>>, es: Seq<(u64, Seq<char>)>)
    requires
        forall|i: int, j: int| 0 <= i < j < es.len() ==> #[trigger] es[i].0 != #[trigger] es[j].0,
    ensures
        forall|k: u64|
            #[trigger] insert_all(acc, es).contains_key(k) <==> (acc.contains_key(k) || exists|i: int|
                0 <= i < es.len() && es[i].0 == k),
        forall|i: int|
            0 <= i < es.len() ==> #[trigger] insert_all(acc, es)[es[i].0] == es[i].1,
        forall|k: u64|
            acc.contains_key(k) && (forall|i: int| 0 <= i < es.len() ==> es[i].0 != k)
                ==> #[trigger] insert_all(acc, es)[k] == acc[k],
    decreases es.len(),
{
    if es.len() > 0 {
        let rest = es.drop_first();
        assert forall|i: int, j: int| 0 <= i < j < rest.len() implies #[trigger] rest[i].0
            != #[trigger] rest[j].0 by {
            assert(rest[i] == es[i + 1]);
            assert(rest[j] == es[j + 1]);
        }
        let acc2 = acc.insert(es[0].0, es[0].1);
        lemma_insert_all_enumeration(acc2, rest);
        let r = insert_all(acc, es);
        assert(r == insert_all(acc2, rest));
        assert forall|k: u64| #[trigger] insert_all(acc, es).contains_key(k) <==> (acc.contains_key(
            k,
        ) || exists|i: int| 0 <= i < es.len() && es[i].0 == k) by {
            if exists|i: int| 0 <= i < es.len() && es[i].0 == k {
                let i = choose|i: int| 0 <= i < es.len() && es[i].0 == k;
                if i > 0 {
                    assert(rest[i - 1] == es[i]);
                    assert(insert_all(acc2, rest).contains_key(k));
                } else {
                    assert(acc2.contains_key(k));
                    assert(insert_all(acc2, rest).contains_key(k));
                }
            }
            if insert_all(acc2, rest).contains_key(k) {
                if acc2.contains_key(k) {
                    if k == es[0].0 {
                        assert(0 <= 0 < es.len() && es[0].0 == k);
                    }
                } else {
                    let i = choose|i: int| 0 <= i < rest.len() && rest[i].0 == k;
                    assert(es[i + 1] == rest[i]);
                    assert(0 <= i + 1 < es.len() && es[i + 1].0 == k);
                }
            }
        }
        assert forall|i: int| 0 <= i < es.len() implies #[trigger] insert_all(acc, es)[es[i].0]
            == es[i].1 by {
            if i > 0 {
                assert(rest[i - 1] == es[i]);
                assert(insert_all(acc2, rest)[rest[i - 1].0] == rest[i - 1].1);
            } else {
                assert forall|j: int| 0 <= j < rest.len() implies rest[j].0 != es[0].0 by {
                    assert(rest[j] == es[j + 1]);
                }
                assert(insert_all(acc2, rest)[es[0].0] == acc2[es[0].0]);
            }
        }
        assert forall|k: u64|
            acc.contains_key(k) && (forall|i: int| 0 <= i < es.len() ==> es[i].0 != k) implies #[trigger] insert_all(
            acc,
            es,
        )[k] == acc[k] by {
            assert(es[0].0 != k);
            assert forall|j: int| 0 <= j < rest.len() implies rest[j].0 != k by {
                assert(rest[j] == es[j + 1]);
            }
            assert(insert_all(acc2, rest)[k] == acc2[k]);
        }
    }
}

impl DeltaManager {
    /// The `.zen_delta` bytes of this delta, staged rows in the map's iteration order.
    pub fn to_bytes(&self) -> (r: Vec<u8>)
        ensures
            exists|es: Seq<(u64, Seq<char>)>|
                enumerates(es, updates_view(self.updates@)) && r@ == spec_encode(
                    self.tombstone_mask@,
                    es,
                ),
    {
        let mut out: Vec<u8> = Vec::new();
        out.push(0x5au8);
        out.push(0x45u8);
        out.push(0x4eu8);
        out.push(0x44u8);
        push_le16(&mut out, ZEN_DELTA_VERSION);
        push_le64(&mut out, self.tombstone_mask.len() as u64);
        push_all(&mut out, self.tombstone_mask.as_slice());
        let n = self.updates.len();
        push_le64(&mut out, n as u64);
        let ghost prefix = out@;
        let ghost mut es: Seq<(u64, Seq<char>)> = Seq::empty();
        let ghost m = updates_view(self.updates@);
        let ghost s0 = vstd::std_specs::iter::IteratorSpec::remaining(
            &vstd::std_specs::hash::spec_hash_map_iter(&self.updates),
        );
        let iter = self.updates.iter();
        proof {
            assert(m.dom() =~= self.updates@.dom());
            assert forall|i: int, j: int| 0 <= i < j < s0.len() implies *(#[trigger] s0[i]).0
                != *(#[trigger] s0[j]).0 by {
                if *s0[i].0 == *s0[j].0 {
                    assert(self.updates@.contains_key(*s0[i].0));
                    assert(self.updates@.contains_key(*s0[j].0));
                    assert(s0[i] == s0[j]);
                }
            }
        }
        for (k, v) in it: iter
            invariant
                it.seq() == s0,
                s0.len() == m.dom().len(),
                es.len() == it.index(),
                forall|i: int|
                    0 <= i < s0.len() ==> self.updates@.contains_key(*(#[trigger] s0[i]).0)
                        && self.updates@[*s0[i].0] == *s0[i].1,
                forall|i: int, j: int|
                    0 <= i < j < s0.len() ==> *(#[trigger] s0[i]).0 != *(#[trigger] s0[j]).0,
                forall|key: u64| #[trigger]
                    self.updates@.contains_key(key) ==> s0.contains((&key, &self.updates@[key])),
                forall|i: int| 0 <= i < es.len() ==> #[trigger] es[i] == (*s0[i].0, (*s0[i].1)@),
                m == updates_view(self.updates@),
                out@ == prefix + entries_bytes(es),
        {
            let bytes = v.as_str().as_bytes();
            push_le64(&mut out, *k);
            let blen: u32 = #[verifier::truncate] (bytes.len() as u32);
            push_le32(&mut out, blen);
            push_all(&mut out, bytes);
            proof {
                lemma_entries_bytes_push(es, (*k, v@));
                es = es.push((*k, v@));
            }
        }
        proof {
            assert forall|i: int| 0 <= i < es.len() implies m.contains_key(#[trigger] es[i].0)
                && m[es[i].0] == es[i].1 by {
                assert(self.updates@.contains_key(*s0[i].0));
            }
            assert forall|key: u64| m.contains_key(key) implies exists|i: int|
                0 <= i < es.len() && #[trigger] es[i].0 == key by {
                assert(self.updates@.contains_key(key));
                assert(s0.contains((&key, &self.updates@[key])));
                let j = choose|j: int| 0 <= j < s0.len() && s0[j] == (&key, &self.updates@[key]);
                assert(es[j].0 == key);
            }
            assert forall|i: int, j: int| 0 <= i < j < es.len() implies #[trigger] es[i].0
                != #[trigger] es[j].0 by {
                assert(es[i].0 == *s0[i].0);
                assert(es[j].0 == *s0[j].0);
            }
            assert(enumerates(es, m));
            assert(n == es.len());
            assert(out@ =~= spec_encode(self.tombstone_mask@, es));
        }
        out
    }
}

/// Decodes `n` staged rows from `pos` on, into `acc`.
fn decode_updates_exec(b: &[u8], pos: usize, n: u64, acc: HashMap<u64, String>) -> (r: Result<
    HashMap<u64, String>,
    DeltaError,
>)
    requires
        pos <= b@.len(),
    ensures
        match (r, decode_updates(b@, pos as int, n as nat, updates_view(acc@))) {
            (Ok(m), Ok(sm)) => updates_view(m@) == sm,
            (Err(e), Err(se)) => e == se,
            _ => false,
        },
{
    let ghost start = decode_updates(b@, pos as int, n as nat, updates_view(acc@));
    let mut cur = acc;
    let mut at = pos;
    let mut left = n;
    while left > 0
        invariant
            at <= b@.len(),
            decode_updates(b@, at as int, left as nat, updates_view(cur@)) == start,
            start == decode_updates(b@, pos as int, n as nat, updates_view(acc@)),
        decreases left,
    {
        if b.len() - at < 12 {
            return Err(DeltaError::UnexpectedEof);
        }
        let idx = read_le_u64(b, at);
        let slen = read_le_u32(b, at + 8) as usize;
        if b.len() - (at + 12) < slen {
            return Err(DeltaError::UnexpectedEof);
        }
        let bytes = &b[at + 12..at + 12 + slen];
        proof {
            assert(bytes@ =~= b@.subrange(at + 12, at + 12 + slen));
        }
        match string_from_utf8(bytes) {
            None => {
                return Err(DeltaError::InvalidUtf8);
            },
            Some(content) => {
                let ghost before = cur@;
                cur.insert(idx, content);
                proof {
                    assert(updates_view(cur@) =~= updates_view(before).insert(
                        idx,
                        decode_utf8(bytes@),
                    ));
                }
                at = at + 12 + slen;
                left = left - 1;
            },
        }
    }
    Ok(cur)
}

/// Decodes a `.zen_delta` byte stream into its bitmap and staged rows.
pub fn decode_delta(b: &[u8]) -> (r: Result<(Vec<u8>, HashMap<u64, String>), DeltaError>)
    ensures
        match (r, spec_decode(b@)) {
            (Ok((mask, m)), Ok(st)) => mask@ == st.mask && updates_view(m@) == st.updates,
            (Err(e), Err(se)) => e == se,
            _ => false,
        },
{
    if b.len() < 4 {
        return Err(DeltaError::UnexpectedEof);
    }
    if !(b[0] == 0x5a && b[1] == 0x45 && b[2] == 0x4e && b[3] == 0x44) {
        return Err(DeltaError::InvalidMagic);
    }
    if b.len() < 6 {
        return Err(DeltaError::UnexpectedEof);
    }
    let version = read_le_u16(b, 4);
    if version != ZEN_DELTA_VERSION {
        return Err(DeltaError::UnsupportedVersion(version));
    }
    if b.len() < 14 {
        return Err(DeltaError::UnexpectedEof);
    }
    let ml = read_le_u64(b, 6);
    if b.len() - 14 < 8 || ml > (b.len() - 22) as u64 {
        return Err(DeltaError::UnexpectedEof);
    }
    let p = 14 + ml as usize;
    let mut mask: Vec<u8> = Vec::new();
    push_all(&mut mask, &b[14..p]);
    proof {
        assert(b@.subrange(14, p as int) =~= b@.subrange(14, p as int));
    }
    let count = read_le_u64(b, p);
    let empty: HashMap<u64, String> = HashMap::new();
    proof {
        assert(updates_view(empty@) =~= Map::<u64, Seq<char>>::empty());
    }
    match decode_updates_exec(b, p + 8, count, empty) {
        Ok(m) => Ok((mask, m)),
        Err(e) => Err(e),
    }
}

impl DeltaManager {
    /// Replaces the bitmap and the staged rows by those decoded from `bytes`;
    /// on a refused stream nothing changes.
    pub fn load(&mut self, bytes: &[u8]) -> (r: Result<(), DeltaError>)
        ensures
            final(self).base_path == old(self).base_path,
            final(self).delta_path == old(self).delta_path,
            match spec_decode(bytes@) {
                Ok(st) => r is Ok && final(self).tombstone_mask@ == st.mask && updates_view(
                    final(self).updates@,
                ) == st.updates,
                Err(e) => r == Err::<(), DeltaError>(e) && final(self).tombstone_mask@ == old(
                    self,
                ).tombstone_mask@ && final(self).updates@ == old(self).updates@,
            },
    {
        match decode_delta(bytes) {
            Ok((mask, m)) => {
                self.tombstone_mask = mask;
                self.updates = m;
                Ok(())
            },
            Err(e) => Err(e),
        }
    }
}

/// What compaction writes for the lines of `base` from byte `pos` on, the first of them
/// being row `row`: each line, ended by `\n`, is dropped when its row is deleted,
/// replaced by its staged content when it has one, and kept otherwise.
pub open spec fn compact_from(
    base: Seq<u8>,
    pos: int,
    row: int,
    mask: Seq<u8>,
    upd: Map<u64, Seq<char>>,
) -> Seq<u8>
    decreases base.len() + 1 - pos,
    via compact_from_decreases
{
    if pos < 0 || pos >= base.len() {
        Seq::empty()
    } else {
        let e = next_byte(base, 0x0a, pos);
        let r = row as u64;
        let out = if spec_deleted(mask, r) {
            Seq::empty()
        } else if upd.contains_key(r) {
            encode_utf8(upd[r]).push(0x0a)
        } else {
            base.subrange(pos, e).push(0x0a)
        };
        out + compact_from(base, e + 1, row + 1, mask, upd)
    }
}

#[via_fn]
proof fn compact_from_decreases(
    base: Seq<u8>,
    pos: int,
    row: int,
    mask: Seq<u8>,
    upd: Map<u64, Seq<char>>,
) {
    if 0 <= pos < base.len() {
        lemma_next_byte_bounds(base, 0x0a, pos);
    }
}

/// What a compaction does on disk: write `contents` as the new base file, then
/// remove the delta file at `remove`.
pub struct CompactionPlan {
    pub contents: Vec<u8>,
    pub remove: String,
}

impl DeltaManager {
    /// Compaction, as a plan: the base dataset with every delta applied (see `compact`),
    /// to be written as the new base file, after which the delta file is removed.
    pub fn compaction_plan(&self, base: &[u8]) -> (r: CompactionPlan)
        ensures
            r.contents@ == compact_from(base@, 0, 0, self.tombstone_mask@, updates_view(self.updates@)),
            r.remove@ == self.delta_path@,
    {
        CompactionPlan { contents: self.compact(base), remove: self.delta_path.clone() }
    }

    /// Compaction: the base dataset with every delta applied. Rows are the lines of `base`
    /// (split at `\n`, counted from 0); deleted rows are skipped, updated rows are replaced
    /// by their staged content, and each written line ends with `\n`.
    pub fn compact(&self, base: &[u8]) -> (r: Vec<u8>)
        ensures
            r@ == compact_from(base@, 0, 0, self.tombstone_mask@, updates_view(self.updates@)),
    {
        let ghost mask = self.tombstone_mask@;
        let ghost upd = updates_view(self.updates@);
        let mut out: Vec<u8> = Vec::new();
        let mut pos: usize = 0;
        let mut row: u64 = 0;
        while pos < base.len()
            invariant
                pos <= base@.len(),
                row <= pos,
                mask == self.tombstone_mask@,
                upd == updates_view(self.updates@),
                out@ + compact_from(base@, pos as int, row as int, mask, upd) == compact_from(
                    base@,
                    0,
                    0,
                    mask,
                    upd,
                ),
            decreases base.len() - pos,
        {
            let e = find_byte_from(base, 0x0au8, pos);
            let ghost before = out@;
            let ghost rest = compact_from(base@, e + 1, row + 1, mask, upd);
            proof {
                lemma_next_byte_bounds(base@, 0x0a, pos as int);
            }
            if self.is_deleted(row) {
                proof {
                    assert(compact_from(base@, pos as int, row as int, mask, upd) == rest);
                }
            } else {
                match self.updates.get(&row) {
                    Some(content) => {
                        push_all(&mut out, content.as_str().as_bytes());
                        out.push(0x0au8);
                        proof {
                            assert(upd.contains_key(row));
                            assert(upd[row] == content@);
                            assert(compact_from(base@, pos as int, row as int, mask, upd)
                                == encode_utf8(content@).push(0x0a) + rest);
                            assert(out@ =~= before + encode_utf8(content@).push(0x0a));
                        }
                    },
                    None => {
                        push_all(&mut out, &base[pos..e]);
                        out.push(0x0au8);
                        proof {
                            assert(!upd.contains_key(row));
                            let line = base@.subrange(pos as int, e as int);
                            assert(compact_from(base@, pos as int, row as int, mask, upd)
                                == line.push(0x0a) + rest);
                            assert(out@ =~= before + line.push(0x0a));
                        }
                    },
                }
            }
            proof {
                assert(before + compact_from(base@, pos as int, row as int, mask, upd) =~= out@
                    + rest);
            }
            if e < base.len() {
                pos = e + 1;
            } else {
                pos = base.len();
                proof {
                    assert(rest == Seq::<u8>::empty());
                    assert(compact_from(base@, pos as int, row + 1, mask, upd) == Seq::<u8>::empty());
                }
            }
            row = row + 1;
        }
        out
    }
}

/// Law: loading what persisting wrote gives back the same bitmap and the same staged rows,
/// whatever the order in which the rows were written (rows whose UTF-8 encoding does not
/// fit the 32-bit length field excepted).
#[verifier::rlimit(40)]
pub proof fn lemma_persist_load_roundtrip(
    mask: Seq<u8>,
    es: Seq<(u64, Seq<char>)>,
    m: Map<u64, Seq<char>>,
)
    requires
        mask.len() <= u64::MAX,
        es.len() <= u64::MAX,
        enumerates(es, m),
        lengths_fit(es),
    ensures
        spec_decode(spec_encode(mask, es)) == Ok::<DeltaState, DeltaError>(
            DeltaState { mask, updates: m },
        ),
{
    let b = spec_encode(mask, es);
    let ml = mask.len() as int;
    let eb = entries_bytes(es);
    assert(b.len() == 22 + ml + eb.len());
    assert(b.subrange(4, 6) =~= le16_bytes(ZEN_DELTA_VERSION));
    lemma_le16_roundtrip(ZEN_DELTA_VERSION, b, 4);
    assert(b.subrange(6, 14) =~= le64_bytes(mask.len() as u64));
    lemma_le64_roundtrip(mask.len() as u64, b, 6);
    assert(b.subrange(14 + ml, 22 + ml) =~= le64_bytes(es.len() as u64));
    lemma_le64_roundtrip(es.len() as u64, b, 14 + ml);
    assert(b.subrange(22 + ml, 22 + ml + eb.len()) =~= eb);
    lemma_decode_entries(b, 22 + ml, es, Map::empty());
    lemma_insert_all_enumeration(Map::empty(), es);
    let r = insert_all(Map::<u64, Seq<char>>::empty(), es);
    assert forall|k: u64| r.contains_key(k) <==> m.contains_key(k) by {
        if m.contains_key(k) {
            let i = choose|i: int| 0 <= i < es.len() && #[trigger] es[i].0 == k;
        }
    }
    assert forall|k: u64| m.contains_key(k) implies r[k] == m[k] by {
        let i = choose|i: int| 0 <= i < es.len() && #[trigger] es[i].0 == k;
        assert(r[es[i].0] == es[i].1);
    }
    assert(r =~= m);
    assert(b.subrange(14, 14 + ml) =~= mask);
}

} // verus!
