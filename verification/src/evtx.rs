//! Windows Event Log (EVTX) scanning: signature carving, chunk walking and
//! fast extraction of record header fields without XML rendering.
use vstd::prelude::*;
use crate::bytes::{le16, le32_at, le64_at, read_le_u16, read_le_u32, read_le_u64};

verus! {

/// Size of the EVTX file header that precedes the first chunk.
pub const EVTX_HEADER_SIZE: usize = 4096;

/// Size of one EVTX chunk.
pub const EVTX_CHUNK_SIZE: usize = 65536;

/// Offset of the first record inside a chunk.
pub const EVTX_RECORDS_OFFSET: usize = 512;

/// Smallest and largest record sizes accepted while walking a chunk.
pub const EVTX_MIN_RECORD: usize = 24;
pub const EVTX_MAX_RECORD: usize = 1048576;

/// BinXML value token.
pub const TOKEN_VALUE: u8 = 0x05;

/// `ElfFile\0` starts at `i`.
pub open spec fn has_file_magic(s: Seq<u8>, i: int) -> bool {
    &&& 0 <= i && i + 8 <= s.len()
    &&& s[i] == 0x45 && s[i + 1] == 0x6c && s[i + 2] == 0x66 && s[i + 3] == 0x46
    &&& s[i + 4] == 0x69 && s[i + 5] == 0x6c && s[i + 6] == 0x65 && s[i + 7] == 0x00
}

/// `ElfChnk\0` starts at `i`.
pub open spec fn has_chunk_magic(s: Seq<u8>, i: int) -> bool {
    &&& 0 <= i && i + 8 <= s.len()
    &&& s[i] == 0x45 && s[i + 1] == 0x6c && s[i + 2] == 0x66 && s[i + 3] == 0x43
    &&& s[i + 4] == 0x68 && s[i + 5] == 0x6e && s[i + 6] == 0x6b && s[i + 7] == 0x00
}

/// The record signature `2a 2a 00 00` starts at `i`.
pub open spec fn has_record_magic(s: Seq<u8>, i: int) -> bool {
    &&& 0 <= i && i + 4 <= s.len()
    &&& s[i] == 0x2a && s[i + 1] == 0x2a && s[i + 2] == 0x00 && s[i + 3] == 0x00
}

/// The four bytes of `sig` occur in `data` at `i`.
pub open spec fn sig_at(data: Seq<u8>, i: int, sig: Seq<u8>) -> bool {
    &&& 0 <= i && i + 4 <= data.len()
    &&& data[i] == sig[0] && data[i + 1] == sig[1] && data[i + 2] == sig[2] && data[i + 3] == sig[3]
}

/// Positions below `n` where `sig` occurs, in increasing order.
pub open spec fn carve_upto(data: Seq<u8>, sig: Seq<u8>, n: nat) -> Seq<usize>
    decreases n,
{
    if n == 0 {
        Seq::empty()
    } else {
        let prev = carve_upto(data, sig, (n - 1) as nat);
        if sig_at(data, n - 1, sig) {
            prev.push((n - 1) as usize)
        } else {
            prev
        }
    }
}

/// Every position of `data` where `sig` occurs, in increasing order.
pub open spec fn spec_carve(data: Seq<u8>, sig: Seq<u8>) -> Seq<usize> {
    carve_upto(data, sig, data.len())
}

proof fn lemma_carve_tail(data: Seq<u8>, sig: Seq<u8>, n: nat)
    requires
        n <= data.len(),
        n + 3 >= data.len(),
    ensures
        carve_upto(data, sig, n) == spec_carve(data, sig),
    decreases data.len() - n,
{
    if n < data.len() {
        lemma_carve_tail(data, sig, n + 1);
    }
}

/// A position is reported by the carving scan exactly when the signature occurs there.
pub proof fn lemma_carve_members(data: Seq<u8>, sig: Seq<u8>, n: nat, p: usize)
    requires
        n <= usize::MAX + 1,
    ensures
        carve_upto(data, sig, n).contains(p) <==> (p < n && sig_at(data, p as int, sig)),
    decreases n,
{
    if n > 0 {
        lemma_carve_members(data, sig, (n - 1) as nat, p);
        let prev = carve_upto(data, sig, (n - 1) as nat);
        if sig_at(data, n - 1, sig) {
            assert(prev.push((n - 1) as usize).contains(p) <==> (prev.contains(p) || p == (n - 1)
                as usize)) by {
                if p == (n - 1) as usize {
                    assert(prev.push((n - 1) as usize)[prev.len() as int] == p);
                }
                if prev.push((n - 1) as usize).contains(p) {
                    let k = choose|k: int|
                        0 <= k < prev.len() + 1 && #[trigger] prev.push((n - 1) as usize)[k] == p;
                    if k < prev.len() {
                        assert(prev[k] == p);
                    }
                }
                if prev.contains(p) {
                    let k = choose|k: int| 0 <= k < prev.len() && #[trigger] prev[k] == p;
                    assert(prev.push((n - 1) as usize)[k] == p);
                }
            }
        }
    }
}

/// Scans a block for every occurrence of a four-byte signature.
pub fn zen_carve_signature(data: &[u8], signature: &[u8; 4]) -> (offsets: Vec<usize>)
    ensures
        offsets@ == spec_carve(data@, signature@),
{
    let mut offsets: Vec<usize> = Vec::new();
    let len = data.len();
    if len < 4 {
        proof {
            lemma_carve_tail(data@, signature@, 0);
        }
        return offsets;
    }
    let s0 = signature[0];
    let s1 = signature[1];
    let s2 = signature[2];
    let s3 = signature[3];
    let mut i: usize = 0;
    while i <= len - 4
        invariant
            len == data@.len(),
            len >= 4,
            i <= len - 3,
            s0 == signature@[0],
            s1 == signature@[1],
            s2 == signature@[2],
            s3 == signature@[3],
            offsets@ == carve_upto(data@, signature@, i as nat),
        decreases len - 3 - i,
    {
        if data[i] == s0 && data[i + 1] == s1 && data[i + 2] == s2 && data[i + 3] == s3 {
            offsets.push(i);
        }
        i += 1;
    }
    proof {
        lemma_carve_tail(data@, signature@, i as nat);
    }
    offsets
}

fn is_file_magic_at(s: &[u8], i: usize) -> (r: bool)
    requires
        i + 8 <= s.len(),
    ensures
        r == has_file_magic(s@, i as int),
{
    s[i] == 0x45 && s[i + 1] == 0x6c && s[i + 2] == 0x66 && s[i + 3] == 0x46 && s[i + 4] == 0x69
        && s[i + 5] == 0x6c && s[i + 6] == 0x65 && s[i + 7] == 0x00
}

fn is_chunk_magic_at(s: &[u8], i: usize) -> (r: bool)
    requires
        i + 8 <= s.len(),
    ensures
        r == has_chunk_magic(s@, i as int),
{
    s[i] == 0x45 && s[i + 1] == 0x6c && s[i + 2] == 0x66 && s[i + 3] == 0x43 && s[i + 4] == 0x68
        && s[i + 5] == 0x6e && s[i + 6] == 0x6b && s[i + 7] == 0x00
}

/// First `uint16` value token (`05 04 lo hi`) in the window `[i, limit)`.
pub open spec fn u16_token_from(p: Seq<u8>, i: int, limit: int) -> Option<u16>
    decreases limit - i,
{
    if i < 0 || i + 4 >= limit {
        None
    } else if p[i] == TOKEN_VALUE && p[i + 1] == 0x04 {
        Some(le16(p[i + 2], p[i + 3]) as u16)
    } else {
        u16_token_from(p, i + 1, limit)
    }
}

/// First `uint8` value token (`05 01 v`) in the window `[i, limit)`.
pub open spec fn u8_token_from(p: Seq<u8>, i: int, limit: int) -> Option<u8>
    decreases limit - i,
{
    if i < 0 || i + 3 >= limit {
        None
    } else if p[i] == TOKEN_VALUE && p[i + 1] == 0x01 {
        Some(p[i + 2])
    } else {
        u8_token_from(p, i + 1, limit)
    }
}

/// Length of the token search window: the first 128 bytes of a payload.
pub open spec fn token_window(p: Seq<u8>) -> int {
    if p.len() < 128 {
        p.len() as int
    } else {
        128
    }
}

pub open spec fn spec_u16_token(p: Seq<u8>) -> Option<u16> {
    u16_token_from(p, 0, token_window(p))
}

pub open spec fn spec_u8_token(p: Seq<u8>) -> Option<u8> {
    u8_token_from(p, 0, token_window(p))
}

/// Minimal BinXML scan for the first `uint16` value token in the first 128 bytes.
pub fn extract_uint16_token(payload: &[u8], _field: &str) -> (r: Option<u16>)
    ensures
        r == spec_u16_token(payload@),
{
    let limit: usize = if payload.len() < 128 {
        payload.len()
    } else {
        128
    };
    let mut i: usize = 0;
    while i + 4 < limit
        invariant
            limit as int == token_window(payload@),
            limit <= payload@.len(),
            limit <= 128,
            i <= limit,
            u16_token_from(payload@, i as int, limit as int) == spec_u16_token(payload@),
        decreases limit - i,
    {
        if payload[i] == TOKEN_VALUE && payload[i + 1] == 0x04 {
            return Some(read_le_u16(payload, i + 2));
        }
        i += 1;
    }
    None
}

/// Minimal BinXML scan for the first `uint8` value token in the first 128 bytes.
pub fn extract_uint8_token(payload: &[u8], _field: &str) -> (r: Option<u8>)
    ensures
        r == spec_u8_token(payload@),
{
    let limit: usize = if payload.len() < 128 {
        payload.len()
    } else {
        128
    };
    let mut i: usize = 0;
    while i + 3 < limit
        invariant
            limit as int == token_window(payload@),
            limit <= payload@.len(),
            limit <= 128,
            i <= limit,
            u8_token_from(payload@, i as int, limit as int) == spec_u8_token(payload@),
        decreases limit - i,
    {
        if payload[i] == TOKEN_VALUE && payload[i + 1] == 0x01 {
            return Some(payload[i + 2]);
        }
        i += 1;
    }
    None
}

/// Parsed fields of a single Windows Event Log record.
#[derive(Debug)]
pub struct EvtxRecord {
    pub event_record_id: u64,
    /// Windows FILETIME (100-ns intervals since 1601-01-01).
    pub timestamp_ns: u64,
    pub event_id: u32,
    pub channel: String,
    pub computer: String,
    pub provider: String,
    /// 1=Critical, 2=Error, 3=Warning, 4=Info, 5=Verbose
    pub level: u8,
    pub task_id: u16,
}

/// Mathematical value of an [`EvtxRecord`].
pub struct EvtxRecordView {
    pub event_record_id: u64,
    pub timestamp_ns: u64,
    pub event_id: u32,
    pub channel: Seq<char>,
    pub computer: Seq<char>,
    pub provider: Seq<char>,
    pub level: u8,
    pub task_id: u16,
}

impl View for EvtxRecord {
    type V = EvtxRecordView;

    open spec fn view(&self) -> EvtxRecordView {
        EvtxRecordView {
            event_record_id: self.event_record_id,
            timestamp_ns: self.timestamp_ns,
            event_id: self.event_id,
            channel: self.channel@,
            computer: self.computer@,
            provider: self.provider@,
            level: self.level,
            task_id: self.task_id,
        }
    }
}

impl Default for EvtxRecord {
    fn default() -> (r: Self)
        ensures
            r.event_record_id == 0,
            r.timestamp_ns == 0,
            r.event_id == 0,
            r.channel@ == Seq::<char>::empty(),
            r.computer@ == Seq::<char>::empty(),
            r.provider@ == Seq::<char>::empty(),
            r.level == 0,
            r.task_id == 0,
    {
        EvtxRecord {
            event_record_id: 0,
            timestamp_ns: 0,
            event_id: 0,
            channel: String::new(),
            computer: String::new(),
            provider: String::new(),
            level: 0,
            task_id: 0,
        }
    }
}

/// Windows FILETIME seconds between 1601-01-01 and 1970-01-01.
pub const FILETIME_UNIX_EPOCH_SECS: u64 = 11_644_473_600;

/// Unix seconds of a FILETIME, saturating at zero before 1970.
pub open spec fn spec_unix_timestamp(timestamp_ns: u64) -> int {
    let secs = timestamp_ns as int / 10_000_000;
    if secs >= FILETIME_UNIX_EPOCH_SECS {
        secs - FILETIME_UNIX_EPOCH_SECS
    } else {
        0
    }
}

impl EvtxRecord {
    /// Convert the Windows FILETIME to a Unix timestamp (in seconds).
    pub fn unix_timestamp(&self) -> (r: i64)
        ensures
            r as int == spec_unix_timestamp(self.timestamp_ns),
    {
        let filetime_secs = self.timestamp_ns / 10_000_000;
        let secs = filetime_secs.saturating_sub(FILETIME_UNIX_EPOCH_SECS);
        secs as i64
    }
}

/// Header fields of a record buffer, or `None` when it is too short or lacks the signature.
pub open spec fn spec_parse_record(rec: Seq<u8>) -> Option<EvtxRecordView> {
    if rec.len() < 24 || !has_record_magic(rec, 0) {
        None
    } else {
        let payload = rec.subrange(24, rec.len() as int);
        Some(
            EvtxRecordView {
                event_record_id: le64_at(rec, 8) as u64,
                timestamp_ns: le64_at(rec, 16) as u64,
                event_id: match spec_u16_token(payload) {
                    Some(v) => v as u32,
                    None => 0,
                },
                channel: Seq::empty(),
                computer: Seq::empty(),
                provider: Seq::empty(),
                level: match spec_u8_token(payload) {
                    Some(v) => v,
                    None => 4,
                },
                task_id: match spec_u16_token(payload) {
                    Some(v) => v,
                    None => 0,
                },
            },
        )
    }
}

/// Records of a chunk (its 64 KiB, clipped to the buffer), walking the carved record
/// signatures from the `k`-th one on.
pub open spec fn chunk_records_from(chunk: Seq<u8>, starts: Seq<usize>, k: int) -> Seq<
    EvtxRecordView,
>
    decreases starts.len() - k,
{
    if k < 0 || k >= starts.len() {
        Seq::empty()
    } else {
        let abs = EVTX_RECORDS_OFFSET + starts[k];
        if abs + 8 > chunk.len() {
            Seq::empty()
        } else {
            let size = le32_at(chunk, abs + 4);
            let rest = chunk_records_from(chunk, starts, k + 1);
            if size < EVTX_MIN_RECORD || size > EVTX_MAX_RECORD || abs + size > chunk.len() {
                rest
            } else {
                match spec_parse_record(chunk.subrange(abs, abs + size)) {
                    Some(r) => seq![r] + rest,
                    None => rest,
                }
            }
        }
    }
}

/// End of the chunk that starts at `chunk_start`: 64 KiB further, or the end of the buffer.
pub open spec fn evtx_chunk_end(data: Seq<u8>, chunk_start: int) -> int {
    if chunk_start + EVTX_CHUNK_SIZE <= data.len() {
        chunk_start + EVTX_CHUNK_SIZE
    } else {
        data.len() as int
    }
}

/// Records found in the 64 KiB chunk that starts at `chunk_start`: only records that
/// lie wholly inside the chunk.
pub open spec fn spec_chunk_records(data: Seq<u8>, chunk_start: int) -> Seq<EvtxRecordView> {
    let chunk = data.subrange(chunk_start, evtx_chunk_end(data, chunk_start));
    if chunk.len() < EVTX_RECORDS_OFFSET {
        Seq::empty()
    } else {
        chunk_records_from(
            chunk,
            spec_carve(
                chunk.subrange(EVTX_RECORDS_OFFSET as int, chunk.len() as int),
                seq![0x2au8, 0x2au8, 0x00u8, 0x00u8],
            ),
            0,
        )
    }
}

/// Records of consecutive chunks from `cursor` on, for a structured file.
pub open spec fn spec_structured_records(data: Seq<u8>, cursor: int) -> Seq<EvtxRecordView>
    decreases data.len() - cursor,
{
    if cursor < 0 || cursor + EVTX_CHUNK_SIZE > data.len() {
        Seq::empty()
    } else {
        let here = if has_chunk_magic(data, cursor) {
            spec_chunk_records(data, cursor)
        } else {
            Seq::empty()
        };
        here + spec_structured_records(data, cursor + EVTX_CHUNK_SIZE)
    }
}

/// Records of the chunks found by carving from the `k`-th carved `ElfC` offset on:
/// only where the full `ElfChnk\0` magic starts a whole 64 KiB chunk.
pub open spec fn carved_records_from(data: Seq<u8>, offs: Seq<usize>, k: int) -> Seq<
    EvtxRecordView,
>
    decreases offs.len() - k,
{
    if k < 0 || k >= offs.len() {
        Seq::empty()
    } else {
        let here = if offs[k] + EVTX_CHUNK_SIZE <= data.len() && has_chunk_magic(data, offs[k] as int) {
            spec_chunk_records(data, offs[k] as int)
        } else {
            Seq::empty()
        };
        here + carved_records_from(data, offs, k + 1)
    }
}

/// Records found by carving a raw buffer: every whole chunk with the `ElfChnk\0` magic.
pub open spec fn spec_carved_records(data: Seq<u8>) -> Seq<EvtxRecordView> {
    carved_records_from(data, spec_carve(data, seq![0x45u8, 0x6cu8, 0x66u8, 0x43u8]), 0)
}

/// The views of a vector of records.
pub open spec fn views(v: Seq<EvtxRecord>) -> Seq<EvtxRecordView> {
    v.map_values(|r: EvtxRecord| r@)
}

/// High-throughput EVTX chunk iterator.
pub struct EvtxNitroScanner<'a> {
    data: &'a [u8],
    /// Current byte position in `data`
    cursor: usize,
    /// Mode: false = structured file, true = raw carving (e.g. RAM dump)
    carve_mode: bool,
}

impl<'a> EvtxNitroScanner<'a> {
    pub closed spec fn data(&self) -> Seq<u8> {
        self.data@
    }

    pub closed spec fn cursor(&self) -> int {
        self.cursor as int
    }

    pub closed spec fn carve_mode(&self) -> bool {
        self.carve_mode
    }

    /// Records this scanner yields from its current position.
    pub open spec fn spec_records(&self) -> Seq<EvtxRecordView> {
        if self.carve_mode() {
            spec_carved_records(self.data())
        } else {
            spec_structured_records(self.data(), self.cursor())
        }
    }

    /// Create from a valid .evtx file buffer; `None` when the buffer is shorter
    /// than the file header or lacks the file signature.
    pub fn new(data: &'a [u8]) -> (r: Option<Self>)
        ensures
            r is Some <==> (data@.len() >= EVTX_HEADER_SIZE && has_file_magic(data@, 0)),
            r matches Some(s) ==> (s.data() == data@ && s.cursor() == EVTX_HEADER_SIZE
                && !s.carve_mode()),
    {
        if data.len() < EVTX_HEADER_SIZE || !is_file_magic_at(data, 0) {
            return None;
        }
        Some(EvtxNitroScanner { data, cursor: EVTX_HEADER_SIZE, carve_mode: false })
    }

    /// Create in carving mode, for raw disk images or memory dumps.
    pub fn new_carving(data: &'a [u8]) -> (r: Self)
        ensures
            r.data() == data@,
            r.cursor() == 0,
            r.carve_mode(),
    {
        EvtxNitroScanner { data, cursor: 0, carve_mode: true }
    }

    /// Walks the chunks and returns every record found, in scanning order.
    pub fn scan_records(&mut self) -> (records: Vec<EvtxRecord>)
        requires
            old(self).cursor() <= old(self).data().len(),
        ensures
            views(records@) == old(self).spec_records(),
            final(self).data() == old(self).data(),
            final(self).carve_mode() == old(self).carve_mode(),
            final(self).cursor() <= final(self).data().len(),
    {
        let mut out: Vec<EvtxRecord> = Vec::new();
        let len = self.data.len();
        if self.carve_mode {
            let offs = zen_carve_signature(self.data, &[0x45u8, 0x6cu8, 0x66u8, 0x43u8]);
            let ghost sig = seq![0x45u8, 0x6cu8, 0x66u8, 0x43u8];
            proof {
                assert(offs@ == spec_carve(self.data@, sig));
            }
            let mut k: usize = 0;
            while k < offs.len()
                invariant
                    len == self.data@.len(),
                    self.carve_mode,
                    offs@ == spec_carve(self.data@, sig),
                    k <= offs@.len(),
                    spec_carved_records(self.data@) == views(out@) + carved_records_from(
                        self.data@,
                        offs@,
                        k as int,
                    ),
                decreases offs.len() - k,
            {
                let off = offs[k];
                let ghost before = views(out@);
                if len >= EVTX_CHUNK_SIZE && off <= len - EVTX_CHUNK_SIZE && is_chunk_magic_at(self.data, off) {
                    self.parse_chunk(off, &mut out);
                    proof {
                        assert(views(out@) == before + spec_chunk_records(self.data@, off as int));
                    }
                }
                proof {
                    assert(views(out@) + carved_records_from(self.data@, offs@, k + 1) == before
                        + carved_records_from(self.data@, offs@, k as int));
                }
                k += 1;
            }
            proof {
                assert(views(out@) + carved_records_from(self.data@, offs@, k as int) == views(
                    out@,
                ));
            }
        } else {
            while len >= EVTX_CHUNK_SIZE && self.cursor <= len - EVTX_CHUNK_SIZE
                invariant
                    len == self.data@.len(),
                    !self.carve_mode,
                    self.data@ == old(self).data@,
                    self.cursor <= len,
                    old(self).spec_records() == views(out@) + spec_structured_records(
                        self.data@,
                        self.cursor as int,
                    ),
                decreases len - self.cursor,
            {
                let off = self.cursor;
                let ghost before = views(out@);
                if is_chunk_magic_at(self.data, off) {
                    self.parse_chunk(off, &mut out);
                }
                proof {
                    assert(views(out@) + spec_structured_records(
                        self.data@,
                        off + EVTX_CHUNK_SIZE,
                    ) == before + spec_structured_records(self.data@, off as int));
                }
                self.cursor = off + EVTX_CHUNK_SIZE;
            }
            proof {
                assert(views(out@) + spec_structured_records(self.data@, self.cursor as int)
                    == views(out@));
            }
        }
        out
    }

    /// Parses the chunk starting at `chunk_start` and appends its records to `out`.
    fn parse_chunk(&self, chunk_start: usize, out: &mut Vec<EvtxRecord>)
        requires
            chunk_start <= self.data@.len(),
        ensures
            views(final(out)@) == views(old(out)@) + spec_chunk_records(
                self.data@,
                chunk_start as int,
            ),
    {
        let ghost start_views = views(out@);
        let chunk_end = if self.data.len() - chunk_start >= EVTX_CHUNK_SIZE {
            chunk_start + EVTX_CHUNK_SIZE
        } else {
            self.data.len()
        };
        let chunk = &self.data[chunk_start..chunk_end];
        let clen = chunk.len();
        if clen < EVTX_RECORDS_OFFSET {
            return;
        }
        let tail = &chunk[EVTX_RECORDS_OFFSET..clen];
        let starts = zen_carve_signature(tail, &[0x2au8, 0x2au8, 0x00u8, 0x00u8]);
        let ghost sig = seq![0x2au8, 0x2au8, 0x00u8, 0x00u8];
        let mut k: usize = 0;
        while k < starts.len()
            invariant
                clen == chunk@.len(),
                chunk@ == self.data@.subrange(chunk_start as int, evtx_chunk_end(self.data@, chunk_start as int)),
                clen >= EVTX_RECORDS_OFFSET,
                tail@ == chunk@.subrange(EVTX_RECORDS_OFFSET as int, clen as int),
                starts@ == spec_carve(tail@, sig),
                k <= starts@.len(),
                spec_chunk_records(self.data@, chunk_start as int) == chunk_records_from(
                    chunk@,
                    starts@,
                    0,
                ),
                start_views + chunk_records_from(chunk@, starts@, 0) == views(out@)
                    + chunk_records_from(chunk@, starts@, k as int),
            decreases starts.len() - k,
        {
            let rel = starts[k];
            proof {
                lemma_carve_members(tail@, sig, tail@.len(), rel);
                assert(spec_carve(tail@, sig)[k as int] == rel);
                assert(spec_carve(tail@, sig).contains(rel));
            }
            let abs = EVTX_RECORDS_OFFSET + rel;
            if abs > clen - 8 {
                proof {
                    assert(chunk_records_from(chunk@, starts@, k as int) == Seq::<
                        EvtxRecordView,
                    >::empty());
                    assert(chunk_records_from(chunk@, starts@, starts@.len() as int) == Seq::<
                        EvtxRecordView,
                    >::empty());
                }
                k = starts.len();
            } else {
            let rec_size = read_le_u32(chunk, abs + 4) as usize;
            let ghost before = views(out@);
            if rec_size < EVTX_MIN_RECORD || rec_size > EVTX_MAX_RECORD || rec_size > clen - abs {
            } else {
                let rec = &chunk[abs..abs + rec_size];
                let parsed = self.parse_record(rec);
                match parsed {
                    Some(r) => {
                        out.push(r);
                        proof {
                            assert(views(out@) == before + seq![r@]);
                        }
                    },
                    None => {},
                }
            }
            proof {
                assert(before + chunk_records_from(chunk@, starts@, k as int) == views(out@)
                    + chunk_records_from(chunk@, starts@, k + 1));
            }
            k += 1;
            }
        }
        proof {
            assert(views(out@) + chunk_records_from(chunk@, starts@, k as int) == views(out@));
        }
    }

    /// Parses the binary header fields of one record (fast path, no XML).
    fn parse_record(&self, rec: &[u8]) -> (r: Option<EvtxRecord>)
        ensures
            match r {
                Some(x) => spec_parse_record(rec@) == Some(x@),
                None => spec_parse_record(rec@) is None,
            },
    {
        if rec.len() < 24 {
            return None;
        }
        if !(rec[0] == 0x2a && rec[1] == 0x2a && rec[2] == 0x00 && rec[3] == 0x00) {
            return None;
        }
        let event_record_id = read_le_u64(rec, 8);
        let timestamp_ns = read_le_u64(rec, 16);
        let payload = &rec[24..rec.len()];
        let event_id = match extract_uint16_token(payload, "EventID") {
            Some(v) => v as u32,
            None => 0,
        };
        let level = match extract_uint8_token(payload, "Level") {
            Some(v) => v,
            None => 4,
        };
        let task_id = match extract_uint16_token(payload, "Task") {
            Some(v) => v,
            None => 0,
        };
        Some(
            EvtxRecord {
                event_record_id,
                timestamp_ns,
                event_id,
                channel: String::new(),
                computer: String::new(),
                provider: String::new(),
                level,
                task_id,
            },
        )
    }
}

/// Parser of the EVTX format for the format dispatcher.
pub struct EvtxParser;

impl EvtxParser {
    pub fn new() -> (r: Self) {
        EvtxParser
    }

    /// True when the buffer starts with the EVTX file signature.
    pub fn probe(&self, buffer: &[u8]) -> (r: bool)
        ensures
            r == has_file_magic(buffer@, 0),
    {
        buffer.len() >= 8 && is_file_magic_at(buffer, 0)
    }

    /// Snaps `start` to the enclosing chunk: the chunk of index `start / 64K`
    /// after the file header, clipped to the buffer.
    pub fn find_boundaries(&self, mmap: &[u8], start: usize, _end: usize) -> (r: (usize, usize))
        requires
            start + EVTX_HEADER_SIZE + EVTX_CHUNK_SIZE <= usize::MAX,
        ensures
            r.0 == EVTX_HEADER_SIZE + (start / EVTX_CHUNK_SIZE) * EVTX_CHUNK_SIZE,
            r.1 == if r.0 + EVTX_CHUNK_SIZE <= mmap@.len() {
                r.0 + EVTX_CHUNK_SIZE
            } else {
                mmap@.len() as int
            },
    {
        let chunk_idx = start / EVTX_CHUNK_SIZE;
        let chunk_start = EVTX_HEADER_SIZE + chunk_idx * EVTX_CHUNK_SIZE;
        let next = chunk_start + EVTX_CHUNK_SIZE;
        let chunk_end = if next <= mmap.len() {
            next
        } else {
            mmap.len()
        };
        (chunk_start, chunk_end)
    }

    /// The integer fields a record unit yields: its record id and its Unix
    /// timestamp, or `None` (a null unit) when the buffer is under 24 bytes.
    pub fn parse_unit_ints(&self, data: &[u8]) -> (r: Option<(i64, i64)>)
        ensures
            data@.len() < 24 ==> r is None,
            data@.len() >= 24 ==> r == Some(
                (
                    (le64_at(data@, 8) as u64) as i64,
                    spec_unix_timestamp(le64_at(data@, 16) as u64) as i64,
                ),
            ),
    {
        if data.len() < 24 {
            return None;
        }
        let event_record_id = read_le_u64(data, 8);
        let timestamp_ns = read_le_u64(data, 16);
        let secs = (timestamp_ns / 10_000_000).saturating_sub(FILETIME_UNIX_EPOCH_SECS);
        Some((event_record_id as i64, secs as i64))
    }
}

/// Number of records whose level is Critical or Error.
pub open spec fn count_errors(v: Seq<EvtxRecordView>) -> nat
    decreases v.len(),
{
    if v.len() == 0 {
        0
    } else {
        count_errors(v.drop_last()) + if v.last().level == 1 || v.last().level == 2 {
            1nat
        } else {
            0nat
        }
    }
}

/// Number of records whose level is Warning.
pub open spec fn count_warnings(v: Seq<EvtxRecordView>) -> nat
    decreases v.len(),
{
    if v.len() == 0 {
        0
    } else {
        count_warnings(v.drop_last()) + if v.last().level == 3 {
            1nat
        } else {
            0nat
        }
    }
}

/// Law: records are counted by level. A record of level 1 (Critical) or 2 (Error)
/// adds one error and no warning; a record of level 3 (Warning) adds one warning and
/// no error; a record of any other level adds to neither, so it counts as info.
pub proof fn lemma_level_counts(v: Seq<EvtxRecordView>, r: EvtxRecordView)
    ensures
        (r.level == 1 || r.level == 2) ==> count_errors(v.push(r)) == count_errors(v) + 1
            && count_warnings(v.push(r)) == count_warnings(v),
        r.level == 3 ==> count_warnings(v.push(r)) == count_warnings(v) + 1 && count_errors(v.push(r))
            == count_errors(v),
        (r.level != 1 && r.level != 2 && r.level != 3) ==> count_errors(v.push(r)) == count_errors(v)
            && count_warnings(v.push(r)) == count_warnings(v),
{
    assert(v.push(r).drop_last() =~= v);
}

/// Law: the error count is the number of records whose level is 1 or 2, and the
/// warning count the number whose level is 3.
pub proof fn lemma_level_counts_filter(v: Seq<EvtxRecordView>)
    ensures
        count_errors(v) == v.filter(|r: EvtxRecordView| r.level == 1 || r.level == 2).len(),
        count_warnings(v) == v.filter(|r: EvtxRecordView| r.level == 3).len(),
    decreases v.len(),
{
    let fe = |r: EvtxRecordView| r.level == 1 || r.level == 2;
    let fw = |r: EvtxRecordView| r.level == 3;
    if v.len() == 0 {
        assert(v.filter(fe) =~= Seq::<EvtxRecordView>::empty());
        assert(v.filter(fw) =~= Seq::<EvtxRecordView>::empty());
    } else {
        let pre = v.drop_last();
        lemma_level_counts_filter(pre);
        lemma_level_counts(pre, v.last());
        assert(pre.push(v.last()) =~= v);
        assert(v.filter(fe) == if fe(v.last()) { pre.filter(fe).push(v.last()) } else { pre.filter(fe) }) by {
            reveal(Seq::filter);
        }
        assert(v.filter(fw) == if fw(v.last()) { pre.filter(fw).push(v.last()) } else { pre.filter(fw) }) by {
            reveal(Seq::filter);
        }
    }
}

/// Records a buffer yields: carving when asked or when it is not a structured file.
pub open spec fn spec_evtx_records(data: Seq<u8>, carve: bool) -> Seq<EvtxRecordView> {
    if !carve && data.len() >= EVTX_HEADER_SIZE && has_file_magic(data, 0) {
        spec_structured_records(data, EVTX_HEADER_SIZE as int)
    } else {
        spec_carved_records(data)
    }
}

/// Analyzes an EVTX buffer.
/// Returns: (record_count, error_count, warning_count, info_count)
pub fn analyze_evtx(data: &[u8], carve: bool) -> (r: (u64, u64, u64, u64))
    ensures
        ({
            let recs = spec_evtx_records(data@, carve);
            &&& r.0 == recs.len()
            &&& r.1 == count_errors(recs)
            &&& r.2 == count_warnings(recs)
            &&& r.3 == recs.len() - count_errors(recs) - count_warnings(recs)
        }),
{
    let mut scanner = if carve {
        EvtxNitroScanner::new_carving(data)
    } else {
        match EvtxNitroScanner::new(data) {
            Some(s) => s,
            None => EvtxNitroScanner::new_carving(data),
        }
    };
    let records = scanner.scan_records();
    let ghost recs = views(records@);
    let mut total: u64 = 0;
    let mut errors: u64 = 0;
    let mut warnings: u64 = 0;
    let mut info: u64 = 0;
    let mut i: usize = 0;
    while i < records.len()
        invariant
            recs == views(records@),
            i <= records@.len(),
            total == i,
            errors == count_errors(recs.subrange(0, i as int)),
            warnings == count_warnings(recs.subrange(0, i as int)),
            info == i - errors - warnings,
            errors + warnings <= i,
        decreases records.len() - i,
    {
        proof {
            let pre = recs.subrange(0, i + 1);
            assert(pre.drop_last() == recs.subrange(0, i as int));
            assert(pre.last() == records@[i as int]@);
        }
        total += 1;
        let lv = records[i].level;
        if lv == 1 || lv == 2 {
            errors += 1;
        } else if lv == 3 {
            warnings += 1;
        } else {
            info += 1;
        }
        i += 1;
    }
    proof {
        assert(recs.subrange(0, i as int) == recs);
    }
    (total, errors, warnings, info)
}

} // verus!
