//! Format detection: the line-based parsers (CSV, NDJSON, raw logs) and the dispatcher
//! that routes a buffer to the first parser that recognises it.
use vstd::prelude::*;
use crate::scan::{memchr, absent_in};
use crate::evtx::{EvtxParser, has_file_magic};
use crate::pcap::{PcapParser, spec_pcap_probe};
use crate::text::chars_of;
use crate::filter::{ci_equals, ci_matches};

verus! {

/// End of the line unit starting at `start`: the first `\n` in `[start, end)`, or `end`.
pub open spec fn line_unit_end(mmap: Seq<u8>, start: int, end: int) -> int {
    if exists|i: int| start <= i < end && mmap[i] == 0x0a {
        choose|i: int| start <= i < end && mmap[i] == 0x0a && absent_in(mmap, 0x0a, start, i)
    } else {
        end
    }
}

/// `[start, e)` with `e` the first `\n` in `[start, end)` (or `end`).
fn line_boundaries(mmap: &[u8], start: usize, end: usize) -> (r: (usize, usize))
    requires
        start <= end <= mmap@.len(),
    ensures
        r.0 == start,
        start <= r.1 <= end,
        r.1 < end ==> mmap@[r.1 as int] == 0x0a,
        absent_in(mmap@, 0x0a, start as int, r.1 as int),
{
    let part = &mmap[start..end];
    match memchr(0x0au8, part) {
        Some(p) => {
            proof {
                assert(part@[p as int] == mmap@[start + p]);
                assert forall|j: int| start <= j < start + p implies mmap@[j] != 0x0a by {
                    assert(part@[j - start] == mmap@[j]);
                }
            }
            (start, start + p)
        },
        None => {
            proof {
                assert forall|j: int| start <= j < end implies mmap@[j] != 0x0a by {
                    assert(part@[j - start] == mmap@[j]);
                }
            }
            (start, end)
        },
    }
}

/// Delimited text, one row per line.
pub struct CsvParser {
    pub delimiter: u8,
}

impl CsvParser {
    pub fn new(delimiter: u8) -> (r: Self)
        ensures
            r.delimiter == delimiter,
    {
        CsvParser { delimiter }
    }

    /// The delimiter occurs in the first line (or anywhere, when there is no newline).
    pub open spec fn spec_probe(&self, b: Seq<u8>) -> bool {
        exists|i: int|
            0 <= i < b.len() && b[i] == self.delimiter && absent_in(b, 0x0a, 0, i + 1)
    }

    /// Looks like CSV with this delimiter.
    pub fn probe(&self, buffer: &[u8]) -> (r: bool)
        ensures
            r == self.spec_probe(buffer@),
    {
        match memchr(0x0au8, buffer) {
            Some(pos) => {
                let head = &buffer[0..pos];
                let found = memchr(self.delimiter, head);
                proof {
                    if found is Some {
                        let i = found->0 as int;
                        assert(head@[i] == buffer@[i]);
                        assert forall|j: int| 0 <= j < i + 1 implies buffer@[j] != 0x0a by {
                            assert(head@[j] == buffer@[j]);
                        }
                    } else {
                        assert forall|i: int|
                            0 <= i < buffer@.len() && buffer@[i] == self.delimiter implies !absent_in(
                            buffer@,
                            0x0a,
                            0,
                            i + 1,
                        ) by {
                            if i < pos {
                                assert(head@[i] == buffer@[i]);
                            } else {
                                assert(buffer@[pos as int] == 0x0a);
                            }
                        }
                    }
                }
                found.is_some()
            },
            None => {
                let found = memchr(self.delimiter, buffer);
                proof {
                    if found is Some {
                        let i = found->0 as int;
                        assert(absent_in(buffer@, 0x0a, 0, i + 1));
                    }
                }
                found.is_some()
            },
        }
    }

    /// The line unit that starts at `start` within `[start, end)`.
    pub fn find_boundaries(&self, mmap: &[u8], start: usize, end: usize) -> (r: (usize, usize))
        requires
            start <= end <= mmap@.len(),
        ensures
            r.0 == start,
            start <= r.1 <= end,
            r.1 < end ==> mmap@[r.1 as int] == 0x0a,
            absent_in(mmap@, 0x0a, start as int, r.1 as int),
    {
        line_boundaries(mmap, start, end)
    }
}

pub open spec fn is_ascii_space(b: u8) -> bool {
    b == 0x20 || b == 0x09 || b == 0x0a || b == 0x0c || b == 0x0d
}

/// Line-delimited JSON objects.
pub struct JsonParser;

impl JsonParser {
    pub fn new() -> (r: Self) {
        JsonParser
    }

    /// The first byte that is not ASCII white space is `{`.
    pub open spec fn spec_probe(b: Seq<u8>) -> bool {
        exists|i: int|
            0 <= i < b.len() && b[i] == 0x7b && forall|j: int| 0 <= j < i ==> is_ascii_space(#[trigger] b[j])
    }

    /// Looks like NDJSON: the first non-blank byte opens an object.
    pub fn probe(&self, buffer: &[u8]) -> (r: bool)
        ensures
            r == Self::spec_probe(buffer@),
    {
        let mut i: usize = 0;
        while i < buffer.len() && (buffer[i] == 0x20u8 || buffer[i] == 0x09u8 || buffer[i] == 0x0au8
            || buffer[i] == 0x0cu8 || buffer[i] == 0x0du8)
            invariant
                i <= buffer@.len(),
                forall|j: int| 0 <= j < i ==> is_ascii_space(#[trigger] buffer@[j]),
            decreases buffer.len() - i,
        {
            i = i + 1;
        }
        let r = i < buffer.len() && buffer[i] == 0x7bu8;
        proof {
            if !r {
                assert forall|k: int|
                    0 <= k < buffer@.len() && buffer@[k] == 0x7b implies !(forall|j: int|
                    0 <= j < k ==> is_ascii_space(#[trigger] buffer@[j])) by {
                    if k > i {
                        assert(!is_ascii_space(buffer@[i as int]));
                    }
                }
            }
        }
        r
    }

    /// The line unit that starts at `start` within `[start, end)`.
    pub fn find_boundaries(&self, mmap: &[u8], start: usize, end: usize) -> (r: (usize, usize))
        requires
            start <= end <= mmap@.len(),
        ensures
            r.0 == start,
            start <= r.1 <= end,
            r.1 < end ==> mmap@[r.1 as int] == 0x0a,
            absent_in(mmap@, 0x0a, start as int, r.1 as int),
    {
        line_boundaries(mmap, start, end)
    }
}

/// Unstructured text logs: the parser of last resort.
pub struct RawLogsParser;

impl RawLogsParser {
    pub fn new() -> (r: Self) {
        RawLogsParser
    }

    /// Accepts everything.
    pub fn probe(&self, _buffer: &[u8]) -> (r: bool)
        ensures
            r,
    {
        true
    }

    /// The line unit that starts at `start` within `[start, end)`.
    pub fn find_boundaries(&self, mmap: &[u8], start: usize, end: usize) -> (r: (usize, usize))
        requires
            start <= end <= mmap@.len(),
        ensures
            r.0 == start,
            start <= r.1 <= end,
            r.1 < end ==> mmap@[r.1 as int] == 0x0a,
            absent_in(mmap@, 0x0a, start as int, r.1 as int),
    {
        line_boundaries(mmap, start, end)
    }
}

/// One of the registered format parsers.
pub enum FormatKind {
    Json(JsonParser),
    Csv(CsvParser),
    Evtx(EvtxParser),
    Pcap(PcapParser),
    RawLogs(RawLogsParser),
}

/// Routes buffers to the parser of their format. The parsers are tried in this order:
/// NDJSON; CSV with `,`, tab, `;`, `|`; EVTX; PCAP; raw logs.
pub struct Dispatcher {
    pub parsers: Vec<FormatKind>,
}

/// The delimiters of the registered CSV parsers, in order.
pub open spec fn csv_delims() -> Seq<u8> {
    seq![0x2cu8, 0x09u8, 0x3bu8, 0x7cu8]
}

/// Whether a registered parser accepts a buffer.
pub open spec fn kind_accepts(k: FormatKind, b: Seq<u8>) -> bool {
    match k {
        FormatKind::Json(_) => JsonParser::spec_probe(b),
        FormatKind::Csv(p) => p.spec_probe(b),
        FormatKind::Evtx(_) => has_file_magic(b, 0),
        FormatKind::Pcap(_) => spec_pcap_probe(b),
        FormatKind::RawLogs(_) => true,
    }
}

/// Index of the first parser of `ps` that accepts `b`.
pub open spec fn first_accepting(ps: Seq<FormatKind>, b: Seq<u8>) -> Option<int> {
    if exists|i: int| 0 <= i < ps.len() && kind_accepts(ps[i], b) {
        Some(
            choose|i: int|
                0 <= i < ps.len() && kind_accepts(ps[i], b) && forall|j: int|
                    0 <= j < i ==> !kind_accepts(#[trigger] ps[j], b),
        )
    } else {
        None
    }
}

impl FormatKind {
    pub fn probe(&self, buffer: &[u8]) -> (r: bool)
        ensures
            r == kind_accepts(*self, buffer@),
    {
        match self {
            FormatKind::Json(p) => p.probe(buffer),
            FormatKind::Csv(p) => p.probe(buffer),
            FormatKind::Evtx(p) => p.probe(buffer),
            FormatKind::Pcap(p) => p.probe(buffer),
            FormatKind::RawLogs(p) => p.probe(buffer),
        }
    }
}

impl Dispatcher {
    /// The registered parsers, in probing order.
    pub fn new() -> (r: Self)
        ensures
            r.parsers@.len() == 8,
            r.parsers@[0] is Json,
            r.parsers@[1] matches FormatKind::Csv(p) && p.delimiter == csv_delims()[0],
            r.parsers@[2] matches FormatKind::Csv(p) && p.delimiter == csv_delims()[1],
            r.parsers@[3] matches FormatKind::Csv(p) && p.delimiter == csv_delims()[2],
            r.parsers@[4] matches FormatKind::Csv(p) && p.delimiter == csv_delims()[3],
            r.parsers@[5] is Evtx,
            r.parsers@[6] is Pcap,
            r.parsers@[7] is RawLogs,
    {
        let mut parsers: Vec<FormatKind> = Vec::new();
        parsers.push(FormatKind::Json(JsonParser::new()));
        parsers.push(FormatKind::Csv(CsvParser::new(0x2cu8)));
        parsers.push(FormatKind::Csv(CsvParser::new(0x09u8)));
        parsers.push(FormatKind::Csv(CsvParser::new(0x3bu8)));
        parsers.push(FormatKind::Csv(CsvParser::new(0x7cu8)));
        parsers.push(FormatKind::Evtx(EvtxParser::new()));
        parsers.push(FormatKind::Pcap(PcapParser::new()));
        parsers.push(FormatKind::RawLogs(RawLogsParser::new()));
        Dispatcher { parsers }
    }

    /// The first registered parser that recognises the buffer, if any.
    pub fn probe(&self, buffer: &[u8]) -> (r: Option<&FormatKind>)
        ensures
            match (r, first_accepting(self.parsers@, buffer@)) {
                (Some(k), Some(i)) => *k == self.parsers@[i],
                (None, None) => true,
                _ => false,
            },
    {
        let mut i: usize = 0;
        while i < self.parsers.len()
            invariant
                i <= self.parsers@.len(),
                forall|j: int| 0 <= j < i ==> !kind_accepts(#[trigger] self.parsers@[j], buffer@),
            decreases self.parsers.len() - i,
        {
            if self.parsers[i].probe(buffer) {
                proof {
                    let w = choose|k: int|
                        0 <= k < self.parsers@.len() && kind_accepts(self.parsers@[k], buffer@)
                            && forall|j: int|
                            0 <= j < k ==> !kind_accepts(#[trigger] self.parsers@[j], buffer@);
                    assert(0 <= i < self.parsers@.len() && kind_accepts(self.parsers@[i as int], buffer@)
                        && forall|j: int|
                        0 <= j < i ==> !kind_accepts(#[trigger] self.parsers@[j], buffer@));
                    if w < i {
                    } else if w > i {
                    }
                    assert(w == i);
                }
                return Some(&self.parsers[i]);
            }
            i = i + 1;
        }
        None
    }

    /// The parser registered under a format name (ASCII case ignored): `csv` (comma),
    /// `json`/`ndjson`, `evtx`, `pcap`/`pcapng`, `logs`/`raw`.
    pub fn get_parser(&self, name: &str) -> (r: Option<&FormatKind>)
        requires
            self.parsers@.len() == 8,
        ensures
            match r {
                Some(k) => parser_index(name@) is Some && *k == self.parsers@[parser_index(name@)->0],
                None => parser_index(name@) is None,
            },
    {
        let cs = chars_of(name);
        let n = cs.len();
        let csv_w: [char; 3] = ['c', 's', 'v'];
        let json_w: [char; 4] = ['j', 's', 'o', 'n'];
        let ndjson_w: [char; 6] = ['n', 'd', 'j', 's', 'o', 'n'];
        let evtx_w: [char; 4] = ['e', 'v', 't', 'x'];
        let pcap_w: [char; 4] = ['p', 'c', 'a', 'p'];
        let pcapng_w: [char; 6] = ['p', 'c', 'a', 'p', 'n', 'g'];
        let logs_w: [char; 4] = ['l', 'o', 'g', 's'];
        let raw_w: [char; 3] = ['r', 'a', 'w'];
        proof {
            assert(csv_w@ =~= seq!['c', 's', 'v']);
            assert(json_w@ =~= seq!['j', 's', 'o', 'n']);
            assert(ndjson_w@ =~= seq!['n', 'd', 'j', 's', 'o', 'n']);
            assert(evtx_w@ =~= seq!['e', 'v', 't', 'x']);
            assert(pcap_w@ =~= seq!['p', 'c', 'a', 'p']);
            assert(pcapng_w@ =~= seq!['p', 'c', 'a', 'p', 'n', 'g']);
            assert(logs_w@ =~= seq!['l', 'o', 'g', 's']);
            assert(raw_w@ =~= seq!['r', 'a', 'w']);
            assert(cs@.subrange(0, n as int) =~= name@);
        }
        if ci_matches(&cs, 0, n, &csv_w) {
            Some(&self.parsers[1])
        } else if ci_matches(&cs, 0, n, &json_w) || ci_matches(&cs, 0, n, &ndjson_w) {
            Some(&self.parsers[0])
        } else if ci_matches(&cs, 0, n, &evtx_w) {
            Some(&self.parsers[5])
        } else if ci_matches(&cs, 0, n, &pcap_w) || ci_matches(&cs, 0, n, &pcapng_w) {
            Some(&self.parsers[6])
        } else if ci_matches(&cs, 0, n, &logs_w) || ci_matches(&cs, 0, n, &raw_w) {
            Some(&self.parsers[7])
        } else {
            None
        }
    }
}

/// Index of the parser registered under a name, ignoring ASCII case (for these
/// names the same as comparing lowercase forms).
pub open spec fn parser_index(name: Seq<char>) -> Option<int> {
    if ci_equals(name, seq!['c', 's', 'v']) {
        Some(1)
    } else if ci_equals(name, seq!['j', 's', 'o', 'n']) || ci_equals(
        name,
        seq!['n', 'd', 'j', 's', 'o', 'n'],
    ) {
        Some(0)
    } else if ci_equals(name, seq!['e', 'v', 't', 'x']) {
        Some(5)
    } else if ci_equals(name, seq!['p', 'c', 'a', 'p']) || ci_equals(
        name,
        seq!['p', 'c', 'a', 'p', 'n', 'g'],
    ) {
        Some(6)
    } else if ci_equals(name, seq!['l', 'o', 'g', 's']) || ci_equals(name, seq!['r', 'a', 'w']) {
        Some(7)
    } else {
        None
    }
}

} // verus!
