//! PCAP capture scanning: packet walking, 5-tuple flow keys, flow hashing and
//! detection of embedded file signatures in payloads.
use vstd::prelude::*;
use std::collections::HashSet;
use crate::bytes::{le32_at, be16_at, be32_at, be128_at, read_le_u32, read_be_u16, read_be_u32, read_be_u128};

verus! {

broadcast use vstd::std_specs::hash::group_hash_axioms;

pub const PCAP_MAGIC_LE: u32 = 0xA1B2C3D4;
pub const PCAP_MAGIC_BE: u32 = 0xD4C3B2A1;
pub const PCAP_MAGIC_NANO_LE: u32 = 0xA1B23C4D;
pub const PCAPNG_MAGIC: u32 = 0x0A0D0D0A;

pub const GLOBAL_HEADER_SIZE: usize = 24;
pub const PACKET_HEADER_SIZE: usize = 16;

/// Network flow identifier (5-tuple), IPv4 addresses held as IPv4-mapped IPv6.
#[derive(Debug, Clone, Copy, PartialEq, Eq, Hash, Structural)]
pub struct FlowKey {
    pub src_ip: u128,
    pub dst_ip: u128,
    pub src_port: u16,
    pub dst_port: u16,
    pub protocol: u8,
}

/// The same flow seen from the other end.
pub open spec fn reversed(k: FlowKey) -> FlowKey {
    FlowKey {
        src_ip: k.dst_ip,
        dst_ip: k.src_ip,
        src_port: k.dst_port,
        dst_port: k.src_port,
        protocol: k.protocol,
    }
}

/// `(src_ip, src_port) > (dst_ip, dst_port)` in lexicographic order.
pub open spec fn src_after_dst(k: FlowKey) -> bool {
    k.src_ip > k.dst_ip || (k.src_ip == k.dst_ip && k.src_port > k.dst_port)
}

/// Direction-independent form of a key: the smaller endpoint first.
pub open spec fn spec_canonical(k: FlowKey) -> FlowKey {
    if src_after_dst(k) {
        reversed(k)
    } else {
        k
    }
}

/// Folds a 128-bit address into 64 bits.
pub open spec fn fold128(x: u128) -> u64 {
    (x as u64) ^ ((x >> 64u128) as u64)
}

pub open spec fn mul64(x: u64, c: u64) -> u64 {
    vstd::wrapping::u64_specs::wrapping_mul(x, c)
}

/// The flow hash: address and port words folded, rotated and mixed with the
/// 64-bit finalizer of MurmurHash3.
pub open spec fn spec_zen_hash(k: FlowKey) -> u64 {
    let src = fold128(k.src_ip);
    let dst = fold128(k.dst_ip);
    let ip_bits = src ^ ((dst << 7u32) | (dst >> 57u32));
    let port_bits = ((k.src_port as u64) << 16u32) | (k.dst_port as u64);
    let combined = ip_bits ^ ((port_bits << 17u32) | (port_bits >> 47u32)) ^ ((
    k.protocol as u64) << 59u32);
    let h1 = combined ^ (combined >> 33u32);
    let h2 = mul64(h1, 0xff51afd7ed558ccd);
    let h3 = h2 ^ (h2 >> 33u32);
    let h4 = mul64(h3, 0xc4ceb9fe1a85ec53);
    h4 ^ (h4 >> 33u32)
}

impl FlowKey {
    /// Bidirectional key: A->B and B->A map to the same flow.
    pub fn canonical(self) -> (r: FlowKey)
        ensures
            r == spec_canonical(self),
    {
        if self.src_ip > self.dst_ip || (self.src_ip == self.dst_ip && self.src_port
            > self.dst_port) {
            FlowKey {
                src_ip: self.dst_ip,
                dst_ip: self.src_ip,
                src_port: self.dst_port,
                dst_port: self.src_port,
                protocol: self.protocol,
            }
        } else {
            self
        }
    }

    /// Zen-Flow hash of a key.
    pub fn zen_hash(&self) -> (r: u64)
        ensures
            r == spec_zen_hash(*self),
    {
        let src_folded = (self.src_ip as u64) ^ ((self.src_ip >> 64u32) as u64);
        let dst_folded = (self.dst_ip as u64) ^ ((self.dst_ip >> 64u32) as u64);
        let ip_bits = src_folded ^ (dst_folded.wrapping_shl(7) | dst_folded.wrapping_shr(57));
        let port_bits = (self.src_port as u64).wrapping_shl(16) | (self.dst_port as u64);
        let proto_bits = self.protocol as u64;
        let combined = ip_bits ^ (port_bits.wrapping_shl(17) | port_bits.wrapping_shr(47)) ^ (
        proto_bits.wrapping_shl(59));
        let mut h = combined;
        h = h ^ h.wrapping_shr(33);
        h = h.wrapping_mul(0xff51afd7ed558ccd);
        h = h ^ h.wrapping_shr(33);
        h = h.wrapping_mul(0xc4ceb9fe1a85ec53);
        h = h ^ h.wrapping_shr(33);
        h
    }
}

/// A flow and its reverse have the same canonical key.
pub proof fn lemma_canonical_symmetric(k: FlowKey)
    ensures
        spec_canonical(k) == spec_canonical(reversed(k)),
        spec_zen_hash(spec_canonical(k)) == spec_zen_hash(spec_canonical(reversed(k))),
{
}

/// Canonicalizing twice changes nothing.
pub proof fn lemma_canonical_idempotent(k: FlowKey)
    ensures
        spec_canonical(spec_canonical(k)) == spec_canonical(k),
{
}

/// Packet record header, in capture-file order.
#[derive(Debug, Clone, Copy)]
pub struct PcapPacket {
    pub ts_sec: u32,
    pub ts_usec: u32,
    pub incl_len: u32,
    pub orig_len: u32,
    pub payload_offset: usize,
}

/// Number of forensic signatures.
pub const NUM_SIGNATURES: usize = 5;

/// Length of the `k`-th forensic signature: PE, ZIP, PDF, ELF, PNG.
pub open spec fn sig_len(k: int) -> int {
    if k == 0 {
        2
    } else {
        4
    }
}

/// The `k`-th forensic signature occurs in `p` at `i`.
pub open spec fn sig_occurs(p: Seq<u8>, i: int, k: int) -> bool {
    &&& 0 <= i && i + sig_len(k) <= p.len()
    &&& if k == 0 {
        p[i] == 0x4d && p[i + 1] == 0x5a
    } else if k == 1 {
        p[i] == 0x50 && p[i + 1] == 0x4b && p[i + 2] == 0x03 && p[i + 3] == 0x04
    } else if k == 2 {
        p[i] == 0x25 && p[i + 1] == 0x50 && p[i + 2] == 0x44 && p[i + 3] == 0x46
    } else if k == 3 {
        p[i] == 0x7f && p[i + 1] == 0x45 && p[i + 2] == 0x4c && p[i + 3] == 0x46
    } else if k == 4 {
        p[i] == 0x89 && p[i + 1] == 0x50 && p[i + 2] == 0x4e && p[i + 3] == 0x47
    } else {
        false
    }
}

/// Name of the `k`-th forensic signature.
pub open spec fn sig_name(k: int) -> Seq<char> {
    if k == 0 {
        "PE Executable"@
    } else if k == 1 {
        "ZIP/Office"@
    } else if k == 2 {
        "PDF Document"@
    } else if k == 3 {
        "ELF Binary"@
    } else {
        "PNG Image"@
    }
}

/// The first signature, from the `k`-th on, that the payload starts with.
pub open spec fn first_prefix_sig(p: Seq<u8>, k: int) -> Option<int>
    decreases 5 - k,
{
    if k < 0 || k >= 5 {
        None
    } else if sig_occurs(p, 0, k) {
        Some(k)
    } else {
        first_prefix_sig(p, k + 1)
    }
}

/// Bytes of a payload examined by the depth scan.
pub open spec fn scan_limit(p: Seq<u8>) -> int {
    if p.len() < 256 {
        p.len() as int
    } else {
        256
    }
}

/// Signature `k` occurs at some position in `[1, scan_limit - len]`.
pub open spec fn sig_in_depth(p: Seq<u8>, k: int) -> bool {
    exists|i: int| 1 <= i <= scan_limit(p) - sig_len(k) && #[trigger] sig_occurs(p, i, k)
}

/// The first signature, from the `k`-th on, found by the depth scan.
pub open spec fn first_depth_sig(p: Seq<u8>, k: int) -> Option<int>
    decreases 5 - k,
{
    if k < 0 || k >= 5 {
        None
    } else if sig_in_depth(p, k) {
        Some(k)
    } else {
        first_depth_sig(p, k + 1)
    }
}

/// Index of the signature the payload scan reports.
pub open spec fn spec_payload_sig(p: Seq<u8>) -> Option<int> {
    if p.len() == 0 {
        None
    } else {
        match first_prefix_sig(p, 0) {
            Some(k) => Some(k),
            None => if scan_limit(p) > 4 {
                first_depth_sig(p, 0)
            } else {
                None
            },
        }
    }
}

fn sig_occurs_at(p: &[u8], i: usize, k: usize) -> (r: bool)
    requires
        k < 5,
    ensures
        r == sig_occurs(p@, i as int, k as int),
{
    if k == 0 {
        i < p.len() && p.len() - i >= 2 && p[i] == 0x4d && p[i + 1] == 0x5a
    } else {
        if !(i < p.len() && p.len() - i >= 4) {
            false
        } else if k == 1 {
            p[i] == 0x50 && p[i + 1] == 0x4b && p[i + 2] == 0x03 && p[i + 3] == 0x04
        } else if k == 2 {
            p[i] == 0x25 && p[i + 1] == 0x50 && p[i + 2] == 0x44 && p[i + 3] == 0x46
        } else if k == 3 {
            p[i] == 0x7f && p[i + 1] == 0x45 && p[i + 2] == 0x4c && p[i + 3] == 0x46
        } else {
            p[i] == 0x89 && p[i + 1] == 0x50 && p[i + 2] == 0x4e && p[i + 3] == 0x47
        }
    }
}

fn sig_name_of(k: usize) -> (r: &'static str)
    requires
        k < 5,
    ensures
        r@ == sig_name(k as int),
{
    if k == 0 {
        "PE Executable"
    } else if k == 1 {
        "ZIP/Office"
    } else if k == 2 {
        "PDF Document"
    } else if k == 3 {
        "ELF Binary"
    } else {
        "PNG Image"
    }
}

/// Depth scan for signature `k` at positions `1 ..= limit - len(k)`.
fn depth_scan(p: &[u8], k: usize, limit: usize) -> (r: bool)
    requires
        k < 5,
        limit as int == scan_limit(p@),
        limit > 4,
    ensures
        r == sig_in_depth(p@, k as int),
{
    let slen: usize = if k == 0 {
        2
    } else {
        4
    };
    let mut i: usize = 1;
    while i <= limit - slen
        invariant
            k < 5,
            limit as int == scan_limit(p@),
            limit > 4,
            slen as int == sig_len(k as int),
            1 <= i <= limit - slen + 1,
            forall|j: int| 1 <= j < i ==> !sig_occurs(p@, j, k as int),
        decreases limit - slen + 1 - i,
    {
        if sig_occurs_at(p, i, k) {
            return true;
        }
        i += 1;
    }
    proof {
        assert forall|j: int|
            1 <= j <= scan_limit(p@) - sig_len(k as int) implies !#[trigger] sig_occurs(
            p@,
            j,
            k as int,
        ) by {}
    }
    false
}

/// Scans a payload for known file signatures: first at its start, then (for
/// payloads of more than four bytes) within its first 256 bytes.
pub fn nitro_payload_scan(payload: &[u8]) -> (r: Option<&'static str>)
    ensures
        match spec_payload_sig(payload@) {
            Some(k) => r is Some && r.unwrap()@ == sig_name(k),
            None => r is None,
        },
{
    if payload.len() == 0 {
        return None;
    }
    let mut k: usize = 0;
    while k < NUM_SIGNATURES
        invariant
            k <= 5,
            first_prefix_sig(payload@, 0) == first_prefix_sig(payload@, k as int),
        decreases 5 - k,
    {
        if sig_occurs_at(payload, 0, k) {
            proof {
                assert(first_prefix_sig(payload@, k as int) == Some(k as int));
                assert(spec_payload_sig(payload@) == Some(k as int));
            }
            let name = sig_name_of(k);
            return Some(name);
        }
        k += 1;
    }
    proof {
        assert(first_prefix_sig(payload@, 5) is None);
    }
    let limit: usize = if payload.len() < 256 {
        payload.len()
    } else {
        256
    };
    if limit > 4 {
        let mut k: usize = 0;
        while k < NUM_SIGNATURES
            invariant
                k <= 5,
                limit as int == scan_limit(payload@),
                limit > 4,
                payload@.len() > 0,
                first_prefix_sig(payload@, 0) is None,
                first_depth_sig(payload@, 0) == first_depth_sig(payload@, k as int),
            decreases 5 - k,
        {
            if depth_scan(payload, k, limit) {
                proof {
                    assert(first_depth_sig(payload@, k as int) == Some(k as int));
                }
                let name = sig_name_of(k);
                return Some(name);
            }
            k += 1;
        }
    }
    None
}

/// A capture value read at `i`, in the byte order of the capture.
pub open spec fn cap_u32(s: Seq<u8>, i: int, swap: bool) -> int {
    if swap {
        be32_at(s, i)
    } else {
        le32_at(s, i)
    }
}

/// The packets a capture yields from `cursor` on.
pub open spec fn spec_packets(data: Seq<u8>, cursor: int, swap: bool) -> Seq<PcapPacket>
    decreases data.len() - cursor,
{
    if cursor < 0 || cursor + PACKET_HEADER_SIZE > data.len() {
        Seq::empty()
    } else {
        let payload_offset = cursor + PACKET_HEADER_SIZE;
        let incl = cap_u32(data, cursor + 8, swap);
        if payload_offset + incl > data.len() {
            Seq::empty()
        } else {
            let pkt = PcapPacket {
                ts_sec: cap_u32(data, cursor, swap) as u32,
                ts_usec: 0,
                incl_len: incl as u32,
                orig_len: cap_u32(data, cursor + 12, swap) as u32,
                payload_offset: payload_offset as usize,
            };
            seq![pkt] + spec_packets(data, payload_offset + incl, swap)
        }
    }
}

/// Zero-copy PCAP packet iterator.
pub struct PcapNitroStream<'a> {
    data: &'a [u8],
    cursor: usize,
    swap_bytes: bool,
}

impl<'a> PcapNitroStream<'a> {
    pub closed spec fn data(&self) -> Seq<u8> {
        self.data@
    }

    pub closed spec fn cursor(&self) -> int {
        self.cursor as int
    }

    pub closed spec fn swap_bytes(&self) -> bool {
        self.swap_bytes
    }

    /// Opens a capture by its magic number; `None` for buffers under 24 bytes
    /// or unknown magic numbers.
    pub fn new(data: &'a [u8]) -> (r: Option<Self>)
        ensures
            data@.len() < GLOBAL_HEADER_SIZE ==> r is None,
            data@.len() >= GLOBAL_HEADER_SIZE ==> {
                let magic = le32_at(data@, 0);
                &&& (magic == PCAP_MAGIC_LE || magic == PCAP_MAGIC_NANO_LE) ==> (r matches Some(s)
                    && s.data() == data@ && s.cursor() == GLOBAL_HEADER_SIZE && !s.swap_bytes())
                &&& magic == PCAP_MAGIC_BE ==> (r matches Some(s) && s.data() == data@
                    && s.cursor() == GLOBAL_HEADER_SIZE && s.swap_bytes())
                &&& magic == PCAPNG_MAGIC ==> (r matches Some(s) && s.data() == data@ && s.cursor()
                    == 28 && !s.swap_bytes())
                &&& (magic != PCAP_MAGIC_LE && magic != PCAP_MAGIC_NANO_LE && magic
                    != PCAP_MAGIC_BE && magic != PCAPNG_MAGIC) ==> r is None
            },
    {
        if data.len() < GLOBAL_HEADER_SIZE {
            return None;
        }
        let magic = read_le_u32(data, 0);
        if magic == PCAP_MAGIC_LE || magic == PCAP_MAGIC_NANO_LE {
            Some(PcapNitroStream { data, cursor: GLOBAL_HEADER_SIZE, swap_bytes: false })
        } else if magic == PCAP_MAGIC_BE {
            Some(PcapNitroStream { data, cursor: GLOBAL_HEADER_SIZE, swap_bytes: true })
        } else if magic == PCAPNG_MAGIC {
            Some(PcapNitroStream { data, cursor: 28, swap_bytes: false })
        } else {
            None
        }
    }

    /// A stream over `data` that starts at `cursor`, reading little-endian.
    pub fn at(data: &'a [u8], cursor: usize) -> (r: Self)
        ensures
            r.data() == data@,
            r.cursor() == cursor,
            !r.swap_bytes(),
    {
        PcapNitroStream { data, cursor, swap_bytes: false }
    }

    fn read_u32(&self, offset: usize) -> (r: u32)
        requires
            offset + 4 <= self.data@.len(),
        ensures
            r as int == cap_u32(self.data@, offset as int, self.swap_bytes),
    {
        if self.swap_bytes {
            read_be_u32(self.data, offset)
        } else {
            read_le_u32(self.data, offset)
        }
    }

    /// Walks the packet records and returns their headers in capture order;
    /// the bytes of a packet are `data[payload_offset .. payload_offset + incl_len]`.
    pub fn scan_packets(&mut self) -> (pkts: Vec<PcapPacket>)
        ensures
            pkts@ == spec_packets(old(self).data(), old(self).cursor(), old(self).swap_bytes()),
            final(self).data() == old(self).data(),
            final(self).swap_bytes() == old(self).swap_bytes(),
    {
        let mut out: Vec<PcapPacket> = Vec::new();
        let len = self.data.len();
        while len >= PACKET_HEADER_SIZE && self.cursor <= len - PACKET_HEADER_SIZE
            invariant
                len == self.data@.len(),
                self.data@ == old(self).data@,
                self.swap_bytes == old(self).swap_bytes,
                spec_packets(self.data@, old(self).cursor as int, self.swap_bytes) == out@
                    + spec_packets(self.data@, self.cursor as int, self.swap_bytes),
            decreases len - self.cursor,
        {
            let cur = self.cursor;
            let ts_sec = self.read_u32(cur);
            let incl_len = self.read_u32(cur + 8);
            let orig_len = self.read_u32(cur + 12);
            let payload_offset = cur + PACKET_HEADER_SIZE;
            let incl = incl_len as usize;
            if incl > len - payload_offset {
                proof {
                    assert(out@ + spec_packets(self.data@, cur as int, self.swap_bytes) == out@);
                }
                return out;
            }
            let pkt = PcapPacket { ts_sec, ts_usec: 0, incl_len, orig_len, payload_offset };
            proof {
                assert(spec_packets(self.data@, cur as int, self.swap_bytes) == seq![pkt]
                    + spec_packets(self.data@, (payload_offset + incl) as int, self.swap_bytes));
                assert(out@.push(pkt) + spec_packets(
                    self.data@,
                    (payload_offset + incl) as int,
                    self.swap_bytes,
                ) == out@ + (seq![pkt] + spec_packets(
                    self.data@,
                    (payload_offset + incl) as int,
                    self.swap_bytes,
                )));
            }
            out.push(pkt);
            self.cursor = payload_offset + incl;
        }
        proof {
            assert(out@ + spec_packets(self.data@, self.cursor as int, self.swap_bytes) == out@);
        }
        out
    }

    /// Extracts the canonical 5-tuple of an Ethernet frame carrying IPv4 or IPv6.
    pub fn extract_flow_key(packet: &[u8]) -> (r: Option<FlowKey>)
        ensures
            r == spec_flow_key(packet@),
    {
        if packet.len() < 14 {
            return None;
        }
        let mut eth_offset: usize = 12;
        let mut ether_type = read_be_u16(packet, eth_offset);
        if ether_type == 0x8100 && packet.len() >= 18 {
            eth_offset = eth_offset + 4;
            ether_type = read_be_u16(packet, eth_offset);
        }
        let ip = eth_offset + 2;
        let ip_header_len: usize;
        let protocol: u8;
        let src_ip: u128;
        let dst_ip: u128;
        if ether_type == 0x0800 {
            if packet.len() < ip + 20 {
                return None;
            }
            let b = packet[ip];
            let low = b & 0x0F;
            assert(low == b % 16) by (bit_vector)
                requires
                    low == b & 0x0F,
            ;
            ip_header_len = (low as usize) * 4;
            protocol = packet[ip + 9];
            let src = read_be_u32(packet, ip + 12) as u128;
            let dst = read_be_u32(packet, ip + 16) as u128;
            let s_m = src | 0xFFFF_0000_0000u128;
            let d_m = dst | 0xFFFF_0000_0000u128;
            assert(s_m == src + 0xFFFF_0000_0000u128) by (bit_vector)
                requires
                    src < 0x1_0000_0000u128,
                    s_m == src | 0xFFFF_0000_0000u128,
            ;
            assert(d_m == dst + 0xFFFF_0000_0000u128) by (bit_vector)
                requires
                    dst < 0x1_0000_0000u128,
                    d_m == dst | 0xFFFF_0000_0000u128,
            ;
            src_ip = s_m;
            dst_ip = d_m;
        } else if ether_type == 0x86DD {
            if packet.len() < ip + 40 {
                return None;
            }
            ip_header_len = 40;
            protocol = packet[ip + 6];
            src_ip = read_be_u128(packet, ip + 8);
            dst_ip = read_be_u128(packet, ip + 24);
        } else {
            return None;
        }
        let l4 = ip + ip_header_len;
        let (src_port, dst_port) = if protocol == 6 || protocol == 17 {
            if l4 + 4 > packet.len() {
                (0u16, 0u16)
            } else {
                (read_be_u16(packet, l4), read_be_u16(packet, l4 + 2))
            }
        } else {
            (0u16, 0u16)
        };
        Some(FlowKey { src_ip, dst_ip, src_port, dst_port, protocol }.canonical())
    }
}

/// Canonical 5-tuple of an Ethernet frame, when it carries IPv4 or IPv6.
pub open spec fn spec_flow_key(p: Seq<u8>) -> Option<FlowKey> {
    if p.len() < 14 {
        None
    } else {
        let tagged = be16_at(p, 12) == 0x8100 && p.len() >= 18;
        let eth = if tagged {
            16int
        } else {
            12int
        };
        let ether_type = be16_at(p, eth);
        let ip = eth + 2;
        let hdr: Option<(int, u8, u128, u128)> = if ether_type == 0x0800 {
            if p.len() < ip + 20 {
                None
            } else {
                Some(
                    (
                        (p[ip] % 16) as int * 4,
                        p[ip + 9],
                        (be32_at(p, ip + 12) + 0xFFFF_0000_0000) as u128,
                        (be32_at(p, ip + 16) + 0xFFFF_0000_0000) as u128,
                    ),
                )
            }
        } else if ether_type == 0x86DD {
            if p.len() < ip + 40 {
                None
            } else {
                Some((40, p[ip + 6], be128_at(p, ip + 8) as u128, be128_at(p, ip + 24) as u128))
            }
        } else {
            None
        };
        match hdr {
            None => None,
            Some((ihl, proto, src, dst)) => {
                let l4 = ip + ihl;
                let ports: (u16, u16) = if (proto == 6 || proto == 17) && l4 + 4 <= p.len() {
                    (be16_at(p, l4) as u16, be16_at(p, l4 + 2) as u16)
                } else {
                    (0, 0)
                };
                Some(
                    spec_canonical(
                        FlowKey {
                            src_ip: src,
                            dst_ip: dst,
                            src_port: ports.0,
                            dst_port: ports.1,
                            protocol: proto,
                        },
                    ),
                )
            },
        }
    }
}

/// Per-chunk or whole-capture counters.
#[derive(Debug, Clone, Copy)]
pub struct PcapSummary {
    pub total_packets: u64,
    pub total_bytes: u64,
    pub unique_flows: u64,
    pub tcp_packets: u64,
    pub udp_packets: u64,
    pub suspicious_payloads: u64,
}

impl Default for PcapSummary {
    fn default() -> (r: Self)
        ensures
            r == spec_zero_summary(),
    {
        PcapSummary {
            total_packets: 0,
            total_bytes: 0,
            unique_flows: 0,
            tcp_packets: 0,
            udp_packets: 0,
            suspicious_payloads: 0,
        }
    }
}

pub open spec fn spec_zero_summary() -> PcapSummary {
    PcapSummary {
        total_packets: 0,
        total_bytes: 0,
        unique_flows: 0,
        tcp_packets: 0,
        udp_packets: 0,
        suspicious_payloads: 0,
    }
}

/// The bytes of a packet inside its capture.
pub open spec fn packet_bytes(data: Seq<u8>, pkt: PcapPacket) -> Seq<u8> {
    data.subrange(pkt.payload_offset as int, pkt.payload_offset + pkt.incl_len)
}

pub open spec fn add64(a: u64, b: u64) -> u64 {
    vstd::wrapping::u64_specs::wrapping_add(a, b)
}

/// Counters (all but the number of distinct flows) of a sequence of packets.
pub open spec fn tally(data: Seq<u8>, pkts: Seq<PcapPacket>) -> PcapSummary
    decreases pkts.len(),
{
    if pkts.len() == 0 {
        spec_zero_summary()
    } else {
        let prev = tally(data, pkts.drop_last());
        let pkt = pkts.last();
        let bytes = packet_bytes(data, pkt);
        let key = spec_flow_key(bytes);
        PcapSummary {
            total_packets: (prev.total_packets + 1) as u64,
            total_bytes: add64(prev.total_bytes, pkt.orig_len as u64),
            unique_flows: 0,
            tcp_packets: (prev.tcp_packets + if key matches Some(k) && k.protocol == 6 {
                1int
            } else {
                0
            }) as u64,
            udp_packets: (prev.udp_packets + if key matches Some(k) && k.protocol == 17 {
                1int
            } else {
                0
            }) as u64,
            suspicious_payloads: (prev.suspicious_payloads + if spec_payload_sig(bytes) is Some {
                1int
            } else {
                0
            }) as u64,
        }
    }
}

/// Hashes of the flows of a sequence of packets.
pub open spec fn flow_hashes(data: Seq<u8>, pkts: Seq<PcapPacket>) -> Set<u64>
    decreases pkts.len(),
{
    if pkts.len() == 0 {
        Set::empty()
    } else {
        let prev = flow_hashes(data, pkts.drop_last());
        match spec_flow_key(packet_bytes(data, pkts.last())) {
            Some(k) => prev.insert(spec_zen_hash(k)),
            None => prev,
        }
    }
}

/// Summary of one chunk of a capture, scanned from `cursor`.
pub open spec fn spec_chunk_summary(sub: Seq<u8>, cursor: int) -> PcapSummary {
    let pkts = spec_packets(sub, cursor, false);
    let t = tally(sub, pkts);
    PcapSummary { unique_flows: flow_hashes(sub, pkts).len() as u64, ..t }
}

pub proof fn lemma_flow_hashes_finite(data: Seq<u8>, pkts: Seq<PcapPacket>)
    ensures
        flow_hashes(data, pkts).finite(),
        flow_hashes(data, pkts).len() <= pkts.len(),
    decreases pkts.len(),
{
    if pkts.len() > 0 {
        lemma_flow_hashes_finite(data, pkts.drop_last());
    }
}

proof fn lemma_tally_bounds(data: Seq<u8>, pkts: Seq<PcapPacket>)
    requires
        pkts.len() <= u64::MAX,
    ensures
        tally(data, pkts).total_packets == pkts.len(),
        tally(data, pkts).tcp_packets <= pkts.len(),
        tally(data, pkts).udp_packets <= pkts.len(),
        tally(data, pkts).tcp_packets + tally(data, pkts).udp_packets <= pkts.len(),
        tally(data, pkts).suspicious_payloads <= pkts.len(),
        tally(data, pkts).unique_flows == 0,
    decreases pkts.len(),
{
    if pkts.len() > 0 {
        lemma_tally_bounds(data, pkts.drop_last());
    }
}

/// Every packet of a walk lies inside the buffer.
proof fn lemma_packets_in_bounds(data: Seq<u8>, cursor: int, swap: bool)
    ensures
        forall|i: int|
            0 <= i < spec_packets(data, cursor, swap).len() ==> {
                let p = #[trigger] spec_packets(data, cursor, swap)[i];
                p.payload_offset + p.incl_len <= data.len()
            },
        spec_packets(data, cursor, swap).len() == 0 || spec_packets(data, cursor, swap).len()
            + cursor <= data.len(),
    decreases data.len() - cursor,
{
    if !(cursor < 0 || cursor + PACKET_HEADER_SIZE > data.len()) {
        let payload_offset = cursor + PACKET_HEADER_SIZE;
        let incl = cap_u32(data, cursor + 8, swap);
        if payload_offset + incl <= data.len() {
            lemma_packets_in_bounds(data, payload_offset + incl, swap);
            let rest = spec_packets(data, payload_offset + incl, swap);
            let all = spec_packets(data, cursor, swap);
            assert forall|i: int| 0 <= i < all.len() implies {
                let p = #[trigger] all[i];
                p.payload_offset + p.incl_len <= data.len()
            } by {
                if i > 0 {
                    assert(all[i] == rest[i - 1]);
                }
            }
        }
    }
}

/// Law: each packet is counted by its IP protocol. A packet whose flow key has
/// protocol 6 adds one TCP packet and no UDP packet; protocol 17 adds one UDP packet
/// and no TCP packet; any other packet (or one without a flow key) adds to neither.
/// Every packet adds one to the packet count.
pub proof fn lemma_protocol_counts(data: Seq<u8>, pkts: Seq<PcapPacket>, p: PcapPacket)
    requires
        pkts.len() + 1 <= u64::MAX,
    ensures
        ({
            let before = tally(data, pkts);
            let after = tally(data, pkts.push(p));
            let key = spec_flow_key(packet_bytes(data, p));
            &&& after.total_packets == before.total_packets + 1
            &&& after.total_bytes == add64(before.total_bytes, p.orig_len as u64)
            &&& spec_payload_sig(packet_bytes(data, p)) is Some ==> after.suspicious_payloads
                == before.suspicious_payloads + 1
            &&& spec_payload_sig(packet_bytes(data, p)) is None ==> after.suspicious_payloads
                == before.suspicious_payloads
            &&& flow_hashes(data, pkts.push(p)) == match key {
                Some(k) => flow_hashes(data, pkts).insert(spec_zen_hash(k)),
                None => flow_hashes(data, pkts),
            }
            &&& (key matches Some(k) && k.protocol == 6) ==> after.tcp_packets == before.tcp_packets + 1
                && after.udp_packets == before.udp_packets
            &&& (key matches Some(k) && k.protocol == 17) ==> after.udp_packets == before.udp_packets + 1
                && after.tcp_packets == before.tcp_packets
            &&& !(key matches Some(k) && (k.protocol == 6 || k.protocol == 17)) ==> after.tcp_packets
                == before.tcp_packets && after.udp_packets == before.udp_packets
        }),
{
    lemma_tally_bounds(data, pkts);
    assert(pkts.push(p).drop_last() =~= pkts);
}

/// Law: a chunk's TCP count is the number of its packets whose IP protocol is 6,
/// and its UDP count the number whose IP protocol is 17.
pub proof fn lemma_chunk_protocol_counts(sub: Seq<u8>, cursor: int)
    requires
        sub.len() <= usize::MAX,
        cursor >= 0,
    ensures
        ({
            let pkts = spec_packets(sub, cursor, false);
            let s = spec_chunk_summary(sub, cursor);
            &&& s.tcp_packets == pkts.filter(|p: PcapPacket| spec_flow_key(packet_bytes(sub, p)) matches Some(k)
                && k.protocol == 6).len()
            &&& s.udp_packets == pkts.filter(|p: PcapPacket| spec_flow_key(packet_bytes(sub, p)) matches Some(k)
                && k.protocol == 17).len()
        }),
{
    lemma_packets_in_bounds(sub, cursor, false);
    let pkts = spec_packets(sub, cursor, false);
    lemma_tally_filter(sub, pkts);
}

proof fn lemma_tally_filter(data: Seq<u8>, pkts: Seq<PcapPacket>)
    requires
        pkts.len() <= u64::MAX,
    ensures
        tally(data, pkts).tcp_packets == pkts.filter(|p: PcapPacket| spec_flow_key(packet_bytes(data, p)) matches Some(k)
            && k.protocol == 6).len(),
        tally(data, pkts).udp_packets == pkts.filter(|p: PcapPacket| spec_flow_key(packet_bytes(data, p)) matches Some(k)
            && k.protocol == 17).len(),
    decreases pkts.len(),
{
    let f6 = |p: PcapPacket| spec_flow_key(packet_bytes(data, p)) matches Some(k) && k.protocol == 6;
    let f17 = |p: PcapPacket| spec_flow_key(packet_bytes(data, p)) matches Some(k) && k.protocol == 17;
    if pkts.len() == 0 {
        assert(pkts.filter(f6) =~= Seq::<PcapPacket>::empty());
        assert(pkts.filter(f17) =~= Seq::<PcapPacket>::empty());
    } else {
        let pre = pkts.drop_last();
        lemma_tally_filter(data, pre);
        lemma_protocol_counts(data, pre, pkts.last());
        assert(pre.push(pkts.last()) =~= pkts);
        assert(pkts.filter(f6) == if f6(pkts.last()) { pre.filter(f6).push(pkts.last()) } else { pre.filter(f6) }) by {
            reveal(Seq::filter);
            assert(pkts.drop_last() == pre);
        }
        assert(pkts.filter(f17) == if f17(pkts.last()) { pre.filter(f17).push(pkts.last()) } else { pre.filter(f17) }) by {
            reveal(Seq::filter);
            assert(pkts.drop_last() == pre);
        }
    }
}

/// Scans one chunk of a capture from `cursor`, little-endian.
pub fn scan_chunk(sub: &[u8], cursor: usize) -> (r: PcapSummary)
    ensures
        r == spec_chunk_summary(sub@, cursor as int),
{
    let mut stream = PcapNitroStream::at(sub, cursor);
    let pkts = stream.scan_packets();
    proof {
        lemma_packets_in_bounds(sub@, cursor as int, false);
    }
    let slen = sub.len();
    let mut summary = PcapSummary::default();
    let mut flows: HashSet<u64> = HashSet::new();
    let mut i: usize = 0;
    while i < pkts.len()
        invariant
            pkts@ == spec_packets(sub@, cursor as int, false),
            pkts@.len() <= sub@.len(),
            slen == sub@.len(),
            forall|j: int|
                0 <= j < pkts@.len() ==> #[trigger] pkts@[j].payload_offset + pkts@[j].incl_len
                    <= sub@.len(),
            i <= pkts@.len(),
            summary == tally(sub@, pkts@.subrange(0, i as int)),
            flows@ == flow_hashes(sub@, pkts@.subrange(0, i as int)),
        decreases pkts.len() - i,
    {
        let pkt = pkts[i];
        proof {
            assert(pkts@[i as int] == pkt);
            assert(pkts@[i as int].payload_offset + pkts@[i as int].incl_len <= sub@.len());
            let pre = pkts@.subrange(0, i + 1);
            assert(pre.drop_last() == pkts@.subrange(0, i as int));
            assert(pre.last() == pkt);
            lemma_tally_bounds(sub@, pkts@.subrange(0, i as int));
        }
        let start = pkt.payload_offset;
        let end = start + pkt.incl_len as usize;
        let bytes = &sub[start..end];
        summary.total_packets = summary.total_packets + 1;
        summary.total_bytes = summary.total_bytes.wrapping_add(pkt.orig_len as u64);
        match PcapNitroStream::extract_flow_key(bytes) {
            Some(key) => {
                flows.insert(key.zen_hash());
                if key.protocol == 6 {
                    summary.tcp_packets = summary.tcp_packets + 1;
                } else if key.protocol == 17 {
                    summary.udp_packets = summary.udp_packets + 1;
                }
            },
            None => {},
        }
        if nitro_payload_scan(bytes).is_some() {
            summary.suspicious_payloads = summary.suspicious_payloads + 1;
        }
        i += 1;
    }
    proof {
        assert(pkts@.subrange(0, i as int) == pkts@);
        lemma_flow_hashes_finite(sub@, pkts@);
    }
    summary.unique_flows = flows.len() as u64;
    summary
}

/// Where the scan of chunk `idx` starts: after the global header for the first
/// chunk, else at the first plausible packet header (0 < incl <= 65535, incl <= orig).
pub open spec fn sync_from(sub: Seq<u8>, c: int) -> int
    decreases sub.len() - c,
{
    if c < 0 || c + 16 >= sub.len() {
        c
    } else {
        let incl = le32_at(sub, c + 8);
        let orig = le32_at(sub, c + 12);
        if incl > 0 && incl <= 65535 && incl <= orig {
            c
        } else {
            sync_from(sub, c + 1)
        }
    }
}

/// Bounds of chunk `idx` when a buffer of `len` bytes is cut into `n` chunks.
pub open spec fn chunk_bounds(len: int, n: int, idx: int) -> (int, int) {
    let size = len / n;
    (idx * size, if idx == n - 1 {
        len
    } else {
        (idx + 1) * size
    })
}

/// Summary of chunk `idx`.
pub open spec fn spec_chunk_at(data: Seq<u8>, n: int, idx: int) -> PcapSummary {
    let (s, e) = chunk_bounds(data.len() as int, n, idx);
    let sub = data.subrange(s, e);
    spec_chunk_summary(
        sub,
        if idx > 0 {
            sync_from(sub, 0)
        } else {
            GLOBAL_HEADER_SIZE as int
        },
    )
}

/// Field-wise sum of two summaries (wrapping on byte totals).
pub open spec fn combine(a: PcapSummary, b: PcapSummary) -> PcapSummary {
    PcapSummary {
        total_packets: (a.total_packets + b.total_packets) as u64,
        total_bytes: add64(a.total_bytes, b.total_bytes),
        unique_flows: (a.unique_flows + b.unique_flows) as u64,
        tcp_packets: (a.tcp_packets + b.tcp_packets) as u64,
        udp_packets: (a.udp_packets + b.udp_packets) as u64,
        suspicious_payloads: (a.suspicious_payloads + b.suspicious_payloads) as u64,
    }
}

/// Sum of the summaries of chunks `0 .. k`.
pub open spec fn chunks_total(data: Seq<u8>, n: int, k: int) -> PcapSummary
    decreases k,
{
    if k <= 0 {
        spec_zero_summary()
    } else {
        combine(chunks_total(data, n, k - 1), spec_chunk_at(data, n, k - 1))
    }
}

/// Summary of a capture cut into `n` chunks; empty for buffers under 128 bytes.
pub open spec fn spec_analyze_pcap(data: Seq<u8>, n: int) -> PcapSummary {
    if data.len() < 128 {
        spec_zero_summary()
    } else {
        chunks_total(data, n, n)
    }
}

fn sync_cursor(sub: &[u8]) -> (c: usize)
    ensures
        c == sync_from(sub@, 0),
{
    let mut c: usize = 0;
    while c < sub.len() && sub.len() - c > 16
        invariant
            sync_from(sub@, c as int) == sync_from(sub@, 0),
        decreases sub.len() - c,
    {
        let incl = read_le_u32(sub, c + 8);
        let orig = read_le_u32(sub, c + 12);
        if incl > 0 && incl <= 65535 && incl <= orig {
            return c;
        }
        c += 1;
    }
    c
}

/// Chunk counts stay below the number of packets a chunk can hold.
proof fn lemma_chunk_summary_bounds(sub: Seq<u8>, cursor: int)
    requires
        sub.len() <= usize::MAX,
        cursor >= 0,
    ensures
        spec_chunk_summary(sub, cursor).total_packets <= sub.len(),
        spec_chunk_summary(sub, cursor).unique_flows <= sub.len(),
        spec_chunk_summary(sub, cursor).tcp_packets <= sub.len(),
        spec_chunk_summary(sub, cursor).udp_packets <= sub.len(),
        spec_chunk_summary(sub, cursor).suspicious_payloads <= sub.len(),
{
    lemma_packets_in_bounds(sub, cursor, false);
    let pkts = spec_packets(sub, cursor, false);
    lemma_tally_bounds(sub, pkts);
    lemma_flow_hashes_finite(sub, pkts);
}

/// Analyzes a capture cut into `num_chunks` pieces scanned independently;
/// returns the empty summary for buffers under 128 bytes.
pub fn analyze_pcap_chunks(data: &[u8], num_chunks: usize) -> (r: PcapSummary)
    requires
        num_chunks >= 1,
    ensures
        r == spec_analyze_pcap(data@, num_chunks as int),
{
    if data.len() < 128 {
        return PcapSummary::default();
    }
    let len = data.len();
    let chunk_size = len / num_chunks;
    let mut acc = PcapSummary::default();
    let mut idx: usize = 0;
    while idx < num_chunks
        invariant
            len == data@.len(),
            len >= 128,
            num_chunks >= 1,
            chunk_size == len / num_chunks,
            idx <= num_chunks,
            idx < num_chunks ==> idx * chunk_size <= len,
            acc == chunks_total(data@, num_chunks as int, idx as int),
            idx < num_chunks ==> acc.total_packets <= idx * chunk_size,
            idx < num_chunks ==> acc.unique_flows <= idx * chunk_size,
            idx < num_chunks ==> acc.tcp_packets <= idx * chunk_size,
            idx < num_chunks ==> acc.udp_packets <= idx * chunk_size,
            idx < num_chunks ==> acc.suspicious_payloads <= idx * chunk_size,
        decreases num_chunks - idx,
    {
        proof {
            lemma_chunk_bounds(len as int, num_chunks as int, idx as int);
        }
        let start = idx * chunk_size;
        let end = if idx == num_chunks - 1 {
            len
        } else {
            (idx + 1) * chunk_size
        };
        let sub = &data[start..end];
        let cursor = if idx > 0 {
            sync_cursor(sub)
        } else {
            GLOBAL_HEADER_SIZE
        };
        let part = scan_chunk(sub, cursor);
        proof {
            lemma_chunk_summary_bounds(sub@, cursor as int);
            if idx + 1 < num_chunks {
                lemma_chunk_bounds(len as int, num_chunks as int, idx + 1);
            }
        }
        acc = PcapSummary {
            total_packets: acc.total_packets + part.total_packets,
            total_bytes: acc.total_bytes.wrapping_add(part.total_bytes),
            unique_flows: acc.unique_flows + part.unique_flows,
            tcp_packets: acc.tcp_packets + part.tcp_packets,
            udp_packets: acc.udp_packets + part.udp_packets,
            suspicious_payloads: acc.suspicious_payloads + part.suspicious_payloads,
        };
        idx += 1;
    }
    acc
}

proof fn lemma_chunk_bounds(len: int, n: int, idx: int)
    requires
        n >= 1,
        0 <= idx < n,
        len >= 0,
    ensures
        0 <= idx * (len / n),
        idx * (len / n) <= (idx + 1) * (len / n),
        (idx + 1) * (len / n) <= len,
        idx * (len / n) <= len,
        idx * (len / n) + len / n == (idx + 1) * (len / n),
{
    let cs = len / n;
    assert(cs >= 0) by (nonlinear_arith)
        requires
            n >= 1,
            len >= 0,
            cs == len / n,
    ;
    assert(n * cs <= len) by (nonlinear_arith)
        requires
            n >= 1,
            len >= 0,
            cs == len / n,
    ;
    assert((idx + 1) * cs <= n * cs) by (nonlinear_arith)
        requires
            idx + 1 <= n,
            cs >= 0,
    ;
    assert(0 <= idx * cs) by (nonlinear_arith)
        requires
            idx >= 0,
            cs >= 0,
    ;
    assert(idx * cs + cs == (idx + 1) * cs) by (nonlinear_arith);
}

/// Number of worker threads of the current rayon pool.
#[verifier::external_body]
pub(crate) fn current_num_threads() -> (n: usize) {
    rayon::current_num_threads()
}

/// Parallel-chunked PCAP analysis: the capture is cut into as many chunks as
/// the thread pool has workers (at least one).
pub fn analyze_pcap(data: &[u8]) -> (r: PcapSummary)
    ensures
        exists|n: int| n >= 1 && r == spec_analyze_pcap(data@, n),
{
    let threads = current_num_threads();
    let n = if threads < 1 {
        1
    } else {
        threads
    };
    analyze_pcap_chunks(data, n)
}

/// The buffer starts with one of the four capture magic numbers.
pub open spec fn spec_pcap_probe(b: Seq<u8>) -> bool {
    b.len() >= 4 && ({
        let m = le32_at(b, 0);
        m == PCAP_MAGIC_LE || m == PCAP_MAGIC_BE || m == PCAP_MAGIC_NANO_LE || m == PCAPNG_MAGIC
    })
}

/// Parser of PCAP and PCAPNG captures for the format dispatcher.
pub struct PcapParser;

impl PcapParser {
    pub fn new() -> (r: Self) {
        PcapParser
    }

    /// True for buffers that start with one of the four capture magic numbers.
    pub fn probe(&self, buffer: &[u8]) -> (r: bool)
        ensures
            r == spec_pcap_probe(buffer@),
    {
        if buffer.len() < 4 {
            return false;
        }
        let magic = read_le_u32(buffer, 0);
        magic == PCAP_MAGIC_LE || magic == PCAP_MAGIC_BE || magic == PCAP_MAGIC_NANO_LE || magic
            == PCAPNG_MAGIC
    }

    /// Captures are split where the caller asks.
    pub fn find_boundaries(&self, _mmap: &[u8], start: usize, end: usize) -> (r: (usize, usize))
        ensures
            r == (start, end),
    {
        (start, end)
    }

    /// The integer a packet unit yields (its first little-endian word), or
    /// `None` (a null unit) when the buffer is under 16 bytes.
    pub fn parse_unit_int(&self, data: &[u8]) -> (r: Option<i64>)
        ensures
            data@.len() < PACKET_HEADER_SIZE ==> r is None,
            data@.len() >= PACKET_HEADER_SIZE ==> r == Some(le32_at(data@, 0) as i64),
    {
        if data.len() < PACKET_HEADER_SIZE {
            return None;
        }
        Some(read_le_u32(data, 0) as i64)
    }
}

} // verus!
