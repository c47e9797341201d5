use zen_engine::evtx::{analyze_evtx, zen_carve_signature, EvtxNitroScanner, EvtxParser, EvtxRecord};

#[test]
fn test_evtx_probe_rejects_non_evtx() {
    let parser = EvtxParser::new();
    assert!(!parser.probe(b"This is just a CSV file,not,evtx"));
}

#[test]
fn test_evtx_probe_accepts_magic() {
    let mut buf = vec![0u8; 4096];
    buf[0..8].copy_from_slice(b"ElfFile\0");
    let parser = EvtxParser::new();
    assert!(parser.probe(&buf));
}

#[test]
fn test_zen_carve_finds_signature() {
    let mut data = vec![0u8; 256];
    data[128] = 0x2a;
    data[129] = 0x2a;
    data[130] = 0x00;
    data[131] = 0x00;
    let found = zen_carve_signature(&data, &[0x2a, 0x2a, 0x00, 0x00]);
    assert!(found.contains(&128), "Zen-Carve must find the signature at offset 128");
}

#[test]
fn test_analyze_evtx_carving_empty() {
    let (total, _, _, _) = analyze_evtx(&[], true);
    assert_eq!(total, 0);
}

#[test]
fn test_unix_timestamp_safety() {
    let record = EvtxRecord { timestamp_ns: 100, ..Default::default() };
    assert_eq!(record.unix_timestamp(), 0);
}

#[test]
fn carve_lists_every_occurrence_in_order() {
    let mut data = vec![0u8; 64];
    for at in [3usize, 20, 40] {
        data[at..at + 4].copy_from_slice(&[0x2a, 0x2a, 0x00, 0x00]);
    }
    assert_eq!(zen_carve_signature(&data, &[0x2a, 0x2a, 0x00, 0x00]), vec![3, 20, 40]);
    assert!(zen_carve_signature(&data[..6], &[0x2a, 0x2a, 0x00, 0x00]).is_empty());
}

#[test]
fn unix_timestamp_of_a_known_filetime() {
    // 2021-01-01T00:00:00Z as FILETIME (100 ns ticks since 1601).
    let record = EvtxRecord { timestamp_ns: 132_539_328_000_000_000, ..Default::default() };
    assert_eq!(record.unix_timestamp(), 1_609_459_200);
}

#[test]
fn scanner_needs_the_file_signature() {
    assert!(EvtxNitroScanner::new(&[0u8; 100]).is_none());
    let mut buf = vec![0u8; 4096];
    buf[0..8].copy_from_slice(b"ElfFile\0");
    let mut scanner = EvtxNitroScanner::new(&buf).unwrap();
    assert!(scanner.scan_records().is_empty());
}

#[test]
fn find_boundaries_snaps_to_chunks() {
    let parser = EvtxParser::new();
    let buf = vec![0u8; 4096 + 65536 + 100];
    assert_eq!(parser.find_boundaries(&buf, 10, 20), (4096, 4096 + 65536));
    assert_eq!(parser.find_boundaries(&buf, 70000, 70001), (4096 + 65536, buf.len()));
}

fn put_record(buf: &mut [u8], at: usize, id: u64) {
    buf[at..at + 4].copy_from_slice(&[0x2a, 0x2a, 0x00, 0x00]);
    buf[at + 4..at + 8].copy_from_slice(&32u32.to_le_bytes());
    buf[at + 8..at + 16].copy_from_slice(&id.to_le_bytes());
}

#[test]
fn each_record_is_reported_once_chunk_by_chunk() {
    let c0 = 4096;
    let c1 = 4096 + 65536;
    let mut buf = vec![0u8; 4096 + 2 * 65536];
    buf[0..8].copy_from_slice(b"ElfFile\0");
    buf[c0..c0 + 8].copy_from_slice(b"ElfChnk\0");
    buf[c1..c1 + 8].copy_from_slice(b"ElfChnk\0");
    put_record(&mut buf, c0 + 600, 1);
    put_record(&mut buf, c1 + 600, 2);
    let mut scanner = EvtxNitroScanner::new(&buf).unwrap();
    let ids: Vec<u64> = scanner.scan_records().iter().map(|r| r.event_record_id).collect();
    assert_eq!(ids, vec![1, 2]);
}

#[test]
fn carving_needs_the_full_chunk_magic_and_room() {
    let mut buf = vec![0u8; 70000];
    // `ElfC` without the rest of the magic: no chunk.
    buf[0..4].copy_from_slice(b"ElfC");
    put_record(&mut buf, 600, 7);
    let mut scanner = EvtxNitroScanner::new_carving(&buf);
    assert!(scanner.scan_records().is_empty());
    // The full magic with a whole 64 KiB chunk: its record is found.
    buf[0..8].copy_from_slice(b"ElfChnk\0");
    let mut scanner = EvtxNitroScanner::new_carving(&buf);
    let ids: Vec<u64> = scanner.scan_records().iter().map(|r| r.event_record_id).collect();
    assert_eq!(ids, vec![7]);
    // Too little room for a chunk after the magic.
    let mut small = vec![0u8; 1000];
    small[0..8].copy_from_slice(b"ElfChnk\0");
    put_record(&mut small, 600, 7);
    let mut scanner = EvtxNitroScanner::new_carving(&small);
    assert!(scanner.scan_records().is_empty());
}
