use zen_engine::pcap::{analyze_pcap, analyze_pcap_chunks, nitro_payload_scan, FlowKey, PcapParser};

#[test]
fn test_flow_key_canonical_symmetry() {
    let a = FlowKey { src_ip: 10, dst_ip: 20, src_port: 1234, dst_port: 80, protocol: 6 };
    let b = FlowKey { src_ip: 20, dst_ip: 10, src_port: 80, dst_port: 1234, protocol: 6 };
    assert_eq!(a.canonical().zen_hash(), b.canonical().zen_hash());
}

#[test]
fn test_nitro_payload_scan_pe() {
    let mut payload = vec![0u8; 64];
    payload[10] = b'M';
    payload[11] = b'Z';
    assert_eq!(nitro_payload_scan(&payload), Some("PE Executable"));
}

#[test]
fn canonical_is_idempotent_and_keeps_the_smaller_end_first() {
    let a = FlowKey { src_ip: 20, dst_ip: 10, src_port: 80, dst_port: 1234, protocol: 17 };
    let c = a.canonical();
    assert_eq!(c, c.canonical());
    assert_eq!(c.src_ip, 10);
    assert_eq!(c.src_port, 1234);
}

#[test]
fn payload_without_signature() {
    assert_eq!(nitro_payload_scan(&[0u8; 32]), None);
    assert_eq!(nitro_payload_scan(b""), None);
}

#[test]
fn pcap_probe_magic_numbers() {
    let p = PcapParser::new();
    assert!(p.probe(&[0xd4, 0xc3, 0xb2, 0xa1, 0, 0]));
    assert!(p.probe(&[0x0a, 0x0d, 0x0d, 0x0a]));
    assert!(!p.probe(b"abcd"));
    assert!(!p.probe(&[0xd4, 0xc3]));
}

#[test]
fn empty_capture_summary() {
    let s = analyze_pcap(&[]);
    let t = analyze_pcap_chunks(&[], 4);
    assert_eq!(s.total_packets, 0);
    assert_eq!(t.total_packets, 0);
}
