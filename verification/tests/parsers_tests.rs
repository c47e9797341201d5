use zen_engine::parsers::{CsvParser, Dispatcher, FormatKind, JsonParser, RawLogsParser};

#[test]
fn csv_probe_looks_at_the_first_line() {
    let p = CsvParser::new(b',');
    assert!(p.probe(b"a,b\nc"));
    assert!(!p.probe(b"ab\nc,d"));
    assert!(p.probe(b"no newline, here"));
    assert!(!p.probe(b""));
}

#[test]
fn json_probe_skips_blanks() {
    let p = JsonParser::new();
    assert!(p.probe(b" \n\t{\"a\":1}"));
    assert!(!p.probe(b"  [1]"));
    assert!(!p.probe(b"   "));
}

#[test]
fn line_units() {
    let data = b"ab\ncd\nef";
    assert_eq!(CsvParser::new(b',').find_boundaries(data, 0, 8), (0, 2));
    assert_eq!(JsonParser::new().find_boundaries(data, 3, 8), (3, 5));
    assert_eq!(RawLogsParser::new().find_boundaries(data, 6, 8), (6, 8));
    assert_eq!(RawLogsParser::new().find_boundaries(data, 0, 1), (0, 1));
}

fn kind(k: Option<&FormatKind>) -> &'static str {
    match k {
        Some(FormatKind::Json(_)) => "json",
        Some(FormatKind::Csv(p)) if p.delimiter == b',' => "csv,",
        Some(FormatKind::Csv(p)) if p.delimiter == b'\t' => "csv\t",
        Some(FormatKind::Csv(p)) if p.delimiter == b';' => "csv;",
        Some(FormatKind::Csv(_)) => "csv|",
        Some(FormatKind::Evtx(_)) => "evtx",
        Some(FormatKind::Pcap(_)) => "pcap",
        Some(FormatKind::RawLogs(_)) => "raw",
        None => "none",
    }
}

#[test]
fn dispatcher_probing_order() {
    let d = Dispatcher::new();
    assert_eq!(kind(d.probe(b"{\"a\":1}")), "json");
    assert_eq!(kind(d.probe(b"a;b,c\n")), "csv,");
    assert_eq!(kind(d.probe(b"a\tb\n")), "csv\t");
    assert_eq!(kind(d.probe(b"a;b\n")), "csv;");
    assert_eq!(kind(d.probe(b"a|b\n")), "csv|");
    assert_eq!(kind(d.probe(b"ElfFile\0rest")), "evtx");
    assert_eq!(kind(d.probe(&[0xd4, 0xc3, 0xb2, 0xa1, 0x02])), "pcap");
    assert_eq!(kind(d.probe(b"plain text")), "raw");
}

#[test]
fn parsers_by_name() {
    let d = Dispatcher::new();
    assert_eq!(kind(d.get_parser("CSV")), "csv,");
    assert_eq!(kind(d.get_parser("ndjson")), "json");
    assert_eq!(kind(d.get_parser("Json")), "json");
    assert_eq!(kind(d.get_parser("evtx")), "evtx");
    assert_eq!(kind(d.get_parser("PcapNG")), "pcap");
    assert_eq!(kind(d.get_parser("raw")), "raw");
    assert_eq!(kind(d.get_parser("LOGS")), "raw");
    assert_eq!(kind(d.get_parser("xml")), "none");
}

#[test]
fn registered_names_give_parsers_and_others_none() {
    let d = Dispatcher::new();
    assert!(d.get_parser("CSV").is_some());
    assert!(d.get_parser("NDJSON").is_some());
    assert!(d.get_parser("pcapng").is_some());
    assert!(d.get_parser("Raw").is_some());
    assert!(d.get_parser("xml").is_none());
    assert!(d.get_parser("csv").unwrap().probe(b"a,b\n"));
    assert!(!d.get_parser("csv").unwrap().probe(b"a;b\n"));
}
