use zen_engine::discovery::{detect_rfc4180, is_compressed_ext, is_supported, keep_entry, split_words, FileQuery, FindStep};

#[test]
fn pruned_directories() {
    assert!(!keep_entry(".git", true, false));
    assert!(!keep_entry("node_modules", true, false));
    assert!(!keep_entry("target", true, false));
    assert!(keep_entry("target", true, true));
    assert!(keep_entry(".hidden_file", false, false));
    assert!(keep_entry("src", true, false));
}

#[test]
fn supported_paths() {
    assert!(is_supported(false, "CSV", "x.CSV", true));
    assert!(is_supported(false, "", "Syslog", true));
    assert!(is_supported(false, "txt", "notes", false));
    assert!(!is_supported(false, "txt", "notes", true));
    assert!(is_supported(true, "", "", true));
    assert!(is_supported(false, "", "SNORT.Log.1", true));
}

#[test]
fn quotes_in_the_head() {
    assert!(detect_rfc4180(true, b""));
    assert!(detect_rfc4180(false, b"a,\"b\""));
    assert!(!detect_rfc4180(false, b"a,b"));
    let mut late = vec![b'a'; 9000];
    late[8500] = b'"';
    assert!(!detect_rfc4180(false, &late));
}

#[test]
fn words() {
    let w = split_words("  type:doc\u{2003}.RS  report 2024 ");
    let w: Vec<String> = w.iter().map(|c| c.iter().collect()).collect();
    assert_eq!(w, vec!["type:doc", ".RS", "report", "2024"]);
}

#[test]
fn query_parsing() {
    let q = FileQuery::parse("TYPE:IMG .RS Report 2024 .tar.gz");
    assert_eq!(q.exts.len(), 8);
    assert_eq!(q.exts[7], "rs");
    assert_eq!(q.name, "Report 2024 .tar.gz");
    assert_eq!(q.name_lower, "report 2024 .tar.gz");
}

#[test]
fn query_matching() {
    let q = FileQuery::parse(".pdf budget");
    assert!(q.matches(false, Some("PDF"), "Budget_2024.pdf", false, false, false));
    assert!(!q.matches(false, Some("PDF"), "Budget_2024.pdf", true, false, false));
    assert!(!q.matches(false, Some("txt"), "budget.txt", false, false, false));
    assert!(!q.matches(true, None, "budget", false, false, false));
    assert!(!q.matches(false, None, "budget", false, false, false));
    let all = FileQuery::parse("");
    assert!(all.matches(true, None, "dir", false, false, false));
    assert!(!all.matches(true, None, "dir", false, false, true));
    assert!(!all.matches(false, None, "f", false, true, false));
}

#[test]
fn compressed_extensions() {
    assert!(is_compressed_ext("gz"));
    assert!(is_compressed_ext("zst"));
    assert!(is_compressed_ext("zstd"));
    assert!(is_compressed_ext("xz"));
    assert!(!is_compressed_ext("GZ"));
    assert!(!is_compressed_ext("csv"));
    assert!(!is_compressed_ext(""));
}

#[test]
fn find_steps_stop_skip_and_take() {
    let q = FileQuery::parse("report .pdf");
    assert_eq!(q.find_step(5, 5, false, Some("pdf"), "report.pdf", 10, false, false, false), FindStep::Stop);
    assert_eq!(q.find_step(0, 5, false, Some("pdf"), "Report.pdf", 10, false, false, false), FindStep::Take(10));
    assert_eq!(q.find_step(0, 5, false, Some("txt"), "report.txt", 10, false, false, false), FindStep::Skip);
    let all = FileQuery::parse("");
    assert_eq!(all.find_step(0, 5, true, None, "dir", 4096, false, false, false), FindStep::Take(0));
}
