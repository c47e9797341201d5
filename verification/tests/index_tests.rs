use zen_engine::index::{
    body_start, build_index_data, chunk_starts, decode_index, encode_index, threads_for, CachedIndex,
    INDEX_CHUNK_SIZE,
};
use zen_engine::types::HardwareMode;

#[test]
fn body_start_skips_bom_preamble_and_header() {
    let data = b"\xEF\xBB\xBFtitle\nh1,h2\n1,2\n";
    assert_eq!(body_start(data, 1, true), 15);
    assert_eq!(body_start(data, 1, false), 9);
    assert_eq!(body_start(data, 0, false), 3);
    assert_eq!(body_start(b"only-header", 0, true), 11);
    assert_eq!(body_start(b"", 5, true), 0);
}

#[test]
fn offsets_of_a_single_chunk() {
    let data = b"h\na\nbb\nccc\n";
    let idx = build_index_data(data, 0, true, INDEX_CHUNK_SIZE);
    assert_eq!(idx.offsets, vec![2, 4, 7]);
    assert_eq!(idx.block_hashes.len(), 1);
    assert_eq!(idx.block_hashes[0].1, data.len() - 2);
    assert_eq!(idx.block_hashes[0].0, *blake3::hash(&data[2..]).as_bytes());
}

#[test]
fn every_offset_starts_a_row() {
    let data = b"x\nline one\nline two\nthree\nfour\nfive\n";
    let idx = build_index_data(data, 0, true, 8);
    let mut prev = 0u64;
    for (k, &o) in idx.offsets.iter().enumerate() {
        assert!(k == 0 || o > prev);
        assert!(o == 2 || data[o as usize - 1] == b'\n');
        prev = o;
    }
}

#[test]
fn chunks_start_on_line_boundaries() {
    let body = b"aaaa\nbbbb\ncccc\ndd";
    assert_eq!(chunk_starts(body, 6), vec![0, 10]);
    assert_eq!(chunk_starts(body, 100), vec![0]);
    assert!(chunk_starts(b"", 4).is_empty());
}

#[test]
fn cache_file_roundtrip() {
    let offsets = vec![5u64, 17, 40];
    let hashes = vec![([7u8; 32], 123usize), ([9u8; 32], 4usize)];
    let bytes = encode_index(1000, &offsets, &hashes);
    assert_eq!(bytes.len(), 8 + 8 + 8 + 24 + 8 + 80);
    assert_eq!(&bytes[8..16], b"ZENFOREN");
    match decode_index(&bytes, 1000) {
        CachedIndex::Full(d) => {
            assert_eq!(d.offsets, offsets);
            assert_eq!(d.block_hashes, hashes);
        },
        _ => panic!("expected a full index"),
    }
    assert!(matches!(decode_index(&bytes, 999), CachedIndex::Miss));
}

#[test]
fn cache_file_variants() {
    let mut legacy = 64u64.to_le_bytes().to_vec();
    legacy.extend_from_slice(&3u64.to_le_bytes());
    legacy.extend_from_slice(&9u64.to_le_bytes());
    match decode_index(&legacy, 64) {
        CachedIndex::OffsetsOnly(o) => assert_eq!(o, vec![3, 9]),
        _ => panic!("expected bare offsets"),
    }
    legacy.push(0);
    assert!(matches!(decode_index(&legacy, 64), CachedIndex::Miss));
    assert!(matches!(decode_index(&[1, 2, 3], 0), CachedIndex::Miss));
    let mut short = encode_index(10, &[1, 2], &[([1u8; 32], 5)]);
    short.truncate(short.len() - 10);
    match decode_index(&short, 10) {
        CachedIndex::Full(d) => {
            assert_eq!(d.offsets, vec![1, 2]);
            assert!(d.block_hashes.is_empty());
        },
        _ => panic!("expected a full index"),
    }
}

#[test]
fn thread_counts() {
    assert_eq!(threads_for(HardwareMode::HDD, false, 10, 16), 2);
    assert_eq!(threads_for(HardwareMode::Auto, true, 10, 16), 2);
    assert_eq!(threads_for(HardwareMode::SSD, true, 2_000_000_000, 16), 8);
    assert_eq!(threads_for(HardwareMode::SSD, false, 2_000_000_000, 4), 4);
    assert_eq!(threads_for(HardwareMode::Auto, false, 10, 16), 16);
    assert!(zen_engine::index::index_threads(HardwareMode::SSD, false, 10) >= 1);
}

#[test]
fn scan_threads_limit_rotational_disks() {
    use_scan_threads();
}

fn use_scan_threads() {
    let f = zen_engine::index::scan_threads;
    assert_eq!(f(HardwareMode::HDD, false, 16), 2);
    assert_eq!(f(HardwareMode::SSD, true, 16), 16);
    assert_eq!(f(HardwareMode::Auto, true, 16), 2);
    assert_eq!(f(HardwareMode::Auto, false, 16), 16);
}

#[test]
fn no_row_is_lost_at_a_chunk_boundary() {
    // Small chunks end on `\n` bytes; every row start must still be listed.
    let data = b"h\naaaa\n\nbb\nc\nddddd\ne";
    let whole = build_index_data(data, 0, true, INDEX_CHUNK_SIZE);
    assert_eq!(whole.offsets, vec![2, 7, 8, 11, 13, 19]);
    for chunk in 1..12 {
        let idx = build_index_data(data, 0, true, chunk);
        assert_eq!(idx.offsets, whole.offsets, "chunk size {}", chunk);
    }
    // A final newline starts no row.
    let idx = build_index_data(b"h\nx\ny\n", 0, true, 1);
    assert_eq!(idx.offsets, vec![2, 4]);
}
