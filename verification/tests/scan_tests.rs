use zen_engine::scan::{count_matches_chunked, find_byte_from};

#[test]
fn occurrences_do_not_overlap() {
    assert_eq!(count_matches_chunked(b"aaaa", b"aa", 100), 2);
    assert_eq!(count_matches_chunked(b"abcabcab", b"abc", 100), 2);
    assert_eq!(count_matches_chunked(b"", b"x", 4), 0);
    assert_eq!(count_matches_chunked(b"xyz", b"xyzw", 4), 0);
}

#[test]
fn occurrences_across_pieces_are_not_counted() {
    // Pieces of 3 bytes: "aba" "bab" -> one "ab" in each.
    assert_eq!(count_matches_chunked(b"ababab", b"ab", 3), 2);
    assert_eq!(count_matches_chunked(b"ababab", b"ab", 2), 3);
    assert_eq!(count_matches_chunked(b"ababab", b"ab", 100), 3);
}

#[test]
fn next_byte_position() {
    assert_eq!(find_byte_from(b"a,b,c", b',', 0), 1);
    assert_eq!(find_byte_from(b"a,b,c", b',', 2), 3);
    assert_eq!(find_byte_from(b"a,b,c", b',', 4), 5);
}
