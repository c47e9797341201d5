use zen_engine::utils::{compute_hash_fast, get_gpu_info, is_ip_fast, is_mac_fast, numeric_lexeme, parse_date_fast};

#[test]
fn dates() {
    assert_eq!(parse_date_fast(b"2024-02-29"), Some(20240229));
    assert_eq!(parse_date_fast(b"\"1999-12-31\""), Some(19991231));
    assert_eq!(parse_date_fast(b"2024-02-29T10:00:00"), Some(20240229));
    assert_eq!(parse_date_fast(b"2024-13-01"), None);
    assert_eq!(parse_date_fast(b"2024-00-10"), None);
    assert_eq!(parse_date_fast(b"2024-01-32"), None);
    assert_eq!(parse_date_fast(b"2024/01/01"), None);
    assert_eq!(parse_date_fast(b"24-01-01"), None);
    assert_eq!(parse_date_fast(b"\""), None);
}

#[test]
fn ip_addresses() {
    assert!(is_ip_fast(b"192.168.0.1"));
    assert!(is_ip_fast(b"fe80::1ff:fe23"));
    assert!(!is_ip_fast(b"1.2"));
    assert!(!is_ip_fast(b"a.b.c"));
    assert!(!is_ip_fast(b"::1"));
}

#[test]
fn mac_addresses() {
    assert!(is_mac_fast(b"00:1a:2B:3c:4D:5e"));
    assert!(is_mac_fast(b"00-1a-2b-3c-4d-5e"));
    assert!(!is_mac_fast(b"00:1a:2b:3c:4d:5"));
    assert!(!is_mac_fast(b"00:1a:2b:3c:4d:5g"));
    assert!(!is_mac_fast(b"001a:2b:3c:4d:5e:"));
}

#[test]
fn blake3_hex() {
    assert_eq!(
        compute_hash_fast(b""),
        "af1349b9f5f9a1a6a0404dea36dcc9499bcb25c9adc112b7cc9a93cae41f3262"
    );
    assert_eq!(compute_hash_fast(b"abc"), blake3::hash(b"abc").to_hex().to_string());
    assert_eq!(compute_hash_fast(b"abc").len(), 64);
}

#[test]
fn no_gpu_probe() {
    assert!(get_gpu_info().is_none());
}

fn lex(b: &[u8]) -> Option<(bool, Vec<u8>, Vec<u8>)> {
    numeric_lexeme(b).map(|x| (x.negative, x.int_digits, x.frac_digits))
}

#[test]
fn numbers_are_read_digit_by_digit() {
    assert_eq!(lex(b"42"), Some((false, vec![4, 2], vec![])));
    assert_eq!(lex(b" -3.25x"), Some((true, vec![3], vec![2, 5])));
    assert_eq!(lex(b"\"+.5\""), Some((false, vec![], vec![5])));
    assert_eq!(lex(b"1.2.3"), Some((false, vec![1], vec![2])));
    assert_eq!(lex(b"7."), Some((false, vec![7], vec![])));
    assert_eq!(lex(b"abc"), None);
    assert_eq!(lex(b"-"), None);
    assert_eq!(lex(b"."), None);
    assert_eq!(lex(b"   "), None);
    assert_eq!(lex(b""), None);
    assert_eq!(lex(b"\"\""), None);
    assert_eq!(lex(b"\x0b5"), None);
}
