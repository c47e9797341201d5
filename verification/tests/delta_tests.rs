use zen_engine::delta::{decode_delta, DeltaError, DeltaManager};

fn manager() -> DeltaManager {
    DeltaManager::new("test_dataset.csv".to_string(), "test_dataset.zen_delta".to_string())
}

#[test]
fn test_delta_lifecycle() {
    let mut delta = manager();
    delta.delete_row(5);
    delta.delete_row(100);
    delta.update_row(42, "updated_content_42".to_string());

    assert!(delta.is_deleted(5));
    assert!(delta.is_deleted(100));
    assert!(!delta.is_deleted(42));
    assert_eq!(delta.get_update(42).unwrap(), "updated_content_42");

    let bytes = delta.to_bytes();

    let mut loaded_delta = manager();
    loaded_delta.load(&bytes).unwrap();

    assert!(loaded_delta.is_deleted(5));
    assert!(loaded_delta.is_deleted(100));
    assert!(!loaded_delta.is_deleted(42));
    assert_eq!(loaded_delta.get_update(42).unwrap(), "updated_content_42");
    assert!(loaded_delta.get_update(5).is_none());
}

#[test]
fn update_clears_a_deletion_and_delete_drops_an_update() {
    let mut d = manager();
    d.delete_row(7);
    d.update_row(7, "x".to_string());
    assert!(!d.is_deleted(7));
    assert_eq!(d.get_update(7).unwrap(), "x");
    d.delete_row(7);
    assert!(d.is_deleted(7));
    assert!(d.get_update(7).is_none());
    assert!(!d.is_deleted(6));
    assert!(!d.is_deleted(1_000_000));
}

#[test]
fn encoding_layout() {
    let mut d = manager();
    d.delete_row(1);
    d.update_row(3, "ab".to_string());
    let b = d.to_bytes();
    let mut expected = b"ZEND".to_vec();
    expected.extend_from_slice(&1u16.to_le_bytes());
    expected.extend_from_slice(&1u64.to_le_bytes());
    expected.push(0b0000_0010);
    expected.extend_from_slice(&1u64.to_le_bytes());
    expected.extend_from_slice(&3u64.to_le_bytes());
    expected.extend_from_slice(&2u32.to_le_bytes());
    expected.extend_from_slice(b"ab");
    assert_eq!(b, expected);
}

#[test]
fn roundtrip_of_many_rows() {
    let mut d = manager();
    for r in 0..50u64 {
        if r % 3 == 0 {
            d.delete_row(r);
        } else {
            d.update_row(r, format!("row {} é", r));
        }
    }
    let mut e = manager();
    e.load(&d.to_bytes()).unwrap();
    assert_eq!(e.tombstone_mask, d.tombstone_mask);
    assert_eq!(e.updates, d.updates);
}

#[test]
fn refused_streams() {
    assert_eq!(decode_delta(b"ZEN").unwrap_err(), DeltaError::UnexpectedEof);
    assert_eq!(decode_delta(b"XXXX\x01\x00").unwrap_err(), DeltaError::InvalidMagic);
    assert_eq!(decode_delta(b"ZEND\x02\x00").unwrap_err(), DeltaError::UnsupportedVersion(2));
    assert_eq!(decode_delta(b"ZEND\x01\x00\x00").unwrap_err(), DeltaError::UnexpectedEof);
    let mut bad = b"ZEND\x01\x00".to_vec();
    bad.extend_from_slice(&0u64.to_le_bytes());
    bad.extend_from_slice(&1u64.to_le_bytes());
    bad.extend_from_slice(&9u64.to_le_bytes());
    bad.extend_from_slice(&2u32.to_le_bytes());
    bad.extend_from_slice(&[0xff, 0xfe]);
    assert_eq!(decode_delta(&bad).unwrap_err(), DeltaError::InvalidUtf8);
}

#[test]
fn failed_load_keeps_state() {
    let mut d = manager();
    d.delete_row(2);
    assert!(d.load(b"nope").is_err());
    assert!(d.is_deleted(2));
}

#[test]
fn compaction_applies_deltas() {
    let mut d = manager();
    d.delete_row(1);
    d.update_row(2, "C2".to_string());
    let out = d.compact(b"a\nb\nc\nd");
    assert_eq!(out, b"a\nC2\nd\n".to_vec());
    assert_eq!(manager().compact(b"x\ny\n"), b"x\ny\n".to_vec());
    assert_eq!(manager().compact(b""), Vec::<u8>::new());
}

#[test]
fn compaction_plan_writes_and_removes_the_delta() {
    let mut d = manager();
    d.delete_row(1);
    d.update_row(2, "C".to_string());
    let plan = d.compaction_plan(b"a\nb\nc\n");
    assert_eq!(plan.contents, b"a\nC\n".to_vec());
    assert_eq!(plan.remove, "test_dataset.zen_delta");
}
