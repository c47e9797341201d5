use zen_engine::types::{BusinessTemplate, ColumnSchema, DataType, HardwareMode, IpScanMode};

#[test]
fn defaults() {
    assert_eq!(HardwareMode::default(), HardwareMode::Auto);
    assert_eq!(BusinessTemplate::default(), BusinessTemplate::General);
    assert_eq!(IpScanMode::default(), IpScanMode::Both);
}

#[test]
fn column_schema() {
    let c = ColumnSchema::new("amount", DataType::Currency);
    assert_eq!(c.name, "amount");
    assert_eq!(c.data_type, DataType::Currency);
    assert!(c.format.is_none() && c.currency_symbol.is_none());
}
