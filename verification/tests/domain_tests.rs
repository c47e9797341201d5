use zen_engine::domain::AliasManager;
use zen_engine::types::BusinessTemplate;

#[test]
fn finance_labels() {
    let a = AliasManager::get_aliases(BusinessTemplate::Finance);
    assert_eq!(a.len(), 7);
    assert_eq!(AliasManager::translate("sum", &a), "Volumen Total");
    assert_eq!(AliasManager::translate("Min", &a), "Mínimo (H/L)");
    assert_eq!(AliasManager::translate("mean", &a), "mean");
}

#[test]
fn general_has_no_overrides() {
    let a = AliasManager::get_aliases(BusinessTemplate::General);
    assert!(a.is_empty());
    assert_eq!(AliasManager::translate("count", &a), "count");
}

#[test]
fn other_templates() {
    let n = AliasManager::get_aliases(BusinessTemplate::Network);
    assert_eq!(AliasManager::translate("Unique", &n), "Hosts Únicos");
    let c = AliasManager::get_aliases(BusinessTemplate::Cybersecurity);
    assert_eq!(AliasManager::translate("count", &c), "Alertas / Logs");
    let s = AliasManager::get_aliases(BusinessTemplate::Sales);
    assert_eq!(AliasManager::translate("Avg", &s), "Venta Promedio");
}
