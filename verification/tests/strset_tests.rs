use spdk_rs::order::{str_eq, str_lt};
use spdk_rs::shim::should_load_pcie_driver;
use spdk_rs::strset::StrSet;

fn items(s: &StrSet) -> Vec<String> {
    let mut v = Vec::new();
    let mut i = 0;
    while i < s.len() {
        v.push(s.get(i).clone());
        i += 1;
    }
    v
}

#[test]
fn order_on_names() {
    assert!(str_lt("a", "b"));
    assert!(!str_lt("b", "a"));
    assert!(!str_lt("a", "a"));
    assert!(str_lt("", "a"));
    assert!(str_lt("a", "ab"));
    assert!(str_lt("spdk_env_dpdk", "spdk_log"));
    assert!(str_eq("uuid", "uuid"));
    assert!(!str_eq("uuid", "uuif"));
    assert!(!str_eq("uuid", "uui"));
}

#[test]
fn insert_keeps_sorted_order() {
    let mut s = StrSet::new();
    s.insert("b".to_string());
    s.insert("a".to_string());
    s.insert("c".to_string());
    assert_eq!(items(&s), vec!["a", "b", "c"]);
}

#[test]
fn insert_deduplicates() {
    let mut s = StrSet::new();
    s.insert("x".to_string());
    s.insert("x".to_string());
    assert_eq!(s.len(), 1);
    assert_eq!(items(&s), vec!["x"]);
}

#[test]
fn gate_follows_variable_presence() {
    // The native call is made exactly when the gating variable is present,
    // with any value, the empty one included.
    assert!(should_load_pcie_driver(&Some("1".to_string())));
    assert!(should_load_pcie_driver(&Some(String::new())));
    assert!(!should_load_pcie_driver(&None));
}
