use omnistack::modules::ModuleKind;
use omnistack::nio::AdapterKind;
use omnistack::registry::Registry;

#[test]
fn factory_test_register_module() {
    let mut registry = Registry::new();
    registry.register("Foo", ModuleKind::UserNode);
    assert!(registry.contains_name("Foo"), "Foo should be registered");
}

#[test]
fn registry_test_register_module() {
    let mut registry = Registry::new();
    registry.register("Foo", ModuleKind::EthSender);
    assert!(registry.contains_name("Foo"), "Foo should be registered");
}

#[test]
fn build_returns_registered_kind() {
    let mut registry = Registry::new();
    registry.register("UserNode", ModuleKind::UserNode);
    registry.register("EthSender", ModuleKind::EthSender);
    let m = registry.build_module("UserNode").unwrap();
    assert_eq!(m.kind(), ModuleKind::UserNode);
    let m = registry.build_module("EthSender").unwrap();
    assert_eq!(m.kind(), ModuleKind::EthSender);
    assert!(registry.build_module("Quux").is_none());
}

#[test]
fn double_registration_is_detectable_and_overwrites() {
    let mut registry = Registry::new();
    let first = registry.register("Node", ModuleKind::UserNode);
    assert!(!first);
    let dup = registry.register("Node", ModuleKind::EthSender);
    assert!(dup, "second registration under one name must be reported");
    let m = registry.build_module("Node").unwrap();
    assert_eq!(m.kind(), ModuleKind::EthSender);
}

#[test]
fn adapters_register_separately() {
    let mut registry = Registry::new();
    let dup = registry.register_adapter("Dpdk", AdapterKind::Nic);
    assert!(!dup);
    assert_eq!(registry.build_adapter("Dpdk"), Some(AdapterKind::Nic));
    assert_eq!(registry.build_adapter("Missing"), None);
    assert!(!registry.contains_name("Dpdk"), "adapter names live in their own map");
}
