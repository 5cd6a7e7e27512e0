use omnistack::config::{ConfigError, ConfigManager, ConfigValue, GraphConfig, LoadOutcome};
use omnistack::service::{
    handle_request, Request, Response, ResponseData, ServiceError, ThreadId, ThreadIdAllocator,
};

fn s(v: &str) -> ConfigValue {
    ConfigValue::Str(v.to_string())
}

fn graph_tree(name: &str) -> ConfigValue {
    ConfigValue::Obj(vec![
        ("type".to_string(), s("Graph")),
        ("name".to_string(), s(name)),
        (
            "modules".to_string(),
            ConfigValue::Arr(vec![s("UserNode"), s("IoNode")]),
        ),
        (
            "links".to_string(),
            ConfigValue::Arr(vec![ConfigValue::Arr(vec![s("UserNode"), s("IoNode")])]),
        ),
    ])
}

#[test]
fn graph_trees_load_and_duplicates_are_skipped() {
    let mut mgr = ConfigManager::get();
    assert_eq!(mgr.load_value(&graph_tree("UDP")), Ok(LoadOutcome::AddedGraph));
    assert_eq!(mgr.load_value(&graph_tree("UDP")), Ok(LoadOutcome::SkippedDuplicate));
    let g = mgr.get_graph_config("UDP").expect("loaded");
    assert_eq!(g.modules.len(), 2);
    assert_eq!(g.links.len(), 1);
    assert!(mgr.get_graph_config("Other").is_none());
    assert!(mgr.get_stack_config("UDP").is_none());
}

#[test]
fn malformed_trees_are_rejected_with_the_right_error() {
    // a missing required field
    let missing = ConfigValue::Obj(vec![("type".to_string(), s("Graph"))]);
    let mut mgr = ConfigManager::get();
    assert_eq!(mgr.load_value(&missing), Err(ConfigError::MissingField));
    // a field of the wrong shape
    let wrong = ConfigValue::Obj(vec![
        ("type".to_string(), s("Graph")),
        ("name".to_string(), ConfigValue::Num(3)),
    ]);
    assert_eq!(mgr.load_value(&wrong), Err(ConfigError::WrongType));
    // an unknown type tag
    let odd = ConfigValue::Obj(vec![("type".to_string(), s("Widget"))]);
    assert_eq!(mgr.load_value(&odd), Err(ConfigError::WrongType));
    // a stack whose route is out of range
    let bad_route = ConfigValue::Obj(vec![
        ("type".to_string(), s("Stack")),
        ("name".to_string(), s("S")),
        ("nics".to_string(), ConfigValue::Arr(vec![])),
        (
            "routes".to_string(),
            ConfigValue::Arr(vec![ConfigValue::Obj(vec![
                ("ipv4".to_string(), s("10.0.0.0")),
                ("cidr".to_string(), ConfigValue::Num(40)),
                ("nic".to_string(), ConfigValue::Num(0)),
            ])]),
        ),
        ("graphs".to_string(), ConfigValue::Arr(vec![])),
    ]);
    assert_eq!(mgr.load_value(&bad_route), Err(ConfigError::InvalidValue));
}

#[test]
fn graph_config_interprets_names_and_links() {
    let g = GraphConfig::from_value(&graph_tree("UDP")).unwrap();
    assert_eq!(g.name, "UDP");
    assert_eq!(g.modules, vec!["UserNode".to_string(), "IoNode".to_string()]);
    assert_eq!(g.links, vec![("UserNode".to_string(), "IoNode".to_string())]);
}

#[test]
fn thread_ids_are_dense_and_reused() {
    let mut alloc = ThreadIdAllocator::new();
    let a = alloc.next_id().unwrap();
    let b = alloc.next_id().unwrap();
    assert_eq!(a, 0);
    assert_eq!(b, 1);
    alloc.free(a);
    let c = alloc.next_id().unwrap();
    // the freed id comes back once the cursor wraps to it
    assert!(c != b);
    let mut seen = vec![a, b, c];
    seen.sort();
    seen.dedup();
    assert_eq!(seen.len(), 3);
}

#[test]
fn the_service_protocol_assigns_and_releases() {
    let mut alloc = ThreadIdAllocator::new();
    let r: Response = handle_request(&mut alloc, Request::ThreadEnter);
    let id = match r.data {
        Ok(ResponseData::ThreadEnter { thread_id }) => thread_id,
        other => panic!("unexpected response: {:?}", other),
    };
    let r = handle_request(&mut alloc, Request::ThreadExit { thread_id: id });
    assert_eq!(r.data, Ok(ResponseData::Empty));
    let r = handle_request(&mut alloc, Request::ThreadExit { thread_id: u32::MAX });
    assert_eq!(r.data, Err(ServiceError::InvalidRequest));
}

#[test]
fn thread_identity_validity() {
    let mut t = ThreadId::new();
    assert!(!t.is_valid());
    t.set(7);
    assert!(t.is_valid());
    assert_eq!(t.get(), 7);
}
