use timpani_o::config::{NodeConfig, NodeConfigManager};

fn node(name: &str, cpus: Vec<u32>, mem: u64) -> NodeConfig {
    NodeConfig {
        name: name.to_string(),
        available_cpus: cpus,
        max_memory_mb: mem,
        architecture: String::new(),
        location: String::new(),
        description: String::new(),
    }
}

#[test]
fn default_config_has_expected_values() {
    let cfg = NodeConfig::default_config("default_node");
    assert_eq!(cfg.name, "default_node");
    assert_eq!(cfg.available_cpus, vec![0, 1, 2, 3]);
    assert_eq!(cfg.max_memory_mb, 4096);
    assert_eq!(cfg.architecture, "aarch64");
    assert_eq!(cfg.location, "default_location");
    assert!(!cfg.description.is_empty());
}

#[test]
fn cpu_count_matches_available_cpus_length() {
    let cfg = NodeConfig::default_config("n");
    assert_eq!(cfg.cpu_count(), cfg.available_cpus.len());
}

#[test]
fn get_available_cpus_falls_back_for_unknown_node() {
    let mgr = NodeConfigManager::new();
    assert_eq!(mgr.get_available_cpus("nonexistent"), vec![0, 1, 2, 3]);
}

#[test]
fn new_manager_is_not_loaded() {
    let mgr = NodeConfigManager::new();
    assert!(!mgr.is_loaded());
    assert_eq!(mgr.get_all_nodes().len(), 0);
}

#[test]
fn loaded_nodes_are_sorted_by_name() {
    let mut mgr = NodeConfigManager::new();
    mgr.load_nodes(vec![
        node("node03", vec![2, 3, 6, 7], 4096),
        node("node01", vec![2, 3], 4096),
        node("node02", vec![2, 3, 4, 5], 8192),
    ]);
    assert!(mgr.is_loaded());
    let names: Vec<&str> = mgr.get_all_nodes().iter().map(|n| n.name.as_str()).collect();
    assert_eq!(names, vec!["node01", "node02", "node03"]);
    assert_eq!(mgr.get_node_config("node02").unwrap().max_memory_mb, 8192);
    assert_eq!(mgr.get_available_cpus("node03"), vec![2, 3, 6, 7]);
    assert!(mgr.get_node_config("node04").is_none());
}

#[test]
fn later_entry_with_same_name_wins() {
    let mut mgr = NodeConfigManager::new();
    mgr.load_nodes(vec![node("n1", vec![0], 100), node("n1", vec![1], 200)]);
    assert_eq!(mgr.get_all_nodes().len(), 1);
    assert_eq!(mgr.get_node_config("n1").unwrap().max_memory_mb, 200);
}

#[test]
fn empty_node_list_loads_default_node() {
    let mut mgr = NodeConfigManager::new();
    mgr.load_nodes(Vec::new());
    assert!(mgr.is_loaded());
    let n = mgr.get_node_config("default_node").unwrap();
    assert_eq!(n.available_cpus, vec![0, 1, 2, 3]);
    assert_eq!(n.max_memory_mb, 4096);
}

#[test]
fn reloading_replaces_previous_nodes() {
    let mut mgr = NodeConfigManager::new();
    mgr.load_nodes(vec![node("n1", vec![0], u64::MAX)]);
    assert!(mgr.get_node_config("n1").is_some());
    mgr.load_nodes(vec![node("n2", vec![1], u64::MAX)]);
    assert!(mgr.get_node_config("n1").is_none(), "old node must be gone");
    assert!(mgr.get_node_config("n2").is_some());
}
