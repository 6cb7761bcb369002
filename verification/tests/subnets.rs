//! Topologies, indexes and address blocks of small networks.
use indexmap::IndexMap;
use quake_subnets::node::{NodeName, SubnetName};
use quake_subnets::subnets::Subnets;

#[test]
fn single_subnet_is_connected() {
    let node_subnets: IndexMap<NodeName, Vec<SubnetName>> = [
        ("node1".to_string(), vec!["default".to_string()]),
        ("node2".to_string(), vec!["default".to_string()]),
        ("node3".to_string(), vec!["default".to_string()]),
    ]
    .into();
    assert!(Subnets::new(&node_subnets).validate_topology().is_ok());
}

#[test]
fn two_subnets_with_bridge_is_connected() {
    let node_subnets: IndexMap<NodeName, Vec<SubnetName>> = [
        ("node1".to_string(), vec!["A".to_string()]),
        ("node2".to_string(), vec!["A".to_string(), "B".to_string()]),
        ("node3".to_string(), vec!["B".to_string()]),
    ]
    .into();
    assert!(Subnets::new(&node_subnets).validate_topology().is_ok());
}

#[test]
fn chain_topology_is_connected() {
    // A -- B -- C -- D (chain of subnets)
    let node_subnets: IndexMap<NodeName, Vec<SubnetName>> = [
        ("node1".to_string(), vec!["A".to_string()]),
        ("node2".to_string(), vec!["A".to_string(), "B".to_string()]),
        ("node3".to_string(), vec!["B".to_string()]),
        ("node4".to_string(), vec!["B".to_string(), "C".to_string()]),
        ("node5".to_string(), vec!["C".to_string()]),
        ("node6".to_string(), vec!["C".to_string(), "D".to_string()]),
        ("node7".to_string(), vec!["D".to_string()]),
    ]
    .into();
    assert!(Subnets::new(&node_subnets).validate_topology().is_ok());
}

#[test]
fn star_topology_is_connected() {
    let node_subnets: IndexMap<NodeName, Vec<SubnetName>> = [
        (
            "center".to_string(),
            vec![
                "A".to_string(),
                "B".to_string(),
                "C".to_string(),
                "D".to_string(),
            ],
        ),
        ("node1".to_string(), vec!["A".to_string()]),
        ("node2".to_string(), vec!["B".to_string()]),
        ("node3".to_string(), vec!["C".to_string()]),
        ("node4".to_string(), vec!["D".to_string()]),
    ]
    .into();
    assert!(Subnets::new(&node_subnets).validate_topology().is_ok());
}

#[test]
fn two_disconnected_subnets_fails() {
    let node_subnets: IndexMap<NodeName, Vec<SubnetName>> = [
        ("node1".to_string(), vec!["A".to_string()]),
        ("node2".to_string(), vec!["A".to_string()]),
        ("node3".to_string(), vec!["B".to_string()]),
        ("node4".to_string(), vec!["B".to_string()]),
    ]
    .into();
    assert!(Subnets::new(&node_subnets).validate_topology().is_err());
}

#[test]
fn partial_disconnection_fails() {
    let node_subnets: IndexMap<NodeName, Vec<SubnetName>> = [
        ("node1".to_string(), vec!["A".to_string()]),
        ("node2".to_string(), vec!["A".to_string(), "B".to_string()]),
        ("node3".to_string(), vec!["B".to_string()]),
        ("node4".to_string(), vec!["C".to_string()]),
    ]
    .into();
    assert!(Subnets::new(&node_subnets).validate_topology().is_err());
}

#[test]
fn multiple_bridges_same_subnets() {
    let node_subnets: IndexMap<NodeName, Vec<SubnetName>> = [
        ("node1".to_string(), vec!["A".to_string()]),
        ("node2".to_string(), vec!["A".to_string(), "B".to_string()]),
        ("node3".to_string(), vec!["A".to_string(), "B".to_string()]),
        ("node4".to_string(), vec!["B".to_string()]),
    ]
    .into();
    assert!(Subnets::new(&node_subnets).validate_topology().is_ok());
}

#[test]
fn test_chain_via_shared_middle_subnet_is_connected() {
    // Bridges ["A","B"] and ["C","B"] form a chain A-B-C.
    // After the first bridge merges B into A, the second bridge finds B
    // already removed and must propagate the merge so C joins A.
    let node_subnets: IndexMap<NodeName, Vec<SubnetName>> = [
        ("n1".to_string(), vec!["A".to_string()]),
        (
            "bridge_ab".to_string(),
            vec!["A".to_string(), "B".to_string()],
        ),
        ("n2".to_string(), vec!["B".to_string()]),
        (
            "bridge_cb".to_string(),
            vec!["C".to_string(), "B".to_string()],
        ),
        ("n3".to_string(), vec!["C".to_string()]),
    ]
    .into();

    assert!(Subnets::new(&node_subnets).validate_topology().is_ok());
}

#[test]
fn triangle_topology_is_connected() {
    let node_subnets: IndexMap<NodeName, Vec<SubnetName>> = [
        (
            "bridge_bc".to_string(),
            vec!["B".to_string(), "C".to_string()],
        ),
        (
            "bridge_ac".to_string(),
            vec!["A".to_string(), "C".to_string()],
        ),
        (
            "bridge_ab".to_string(),
            vec!["A".to_string(), "B".to_string()],
        ),
    ]
    .into();

    assert!(Subnets::new(&node_subnets).validate_topology().is_ok());
}

#[test]
fn cidr_map_returns_correct_blocks() {
    let node_subnets: IndexMap<NodeName, Vec<SubnetName>> = [
        ("node1".to_string(), vec!["A".to_string()]),
        ("node2".to_string(), vec!["A".to_string(), "B".to_string()]),
        ("node3".to_string(), vec!["B".to_string()]),
    ]
    .into();
    let subnets = Subnets::new(&node_subnets);
    let cidr = subnets.cidr_map();
    assert_eq!(cidr.get("A").unwrap(), "172.21.0.0/16");
    assert_eq!(cidr.get("B").unwrap(), "172.22.0.0/16");
}

#[test]
fn subnet_indexes_for_returns_correct_indexes() {
    let node_subnets: IndexMap<NodeName, Vec<SubnetName>> = [
        ("node1".to_string(), vec!["A".to_string()]),
        ("node2".to_string(), vec!["A".to_string(), "B".to_string()]),
        ("node3".to_string(), vec!["B".to_string()]),
    ]
    .into();
    let subnets = Subnets::new(&node_subnets);
    assert_eq!(
        subnets.subnet_indexes_for("node2"),
        vec![("A".to_string(), 21), ("B".to_string(), 22)]
    );
}

#[test]
fn shared_subnets_returns_common_subnets() {
    let node_subnets: IndexMap<NodeName, Vec<SubnetName>> = [
        ("node1".to_string(), vec!["A".to_string()]),
        ("node2".to_string(), vec!["A".to_string(), "B".to_string()]),
        ("node3".to_string(), vec!["B".to_string()]),
    ]
    .into();
    let subnets = Subnets::new(&node_subnets);
    assert_eq!(subnets.shared_subnets("node1", "node2"), vec!["A"]);
    assert!(subnets.shared_subnets("node1", "node3").is_empty());
}

#[test]
fn shared_subnets_multiple_common() {
    let node_subnets: IndexMap<NodeName, Vec<SubnetName>> = [
        (
            "node1".to_string(),
            vec!["A".to_string(), "B".to_string(), "C".to_string()],
        ),
        (
            "node2".to_string(),
            vec!["A".to_string(), "B".to_string(), "D".to_string()],
        ),
        ("node3".to_string(), vec!["D".to_string()]),
    ]
    .into();
    let subnets = Subnets::new(&node_subnets);
    let shared = subnets.shared_subnets("node1", "node2");
    assert_eq!(shared.len(), 2);
    assert!(shared.contains(&"A".to_string()));
    assert!(shared.contains(&"B".to_string()));
}

#[test]
fn shared_subnets_order_invariant() {
    let node_subnets: IndexMap<NodeName, Vec<SubnetName>> = [
        ("node1".to_string(), vec!["A".to_string(), "B".to_string()]),
        ("node2".to_string(), vec!["A".to_string(), "B".to_string()]),
    ]
    .into();
    let subnets = Subnets::new(&node_subnets);
    assert_eq!(
        subnets.shared_subnets("node1", "node2"),
        subnets.shared_subnets("node2", "node1")
    );
}

#[test]
fn shared_subnets_same_node_returns_all_subnets() {
    let node_subnets: IndexMap<NodeName, Vec<SubnetName>> = [
        ("node1".to_string(), vec!["A".to_string(), "B".to_string()]),
        ("node2".to_string(), vec!["A".to_string()]),
    ]
    .into();
    let subnets = Subnets::new(&node_subnets);
    let shared = subnets.shared_subnets("node1", "node1");
    assert_eq!(shared, vec!["A".to_string(), "B".to_string()]);
}
