//! What holds of all networks, on examples, and the cases at the edges.
use indexmap::IndexMap;
use quake_subnets::decimal::decimal_text;
use quake_subnets::node::{NodeName, SubnetName};
use quake_subnets::subnets::{SubnetMetadata, Subnets};

fn manifest(nodes: &[(&str, &[&str])]) -> IndexMap<NodeName, Vec<SubnetName>> {
    nodes
        .iter()
        .map(|(node, subnets)| {
            (
                node.to_string(),
                subnets.iter().map(|s| s.to_string()).collect(),
            )
        })
        .collect()
}

fn subnets(nodes: &[(&str, &[&str])]) -> Subnets {
    Subnets::new(&manifest(nodes))
}

fn connected(nodes: &[(&str, &[&str])]) -> bool {
    subnets(nodes).validate_topology().is_ok()
}

#[test]
fn no_nodes_no_subnets() {
    let none = subnets(&[]);
    assert!(none.is_empty());
    assert!(none.cidr_map().is_empty());
    assert!(none.validate_topology().is_ok());
    assert!(!none.contains_node("node1"));
    assert_eq!(none, Subnets::default());
}

#[test]
fn nodes_without_subnets_define_none() {
    let none = subnets(&[("node1", &[]), ("node2", &[])]);
    assert!(none.is_empty());
    assert!(none.validate_topology().is_ok());
    assert!(none.contains_node("node2"));
    assert!(none.subnets_of("node2").is_empty());
    assert!(none.subnet_indexes_for("node2").is_empty());
}

#[test]
fn one_subnet_is_not_empty() {
    assert!(!subnets(&[("node1", &["A"])]).is_empty());
}

#[test]
fn subnets_are_numbered_by_first_appearance() {
    let s = subnets(&[("n1", &["C", "A"]), ("n2", &["B", "C"]), ("n3", &["A"])]);
    let order: Vec<&String> = s.subnets_meta().keys().collect();
    assert_eq!(order, vec!["C", "A", "B"]);
    assert_eq!(
        s.subnets_meta().get("B").unwrap(),
        &SubnetMetadata {
            name: "B".to_string(),
            index: 23,
            cidr: "172.23.0.0/16".to_string(),
        }
    );
    let blocks: Vec<(String, String)> = s.cidr_map().into_iter().collect();
    assert_eq!(
        blocks,
        vec![
            ("C".to_string(), "172.21.0.0/16".to_string()),
            ("A".to_string(), "172.22.0.0/16".to_string()),
            ("B".to_string(), "172.23.0.0/16".to_string()),
        ]
    );
}

#[test]
fn indexes_and_blocks_are_unique() {
    let names: Vec<String> = (0..120).map(|i| format!("s{i}")).collect();
    let listed: Vec<&str> = names.iter().map(|s| s.as_str()).collect();
    let s = subnets(&[("hub", &listed)]);
    let indexes: Vec<usize> = s.subnet_indexes_for("hub").into_iter().map(|p| p.1).collect();
    assert_eq!(indexes, (21..141).collect::<Vec<usize>>());
    let cidrs = s.cidr_map();
    let blocks: std::collections::HashSet<&String> = cidrs.values().collect();
    assert_eq!(blocks.len(), 120);
    assert!(!blocks.contains(&"172.19.0.0/16".to_string()));
    assert!(!blocks.contains(&"172.20.0.0/16".to_string()));
    assert_eq!(cidrs.get("s79").unwrap(), "172.100.0.0/16");
    assert!(s.validate_topology().is_ok());
}

#[test]
fn later_nodes_keep_earlier_indexes() {
    let before = subnets(&[("n1", &["B", "A"])]);
    let after = subnets(&[("n1", &["B", "A"]), ("n2", &["C", "A"])]);
    assert_eq!(before.subnet_indexes_for("n1"), after.subnet_indexes_for("n1"));
}

#[test]
fn decimal_notation() {
    assert_eq!(decimal_text(0), "0");
    assert_eq!(decimal_text(9), "9");
    assert_eq!(decimal_text(10), "10");
    assert_eq!(decimal_text(172), "172");
    assert_eq!(decimal_text(usize::MAX), usize::MAX.to_string());
}

#[test]
fn nodes_and_subnets_agree() {
    let s = subnets(&[("n1", &["A"]), ("n2", &["B", "A", "A"]), ("n3", &[])]);
    assert_eq!(s.subnet_nodes().get("A").unwrap(), &vec!["n1", "n2", "n2"]);
    assert_eq!(s.subnet_nodes().get("B").unwrap(), &vec!["n2"]);
    assert_eq!(s.subnets_of("n2"), vec!["B", "A", "A"]);
    assert_eq!(s.node_subnets().get("n2").unwrap(), &vec!["B", "A", "A"]);
}

#[test]
fn repeated_subnets_keep_their_index() {
    let s = subnets(&[("n1", &["A", "B", "A"])]);
    assert_eq!(
        s.subnet_indexes_for("n1"),
        vec![
            ("A".to_string(), 21),
            ("B".to_string(), 22),
            ("A".to_string(), 21)
        ]
    );
}

#[test]
fn unknown_node_has_no_indexes() {
    let s = subnets(&[("n1", &["A"])]);
    assert!(s.subnet_indexes_for("n2").is_empty());
    assert!(s.contains_node("n1"));
    assert!(!s.contains_node("n2"));
    assert!(!s.contains_node("A"));
}

#[test]
fn shared_subnets_follow_the_first_node() {
    let s = subnets(&[("n1", &["A", "B", "C"]), ("n2", &["C", "D", "A"])]);
    assert_eq!(s.shared_subnets("n1", "n2"), vec!["A", "C"]);
    assert_eq!(s.shared_subnets("n2", "n1"), vec!["C", "A"]);
}

#[test]
fn disconnected_components_are_reported() {
    let s = subnets(&[
        ("node1", &["A"]),
        ("node2", &["A", "B"]),
        ("node3", &["C"]),
        ("node4", &["B", "D"]),
    ]);
    let error = s.validate_topology().unwrap_err();
    assert_eq!(error.components.len(), 2);
    assert_eq!(
        error.components.get("A").unwrap(),
        &vec!["node1", "node2", "node2", "node4", "node4"]
    );
    assert_eq!(error.components.get("C").unwrap(), &vec!["node3"]);
}

#[test]
fn message_shows_the_components() {
    let s = subnets(&[("node1", &["A"]), ("node2", &["A"]), ("node\"3", &["B"])]);
    assert_eq!(
        s.validate_topology().unwrap_err().message(),
        "Network topology is disconnected: {\"A\": [\"node1\", \"node2\"], \"B\": [\"node\\\"3\"]}"
    );
}

#[test]
fn removed_component_leaves_its_place_to_the_last() {
    let s = subnets(&[
        ("n1", &["A"]),
        ("n2", &["B"]),
        ("n3", &["C"]),
        ("n4", &["D"]),
        ("n5", &["A", "B"]),
    ]);
    let error = s.validate_topology().unwrap_err();
    let left: Vec<&String> = error.components.keys().collect();
    assert_eq!(left, vec!["A", "D", "C"]);
}

#[test]
fn bridges_in_both_directions_are_connected() {
    assert!(connected(&[("n1", &["A", "B"]), ("n2", &["B", "A"])]));
    assert!(!connected(&[
        ("n1", &["A", "B"]),
        ("n2", &["B", "A"]),
        ("n3", &["C"])
    ]));
}

#[test]
fn repeated_subnets_do_not_disconnect() {
    assert!(connected(&[("n1", &["A", "A", "B"]), ("n2", &["B", "B"])]));
    assert!(!connected(&[("n1", &["A", "A"]), ("n2", &["B", "B"])]));
}

#[test]
fn order_of_nodes_does_not_matter() {
    let nodes: [(&str, &[&str]); 4] = [
        ("n1", &["A", "B"]),
        ("n2", &["C", "D"]),
        ("n3", &["D", "B"]),
        ("n4", &["E", "C"]),
    ];
    for i in 0..4 {
        for j in 0..4 {
            let mut shuffled = nodes;
            shuffled.swap(i, j);
            assert!(connected(&shuffled));
            let unbridged: Vec<(&str, &[&str])> =
                shuffled.into_iter().filter(|n| n.0 != "n3").collect();
            assert!(!connected(&unbridged));
        }
    }
}

#[test]
fn long_chains_merge_from_either_end() {
    let names: Vec<String> = (0..40).map(|i| format!("s{i}")).collect();
    let mut forwards: IndexMap<NodeName, Vec<SubnetName>> = IndexMap::new();
    let mut backwards: IndexMap<NodeName, Vec<SubnetName>> = IndexMap::new();
    for i in 0..39 {
        forwards.insert(format!("n{i}"), vec![names[i].clone(), names[i + 1].clone()]);
        backwards.insert(
            format!("n{i}"),
            vec![names[39 - i].clone(), names[38 - i].clone()],
        );
    }
    assert!(Subnets::new(&forwards).validate_topology().is_ok());
    assert!(Subnets::new(&backwards).validate_topology().is_ok());
    forwards.shift_remove("n20");
    let error = Subnets::new(&forwards).validate_topology().unwrap_err();
    assert_eq!(error.components.len(), 2);
}

#[test]
fn hub_connects_and_unbridged_subnet_disconnects() {
    assert!(connected(&[
        ("n1", &["A"]),
        ("n2", &["B"]),
        ("hub", &["C", "A", "B"])
    ]));
    assert!(!connected(&[
        ("hub", &["A", "B", "C"]),
        ("n1", &["D"]),
        ("n2", &["D", "D"])
    ]));
}

#[test]
fn clones_are_equal() {
    let s = subnets(&[("n1", &["A", "B"]), ("n2", &["C"])]);
    let copy = s.clone();
    assert_eq!(copy, s);
    assert_eq!(copy.cidr_map(), s.cidr_map());
    assert!(copy.validate_topology().is_err());
}
