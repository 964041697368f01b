use std::collections::BTreeSet;

use rayonet::capability::{CpuArch, NodeProfile, Os, Role};
use rayonet::graph::{Topology, ROOT};
use rayonet::observability::{Event, NodeState, RunState};
use rayonet::paths::{choose_active, redundancy_gaps, Metric, RelayReport};
use rayonet::protocol::ChildAd;
use rayonet::reach::{cuts, cyclic, reach, survivors};

fn profile() -> NodeProfile {
    NodeProfile {
        os: Os::Linux,
        arch: CpuArch::unknown(),
        cores: 4,
        ram_mb: 8_000,
        gpus: Vec::new(),
    }
}

/// Build a run state from `(path_id, physical_id)` discovery facts.
fn discovered(facts: &[(&str, &str)]) -> RunState {
    let mut state = RunState::default();
    for (path, id) in facts {
        state.apply(&Event::identified(path, id, profile(), Role::Compute, 0));
    }
    state
}

fn ids(items: &[&str]) -> BTreeSet<String> {
    items.iter().map(|s| (*s).to_string()).collect()
}

fn set(items: Vec<String>) -> BTreeSet<String> {
    items.into_iter().collect()
}

#[test]
fn a_diamond_dedups_the_shared_leaf_into_one_two_parent_vertex() {
    let state = discovered(&[("A", "idA"), ("B", "idB"), ("A/L", "idL"), ("B/L", "idL")]);
    let topo = Topology::from_run_state(&state);

    assert_eq!(set(topo.parents_of("idL")), ids(&["idA", "idB"]));
    assert!(topo.parents_of("idA").is_empty());

    assert!(topo.is_acyclic());
    assert!(!set(topo.single_points_of_failure()).contains("idL"));
    assert!(topo.is_redundant("idL"));
}

#[test]
fn a_single_parent_relay_is_a_flagged_point_of_failure() {
    let state = discovered(&[("A", "idA"), ("A/L", "idL")]);
    let topo = Topology::from_run_state(&state);

    assert_eq!(set(topo.parents_of("idL")), ids(&["idA"]));
    assert!(set(topo.single_points_of_failure()).contains("idA"));
    assert!(!topo.is_redundant("idL"));
}

#[test]
fn the_coordinator_root_is_not_reported_as_a_point_of_failure() {
    let state = discovered(&[("A", "idA"), ("B", "idB")]);
    let topo = Topology::from_run_state(&state);
    assert!(topo.single_points_of_failure().is_empty());
}

#[test]
fn a_cyclic_children_config_is_detected() {
    let state = discovered(&[("A", "idA"), ("A/B", "idB"), ("A/B/A2", "idA")]);
    let topo = Topology::from_run_state(&state);
    assert!(!topo.is_acyclic());
}

#[test]
fn an_unknown_node_has_no_parents_and_is_not_redundant() {
    let state = discovered(&[("A", "idA"), ("A/L", "idL")]);
    let topo = Topology::from_run_state(&state);
    assert!(topo.parents_of("missing").is_empty());
    assert!(!topo.is_redundant("missing"));
}

#[test]
fn a_node_seen_without_a_profile_contributes_nothing() {
    let mut state = discovered(&[("A", "idA"), ("A/L", "idL")]);
    state.apply(&Event::node("A/ghost", NodeState::Working));
    let topo = Topology::from_run_state(&state);
    assert_eq!(set(topo.parents_of("idL")), ids(&["idA"]));
    assert!(!topo.is_redundant("idL"));
}

#[test]
fn a_redundant_node_survives_when_an_unrelated_relay_dies() {
    let state = discovered(&[
        ("A", "idA"),
        ("B", "idB"),
        ("A/L", "idL"),
        ("B/L", "idL"),
        ("A/X", "idX"),
    ]);
    let topo = Topology::from_run_state(&state);
    assert!(set(topo.single_points_of_failure()).contains("idA"));
    assert!(topo.is_redundant("idL"));
    assert!(!topo.is_redundant("idX"));
    assert!(topo.is_redundant("idA"));
}

#[test]
fn a_relay_behind_one_relay_is_not_redundant_for_its_childs_sake() {
    // L is reached through R1/A and through R2, but the only way down to A is
    // through R1.
    let topo = Topology::from_run_state(&discovered(&[
        ("R1", "idR1"),
        ("R1/A", "idA"),
        ("R1/A/L", "idL"),
        ("R2", "idR2"),
        ("R2/L", "idL"),
    ]));
    assert!(!topo.is_redundant("idA"));
    assert!(topo.is_redundant("idL"));
    assert!(topo.is_redundant("idR1"));
    assert!(topo.single_points_of_failure().is_empty());
}

#[test]
fn vertices_are_numbered_from_the_coordinator_in_id_order() {
    let state = discovered(&[("B", "idB"), ("A", "idA"), ("A/S", "idA")]);
    let topo = Topology::from_run_state(&state);
    assert_eq!(topo.len(), 3);
    assert_eq!(topo.id_of(0), ROOT);
    assert_eq!(topo.vertex("idA"), Some(1));
    assert_eq!(topo.vertex("idB"), Some(2));
    assert_eq!(topo.vertex("none"), None);
    // A machine reached through itself gives no edge.
    assert_eq!(*topo.edge_indices(), vec![(0, 1), (0, 2)]);
}

#[test]
fn reachability_on_plain_links() {
    let links = vec![(0, 1), (1, 2), (3, 4)];
    assert_eq!(reach(&links, 5, 0), vec![true, true, true, false, false]);
    assert!(!cyclic(&links, 5));
    assert!(cyclic(&vec![(0, 1), (1, 2), (2, 0)], 3));
    assert_eq!(survivors(&links, 1), vec![(3, 4)]);
    assert!(cuts(&links, 5, 1));
    assert!(!cuts(&links, 5, 0));
    assert!(!cuts(&vec![(0, 1), (1, 2), (2, 0)], 3, 1));
}

fn report(label: &str, latency: u64, children: &[(&str, &str, u64)]) -> RelayReport {
    RelayReport::new(
        label.to_string(),
        latency,
        children
            .iter()
            .map(|(l, id, us)| ChildAd::new((*l).to_string(), (*id).to_string(), 1, *us))
            .collect(),
    )
}

#[test]
fn each_machine_runs_on_its_fastest_path() {
    let relays = vec![
        report("A", 100, &[("s", "idS", 50), ("x", "idX", 1)]),
        report("B", 10, &[("s", "idS", 60)]),
        report("C", 10, &[("s", "idS", 60)]),
    ];
    let active = choose_active(&relays, Metric::ShortestLatency);
    assert_eq!(
        active,
        vec![vec!["x".to_string()], vec!["s".to_string()], Vec::new()]
    );
    assert_eq!(redundancy_gaps(&relays), vec!["idX".to_string()]);
}
