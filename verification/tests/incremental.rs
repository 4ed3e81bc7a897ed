use equisat::egraph::EGraph;
use equisat::enode::{Add, ENode};
use equisat::ids::{EClassId, ENodeId};

fn insert(id: u64, shape: ENode) -> (ENodeId, ENode, i64) {
    (ENodeId::new(id), shape, 1)
}

#[test]
fn empty_graph_yields_empty_outputs() {
    let graph = EGraph::new();
    let out = graph.feedback();
    assert!(out.canonical_enodes.is_empty());
    assert!(out.enode_to_eclass.is_empty());
}

#[test]
fn retracted_merger_is_withdrawn() {
    let mut graph = EGraph::new();
    graph.add_enodes(vec![insert(0, ENode::Constant), insert(1, ENode::Constant)]);
    graph.add_eclass_mergers(vec![(EClassId::new(0), EClassId::new(1), 1)]);
    graph.add_eclass_mergers(vec![(EClassId::new(0), EClassId::new(1), -1)]);
    let canon: Vec<(u64, u64)> = graph
        .feedback()
        .enode_to_eclass
        .iter()
        .map(|(n, c)| (n.0, c.0))
        .collect();
    assert_eq!(canon, vec![(0, 0), (1, 1)]);
}

#[test]
fn duplicate_merger_survives_one_retraction() {
    let mut graph = EGraph::new();
    graph.add_enodes(vec![insert(0, ENode::Constant), insert(1, ENode::Constant)]);
    graph.add_eclass_mergers(vec![
        (EClassId::new(0), EClassId::new(1), 1),
        (EClassId::new(0), EClassId::new(1), 1),
        (EClassId::new(0), EClassId::new(1), -1),
    ]);
    let canon: Vec<(u64, u64)> = graph
        .feedback()
        .enode_to_eclass
        .iter()
        .map(|(n, c)| (n.0, c.0))
        .collect();
    assert_eq!(canon, vec![(0, 0), (1, 0)]);
}

#[test]
fn self_loop_merger_is_collapsed() {
    let mut graph = EGraph::new();
    graph.add_enodes(vec![insert(5, ENode::Constant)]);
    graph.add_eclass_mergers(vec![(EClassId::new(5), EClassId::new(5), 1)]);
    let canon: Vec<(u64, u64)> = graph
        .feedback()
        .enode_to_eclass
        .iter()
        .map(|(n, c)| (n.0, c.0))
        .collect();
    assert_eq!(canon, vec![(5, 5)]);
}

#[test]
fn largest_carrier_ids() {
    let mut graph = EGraph::new();
    graph.add_enodes(vec![
        insert(u64::MAX, ENode::Constant),
        insert(0, ENode::Constant),
    ]);
    graph.add_eclass_mergers(vec![(EClassId::new(u64::MAX), EClassId::new(0), 1)]);
    let canon: Vec<(u64, u64)> = graph
        .feedback()
        .enode_to_eclass
        .iter()
        .map(|(n, c)| (n.0, c.0))
        .collect();
    assert_eq!(canon, vec![(u64::MAX, 0), (0, 0)]);
}

#[test]
fn latent_merger_becomes_effective() {
    // A merge between ids not yet in the store is latent; it takes effect
    // the moment matching e-nodes arrive.
    let mut early = EGraph::new();
    early.add_enodes(vec![insert(3, ENode::Constant)]);
    early.add_eclass_mergers(vec![(EClassId::new(1), EClassId::new(3), 1)]);
    let canon: Vec<(u64, u64)> = early
        .feedback()
        .enode_to_eclass
        .iter()
        .map(|(n, c)| (n.0, c.0))
        .collect();
    assert_eq!(canon, vec![(3, 3)]);

    let mut late = EGraph::new();
    late.add_enodes(vec![insert(3, ENode::Constant)]);
    late.add_eclass_mergers(vec![(EClassId::new(1), EClassId::new(3), 1)]);
    late.add_enodes(vec![insert(1, ENode::Constant)]);
    let canon: Vec<(u64, u64)> = late
        .feedback()
        .enode_to_eclass
        .iter()
        .map(|(n, c)| (n.0, c.0))
        .collect();
    assert_eq!(canon, vec![(3, 1), (1, 1)]);
}

#[test]
fn shape_change_as_retract_and_insert() {
    // The store never mutates a pair in place: a changed e-node is the old
    // pair retracted and the new pair inserted.
    let old_shape = ENode::Add(Add::new(EClassId::new(1), EClassId::new(1)));
    let new_shape = ENode::Add(Add::new(EClassId::new(1), EClassId::new(2)));
    let mut graph = EGraph::new();
    graph.add_enodes(vec![
        insert(0, old_shape),
        insert(1, ENode::Constant),
        insert(2, ENode::Constant),
    ]);
    graph.add_enodes(vec![(ENodeId::new(0), old_shape, -1), insert(0, new_shape)]);
    let out = graph.feedback();
    let table: Vec<(u64, ENode)> = out.canonical_enodes.iter().map(|(n, s)| (n.0, *s)).collect();
    assert_eq!(table, vec![(0, new_shape)]);
}
