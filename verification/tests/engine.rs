use equisat::egraph::EGraph;
use equisat::enode::{Add, ENode, Sub};
use equisat::ids::{EClassId, ENodeId};
use equisat::rewrite::Rewrite;

fn insert(id: u64, shape: ENode) -> (ENodeId, ENode, i64) {
    (ENodeId::new(id), shape, 1)
}

fn retract(id: u64, shape: ENode) -> (ENodeId, ENode, i64) {
    (ENodeId::new(id), shape, -1)
}

fn add(lhs: u64, rhs: u64) -> ENode {
    ENode::Add(Add::new(EClassId::new(lhs), EClassId::new(rhs)))
}

fn sub(lhs: u64, rhs: u64) -> ENode {
    ENode::Sub(Sub::new(EClassId::new(lhs), EClassId::new(rhs)))
}

fn canon_pairs(graph: &EGraph) -> Vec<(u64, u64)> {
    graph
        .feedback()
        .enode_to_eclass
        .iter()
        .map(|(n, c)| (n.0, c.0))
        .collect()
}

#[test]
fn union_find() {
    let mut graph = EGraph::new();
    graph.add_enodes(vec![
        insert(0, add(2, 1)),
        insert(1, sub(3, 2)),
        insert(2, ENode::Constant),
        insert(3, ENode::Constant),
    ]);
    // Delete subtraction
    graph.add_rewrite(Rewrite::SubToLhs);
    let out = graph.feedback();
    for x in &out.enode_to_eclass {
        println!("{:?}", x);
    }
}

#[test]
fn trivial_dedup() {
    let mut graph = EGraph::new();
    graph.add_enodes(vec![
        insert(0, add(2, 2)),
        insert(1, add(2, 2)),
        insert(2, ENode::Constant),
        insert(3, ENode::Constant),
    ]);
    let out = graph.feedback();
    let canon: Vec<(u64, u64)> = out.enode_to_eclass.iter().map(|(n, c)| (n.0, c.0)).collect();
    assert_eq!(canon, vec![(0, 0), (1, 0), (2, 2), (3, 3)]);
    let table: Vec<(u64, ENode)> = out.canonical_enodes.iter().map(|(n, s)| (n.0, *s)).collect();
    assert_eq!(table, vec![(0, add(2, 2))]);
}

#[test]
fn add_sub_cancel_single_fire() {
    let mut graph = EGraph::new();
    graph.add_enodes(vec![
        insert(0, add(2, 1)),
        insert(1, sub(3, 2)),
        insert(2, ENode::Constant),
        insert(3, ENode::Constant),
    ]);
    graph.add_rewrite(Rewrite::AddSubCancel);
    // The rewrite merges the `Add`'s class with the class of the `Sub`'s
    // left operand: the merge edge (0, 3) appears.
    assert_eq!(canon_pairs(&graph), vec![(0, 0), (1, 1), (2, 2), (3, 0)]);
}

#[test]
fn retraction_of_rewrite_trigger() {
    let mut graph = EGraph::new();
    graph.add_enodes(vec![
        insert(0, add(2, 1)),
        insert(1, sub(3, 2)),
        insert(2, ENode::Constant),
        insert(3, ENode::Constant),
    ]);
    graph.add_rewrite(Rewrite::AddSubCancel);
    // Retract the Sub that triggered the merge: (0, 3) must be withdrawn and
    // canon(0) must return to 0, canon(3) to 3.
    graph.add_enodes(vec![retract(1, sub(3, 2))]);
    assert_eq!(canon_pairs(&graph), vec![(0, 0), (2, 2), (3, 3)]);
}

#[test]
fn delete_subtraction_rewrite() {
    let mut graph = EGraph::new();
    graph.add_enodes(vec![
        insert(0, add(2, 1)),
        insert(1, sub(3, 2)),
        insert(2, ENode::Constant),
        insert(3, ENode::Constant),
    ]);
    graph.add_rewrite(Rewrite::SubToLhs);
    // The Sub's class is merged with the class of its left operand.
    assert_eq!(canon_pairs(&graph), vec![(0, 0), (1, 1), (2, 2), (3, 1)]);
}

#[test]
fn transitive_merges() {
    let mut graph = EGraph::new();
    graph.add_enodes(vec![
        insert(0, ENode::Constant),
        insert(1, ENode::Constant),
        insert(2, ENode::Constant),
    ]);
    graph.add_eclass_mergers(vec![
        (EClassId::new(0), EClassId::new(1), 1),
        (EClassId::new(1), EClassId::new(2), 1),
    ]);
    assert_eq!(canon_pairs(&graph), vec![(0, 0), (1, 0), (2, 0)]);
}

#[test]
fn fixpoint_stability() {
    let mut graph = EGraph::new();
    graph.add_enodes(vec![
        insert(0, add(2, 1)),
        insert(1, sub(3, 2)),
        insert(2, ENode::Constant),
        insert(3, ENode::Constant),
    ]);
    graph.add_rewrite(Rewrite::AddSubCancel);
    let first = graph.feedback();
    let second = graph.feedback();
    assert_eq!(first.enode_to_eclass, second.enode_to_eclass);
    assert_eq!(first.canonical_enodes, second.canonical_enodes);
}

#[test]
fn diamond_convergence() {
    let mut graph = EGraph::new();
    graph.add_enodes(vec![
        insert(0, ENode::Constant),
        insert(1, ENode::Constant),
        insert(2, ENode::Constant),
        insert(3, ENode::Constant),
    ]);
    graph.add_eclass_mergers(vec![
        (EClassId::new(0), EClassId::new(1), 1),
        (EClassId::new(0), EClassId::new(2), 1),
        (EClassId::new(1), EClassId::new(3), 1),
        (EClassId::new(2), EClassId::new(3), 1),
    ]);
    assert_eq!(canon_pairs(&graph), vec![(0, 0), (1, 0), (2, 0), (3, 0)]);
}

#[test]
fn canonical_table_rewrites_operands() {
    // After merging the two Constant classes, the two Adds share one
    // canonical shape, so the hash-cons collapses them and the table's
    // operand slots hold canonical e-class ids.
    let mut graph = EGraph::new();
    graph.add_enodes(vec![
        insert(0, ENode::Constant),
        insert(1, ENode::Constant),
        insert(2, add(0, 0)),
        insert(3, add(1, 1)),
    ]);
    graph.add_eclass_mergers(vec![(EClassId::new(0), EClassId::new(1), 1)]);
    let out = graph.feedback();
    let table: Vec<(u64, ENode)> = out.canonical_enodes.iter().map(|(n, s)| (n.0, *s)).collect();
    assert_eq!(table, vec![(2, add(0, 0))]);
    let canon: Vec<(u64, u64)> = out.enode_to_eclass.iter().map(|(n, c)| (n.0, c.0)).collect();
    assert_eq!(canon, vec![(0, 0), (1, 0), (2, 2), (3, 2)]);
}

#[test]
fn dangling_operand_is_latent() {
    // Node 0's operand names e-class 7, which no e-node inhabits: the
    // canonicalizer silently produces no output for it until such an e-node
    // arrives.
    let mut graph = EGraph::new();
    graph.add_enodes(vec![insert(0, add(7, 7)), insert(1, ENode::Constant)]);
    let out = graph.feedback();
    assert!(out.canonical_enodes.is_empty());
    assert_eq!(
        out.enode_to_eclass
            .iter()
            .map(|(n, c)| (n.0, c.0))
            .collect::<Vec<_>>(),
        vec![(0, 0), (1, 1)]
    );

    let mut grown = EGraph::new();
    grown.add_enodes(vec![
        insert(0, add(7, 7)),
        insert(1, ENode::Constant),
        insert(7, ENode::Constant),
    ]);
    let out = grown.feedback();
    let table: Vec<(u64, ENode)> = out.canonical_enodes.iter().map(|(n, s)| (n.0, *s)).collect();
    assert_eq!(table, vec![(0, add(7, 7))]);
}

#[test]
fn full_retraction_leaves_nothing() {
    // Inserting and then exactly retracting a batch leaves the outputs of
    // the base input untouched: no spurious survivors.
    let mut base = EGraph::new();
    base.add_enodes(vec![insert(0, add(2, 2)), insert(2, ENode::Constant)]);
    let expected = base.feedback();

    let mut churned = EGraph::new();
    churned.add_enodes(vec![insert(0, add(2, 2)), insert(2, ENode::Constant)]);
    churned.add_enodes(vec![insert(1, add(2, 2)), insert(3, sub(2, 2))]);
    churned.add_enodes(vec![retract(1, add(2, 2)), retract(3, sub(2, 2))]);
    let got = churned.feedback();
    assert_eq!(expected.enode_to_eclass, got.enode_to_eclass);
    assert_eq!(expected.canonical_enodes, got.canonical_enodes);
}

#[test]
fn canon_is_idempotent_on_outputs() {
    let mut graph = EGraph::new();
    graph.add_enodes(vec![
        insert(4, ENode::Constant),
        insert(5, ENode::Constant),
        insert(6, ENode::Constant),
    ]);
    graph.add_eclass_mergers(vec![(EClassId::new(5), EClassId::new(4), 1)]);
    let out = graph.feedback();
    // Every canonical id, reinterpreted as an e-node id, canonicalizes to
    // itself.
    for (_, c) in &out.enode_to_eclass {
        let back = out
            .enode_to_eclass
            .iter()
            .find(|(n, _)| n.0 == c.as_enode().0)
            .expect("canonical id is a live e-node");
        assert_eq!(back.1, *c);
    }
}
