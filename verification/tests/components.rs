use equisat::constant::Constant;
use equisat::enode::{Add, ENode, Sub};
use equisat::heuristics::{
    harvest_heuristics, BlockId, FuncId, InlineHeuristics, InstId, Instruction,
    InstructionPurity, Program, Terminator,
};
use equisat::ids::{EClassId, ENodeId};
use equisat::render::EdgeKind;

#[test]
fn id_reinterpretation_round_trips() {
    let n = ENodeId::new(42);
    assert_eq!(n.as_eclass(), EClassId::new(42));
    assert_eq!(n.as_eclass().as_enode(), n);
    let c = EClassId::new(7);
    assert_eq!(c.as_enode(), ENodeId::new(7));
    assert_eq!(c.as_enode().as_eclass(), c);
}

#[test]
fn enode_variant_accessors() {
    let a = Add::new(EClassId::new(1), EClassId::new(2));
    assert_eq!(a.lhs(), EClassId::new(1));
    assert_eq!(a.rhs(), EClassId::new(2));
    let s = Sub::new(EClassId::new(3), EClassId::new(4));
    assert_eq!(s.lhs(), EClassId::new(3));
    assert_eq!(s.rhs(), EClassId::new(4));

    let add_node = ENode::Add(a);
    let sub_node = ENode::Sub(s);
    assert!(add_node.is_add());
    assert!(!add_node.is_sub());
    assert!(sub_node.is_sub());
    assert!(!sub_node.is_add());
    assert!(!ENode::Constant.is_add());
    assert_eq!(add_node.as_add(), Some(a));
    assert_eq!(add_node.as_sub(), None);
    assert_eq!(sub_node.as_sub(), Some(s));
    assert_eq!(sub_node.as_add(), None);
    assert_eq!(ENode::Constant.as_add(), None);
}

#[test]
fn constant_accessors() {
    assert_eq!(Constant::Bool(true).as_bool(), Some(true));
    assert_eq!(Constant::Bool(false).as_bool(), Some(false));
    assert_eq!(Constant::Uint8(3).as_bool(), None);
    assert!(Constant::Uint8(0).is_zero());
    assert!(!Constant::Uint8(1).is_zero());
    assert!(!Constant::Bool(false).is_zero());
}

#[test]
fn constant_arithmetic() {
    let three = Constant::Uint8(3);
    let five = Constant::Uint8(5);
    assert_eq!(three.add(&five), Constant::Uint8(8));
    assert_eq!(five.sub(&three), Constant::Uint8(2));
    assert_eq!(five.sub(&five), Constant::Uint8(0));
}

#[test]
fn edge_kind_colors() {
    assert_eq!(EdgeKind::Control.color_attribute(), "color = black");
    assert_eq!(EdgeKind::Effect.color_attribute(), "color = cornflowerblue");
    assert_eq!(EdgeKind::Value.color_attribute(), "color = forestgreen");
}

#[test]
fn inline_heuristics_cost_and_threshold() {
    let cheap = InlineHeuristics::new(1, 2, 3, 9, 4, true, false, 12);
    assert_eq!(cheap.inline_cost(), 2 + 3 + 1 + 4);
    assert!(!cheap.trivially_inlinable());
    let heavy = InlineHeuristics::new(5, 2, 3, 9, 4, false, true, 12);
    assert_eq!(heavy.inline_cost(), 14);
    assert!(heavy.trivially_inlinable());
}

fn pure_inst(est: usize) -> Instruction {
    Instruction { call: None, purity: InstructionPurity::Pure, estimated_instructions: est }
}

fn call_inst(target: u64, est: usize) -> Instruction {
    Instruction {
        call: Some(FuncId(target)),
        purity: InstructionPurity::Impure,
        estimated_instructions: est,
    }
}

#[test]
fn harvest_counts_one_function() {
    // Function 1 has two blocks; block 10 holds a pure instruction and a
    // self-call, block 11 holds a call of function 2 and branches.
    let program = Program {
        instructions: vec![
            (InstId(100), pure_inst(1)),
            (InstId(101), call_inst(1, 2)),
            (InstId(102), call_inst(2, 4)),
        ],
        block_instructions: vec![
            (InstId(100), BlockId(10)),
            (InstId(101), BlockId(10)),
            (InstId(102), BlockId(11)),
        ],
        block_terminators: vec![
            (BlockId(10), Terminator { branching: false }),
            (BlockId(11), Terminator { branching: true }),
        ],
        function_blocks: vec![(BlockId(10), FuncId(1)), (BlockId(11), FuncId(1))],
        function_descriptors: vec![FuncId(1), FuncId(2)],
    };
    let out = harvest_heuristics(&program);
    assert_eq!(out.len(), 2);

    let (f1, h1) = &out[0];
    assert_eq!(*f1, FuncId(1));
    assert_eq!(h1.block_length, 2);
    assert_eq!(h1.ssa_inst_length, 3);
    assert_eq!(h1.invocations, 1);
    assert_eq!(h1.branches, 1);
    assert_eq!(h1.function_calls, 2);
    assert!(!h1.is_pure);
    assert!(h1.is_recursive);
    assert_eq!(h1.estimated_asm, 7);

    // Function 2 owns nothing: every count is zero, purity defaults to
    // true, and it is invoked once (by instruction 102).
    let (f2, h2) = &out[1];
    assert_eq!(*f2, FuncId(2));
    assert_eq!(h2.block_length, 0);
    assert_eq!(h2.ssa_inst_length, 0);
    assert_eq!(h2.invocations, 1);
    assert_eq!(h2.branches, 0);
    assert_eq!(h2.function_calls, 0);
    assert!(h2.is_pure);
    assert!(!h2.is_recursive);
    assert_eq!(h2.estimated_asm, 0);
}

#[test]
fn terminator_reports_branching() {
    assert!(Terminator { branching: true }.is_branching());
    assert!(!Terminator { branching: false }.is_branching());
}
