//! Inlining heuristics harvested from the program relations.
//!
//! The surrounding compiler IR supplies the program as flat relations:
//! instructions, block membership, block terminators, function membership,
//! and the set of known functions.  Per function, the harvest counts blocks,
//! instructions, call sites of the function, branching terminators and calls
//! made by the function, decides purity and self-recursion, and sums the
//! estimated machine-instruction cost; a function absent from a relation
//! counts zero there.

use vstd::prelude::*;

verus! {

/// Identifier of a function.
#[derive(Debug, Clone, Copy, PartialEq, Eq, Structural, PartialOrd, Ord, Hash)]
pub struct FuncId(pub u64);

/// Identifier of a basic block.
#[derive(Debug, Clone, Copy, PartialEq, Eq, Structural, PartialOrd, Ord, Hash)]
pub struct BlockId(pub u64);

/// Identifier of an instruction.
#[derive(Debug, Clone, Copy, PartialEq, Eq, Structural, PartialOrd, Ord, Hash)]
pub struct InstId(pub u64);

/// Whether an instruction can be freely duplicated or removed.
#[derive(Debug, Clone, Copy, PartialEq, Eq, Structural, Hash)]
pub enum InstructionPurity {
    Pure,
    Impure,
}

/// The facts about one instruction that the inlining heuristics read.
#[derive(Debug, Clone, Copy, PartialEq, Eq, Structural, Hash)]
pub struct Instruction {
    /// The called function, when the instruction is a call.
    pub call: Option<FuncId>,
    pub purity: InstructionPurity,
    /// Estimated count of machine instructions this lowers to.
    pub estimated_instructions: usize,
}

/// The facts about one block terminator that the heuristics read.
#[derive(Debug, Clone, Copy, PartialEq, Eq, Structural, Hash)]
pub struct Terminator {
    pub branching: bool,
}

impl Terminator {
    pub fn is_branching(&self) -> (r: bool)
        ensures
            r == self.branching,
    {
        self.branching
    }
}

/// The program relations the harvest consumes.
pub struct Program {
    /// Each instruction id with its instruction facts.
    pub instructions: Vec<(InstId, Instruction)>,
    /// Each instruction id with the block holding it.
    pub block_instructions: Vec<(InstId, BlockId)>,
    /// Each block with its terminator facts.
    pub block_terminators: Vec<(BlockId, Terminator)>,
    /// Each block with the function holding it.
    pub function_blocks: Vec<(BlockId, FuncId)>,
    /// The known functions.
    pub function_descriptors: Vec<FuncId>,
}

/// Block `b` belongs to function `f`.
pub open spec fn block_in(fb: Seq<(BlockId, FuncId)>, b: BlockId, f: FuncId) -> bool {
    exists|k: int| 0 <= k < fb.len() && #[trigger] fb[k] == (b, f)
}

/// Block `b` belongs to some function.
pub open spec fn block_placed(fb: Seq<(BlockId, FuncId)>, b: BlockId) -> bool {
    exists|k: int| 0 <= k < fb.len() && (#[trigger] fb[k]).0 == b
}

/// The instruction relation knows the id `iid`.
pub open spec fn has_inst(insts: Seq<(InstId, Instruction)>, iid: InstId) -> bool {
    exists|k: int| 0 <= k < insts.len() && (#[trigger] insts[k]).0 == iid
}

/// The instruction facts stored under `iid`.
pub open spec fn inst_of(insts: Seq<(InstId, Instruction)>, iid: InstId) -> Instruction {
    insts[choose|k: int| 0 <= k < insts.len() && (#[trigger] insts[k]).0 == iid].1
}

/// First components never repeat: each relation is keyed.
pub open spec fn keyed<K, V>(s: Seq<(K, V)>) -> bool {
    forall|i: int, j: int| 0 <= i < j < s.len() ==> (#[trigger] s[i]).0 != (#[trigger] s[j]).0
}

/// The program's relations are all keyed and its function list is
/// duplicate-free.
pub open spec fn program_wf(p: &Program) -> bool {
    &&& keyed(p.instructions@)
    &&& keyed(p.block_instructions@)
    &&& keyed(p.block_terminators@)
    &&& keyed(p.function_blocks@)
    &&& forall|i: int, j: int| 0 <= i < j < p.function_descriptors@.len()
            ==> #[trigger] p.function_descriptors@[i] != #[trigger] p.function_descriptors@[j]
}

pub proof fn lemma_inst_of(insts: Seq<(InstId, Instruction)>, iid: InstId, inst: Instruction)
    requires
        keyed(insts),
        exists|k: int| 0 <= k < insts.len() && #[trigger] insts[k] == (iid, inst),
    ensures
        inst_of(insts, iid) == inst,
{
    let k1 = choose|k: int| 0 <= k < insts.len() && #[trigger] insts[k] == (iid, inst);
    assert(insts[k1].0 == iid);
    let k0 = choose|k: int| 0 <= k < insts.len() && (#[trigger] insts[k]).0 == iid;
    if k0 != k1 {
        assert(insts[k0].0 == insts[k1].0);
        assert(false);
    }
}

/// Number of basic blocks of `f`.
pub open spec fn block_length_of(fb: Seq<(BlockId, FuncId)>, f: FuncId) -> int
    decreases fb.len(),
{
    if fb.len() == 0 {
        0
    } else {
        block_length_of(fb.drop_last(), f) + if fb.last().1 == f {
            1int
        } else {
            0
        }
    }
}

/// Number of instructions placed in blocks of `f`.
pub open spec fn ssa_length_of(
    insts: Seq<(InstId, Instruction)>,
    bi: Seq<(InstId, BlockId)>,
    fb: Seq<(BlockId, FuncId)>,
    f: FuncId,
) -> int
    decreases bi.len(),
{
    if bi.len() == 0 {
        0
    } else {
        ssa_length_of(insts, bi.drop_last(), fb, f) + if has_inst(insts, bi.last().0)
            && block_in(fb, bi.last().1, f) {
            1int
        } else {
            0
        }
    }
}

/// Number of placed call sites whose target is `f`.
pub open spec fn invocations_of(
    insts: Seq<(InstId, Instruction)>,
    bi: Seq<(InstId, BlockId)>,
    fb: Seq<(BlockId, FuncId)>,
    f: FuncId,
) -> int
    decreases bi.len(),
{
    if bi.len() == 0 {
        0
    } else {
        invocations_of(insts, bi.drop_last(), fb, f) + if has_inst(insts, bi.last().0)
            && block_placed(fb, bi.last().1)
            && inst_of(insts, bi.last().0).call == Some(f) {
            1int
        } else {
            0
        }
    }
}

/// Number of branching terminators among `f`'s blocks.
pub open spec fn branches_of(
    bt: Seq<(BlockId, Terminator)>,
    fb: Seq<(BlockId, FuncId)>,
    f: FuncId,
) -> int
    decreases bt.len(),
{
    if bt.len() == 0 {
        0
    } else {
        branches_of(bt.drop_last(), fb, f) + if bt.last().1.branching
            && block_in(fb, bt.last().0, f) {
            1int
        } else {
            0
        }
    }
}

/// Number of call instructions inside `f`.
pub open spec fn function_calls_of(
    insts: Seq<(InstId, Instruction)>,
    bi: Seq<(InstId, BlockId)>,
    fb: Seq<(BlockId, FuncId)>,
    f: FuncId,
) -> int
    decreases bi.len(),
{
    if bi.len() == 0 {
        0
    } else {
        function_calls_of(insts, bi.drop_last(), fb, f) + if has_inst(insts, bi.last().0)
            && block_in(fb, bi.last().1, f)
            && inst_of(insts, bi.last().0).call.is_some() {
            1int
        } else {
            0
        }
    }
}

/// Every instruction of `f` is pure.  A function without instructions is
/// pure.
pub open spec fn is_pure_of(
    insts: Seq<(InstId, Instruction)>,
    bi: Seq<(InstId, BlockId)>,
    fb: Seq<(BlockId, FuncId)>,
    f: FuncId,
) -> bool {
    forall|k: int|
        0 <= k < bi.len() && has_inst(insts, (#[trigger] bi[k]).0) && block_in(fb, bi[k].1, f)
            ==> inst_of(insts, bi[k].0).purity == InstructionPurity::Pure
}

/// Some instruction of `f` calls `f` itself.
pub open spec fn is_recursive_of(
    insts: Seq<(InstId, Instruction)>,
    bi: Seq<(InstId, BlockId)>,
    fb: Seq<(BlockId, FuncId)>,
    f: FuncId,
) -> bool {
    exists|k: int|
        0 <= k < bi.len() && has_inst(insts, (#[trigger] bi[k]).0) && block_in(fb, bi[k].1, f)
            && inst_of(insts, bi[k].0).call == Some(f)
}

/// Total estimated machine instructions of `f`.
pub open spec fn estimated_asm_of(
    insts: Seq<(InstId, Instruction)>,
    bi: Seq<(InstId, BlockId)>,
    fb: Seq<(BlockId, FuncId)>,
    f: FuncId,
) -> int
    decreases bi.len(),
{
    if bi.len() == 0 {
        0
    } else {
        estimated_asm_of(insts, bi.drop_last(), fb, f) + if has_inst(insts, bi.last().0)
            && block_in(fb, bi.last().1, f) {
            inst_of(insts, bi.last().0).estimated_instructions as int
        } else {
            0
        }
    }
}

/// The per-function facts inlining decisions are made from.
#[derive(Debug, Clone, Copy, PartialEq, Eq, Structural, Hash)]
pub struct InlineHeuristics {
    pub branches: usize,
    pub invocations: usize,
    pub block_length: usize,
    pub ssa_inst_length: usize,
    pub function_calls: usize,
    pub is_pure: bool,
    pub is_recursive: bool,
    pub estimated_asm: usize,
}

impl InlineHeuristics {
    #[allow(clippy::too_many_arguments)]
    pub fn new(
        branches: usize,
        invocations: usize,
        block_length: usize,
        ssa_inst_length: usize,
        function_calls: usize,
        is_pure: bool,
        is_recursive: bool,
        estimated_asm: usize,
    ) -> (r: Self)
        ensures
            r.branches == branches,
            r.invocations == invocations,
            r.block_length == block_length,
            r.ssa_inst_length == ssa_inst_length,
            r.function_calls == function_calls,
            r.is_pure == is_pure,
            r.is_recursive == is_recursive,
            r.estimated_asm == estimated_asm,
    {
        InlineHeuristics {
            branches,
            invocations,
            block_length,
            ssa_inst_length,
            function_calls,
            is_pure,
            is_recursive,
            estimated_asm,
        }
    }

    /// The cost a call site pays for not inlining this function.
    pub fn inline_cost(&self) -> (r: usize)
        requires
            self.invocations + self.block_length + self.branches + self.function_calls
                <= usize::MAX,
        ensures
            r == self.invocations + self.block_length + self.branches + self.function_calls,
    {
        self.invocations + self.block_length + self.branches + self.function_calls
    }

    /// Whether the function clears the triviality threshold.
    pub fn trivially_inlinable(&self) -> (r: bool)
        requires
            self.invocations + self.block_length + self.branches + self.function_calls
                <= usize::MAX,
        ensures
            r == (self.invocations + self.block_length + self.branches + self.function_calls
                > TRIVIALLY_INLINABLE),
    {
        self.inline_cost() > TRIVIALLY_INLINABLE
    }
}

pub const TRIVIALLY_INLINABLE: usize = 10;

/// `h` holds exactly the counts the program relations give for `f`.
pub open spec fn heuristics_match(p: &Program, f: FuncId, h: InlineHeuristics) -> bool {
    &&& h.block_length as int == block_length_of(p.function_blocks@, f)
    &&& h.ssa_inst_length as int == ssa_length_of(
        p.instructions@,
        p.block_instructions@,
        p.function_blocks@,
        f,
    )
    &&& h.invocations as int == invocations_of(
        p.instructions@,
        p.block_instructions@,
        p.function_blocks@,
        f,
    )
    &&& h.branches as int == branches_of(p.block_terminators@, p.function_blocks@, f)
    &&& h.function_calls as int == function_calls_of(
        p.instructions@,
        p.block_instructions@,
        p.function_blocks@,
        f,
    )
    &&& h.is_pure == is_pure_of(p.instructions@, p.block_instructions@, p.function_blocks@, f)
    &&& h.is_recursive == is_recursive_of(
        p.instructions@,
        p.block_instructions@,
        p.function_blocks@,
        f,
    )
    &&& h.estimated_asm as int == estimated_asm_of(
        p.instructions@,
        p.block_instructions@,
        p.function_blocks@,
        f,
    )
}

fn lookup_block_func(fb: &Vec<(BlockId, FuncId)>, b: BlockId) -> (r: Option<FuncId>)
    requires
        keyed(fb@),
    ensures
        match r {
            Some(g) => block_in(fb@, b, g)
                && forall|f: FuncId| #[trigger] block_in(fb@, b, f) ==> f == g,
            None => forall|f: FuncId| !(#[trigger] block_in(fb@, b, f)),
        },
        r.is_some() == block_placed(fb@, b),
{
    let mut i: usize = 0;
    while i < fb.len()
        invariant
            i <= fb@.len(),
            keyed(fb@),
            forall|k: int| 0 <= k < i ==> (#[trigger] fb@[k]).0 != b,
        decreases fb@.len() - i,
    {
        if fb[i].0 == b {
            proof {
                assert(fb@[i as int] == (b, fb@[i as int].1));
                assert(block_in(fb@, b, fb@[i as int].1));
                assert forall|f: FuncId| #[trigger] block_in(fb@, b, f)
                    implies f == fb@[i as int].1 by {
                    let k = choose|k: int| 0 <= k < fb@.len() && #[trigger] fb@[k] == (b, f);
                    if k != i as int {
                        assert(fb@[k].0 == fb@[i as int].0);
                        assert(false);
                    }
                }
            }
            return Some(fb[i].1);
        }
        i += 1;
    }
    proof {
        assert forall|f: FuncId| !(#[trigger] block_in(fb@, b, f)) by {
            if block_in(fb@, b, f) {
                let k = choose|k: int| 0 <= k < fb@.len() && #[trigger] fb@[k] == (b, f);
                assert(false);
            }
        }
        if block_placed(fb@, b) {
            let k = choose|k: int| 0 <= k < fb@.len() && (#[trigger] fb@[k]).0 == b;
            assert(false);
        }
    }
    None
}

fn lookup_inst(insts: &Vec<(InstId, Instruction)>, iid: InstId) -> (r: Option<Instruction>)
    requires
        keyed(insts@),
    ensures
        match r {
            Some(inst) => has_inst(insts@, iid) && inst_of(insts@, iid) == inst,
            None => !has_inst(insts@, iid),
        },
{
    let mut i: usize = 0;
    while i < insts.len()
        invariant
            i <= insts@.len(),
            keyed(insts@),
            forall|k: int| 0 <= k < i ==> (#[trigger] insts@[k]).0 != iid,
        decreases insts@.len() - i,
    {
        if insts[i].0 == iid {
            proof {
                assert(insts@[i as int] == (iid, insts@[i as int].1));
                lemma_inst_of(insts@, iid, insts@[i as int].1);
            }
            return Some(insts[i].1);
        }
        i += 1;
    }
    proof {
        if has_inst(insts@, iid) {
            let k = choose|k: int| 0 <= k < insts@.len() && (#[trigger] insts@[k]).0 == iid;
            assert(false);
        }
    }
    None
}

/// A prefix of the instruction-placement relation never sums to more than
/// the whole.
proof fn lemma_estimated_prefix(
    insts: Seq<(InstId, Instruction)>,
    bi: Seq<(InstId, BlockId)>,
    fb: Seq<(BlockId, FuncId)>,
    f: FuncId,
    j: int,
)
    requires
        0 <= j <= bi.len(),
    ensures
        estimated_asm_of(insts, bi.take(j), fb, f) <= estimated_asm_of(insts, bi, fb, f),
    decreases bi.len() - j,
{
    if j == bi.len() {
        assert(bi.take(j) =~= bi);
    } else {
        lemma_estimated_prefix(insts, bi, fb, f, j + 1);
        assert(bi.take(j + 1).drop_last() =~= bi.take(j));
        assert(bi.take(j + 1).last() == bi[j]);
    }
}

/// One pass over the instruction placement: instructions of `f`, call sites
/// of `f`, calls made by `f`, purity, self-recursion, and the estimated
/// machine-instruction total.
#[verifier::rlimit(60)]
fn scan_placed_instructions(
    insts: &Vec<(InstId, Instruction)>,
    bi: &Vec<(InstId, BlockId)>,
    fb: &Vec<(BlockId, FuncId)>,
    f: FuncId,
) -> (r: (usize, usize, usize, bool, bool, usize))
    requires
        keyed(insts@),
        keyed(bi@),
        keyed(fb@),
        estimated_asm_of(insts@, bi@, fb@, f) <= usize::MAX,
    ensures
        r.0 as int == ssa_length_of(insts@, bi@, fb@, f),
        r.1 as int == invocations_of(insts@, bi@, fb@, f),
        r.2 as int == function_calls_of(insts@, bi@, fb@, f),
        r.3 == is_pure_of(insts@, bi@, fb@, f),
        r.4 == is_recursive_of(insts@, bi@, fb@, f),
        r.5 as int == estimated_asm_of(insts@, bi@, fb@, f),
{
    let mut ssa_len: usize = 0;
    let mut invocations: usize = 0;
    let mut calls: usize = 0;
    let mut pure = true;
    let mut recursive = false;
    let mut estimated: usize = 0;
    let mut j: usize = 0;
    while j < bi.len()
        invariant
            j <= bi@.len(),
            keyed(insts@),
            keyed(bi@),
            keyed(fb@),
            estimated_asm_of(insts@, bi@, fb@, f) <= usize::MAX,
            ssa_len <= j,
            invocations <= j,
            calls <= j,
            ssa_len as int == ssa_length_of(insts@, bi@.take(j as int), fb@, f),
            invocations as int == invocations_of(insts@, bi@.take(j as int), fb@, f),
            calls as int == function_calls_of(insts@, bi@.take(j as int), fb@, f),
            estimated as int == estimated_asm_of(insts@, bi@.take(j as int), fb@, f),
            pure == (forall|k: int|
                0 <= k < j && has_inst(insts@, (#[trigger] bi@[k]).0)
                    && block_in(fb@, bi@[k].1, f)
                    ==> inst_of(insts@, bi@[k].0).purity == InstructionPurity::Pure),
            recursive == (exists|k: int|
                0 <= k < j && has_inst(insts@, (#[trigger] bi@[k]).0)
                    && block_in(fb@, bi@[k].1, f) && inst_of(insts@, bi@[k].0).call == Some(f)),
        decreases bi@.len() - j,
    {
        let (iid, b) = bi[j];
        let ghost jj = j as int;
        proof {
            assert(bi@[jj] == (iid, b));
            assert(bi@.take(jj + 1).drop_last() =~= bi@.take(jj));
            assert(bi@.take(jj + 1).last() == bi@[jj]);
            lemma_estimated_prefix(insts@, bi@, fb@, f, jj + 1);
        }
        let inst = lookup_inst(insts, iid);
        let home = lookup_block_func(fb, b);
        if let Some(inst) = inst {
            let in_f = match home {
                Some(g) => g.0 == f.0,
                None => false,
            };
            proof {
                assert(in_f == block_in(fb@, b, f)) by {
                    match home {
                        Some(g) => {
                            if g.0 == f.0 {
                                assert(g == f);
                            } else {
                                if block_in(fb@, b, f) {
                                    assert(f == g);
                                }
                            }
                        },
                        None => {},
                    }
                }
            }
            if in_f {
                ssa_len = ssa_len + 1;
                estimated = estimated + inst.estimated_instructions;
                if inst.call.is_some() {
                    calls = calls + 1;
                }
                if matches!(inst.purity, InstructionPurity::Impure) {
                    pure = false;
                }
                let self_call = match inst.call {
                    Some(target) => target.0 == f.0,
                    None => false,
                };
                if self_call {
                    recursive = true;
                    proof {
                        assert(inst_of(insts@, bi@[jj].0).call == Some(f)) by {
                            assert(inst.call.unwrap().0 == f.0);
                            assert(inst.call.unwrap() == f);
                        }
                    }
                }
            }
            let placed = home.is_some();
            let calls_f = match inst.call {
                Some(target) => target.0 == f.0,
                None => false,
            };
            if placed && calls_f {
                invocations = invocations + 1;
                proof {
                    assert(inst_of(insts@, bi@[jj].0).call == Some(f)) by {
                        assert(inst.call.unwrap() == f);
                    }
                }
            }
            proof {
                if !(placed && calls_f) {
                    assert(!(has_inst(insts@, bi@[jj].0) && block_placed(fb@, bi@[jj].1)
                        && inst_of(insts@, bi@[jj].0).call == Some(f)));
                }
            }
        }
        j += 1;
    }
    proof {
        assert(bi@.take(bi@.len() as int) =~= bi@);
    }
    (ssa_len, invocations, calls, pure, recursive, estimated)
}

fn count_blocks(fb: &Vec<(BlockId, FuncId)>, f: FuncId) -> (r: usize)
    ensures
        r as int == block_length_of(fb@, f),
{
    let mut count: usize = 0;
    let mut j: usize = 0;
    while j < fb.len()
        invariant
            j <= fb@.len(),
            count <= j,
            count as int == block_length_of(fb@.take(j as int), f),
        decreases fb@.len() - j,
    {
        proof {
            assert(fb@.take(j as int + 1).drop_last() =~= fb@.take(j as int));
            assert(fb@.take(j as int + 1).last() == fb@[j as int]);
        }
        if fb[j].1 == f {
            count = count + 1;
        }
        j += 1;
    }
    proof {
        assert(fb@.take(fb@.len() as int) =~= fb@);
    }
    count
}

fn count_branches(bt: &Vec<(BlockId, Terminator)>, fb: &Vec<(BlockId, FuncId)>, f: FuncId) -> (r: usize)
    requires
        keyed(fb@),
    ensures
        r as int == branches_of(bt@, fb@, f),
{
    let mut count: usize = 0;
    let mut j: usize = 0;
    while j < bt.len()
        invariant
            j <= bt@.len(),
            keyed(fb@),
            count <= j,
            count as int == branches_of(bt@.take(j as int), fb@, f),
        decreases bt@.len() - j,
    {
        let (b, term) = bt[j];
        proof {
            assert(bt@[j as int] == (b, term));
            assert(bt@.take(j as int + 1).drop_last() =~= bt@.take(j as int));
            assert(bt@.take(j as int + 1).last() == bt@[j as int]);
        }
        if term.is_branching() {
            let home = lookup_block_func(fb, b);
            let in_f = match home {
                Some(g) => g.0 == f.0,
                None => false,
            };
            proof {
                assert(in_f == block_in(fb@, b, f)) by {
                    match home {
                        Some(g) => {
                            if g.0 == f.0 {
                                assert(g == f);
                            } else {
                                if block_in(fb@, b, f) {
                                    assert(f == g);
                                }
                            }
                        },
                        None => {},
                    }
                }
            }
            if in_f {
                count = count + 1;
            }
        }
        j += 1;
    }
    proof {
        assert(bt@.take(bt@.len() as int) =~= bt@);
    }
    count
}

/// Harvest the per-function inlining heuristics from the program relations:
/// one row per known function, holding exactly the counts the relations
/// give.
pub fn harvest_heuristics(program: &Program) -> (out: Vec<(FuncId, InlineHeuristics)>)
    requires
        program_wf(program),
        forall|k: int| 0 <= k < program.function_descriptors@.len()
            ==> estimated_asm_of(
                program.instructions@,
                program.block_instructions@,
                program.function_blocks@,
                #[trigger] program.function_descriptors@[k],
            ) <= usize::MAX,
    ensures
        out@.len() == program.function_descriptors@.len(),
        forall|k: int| 0 <= k < out@.len()
            ==> (#[trigger] out@[k]).0 == program.function_descriptors@[k]
                && heuristics_match(program, program.function_descriptors@[k], out@[k].1),
{
    let mut out: Vec<(FuncId, InlineHeuristics)> = Vec::new();
    let mut k: usize = 0;
    while k < program.function_descriptors.len()
        invariant
            k <= program.function_descriptors@.len(),
            program_wf(program),
            forall|kk: int| 0 <= kk < program.function_descriptors@.len()
                ==> estimated_asm_of(
                    program.instructions@,
                    program.block_instructions@,
                    program.function_blocks@,
                    #[trigger] program.function_descriptors@[kk],
                ) <= usize::MAX,
            out@.len() == k,
            forall|kk: int| 0 <= kk < k
                ==> (#[trigger] out@[kk]).0 == program.function_descriptors@[kk]
                    && heuristics_match(program, program.function_descriptors@[kk], out@[kk].1),
        decreases program.function_descriptors@.len() - k,
    {
        let f = program.function_descriptors[k];
        let block_length = count_blocks(&program.function_blocks, f);
        let branches = count_branches(&program.block_terminators, &program.function_blocks, f);
        let (ssa_len, invocations, calls, pure, recursive, estimated) = scan_placed_instructions(
            &program.instructions,
            &program.block_instructions,
            &program.function_blocks,
            f,
        );
        let h = InlineHeuristics::new(
            branches,
            invocations,
            block_length,
            ssa_len,
            calls,
            pure,
            recursive,
            estimated,
        );
        out.push((f, h));
        k += 1;
    }
    out
}

} // verus!
