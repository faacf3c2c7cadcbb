//! Control flow graph (CFG) construction from a [`Proto`]'s
//! instructions, and its dominator tree.
//!
//! ## Jump-target formula
//!
//! A jump at internal index `i` (the index into [`Proto::insts`], where
//! 0 is the synthetic FUNC* header and 1 is the first real instruction)
//! has the D-field target
//!
//! ```text
//! j = D - 0x8000              // subtract the bias (NOT a bit reinterpret)
//! target = i + 1 + j          // relative to the instruction *after* it
//! ```
//!
//! The bias subtraction is *not* the same as reading D as a signed
//! 16-bit integer: D=0x8002 gives j=2, and D=0x7ffe gives j=-2.

use vstd::prelude::*;

use crate::ir;
use crate::ir::{Instruction, Module, Opcode, Proto};
use crate::text;

pub mod dominators;

pub use dominators::DominatorTree;

verus! {

/// Identifier for a basic block (index into [`Cfg::blocks`]).
#[derive(Copy, Clone, Debug, Eq, PartialEq, Hash, Structural)]
pub struct BlockId(pub u32);

/// Identifier for an instruction (index into [`Proto::insts`]).
///
/// Uses the same indexing as the instruction vector: 0 is the synthetic
/// FUNC* header (excluded from all basic blocks), 1+ are real
/// instructions.
#[derive(Copy, Clone, Debug, Eq, PartialEq, Hash, Structural)]
pub struct InstructionId(pub u32);

/// A control flow graph built from a [`Proto`]'s instructions.
#[derive(Clone, Debug)]
pub struct Cfg {
    pub blocks: Vec<BasicBlock>,
    pub entry: BlockId,
}

/// A basic block: a maximal sequence of instructions with no branches
/// in (except at the start) and no branches out (except at the end).
#[derive(Clone, Debug)]
pub struct BasicBlock {
    pub id: BlockId,
    /// Indices into [`Proto::insts`]. Always non-empty for blocks
    /// produced by [`Cfg::build`]; the FUNC* header at index 0 is never
    /// among them.
    pub insts: Vec<InstructionId>,
    pub terminator: Terminator,
    /// Predecessor block ids, in ascending order.
    pub preds: Vec<BlockId>,
    /// Successor (block, edge-kind) pairs.
    pub succs: Vec<(BlockId, EdgeKind)>,
}

/// How a basic block exits.
#[derive(Copy, Clone, Debug)]
pub enum Terminator {
    /// Falls through to the next block (no explicit branch).
    Fallthrough(BlockId),
    /// Unconditional jump (standalone JMP not preceded by ISxx).
    Jump(BlockId),
    /// Conditional branch: an ISxx instruction immediately followed by
    /// a JMP. When the ISxx condition is true the JMP is taken
    /// (`true_edge`); when false execution falls through to
    /// `false_edge`.
    ConditionalBranch {
        /// The ISxx instruction's index.
        condition: InstructionId,
        /// JMP target (condition held).
        true_edge: BlockId,
        /// Fall-through target (condition failed).
        false_edge: BlockId,
    },
    /// Return instruction (RET0, RET1, RET, RETM).
    Return,
    /// Tail call (CALLT, CALLMT): treated as a return for CFG purposes.
    /// The payload is the CALLT/CALLMT instruction's index.
    TailCall(InstructionId),
    /// Loop entry (FORI of a numeric for, ISNEXT of a generic for).
    LoopInit {
        /// The A operand: the first slot of the loop's registers.
        base: u8,
        /// The jump target, taken when the loop does not run.
        exit: BlockId,
        /// Fall-through target: the loop body.
        body: BlockId,
    },
    /// Loop back-edge (FORL of a numeric for, ITERL of a generic for).
    LoopLatch {
        /// The jump target: the start of the loop body.
        body: BlockId,
        /// Fall-through target, taken when the loop is over.
        exit: BlockId,
    },
}

/// Labels a successor edge.
#[derive(Copy, Clone, Debug, Eq, PartialEq, Structural)]
pub enum EdgeKind {
    /// Edge taken when the jump is taken.
    True,
    /// Edge taken when the jump is not taken (fall-through).
    False,
    /// Unconditional edge (from [`Terminator::Jump`] or
    /// [`Terminator::Fallthrough`]).
    Unconditional,
}

/// The mathematical value of a [`Cfg`].
pub struct CfgV {
    pub blocks: Seq<BlockV>,
    pub entry: BlockId,
}

/// The mathematical value of a [`BasicBlock`].
pub struct BlockV {
    pub id: BlockId,
    pub insts: Seq<InstructionId>,
    pub terminator: Terminator,
    pub preds: Seq<BlockId>,
    pub succs: Seq<(BlockId, EdgeKind)>,
}

impl View for BasicBlock {
    type V = BlockV;

    open spec fn view(&self) -> BlockV {
        BlockV {
            id: self.id,
            insts: self.insts@,
            terminator: self.terminator,
            preds: self.preds@,
            succs: self.succs@,
        }
    }
}

impl View for Cfg {
    type V = CfgV;

    open spec fn view(&self) -> CfgV {
        CfgV { blocks: text::views(self.blocks@), entry: self.entry }
    }
}

// ---- What a graph is built to be ---------------------------------------

/// The most instructions, the header among them, that the 32-bit ids
/// can number.
pub const MAX_INSTS: u64 = 0x1_0000_0000;

/// Whether every prototype's instructions can be numbered.
pub open spec fn module_fits(m: Module) -> bool {
    forall|i: int| 0 <= i < m.protos@.len() ==> (#[trigger] m.protos@[i]).insts@.len() <= MAX_INSTS
}

/// The index that a jump at `i` leads to, unless it is out of range.
pub open spec fn jump_target(insts: Seq<Instruction>, i: int) -> Option<int> {
    let t = i + 1 + (ir::inst_d(insts[i]) - 0x8000);
    if 1 <= t < insts.len() {
        Some(t)
    } else {
        None
    }
}

/// Whether an opcode returns or tail-calls.
pub open spec fn op_leaves(op: Opcode) -> bool {
    matches!(
            op,
            Opcode::Ret0
                | Opcode::Ret1
                | Opcode::Ret
                | Opcode::Retm
                | Opcode::Callt
                | Opcode::Callmt
        )
}

/// Whether an opcode jumps by its D operand: JMP and the loop entries
/// and back-edges.
pub open spec fn op_jumps(op: Opcode) -> bool {
    matches!(
            op,
            Opcode::Jmp | Opcode::Fori | Opcode::Isnext | Opcode::Forl | Opcode::Iterl
        )
}

/// Whether an opcode is an ISxx test. Every ISxx is immediately followed
/// by a JMP in well-formed LuaJIT bytecode.
pub open spec fn op_tests(op: Opcode) -> bool {
    matches!(
            op,
            Opcode::Islt
                | Opcode::Isge
                | Opcode::Isle
                | Opcode::Isgt
                | Opcode::Iseqv
                | Opcode::Isnev
                | Opcode::Iseqs
                | Opcode::Isnes
                | Opcode::Iseqn
                | Opcode::Isnen
                | Opcode::Iseqp
                | Opcode::Isnep
                | Opcode::Istc
                | Opcode::Isfc
                | Opcode::Ist
                | Opcode::Isf
        )
}

/// Whether the instruction at `i` makes `j` the start of a block: `j`
/// follows an instruction that ends its block, or is where it jumps.
pub open spec fn marks(insts: Seq<Instruction>, i: int, j: int) -> bool {
    &&& 1 <= i < insts.len()
    &&& {
        ||| (op_leaves(insts[i].op) || op_jumps(insts[i].op)) && j == i + 1
        ||| op_jumps(insts[i].op) && jump_target(insts, i) == Some(j)
    }
}

/// Whether a block starts at `j`.
pub open spec fn leader(insts: Seq<Instruction>, j: int) -> bool {
    1 <= j < insts.len() && (j == 1 || exists|i: int| #[trigger] marks(insts, i, j))
}

/// The indices below `end` at which a block starts, in ascending order.
pub open spec fn leaders(insts: Seq<Instruction>, end: int) -> Seq<int>
    decreases end,
{
    if end <= 1 {
        seq![]
    } else if leader(insts, end - 1) {
        leaders(insts, end - 1).push(end - 1)
    } else {
        leaders(insts, end - 1)
    }
}

/// The block that starts at `j`: blocks are numbered in order.
pub open spec fn block_at(insts: Seq<Instruction>, j: int) -> BlockId {
    BlockId(leaders(insts, j).len() as u32)
}

/// The block that a jump at `i` leads to.
pub open spec fn target_block(insts: Seq<Instruction>, i: int) -> Option<BlockId> {
    match jump_target(insts, i) {
        Some(t) => Some(block_at(insts, t)),
        None => None,
    }
}

/// The terminator of a block whose last instruction is at `last`, and
/// its outgoing edges. `next` is the block behind it.
pub open spec fn exits(insts: Seq<Instruction>, last: int, next: Option<BlockId>) -> (
    Terminator,
    Seq<(BlockId, EdgeKind)>,
) {
    let op = insts[last].op;
    let target = target_block(insts, last);
    if op_leaves(op) {
        if op == Opcode::Callt || op == Opcode::Callmt {
            (Terminator::TailCall(InstructionId(last as u32)), seq![])
        } else {
            (Terminator::Return, seq![])
        }
    } else if op == Opcode::Jmp {
        match (last >= 2 && op_tests(insts[last - 1].op), target, next) {
            (true, Some(true_edge), Some(false_edge)) => (
                Terminator::ConditionalBranch {
                    condition: InstructionId((last - 1) as u32),
                    true_edge,
                    false_edge,
                },
                seq![(true_edge, EdgeKind::True), (false_edge, EdgeKind::False)],
            ),
            _ => match target {
                Some(t) => (Terminator::Jump(t), seq![(t, EdgeKind::Unconditional)]),
                None => (Terminator::Jump(BlockId(0)), seq![]),
            },
        }
    } else {
        match (op_jumps(op), target, next) {
            (true, Some(t), Some(n)) => if op == Opcode::Fori || op == Opcode::Isnext {
                (
                    Terminator::LoopInit { base: insts[last].a, exit: t, body: n },
                    seq![(t, EdgeKind::True), (n, EdgeKind::False)],
                )
            } else {
                (
                    Terminator::LoopLatch { body: t, exit: n },
                    seq![(t, EdgeKind::True), (n, EdgeKind::False)],
                )
            },
            _ => match next {
                Some(n) => (Terminator::Fallthrough(n), seq![(n, EdgeKind::Unconditional)]),
                None => (Terminator::Return, seq![]),
            },
        }
    }
}

/// Where block `k` ends: the start of the next one, or the end of the
/// instructions.
pub open spec fn block_end(insts: Seq<Instruction>, k: int) -> int {
    let starts = leaders(insts, insts.len() as int);
    if k + 1 < starts.len() {
        starts[k + 1]
    } else {
        insts.len() as int
    }
}

/// The block behind block `k`.
pub open spec fn next_block(insts: Seq<Instruction>, k: int) -> Option<BlockId> {
    if k + 1 < leaders(insts, insts.len() as int).len() {
        Some(BlockId((k + 1) as u32))
    } else {
        None
    }
}

/// The terminator and outgoing edges of block `k`.
pub open spec fn block_exits(insts: Seq<Instruction>, k: int) -> (
    Terminator,
    Seq<(BlockId, EdgeKind)>,
) {
    exits(insts, block_end(insts, k) - 1, next_block(insts, k))
}

/// Whether a list of edges leads to block `k`.
pub open spec fn leads_to(succs: Seq<(BlockId, EdgeKind)>, k: int) -> bool {
    exists|e: int| 0 <= e < succs.len() && (#[trigger] succs[e]).0.0 == k
}

/// The blocks below `m` with an edge to block `k`, in ascending order.
pub open spec fn preds_below(insts: Seq<Instruction>, k: int, m: int) -> Seq<BlockId>
    decreases m,
{
    if m <= 0 {
        seq![]
    } else if leads_to(block_exits(insts, m - 1).1, k) {
        preds_below(insts, k, m - 1).push(BlockId((m - 1) as u32))
    } else {
        preds_below(insts, k, m - 1)
    }
}

/// The ids of the instructions from `from` to `to`.
pub open spec fn id_range(from: int, to: int) -> Seq<InstructionId> {
    Seq::new((to - from) as nat, |j: int| InstructionId((from + j) as u32))
}

/// Block `k`.
pub open spec fn block_v(insts: Seq<Instruction>, k: int) -> BlockV {
    let starts = leaders(insts, insts.len() as int);
    BlockV {
        id: BlockId(k as u32),
        insts: id_range(starts[k], block_end(insts, k)),
        terminator: block_exits(insts, k).0,
        preds: preds_below(insts, k, starts.len() as int),
        succs: block_exits(insts, k).1,
    }
}

/// The control flow graph of an instruction stream.
pub open spec fn built(insts: Seq<Instruction>) -> CfgV {
    CfgV {
        blocks: Seq::new(
            leaders(insts, insts.len() as int).len(),
            |k: int| block_v(insts, k),
        ),
        entry: BlockId(0),
    }
}

// ---- Facts about leaders ---------------------------------------------------

/// What the ascending list of leaders holds.
proof fn lemma_leaders(insts: Seq<Instruction>, end: int)
    requires
        end <= insts.len(),
    ensures
        leaders(insts, end).len() <= if end <= 1 {
            0
        } else {
            end - 1
        },
        forall|k: int|
            0 <= k < leaders(insts, end).len() ==> leader(insts, #[trigger] leaders(insts, end)[k])
                && 1 <= leaders(insts, end)[k] < end,
        forall|k: int, m: int|
            0 <= k < m < leaders(insts, end).len() ==> #[trigger] leaders(insts, end)[k]
                < #[trigger] leaders(insts, end)[m],
    decreases end,
{
    if end > 1 {
        lemma_leaders(insts, end - 1);
    }
}

/// Each leader stands in the list at the place that counts the leaders
/// below it.
proof fn lemma_leader_index(insts: Seq<Instruction>, j: int, end: int)
    requires
        1 <= j < end <= insts.len(),
    ensures
        leaders(insts, j).len() <= leaders(insts, end).len(),
        leader(insts, j) ==> leaders(insts, j).len() < leaders(insts, end).len() && leaders(
            insts,
            end,
        )[leaders(insts, j).len() as int] == j,
    decreases end,
{
    if j < end - 1 {
        lemma_leader_index(insts, j, end - 1);
    }
}

/// The first block starts at the first real instruction.
proof fn lemma_first_leader(insts: Seq<Instruction>)
    requires
        insts.len() > 1,
    ensures
        leaders(insts, insts.len() as int).len() > 0,
        leaders(insts, insts.len() as int)[0] == 1,
{
    assert(leader(insts, 1));
    lemma_leader_index(insts, 1, insts.len() as int);
    assert(leaders(insts, 1).len() == 0);
}

/// The shape of block `k`: where it starts and ends.
pub proof fn lemma_block_range(insts: Seq<Instruction>, k: int)
    requires
        0 <= k < leaders(insts, insts.len() as int).len(),
    ensures
        1 <= leaders(insts, insts.len() as int)[k] < block_end(insts, k) <= insts.len(),
        leaders(insts, insts.len() as int).len() < insts.len(),
{
    lemma_leaders(insts, insts.len() as int);
}

// ---- What a walk over a graph relies on ------------------------------------------

/// Whether a block id is in range.
pub open spec fn in_graph(g: CfgV, b: BlockId) -> bool {
    b.0 < g.blocks.len()
}

/// Whether an instruction id is that of a real instruction.
pub open spec fn in_code(insts: Seq<Instruction>, id: InstructionId) -> bool {
    1 <= id.0 < insts.len()
}

/// Whether block `k` fits an instruction stream: its instructions are a
/// run of real ones, the targets of its terminator are in range, and it
/// falls through, if at all, to the next block.
pub open spec fn block_fits(g: CfgV, insts: Seq<Instruction>, k: int) -> bool {
    let block = g.blocks[k];
    &&& block.insts.len() > 0
    &&& forall|j: int|
        0 <= j < block.insts.len() ==> in_code(insts, #[trigger] block.insts[j]) && block.insts[j].0
            == block.insts[0].0 + j
    &&& match block.terminator {
        Terminator::Fallthrough(next) => in_graph(g, next) && next.0 == k + 1,
        Terminator::Jump(target) => in_graph(g, target),
        Terminator::ConditionalBranch { condition, true_edge, false_edge } => {
            &&& in_code(insts, condition)
            &&& in_graph(g, true_edge)
            &&& in_graph(g, false_edge)
            &&& false_edge.0 == k + 1
        },
        Terminator::Return => true,
        Terminator::TailCall(id) => in_code(insts, id),
        Terminator::LoopInit { base, exit, body } => {
            &&& in_graph(g, exit)
            &&& in_graph(g, body)
            &&& {
                ||| insts[block.insts.last().0 as int].op == Opcode::Fori
                ||| insts[block.insts.last().0 as int].op == Opcode::Isnext
            }
        },
        Terminator::LoopLatch { body, exit } => in_graph(g, body) && in_graph(g, exit),
    }
}

/// Whether a graph fits an instruction stream.
pub open spec fn graph_fits(g: CfgV, insts: Seq<Instruction>) -> bool {
    &&& g.blocks.len() > 0 ==> in_graph(g, g.entry)
    &&& forall|k: int| 0 <= k < g.blocks.len() ==> #[trigger] block_fits(g, insts, k)
}

/// Whether blocks fall through, if at all, to the next block.
pub open spec fn falls_forward(g: CfgV) -> bool {
    forall|k: int|
        0 <= k < g.blocks.len() ==> match (#[trigger] g.blocks[k]).terminator {
            Terminator::Fallthrough(next) => in_graph(g, next) && next.0 == k + 1,
            Terminator::ConditionalBranch { condition, true_edge, false_edge } => in_graph(
                g,
                false_edge,
            ) && false_edge.0 == k + 1,
            _ => true,
        }
}

/// A graph that fits falls through in order.
pub proof fn lemma_fits_falls_forward(g: CfgV, insts: Seq<Instruction>)
    requires
        graph_fits(g, insts),
    ensures
        falls_forward(g),
{
    assert forall|k: int| 0 <= k < g.blocks.len() implies match (
    #[trigger] g.blocks[k]).terminator {
        Terminator::Fallthrough(next) => in_graph(g, next) && next.0 == k + 1,
        Terminator::ConditionalBranch { condition, true_edge, false_edge } => in_graph(
            g,
            false_edge,
        ) && false_edge.0 == k + 1,
        _ => true,
    } by {
        assert(block_fits(g, insts, k));
    }
}

/// The graph that is built for an instruction stream fits it.
pub proof fn law_built_graph_fits(insts: Seq<Instruction>)
    requires
        insts.len() <= MAX_INSTS,
    ensures
        graph_fits(built(insts), insts),
{
    let g = built(insts);
    let starts = leaders(insts, insts.len() as int);
    assert forall|k: int| 0 <= k < g.blocks.len() implies #[trigger] block_fits(g, insts, k) by {
        lemma_block_range(insts, k);
        let block = g.blocks[k];
        assert(block == block_v(insts, k));
        let end = block_end(insts, k);
        let last = end - 1;
        assert(block.insts.last() == InstructionId(last as u32));
        assert forall|j: int| 0 <= j < block.insts.len() implies in_code(
            insts,
            #[trigger] block.insts[j],
        ) && block.insts[j].0 == block.insts[0].0 + j by {}
        if op_jumps(insts[last].op) {
            if let Some(t) = jump_target(insts, last) {
                assert(marks(insts, last, t));
                assert(leader(insts, t));
                lemma_leader_index(insts, t, insts.len() as int);
                lemma_leaders(insts, t);
            }
        }
    }
    if g.blocks.len() == 0 {
    } else {
        lemma_leaders(insts, insts.len() as int);
    }
}

/// Every real instruction belongs to exactly one block, and the header
/// at index 0 to none.
pub proof fn law_blocks_partition_code(insts: Seq<Instruction>, i: int)
    requires
        insts.len() <= MAX_INSTS,
        0 <= i < insts.len(),
    ensures
        i == 0 ==> forall|k: int|
            0 <= k < built(insts).blocks.len() ==> !(
            #[trigger] built(insts).blocks[k]).insts.contains(InstructionId(0)),
        i > 0 ==> exists|k: int|
            0 <= k < built(insts).blocks.len() && (
            #[trigger] built(insts).blocks[k]).insts.contains(InstructionId(i as u32)),
        forall|k: int, m: int|
            0 <= k < built(insts).blocks.len() && 0 <= m < built(insts).blocks.len() && (
            #[trigger] built(insts).blocks[k]).insts.contains(InstructionId(i as u32)) && (
            #[trigger] built(insts).blocks[m]).insts.contains(InstructionId(i as u32)) ==> k == m,
{
    let n = insts.len() as int;
    let g = built(insts);
    let starts = leaders(insts, n);
    lemma_leaders(insts, n);
    assert forall|k: int| 0 <= k < g.blocks.len() implies ((
    #[trigger] g.blocks[k]).insts.contains(InstructionId(i as u32)) <==> starts[k] <= i
        < block_end(insts, k)) by {
        lemma_block_range(insts, k);
        let ids = g.blocks[k].insts;
        assert(ids == id_range(starts[k], block_end(insts, k)));
        if ids.contains(InstructionId(i as u32)) {
            let j = choose|j: int| 0 <= j < ids.len() && ids[j] == InstructionId(i as u32);
            assert(ids[j].0 == starts[k] + j);
        }
        if starts[k] <= i < block_end(insts, k) {
            assert(ids[i - starts[k]] == InstructionId(i as u32));
        }
    }
    if i > 0 {
        lemma_first_leader(insts);
        let k = lemma_block_of(insts, i, starts.len() as int);
        assert(g.blocks[k].insts.contains(InstructionId(i as u32)));
    }
    assert forall|k: int, m: int|
        0 <= k < g.blocks.len() && 0 <= m < g.blocks.len() && (
        #[trigger] g.blocks[k]).insts.contains(InstructionId(i as u32)) && (
        #[trigger] g.blocks[m]).insts.contains(InstructionId(i as u32)) implies k == m by {
        if k < m {
            assert(block_end(insts, k) <= starts[m]);
        } else if m < k {
            assert(block_end(insts, m) <= starts[k]);
        }
    }
}

/// The last block below `m` that starts at or before `i`.
proof fn lemma_block_of(insts: Seq<Instruction>, i: int, m: int) -> (k: int)
    requires
        1 <= i < insts.len(),
        1 <= m <= leaders(insts, insts.len() as int).len(),
        leaders(insts, insts.len() as int)[0] <= i,
        m < leaders(insts, insts.len() as int).len() ==> i < leaders(insts, insts.len() as int)[m],
    ensures
        0 <= k < m,
        leaders(insts, insts.len() as int)[k] <= i < block_end(insts, k),
    decreases m,
{
    if leaders(insts, insts.len() as int)[m - 1] <= i {
        m - 1
    } else {
        lemma_block_of(insts, i, m - 1)
    }
}

/// A jump leads to the block that starts at its target.
pub proof fn law_jump_leads_to_its_target(insts: Seq<Instruction>, i: int)
    requires
        insts.len() <= MAX_INSTS,
        1 <= i < insts.len(),
        op_jumps(insts[i].op),
        jump_target(insts, i) is Some,
    ensures
        target_block(insts, i) is Some,
        in_graph(built(insts), target_block(insts, i)->Some_0),
        built(insts).blocks[target_block(insts, i)->Some_0.0 as int].insts[0] == InstructionId(
            jump_target(insts, i)->Some_0 as u32,
        ),
{
    let t = jump_target(insts, i)->Some_0;
    assert(marks(insts, i, t));
    assert(leader(insts, t));
    lemma_leader_index(insts, t, insts.len() as int);
    lemma_leaders(insts, t);
    let k = leaders(insts, t).len() as int;
    lemma_block_range(insts, k);
}

/// Whether block `b` starts at instruction `pc`.
pub open spec fn starts_at(g: CfgV, b: BlockId, pc: int) -> bool {
    &&& in_graph(g, b)
    &&& g.blocks[b.0 as int].insts.len() > 0
    &&& g.blocks[b.0 as int].insts[0].0 == pc
}

/// Whether an opcode byte is that of a return.
pub open spec fn byte_returns(byte: u8) -> bool {
    0x49 <= byte <= 0x4c
}

/// Whether an opcode byte is that of a tail call.
pub open spec fn byte_tail_calls(byte: u8) -> bool {
    byte == 0x43 || byte == 0x44
}

/// Whether an opcode byte is that of a loop entry: FORI or ISNEXT.
pub open spec fn byte_enters_loop(byte: u8) -> bool {
    byte == 0x4d || byte == 0x48
}

/// Whether an opcode byte is that of a loop's back-edge: FORL or ITERL.
pub open spec fn byte_loops_back(byte: u8) -> bool {
    byte == 0x4f || byte == 0x52
}

/// Whether control may leave an instruction other than to the next one.
pub open spec fn byte_ends_block(byte: u8) -> bool {
    byte_returns(byte) || byte_tail_calls(byte) || byte_enters_loop(byte) || byte_loops_back(byte)
        || byte == 0x58
}

/// Where the instruction at `pc` jumps: its D operand is the distance from
/// the next instruction, plus 0x8000.
pub open spec fn jumps_to(insts: Seq<Instruction>, pc: int) -> int {
    pc + 1 + insts[pc].b_or_d % 0x1_0000 - 0x8000
}

/// How a block ends is how its last instruction goes on, and each edge
/// leads to the block that starts where control goes: a jump to its
/// target, a test to the target of the jump behind it when it succeeds
/// and to the next instruction when it fails, a loop entry into the loop
/// or to its exit, a back-edge likewise, and anything else to the next
/// instruction.
pub open spec fn ends_as_its_code(insts: Seq<Instruction>, g: CfgV, k: int) -> bool {
    let i = g.blocks[k].insts.last().0 as int;
    let byte = ir::opcode_byte(insts[i].op);
    let t = jumps_to(insts, i);
    let inside = 1 <= t < insts.len();
    let ends = i + 1 == insts.len();
    let tested = i >= 2 && ir::opcode_byte(insts[i - 1].op) <= 0x0f;
    match g.blocks[k].terminator {
        Terminator::Return => byte_returns(byte) || (ends && byte != 0x58 && !byte_tail_calls(
            byte,
        )),
        Terminator::TailCall(id) => byte_tail_calls(byte) && id.0 == i,
        Terminator::Jump(to) => byte == 0x58 && (inside ==> starts_at(g, to, t)) && !(tested
            && inside && !ends),
        Terminator::ConditionalBranch { condition, true_edge, false_edge } => byte == 0x58
            && tested && condition.0 == i - 1 && starts_at(g, true_edge, t) && starts_at(
            g,
            false_edge,
            i + 1,
        ),
        Terminator::LoopInit { base, exit, body } => byte_enters_loop(byte) && base == insts[i].a
            && starts_at(g, exit, t) && starts_at(g, body, i + 1),
        Terminator::LoopLatch { body, exit } => byte_loops_back(byte) && starts_at(g, body, t)
            && starts_at(g, exit, i + 1),
        Terminator::Fallthrough(next) => starts_at(g, next, i + 1) && (!byte_ends_block(byte) || ((
        byte_enters_loop(byte) || byte_loops_back(byte)) && !inside)),
    }
}

/// Every block ends as its last instruction does, and only there.
pub proof fn law_blocks_end_as_their_code(insts: Seq<Instruction>, k: int)
    requires
        insts.len() <= MAX_INSTS,
        0 <= k < built(insts).blocks.len(),
    ensures
        ends_as_its_code(insts, built(insts), k),
        forall|j: int|
            0 <= j < built(insts).blocks[k].insts.len() - 1 ==> !byte_ends_block(
                ir::opcode_byte(insts[(#[trigger] built(insts).blocks[k].insts[j]).0 as int].op),
            ),
{
    let g = built(insts);
    let n = insts.len() as int;
    let starts = leaders(insts, n);
    lemma_leaders(insts, n);
    lemma_block_range(insts, k);
    let end = block_end(insts, k);
    let i = end - 1;
    let block = g.blocks[k];
    assert(block == block_v(insts, k));
    assert(block.insts.last() == InstructionId(i as u32));
    assert(insts[i].b_or_d % 0x1_0000 == ir::inst_d(insts[i]));
    if op_jumps(insts[i].op) && jump_target(insts, i) is Some {
        law_jump_leads_to_its_target(insts, i);
    }
    if k + 1 < starts.len() {
        lemma_block_range(insts, k + 1);
        assert(g.blocks[k + 1] == block_v(insts, k + 1));
        assert(starts_at(g, BlockId((k + 1) as u32), end));
    } else {
        assert(end == n);
    }
    assert(ir::opcode_byte(insts[i - 1].op) <= 0x0f <==> op_tests(insts[i - 1].op));
    assert(end < n ==> k + 1 < starts.len());
    assert forall|j: int| 0 <= j < block.insts.len() - 1 implies !byte_ends_block(
        ir::opcode_byte(insts[(#[trigger] block.insts[j]).0 as int].op),
    ) by {
        let at = starts[k] + j;
        assert(block.insts[j].0 == at);
        if byte_ends_block(ir::opcode_byte(insts[at].op)) {
            assert(marks(insts, at, at + 1));
            assert(leader(insts, at + 1));
            lemma_leader_index(insts, at + 1, n);
            let m = leaders(insts, at + 1).len() as int;
            assert(starts[m] == at + 1);
            if m <= k {
                assert(starts[m] <= starts[k]);
            } else {
                assert(starts[k + 1] <= starts[m]);
            }
        }
    }
}

/// The outgoing edges of a block are those of its terminator: a branch, a
/// loop entry and a back-edge have the taken edge first, a fall-through
/// and a jump have one, and a return and a tail call none.
pub proof fn law_edges_are_the_terminator(insts: Seq<Instruction>, k: int)
    requires
        insts.len() <= MAX_INSTS,
        0 <= k < built(insts).blocks.len(),
    ensures
        ({
            let g = built(insts);
            let succs = g.blocks[k].succs;
            let i = g.blocks[k].insts.last().0 as int;
            match g.blocks[k].terminator {
                Terminator::Return | Terminator::TailCall(_) => succs.len() == 0,
                Terminator::Fallthrough(next) => succs == seq![(next, EdgeKind::Unconditional)],
                Terminator::Jump(to) => if 1 <= jumps_to(insts, i) < insts.len() {
                    succs == seq![(to, EdgeKind::Unconditional)]
                } else {
                    succs.len() == 0
                },
                Terminator::ConditionalBranch { condition, true_edge, false_edge } => succs
                    == seq![(true_edge, EdgeKind::True), (false_edge, EdgeKind::False)],
                Terminator::LoopInit { base, exit, body } => succs
                    == seq![(exit, EdgeKind::True), (body, EdgeKind::False)],
                Terminator::LoopLatch { body, exit } => succs
                    == seq![(body, EdgeKind::True), (exit, EdgeKind::False)],
            }
        }),
{
    let g = built(insts);
    lemma_block_range(insts, k);
    let i = block_end(insts, k) - 1;
    assert(g.blocks[k] == block_v(insts, k));
    assert(g.blocks[k].insts.last() == InstructionId(i as u32));
    assert(insts[i].b_or_d % 0x1_0000 == ir::inst_d(insts[i]));
}

/// The entry is the first block, which starts at the first real
/// instruction; blocks are numbered by their place.
pub proof fn law_blocks_are_numbered_in_order(insts: Seq<Instruction>, k: int)
    requires
        insts.len() <= MAX_INSTS,
        0 <= k < built(insts).blocks.len(),
    ensures
        built(insts).entry.0 == 0,
        built(insts).blocks[k].id.0 == k,
        built(insts).blocks[0].insts[0].0 == 1,
        k > 0 ==> built(insts).blocks[k].insts[0].0 == built(insts).blocks[k - 1].insts.last().0
            + 1,
        k == built(insts).blocks.len() - 1 ==> built(insts).blocks[k].insts.last().0 == insts.len()
            - 1,
{
    let n = insts.len() as int;
    let g = built(insts);
    lemma_leaders(insts, n);
    lemma_block_range(insts, k);
    lemma_block_range(insts, 0);
    lemma_first_leader(insts);
    assert(g.blocks[k] == block_v(insts, k));
    assert(g.blocks[0] == block_v(insts, 0));
    assert(g.blocks[k].insts.last() == InstructionId((block_end(insts, k) - 1) as u32));
    if k > 0 {
        lemma_block_range(insts, k - 1);
        assert(g.blocks[k - 1] == block_v(insts, k - 1));
        assert(g.blocks[k - 1].insts.last() == InstructionId(
            (block_end(insts, k - 1) - 1) as u32,
        ));
    }
}

/// A block starts only where one has to: at the first instruction, behind
/// an instruction that ends a block, or where one jumps.
pub proof fn law_blocks_are_as_long_as_they_can_be(insts: Seq<Instruction>, k: int)
    requires
        insts.len() <= MAX_INSTS,
        0 <= k < built(insts).blocks.len(),
    ensures
        ({
            let s = built(insts).blocks[k].insts[0].0 as int;
            ||| s == 1
            ||| byte_ends_block(ir::opcode_byte(insts[s - 1].op))
            ||| exists|i: int|
                {
                    let byte = ir::opcode_byte((#[trigger] insts[i]).op);
                    &&& 1 <= i < insts.len()
                    &&& byte == 0x58 || byte_enters_loop(byte) || byte_loops_back(byte)
                    &&& jumps_to(insts, i) == s
                }
        }),
{
    let n = insts.len() as int;
    let starts = leaders(insts, n);
    lemma_leaders(insts, n);
    lemma_block_range(insts, k);
    let s = starts[k];
    assert(built(insts).blocks[k] == block_v(insts, k));
    assert(built(insts).blocks[k].insts[0].0 == s);
    assert(leader(insts, s));
    if s != 1 {
        let i = choose|i: int| #[trigger] marks(insts, i, s);
        assert(insts[i].b_or_d % 0x1_0000 == ir::inst_d(insts[i]));
        assert(marks(insts, i, s));
    }
}

/// Block `u` is listed as a predecessor of block `v` exactly when it has
/// an edge to it, and predecessors are listed once each, in ascending
/// order.
pub proof fn law_preds_mirror_succs(insts: Seq<Instruction>, v: int)
    requires
        insts.len() <= MAX_INSTS,
        0 <= v < built(insts).blocks.len(),
    ensures
        forall|u: BlockId| #[trigger]
            built(insts).blocks[v].preds.contains(u) <==> in_graph(built(insts), u) && leads_to(
                built(insts).blocks[u.0 as int].succs,
                v,
            ),
        forall|i: int, j: int|
            0 <= i < j < built(insts).blocks[v].preds.len() ==> (
            #[trigger] built(insts).blocks[v].preds[i]).0 < (
            #[trigger] built(insts).blocks[v].preds[j]).0,
{
    let g = built(insts);
    let starts = leaders(insts, insts.len() as int);
    lemma_leaders(insts, insts.len() as int);
    lemma_preds_below(insts, v, starts.len() as int);
    assert(g.blocks[v] == block_v(insts, v));
    assert forall|u: BlockId| #[trigger] g.blocks[v].preds.contains(u) <==> in_graph(g, u)
        && leads_to(g.blocks[u.0 as int].succs, v) by {
        if in_graph(g, u) {
            assert(g.blocks[u.0 as int] == block_v(insts, u.0 as int));
        }
    }
}

// ---- Construction --------------------------------------------------------------

impl Cfg {
    /// Build a control flow graph from a proto's instruction stream.
    ///
    /// Construction proceeds in four steps:
    /// 1. Identify block leaders (entry, jump targets, instructions
    ///    following a block-ending opcode).
    /// 2. Group instructions between consecutive leaders into basic
    ///    blocks.
    /// 3. Classify each block's terminator from its trailing
    ///    instruction(s) and populate successor edges.
    /// 4. Collect predecessor edges by walking the successor lists.
    ///
    /// The FUNC* header at index 0 is never part of any block.
    pub fn build(proto: &Proto) -> (cfg: Cfg)
        requires
            proto.insts@.len() <= MAX_INSTS,
        ensures
            cfg@ == built(proto.insts@),
    {
        let starts = Self::find_leaders(proto);
        let block_of = Self::number_leaders(proto, &starts);
        let mut blocks = Self::split_blocks(proto, &starts, &block_of);
        Self::wire_preds(proto, &mut blocks);
        let cfg = Cfg { blocks, entry: BlockId(0) };
        assert(cfg@.blocks =~= built(proto.insts@).blocks);
        cfg
    }

    /// Compute a jump's target index in [`Proto::insts`], returning
    /// `None` if the computed index falls outside `[1, insts.len())`.
    ///
    /// The bias is subtracted from D: `j = D - 0x8000`, and
    /// `target = i + 1 + j` where `i` is the jump's own index.
    pub fn jmp_target(proto: &Proto, i: usize) -> (target: Option<usize>)
        requires
            i < proto.insts@.len() <= MAX_INSTS,
        ensures
            match (target, jump_target(proto.insts@, i as int)) {
                (Some(t), Some(expected)) => t == expected,
                (None, None) => true,
                _ => false,
            },
    {
        let d: u16 = proto.insts[i].d();
        // Bias subtraction (NOT a bit reinterpret).
        let j: i64 = d as i64 - 0x8000;
        let target: i64 = i as i64 + 1 + j;
        if target >= 1 && (target as u64) < proto.insts.len() as u64 {
            Some(target as usize)
        } else {
            None
        }
    }

    /// Whether an opcode is a block-ending "unconditional" terminator
    /// (RET* / CALLT / CALLMT). The jumps are also terminators but are
    /// handled separately because their leader set depends on the jump
    /// target; ISxx is *not* a terminator (it's consumed by the
    /// following JMP).
    fn is_unconditional_terminator(op: Opcode) -> (b: bool)
        ensures
            b == op_leaves(op),
    {
        matches!(
            op,
            Opcode::Ret0
                | Opcode::Ret1
                | Opcode::Ret
                | Opcode::Retm
                | Opcode::Callt
                | Opcode::Callmt
        )
    }

    /// Whether an opcode jumps by its D operand.
    fn is_jump(op: Opcode) -> (b: bool)
        ensures
            b == op_jumps(op),
    {
        matches!(
            op,
            Opcode::Jmp | Opcode::Fori | Opcode::Isnext | Opcode::Forl | Opcode::Iterl
        )
    }

    /// Whether an opcode is an ISxx test instruction.
    fn is_isxx(op: Opcode) -> (b: bool)
        ensures
            b == op_tests(op),
    {
        matches!(
            op,
            Opcode::Islt
                | Opcode::Isge
                | Opcode::Isle
                | Opcode::Isgt
                | Opcode::Iseqv
                | Opcode::Isnev
                | Opcode::Iseqs
                | Opcode::Isnes
                | Opcode::Iseqn
                | Opcode::Isnen
                | Opcode::Iseqp
                | Opcode::Isnep
                | Opcode::Istc
                | Opcode::Isfc
                | Opcode::Ist
                | Opcode::Isf
        )
    }

    /// The block starts, in ascending order.
    fn find_leaders(proto: &Proto) -> (starts: Vec<usize>)
        requires
            proto.insts@.len() <= MAX_INSTS,
        ensures
            starts@.len() == leaders(proto.insts@, proto.insts@.len() as int).len(),
            forall|k: int|
                0 <= k < starts@.len() ==> #[trigger] starts@[k] == leaders(
                    proto.insts@,
                    proto.insts@.len() as int,
                )[k],
    {
        let n: usize = proto.insts.len();
        let ghost insts = proto.insts@;
        let mut is_leader: Vec<bool> = Vec::new();
        let mut m: usize = 0;
        while m < n
            invariant
                m <= n,
                is_leader@.len() == m,
                forall|j: int| 0 <= j < m ==> #[trigger] is_leader@[j] == (j == 1),
            decreases n - m,
        {
            is_leader.push(m == 1);
            m = m + 1;
        }
        let mut i: usize = 1;
        while i < n
            invariant
                n == proto.insts@.len(),
                n <= MAX_INSTS,
                insts == proto.insts@,
                1 <= i,
                n > 1 ==> i <= n,
                is_leader@.len() == n,
                forall|j: int|
                    0 <= j < n ==> (#[trigger] is_leader@[j] <==> j == 1 || exists|p: int|
                        p < i && #[trigger] marks(insts, p, j)),
            decreases n - i,
        {
            let ghost before = is_leader@;
            let op = proto.insts[i].op;
            let leaves = Self::is_unconditional_terminator(op);
            let jumps = Self::is_jump(op);
            if (leaves || jumps) && i + 1 < n {
                is_leader.set(i + 1, true);
            }
            if jumps {
                if let Some(target) = Self::jmp_target(proto, i) {
                    is_leader.set(target, true);
                }
            }
            proof {
                assert forall|j: int| 0 <= j < n implies (#[trigger] is_leader@[j] <==> before[j]
                    || marks(insts, i as int, j)) by {}
                assert forall|j: int| 0 <= j < n implies (#[trigger] is_leader@[j] <==> j == 1
                    || exists|p: int| p < i + 1 && #[trigger] marks(insts, p, j)) by {
                    if is_leader@[j] && j != 1 {
                        if marks(insts, i as int, j) {
                            assert((i as int) < i + 1 && marks(insts, i as int, j));
                        } else {
                            assert(before[j]);
                            let p = choose|p: int| p < i && #[trigger] marks(insts, p, j);
                            assert(p < i + 1 && marks(insts, p, j));
                        }
                    }
                    if exists|p: int| p < i + 1 && #[trigger] marks(insts, p, j) {
                        let p = choose|p: int| p < i + 1 && #[trigger] marks(insts, p, j);
                        if p != i {
                            assert(p < i && marks(insts, p, j));
                            assert(before[j]);
                        }
                    }
                }
            }
            i = i + 1;
        }
        proof {
            assert forall|j: int| 1 <= j < n implies #[trigger] is_leader@[j] == leader(
                insts,
                j,
            ) by {
                if exists|p: int| #[trigger] marks(insts, p, j) {
                    let p = choose|p: int| #[trigger] marks(insts, p, j);
                    assert(p < i && marks(insts, p, j));
                }
            }
        }
        let mut starts: Vec<usize> = Vec::new();
        let mut j: usize = 1;
        while j < n
            invariant
                n == insts.len(),
                1 <= j,
                j == 1 || j <= n,
                is_leader@.len() == n,
                forall|p: int| 1 <= p < n ==> #[trigger] is_leader@[p] == leader(insts, p),
                starts@.len() == leaders(insts, j as int).len(),
                forall|k: int|
                    0 <= k < starts@.len() ==> #[trigger] starts@[k] == leaders(insts, j as int)[k],
            decreases n - j,
        {
            if is_leader[j] {
                starts.push(j);
            }
            j = j + 1;
        }
        assert(n <= 1 ==> leaders(insts, n as int) =~= leaders(insts, 1));
        starts
    }

    /// For each instruction, how many blocks start below it. For a
    /// block's first instruction this is the block's number.
    fn number_leaders(proto: &Proto, starts: &Vec<usize>) -> (block_of: Vec<u32>)
        requires
            proto.insts@.len() <= MAX_INSTS,
            starts@.len() == leaders(proto.insts@, proto.insts@.len() as int).len(),
            forall|k: int|
                0 <= k < starts@.len() ==> #[trigger] starts@[k] == leaders(
                    proto.insts@,
                    proto.insts@.len() as int,
                )[k],
        ensures
            block_of@.len() == proto.insts@.len(),
            forall|j: int|
                0 <= j < block_of@.len() ==> #[trigger] block_of@[j] == leaders(
                    proto.insts@,
                    j,
                ).len(),
    {
        let n: usize = proto.insts.len();
        let ghost insts = proto.insts@;
        let mut block_of: Vec<u32> = Vec::new();
        let mut below: u32 = 0;
        let mut j: usize = 0;
        while j < n
            invariant
                n == insts.len(),
                insts == proto.insts@,
                n <= MAX_INSTS,
                j <= n,
                starts@.len() == leaders(insts, n as int).len(),
                forall|k: int|
                    0 <= k < starts@.len() ==> #[trigger] starts@[k] == leaders(insts, n as int)[k],
                block_of@.len() == j,
                below == leaders(insts, j as int).len(),
                forall|i: int| 0 <= i < j ==> #[trigger] block_of@[i] == leaders(insts, i).len(),
            decreases n - j,
        {
            block_of.push(below);
            proof {
                lemma_leaders(insts, n as int);
                lemma_leaders(insts, j as int);
                if j >= 1 {
                    lemma_leader_index(insts, j as int, n as int);
                    if !leader(insts, j as int) && (below as int) < starts@.len()
                        && starts@[below as int] == j {
                        assert(leader(insts, leaders(insts, n as int)[below as int]));
                    }
                } else if starts@.len() > 0 {
                    assert(leaders(insts, n as int)[0] >= 1);
                }
            }
            if (below as usize) < starts.len() && starts[below as usize] == j {
                below = below + 1;
            }
            j = j + 1;
        }
        block_of
    }

    /// Decide a block's terminator and successor edges from its
    /// trailing instruction(s).
    fn classify_terminator(
        proto: &Proto,
        last: usize,
        next: Option<BlockId>,
        block_of: &Vec<u32>,
    ) -> (out: (Terminator, Vec<(BlockId, EdgeKind)>))
        requires
            1 <= last < proto.insts@.len() <= MAX_INSTS,
            block_of@.len() == proto.insts@.len(),
            forall|j: int|
                0 <= j < block_of@.len() ==> #[trigger] block_of@[j] == leaders(
                    proto.insts@,
                    j,
                ).len(),
        ensures
            out.0 == exits(proto.insts@, last as int, next).0,
            out.1@ == exits(proto.insts@, last as int, next).1,
    {
        let op = proto.insts[last].op;
        if op == Opcode::Callt || op == Opcode::Callmt {
            return (Terminator::TailCall(InstructionId(last as u32)), Vec::new());
        }
        if Self::is_unconditional_terminator(op) {
            return (Terminator::Return, Vec::new());
        }
        let target = if Self::is_jump(op) {
            match Self::jmp_target(proto, last) {
                Some(t) => Some(BlockId(block_of[t])),
                None => None,
            }
        } else {
            None
        };
        if op == Opcode::Jmp {
            // In well-formed bytecode an ISxx is always immediately
            // followed by its consuming JMP.
            let prev_is_isxx = last >= 2 && Self::is_isxx(proto.insts[last - 1].op);
            return match (prev_is_isxx, target, next) {
                (true, Some(true_edge), Some(false_edge)) => (
                    Terminator::ConditionalBranch {
                        condition: InstructionId((last - 1) as u32),
                        true_edge,
                        false_edge,
                    },
                    vec![(true_edge, EdgeKind::True), (false_edge, EdgeKind::False)],
                ),
                // Standalone JMP, or an ISxx+JMP whose target or
                // fall-through could not be resolved (out of range). If
                // the target was unresolvable there are no successors.
                _ => match target {
                    Some(t) => (Terminator::Jump(t), vec![(t, EdgeKind::Unconditional)]),
                    None => (Terminator::Jump(BlockId(0)), Vec::new()),
                },
            };
        }
        match (target, next) {
            (Some(t), Some(n)) => {
                let terminator = if op == Opcode::Fori || op == Opcode::Isnext {
                    Terminator::LoopInit { base: proto.insts[last].a, exit: t, body: n }
                } else {
                    Terminator::LoopLatch { body: t, exit: n }
                };
                (terminator, vec![(t, EdgeKind::True), (n, EdgeKind::False)])
            },
            // No explicit terminator: fall through to the next block.
            (None, Some(n)) => (
                Terminator::Fallthrough(n),
                vec![(n, EdgeKind::Unconditional)],
            ),
            // Trailing block with no recognized terminator and no next
            // block to fall through to. Well-formed bytecode always ends
            // with RET*/CALLT, so this keeps the CFG well-formed for
            // what is not.
            _ => (Terminator::Return, Vec::new()),
        }
    }

    /// The blocks, without their predecessors.
    fn split_blocks(proto: &Proto, starts: &Vec<usize>, block_of: &Vec<u32>) -> (blocks: Vec<
        BasicBlock,
    >)
        requires
            proto.insts@.len() <= MAX_INSTS,
            starts@.len() == leaders(proto.insts@, proto.insts@.len() as int).len(),
            forall|k: int|
                0 <= k < starts@.len() ==> #[trigger] starts@[k] == leaders(
                    proto.insts@,
                    proto.insts@.len() as int,
                )[k],
            block_of@.len() == proto.insts@.len(),
            forall|j: int|
                0 <= j < block_of@.len() ==> #[trigger] block_of@[j] == leaders(
                    proto.insts@,
                    j,
                ).len(),
        ensures
            blocks@.len() == starts@.len(),
            forall|k: int|
                0 <= k < blocks@.len() ==> (#[trigger] blocks@[k])@ == (BlockV {
                    preds: seq![],
                    ..block_v(proto.insts@, k)
                }),
    {
        let ghost insts = proto.insts@;
        let n: usize = proto.insts.len();
        let mut blocks: Vec<BasicBlock> = Vec::new();
        let mut k: usize = 0;
        while k < starts.len()
            invariant
                n == insts.len(),
                insts == proto.insts@,
                n <= MAX_INSTS,
                k <= starts@.len(),
                blocks@.len() == k,
                starts@.len() == leaders(insts, n as int).len(),
                forall|m: int|
                    0 <= m < starts@.len() ==> #[trigger] starts@[m] == leaders(insts, n as int)[m],
                block_of@.len() == n,
                forall|j: int|
                    0 <= j < block_of@.len() ==> #[trigger] block_of@[j] == leaders(insts, j).len(),
                forall|m: int|
                    0 <= m < k ==> (#[trigger] blocks@[m])@ == (BlockV {
                        preds: seq![],
                        ..block_v(insts, m)
                    }),
            decreases starts@.len() - k,
        {
            proof {
                lemma_block_range(insts, k as int);
            }
            let start: usize = starts[k];
            let last_block: bool = k + 1 >= starts.len();
            let end: usize = if last_block {
                n
            } else {
                starts[k + 1]
            };
            assert(end == block_end(insts, k as int));
            let next = if last_block {
                None
            } else {
                Some(BlockId((k + 1) as u32))
            };
            let mut ids: Vec<InstructionId> = Vec::new();
            let mut i: usize = start;
            while i < end
                invariant
                    start <= i <= end,
                    end <= MAX_INSTS,
                    ids@ == id_range(start as int, i as int),
                decreases end - i,
            {
                ids.push(InstructionId(i as u32));
                i = i + 1;
                assert(ids@ =~= id_range(start as int, i as int));
            }
            let (terminator, succs) = Self::classify_terminator(proto, end - 1, next, block_of);
            let block = BasicBlock {
                id: BlockId(k as u32),
                insts: ids,
                terminator,
                preds: Vec::new(),
                succs,
            };
            assert(block@.preds =~= seq![]);
            blocks.push(block);
            k = k + 1;
        }
        blocks
    }

    /// Walk each block's successor list and add the block to each
    /// successor's preds. Going through the blocks in ascending order
    /// yields `preds` lists in ascending order.
    fn wire_preds(proto: &Proto, blocks: &mut Vec<BasicBlock>)
        requires
            proto.insts@.len() <= MAX_INSTS,
            old(blocks)@.len() == leaders(proto.insts@, proto.insts@.len() as int).len(),
            forall|k: int|
                0 <= k < old(blocks)@.len() ==> (#[trigger] old(blocks)@[k])@ == (BlockV {
                    preds: seq![],
                    ..block_v(proto.insts@, k)
                }),
        ensures
            final(blocks)@.len() == old(blocks)@.len(),
            forall|k: int|
                0 <= k < final(blocks)@.len() ==> (#[trigger] final(blocks)@[k])@ == block_v(
                    proto.insts@,
                    k,
                ),
    {
        let ghost insts = proto.insts@;
        let ghost total = leaders(insts, insts.len() as int).len();
        let mut m: usize = 0;
        while m < blocks.len()
            invariant
                insts == proto.insts@,
                insts.len() <= MAX_INSTS,
                total == leaders(insts, insts.len() as int).len(),
                blocks@.len() == total,
                m <= total,
                forall|k: int|
                    0 <= k < total ==> (#[trigger] blocks@[k])@ == (BlockV {
                        preds: preds_below(insts, k, m as int),
                        ..block_v(insts, k)
                    }),
            decreases total - m,
        {
            proof {
                lemma_block_range(insts, m as int);
            }
            let this_id = BlockId(m as u32);
            let edges: usize = blocks[m].succs.len();
            let ghost succs = block_exits(insts, m as int).1;
            assert(blocks@[m as int]@.succs == succs);
            let mut e: usize = 0;
            while e < edges
                invariant
                    insts == proto.insts@,
                    insts.len() <= MAX_INSTS,
                    total == leaders(insts, insts.len() as int).len(),
                    blocks@.len() == total,
                    m < total <= u32::MAX,
                    this_id == BlockId(m as u32),
                    succs == block_exits(insts, m as int).1,
                    edges == succs.len(),
                    e <= edges,
                    forall|k: int|
                        0 <= k < total ==> (#[trigger] blocks@[k])@ == (BlockV {
                            preds: if leads_to(succs.take(e as int), k) {
                                preds_below(insts, k, m as int).push(this_id)
                            } else {
                                preds_below(insts, k, m as int)
                            },
                            ..block_v(insts, k)
                        }),
                decreases edges - e,
            {
                let ghost before = blocks@;
                assert(before[m as int]@.succs == succs);
                let succ: usize = blocks[m].succs[e].0.0 as usize;
                proof {
                    assert(succs.take(e + 1) =~= succs.take(e as int).push(succs[e as int]));
                    assert forall|k: int| 0 <= k < total implies (leads_to(succs.take(e + 1), k)
                        <==> leads_to(succs.take(e as int), k) || k == succ) by {
                        lemma_leads_to_push(succs.take(e as int), succs[e as int], k);
                    }
                }
                if succ < blocks.len() {
                    proof {
                        lemma_preds_below(insts, succ as int, m as int);
                        let base = preds_below(insts, succ as int, m as int);
                        if leads_to(succs.take(e as int), succ as int) {
                            assert(base.push(this_id)[base.len() as int] == this_id);
                        }
                    }
                    if !Self::has_pred(&blocks[succ], this_id) {
                        blocks[succ].preds.push(this_id);
                    }
                }
                e = e + 1;
            }
            assert(succs.take(edges as int) =~= succs);
            m = m + 1;
        }
    }

    /// Whether `id` is among a block's predecessors.
    fn has_pred(block: &BasicBlock, id: BlockId) -> (found: bool)
        ensures
            found == block.preds@.contains(id),
    {
        let mut i: usize = 0;
        while i < block.preds.len()
            invariant
                i <= block.preds@.len(),
                forall|k: int| 0 <= k < i ==> block.preds@[k] != id,
            decreases block.preds@.len() - i,
        {
            if block.preds[i] == id {
                return true;
            }
            i = i + 1;
        }
        false
    }
}

/// What the list of predecessors below `m` holds.
proof fn lemma_preds_below(insts: Seq<Instruction>, k: int, m: int)
    requires
        0 <= m <= u32::MAX,
    ensures
        forall|i: int|
            0 <= i < preds_below(insts, k, m).len() ==> (#[trigger] preds_below(insts, k, m)[i]).0
                < m,
        forall|i: int, j: int|
            0 <= i < j < preds_below(insts, k, m).len() ==> (
            #[trigger] preds_below(insts, k, m)[i]).0 < (#[trigger] preds_below(insts, k, m)[j]).0,
        forall|u: BlockId| #[trigger]
            preds_below(insts, k, m).contains(u) <==> u.0 < m && leads_to(
                block_exits(insts, u.0 as int).1,
                k,
            ),
    decreases m,
{
    if m > 0 {
        let shorter = preds_below(insts, k, m - 1);
        let longer = preds_below(insts, k, m);
        let last = BlockId((m - 1) as u32);
        lemma_preds_below(insts, k, m - 1);
        assert forall|u: BlockId| #[trigger] longer.contains(u) <==> u.0 < m && leads_to(
            block_exits(insts, u.0 as int).1,
            k,
        ) by {
            assert(shorter.contains(u) <==> u.0 < m - 1 && leads_to(
                block_exits(insts, u.0 as int).1,
                k,
            ));
            if longer.contains(u) {
                let i = choose|i: int| 0 <= i < longer.len() && longer[i] == u;
                if i < shorter.len() {
                    assert(shorter[i] == u);
                } else {
                    assert(u == last);
                }
            }
            if shorter.contains(u) {
                let i = choose|i: int| 0 <= i < shorter.len() && shorter[i] == u;
                assert(longer[i] == u);
            }
            if u.0 == m - 1 && leads_to(block_exits(insts, m - 1).1, k) {
                assert(longer[shorter.len() as int] == u);
            }
        }
    }
}

/// One more edge leads to one more block.
proof fn lemma_leads_to_push(succs: Seq<(BlockId, EdgeKind)>, edge: (BlockId, EdgeKind), k: int)
    ensures
        leads_to(succs.push(edge), k) <==> leads_to(succs, k) || edge.0.0 == k,
{
    let longer = succs.push(edge);
    if leads_to(longer, k) {
        let e = choose|e: int| 0 <= e < longer.len() && (#[trigger] longer[e]).0.0 == k;
        if e < succs.len() {
            assert(succs[e].0.0 == k);
        }
    }
    if leads_to(succs, k) {
        let e = choose|e: int| 0 <= e < succs.len() && (#[trigger] succs[e]).0.0 == k;
        assert(longer[e].0.0 == k);
    }
    if edge.0.0 == k {
        assert(longer[succs.len() as int].0.0 == k);
    }
}

} // verus!
