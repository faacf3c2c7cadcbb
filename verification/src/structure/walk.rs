//! The walk over a control flow graph that turns its blocks into
//! statements.

use std::collections::HashMap;

use vstd::prelude::*;

use crate::cfg;
use crate::cfg::{BasicBlock, BlockId, BlockV, Cfg, CfgV, InstructionId, Terminator};
use crate::ir;
use crate::ir::{Instruction, Opcode, Proto, ProtoV};
use crate::structure;
use crate::structure::ast;
use crate::structure::ast::{Expr, ExprV, Stmt, StmtV};
use crate::structure::condition;
use crate::structure::condition::{build_condition, build_test_condition};
use crate::structure::lower;
use crate::structure::lower::{bind_names, collect_operands, process_inst, Env, RecoveryCtx};
use crate::structure::operand;
use crate::structure::operand::{lookup_operand, lookup_wide, Frame};
use crate::text;
use crate::DecompilerError;
use crate::Fault;

verus! {

broadcast use vstd::std_specs::hash::group_hash_axioms;

// ---- Straight-line code ------------------------------------------------------

/// A limit that no instruction id reaches.
pub open spec fn no_limit() -> int {
    0x1_0000_0000
}

/// What the instructions of a list do to a frame, up to the first whose
/// id is `limit` or more.
pub open spec fn run(env: Env, f: Frame, ids: Seq<InstructionId>, limit: int) -> Result<
    Frame,
    Fault,
>
    decreases ids.len(),
{
    if ids.len() == 0 || ids[0].0 >= limit {
        Ok(f)
    } else {
        match lower::step(env, f, ids[0].0 as int) {
            Err(e) => Err(e),
            Ok(g) => run(env, g, ids.drop_first(), limit),
        }
    }
}

/// What a block does to a frame before its last instruction.
pub open spec fn run_prefix(env: Env, f: Frame, block: BlockV) -> Result<Frame, Fault> {
    run(env, f, block.insts, block.insts.last().0 as int)
}

/// What the return instruction at `idx` adds. RET0 is the implicit
/// return at the end of a chunk. RET1 returns one value and RETM all
/// values of the instruction before, both from register A.
pub open spec fn returned(p: ProtoV, f: Frame, idx: int) -> Result<Frame, Fault> {
    let inst = p.insts[idx];
    let d = ir::inst_d(inst);
    if inst.op == Opcode::Ret0 {
        Ok(f)
    } else if (inst.op == Opcode::Ret1 && d == 2) || (inst.op == Opcode::Retm && d == 0) {
        match operand::operand(f.slots, inst.a as int) {
            Err(e) => Err(e),
            Ok(value) => Ok(Frame { slots: f.slots, out: f.out.push(StmtV::Return(Some(value))) }),
        }
    } else {
        Err(Fault::NotImplemented)
    }
}

/// What the tail call at `idx` adds: a return of the call.
pub open spec fn tail_called(env: Env, f: Frame, idx: int) -> Result<Frame, Fault> {
    let inst = env.proto().insts[idx];
    let base = lower::arg_base(env.fr2, inst.a);
    let d = ir::inst_d(inst);
    match operand::operand(f.slots, inst.a as int) {
        Err(e) => Err(e),
        Ok(func) => if d == 0 || base > 255 {
            Err(Fault::NotImplemented)
        } else {
            match lower::operands(
                f.slots,
                base,
                lower::clipped(base + (d - 1) % 0x100),
                seq![],
            ) {
                Err(e) => Err(e),
                Ok(args) => Ok(
                    Frame {
                        slots: f.slots,
                        out: f.out.push(StmtV::Return(Some(lower::call_expr(func, args)))),
                    },
                ),
            }
        },
    }
}

/// A block that ends the walk: a return, a tail call, or a jump or
/// back-edge that is not followed.
pub open spec fn closed_by(env: Env, f: Frame, block: BlockV) -> Result<Frame, Fault> {
    match run_prefix(env, f, block) {
        Err(e) => Err(e),
        Ok(g) => match block.terminator {
            Terminator::Return => returned(env.proto(), g, block.insts.last().0 as int),
            Terminator::TailCall(id) => tail_called(env, g, id.0 as int),
            _ => Ok(g),
        },
    }
}

// ---- Branch bodies -------------------------------------------------------------

/// One block of a branch or loop body: the frame behind it, and the
/// block to go on with. A body ends where it falls into a block with
/// several predecessors. Neither a condition nor a loop is modeled
/// inside a body.
pub open spec fn enter_body(env: Env, g: CfgV, f: Frame, b: int) -> Result<
    (Frame, Option<BlockId>),
    Fault,
> {
    let block = g.blocks[b];
    match block.terminator {
        Terminator::Fallthrough(next) => match run(env, f, block.insts, no_limit()) {
            Err(e) => Err(e),
            Ok(h) => if g.blocks[next.0 as int].preds.len() > 1 {
                Ok((h, None))
            } else {
                Ok((h, Some(next)))
            },
        },
        Terminator::ConditionalBranch { .. } | Terminator::LoopInit { .. } => Err(
            Fault::NotImplemented,
        ),
        _ => match closed_by(env, f, block) {
            Err(e) => Err(e),
            Ok(h) => Ok((h, None)),
        },
    }
}

/// The body from block `b` on: the frame behind it, and its last block.
/// A walk that enters more blocks than there are goes round a cycle.
pub open spec fn body_from(env: Env, g: CfgV, f: Frame, b: int, fuel: nat) -> Result<
    (Frame, BlockId),
    Fault,
>
    decreases fuel,
{
    if fuel == 0 {
        Err(Fault::NotImplemented)
    } else {
        match enter_body(env, g, f, b) {
            Err(e) => Err(e),
            Ok((h, None)) => Ok((h, BlockId(b as u32))),
            Ok((h, Some(next))) => body_from(env, g, h, next.0 as int, (fuel - 1) as nat),
        }
    }
}

/// The state of a walk: the frame, and the blocks that some walk has
/// started at or passed over.
pub struct Walk {
    pub frame: Frame,
    pub visited: Set<u32>,
}

/// The body that starts at block `b`, with the slots of a walk. A block
/// where a walk has started before is not entered again.
pub open spec fn body_at(
    env: Env,
    g: CfgV,
    slots: Map<u8, ExprV>,
    visited: Set<u32>,
    b: BlockId,
) -> Result<(Frame, BlockId), Fault> {
    if visited.contains(b.0) {
        Err(Fault::NotImplemented)
    } else {
        body_from(env, g, Frame { slots, out: seq![] }, b.0 as int, g.blocks.len())
    }
}

// ---- Conditions ------------------------------------------------------------------

/// Whether a block ends in a conditional branch.
pub open spec fn is_branch(g: CfgV, b: int) -> bool {
    g.blocks[b].terminator is ConditionalBranch
}

/// The jump target and the fall-through target of a conditional branch.
pub open spec fn branch_edges(g: CfgV, b: int) -> (BlockId, BlockId) {
    match g.blocks[b].terminator {
        Terminator::ConditionalBranch { condition, true_edge, false_edge } => (
            true_edge,
            false_edge,
        ),
        _ => (BlockId(0), BlockId(0)),
    }
}

/// The ISxx instruction of a conditional branch.
pub open spec fn branch_test(g: CfgV, b: int) -> int {
    match g.blocks[b].terminator {
        Terminator::ConditionalBranch { condition, true_edge, false_edge } => condition.0 as int,
        _ => 0,
    }
}

/// The conditional branches from `b` on, each falling through into the
/// next.
pub open spec fn branch_chain(g: CfgV, b: int) -> Seq<BlockId>
    decreases g.blocks.len() - b,
{
    let next = branch_edges(g, b).1.0 as int;
    if b < next < g.blocks.len() && is_branch(g, b) && is_branch(g, next) {
        seq![BlockId(b as u32)] + branch_chain(g, next)
    } else {
        seq![BlockId(b as u32)]
    }
}

/// What a chain of conditional branches leads to: the frame behind
/// them, what each tests, and the complement of each test.
pub struct Tests {
    pub frame: Frame,
    pub tests: Seq<ExprV>,
    pub conds: Seq<ExprV>,
}

/// One more conditional branch of a chain.
pub open spec fn tested(env: Env, g: CfgV, t: Tests, b: int) -> Result<Tests, Fault> {
    let p = env.proto();
    let at = branch_test(g, b);
    match run(env, t.frame, g.blocks[b].insts, at) {
        Err(e) => Err(e),
        Ok(f) => match condition::test_expr(p, f.slots, p.insts[at]) {
            Err(e) => Err(e),
            Ok(test) => match condition::cond_expr(p, f.slots, p.insts[at]) {
                Err(e) => Err(e),
                Ok(cond) => Ok(
                    Tests { frame: f, tests: t.tests.push(test), conds: t.conds.push(cond) },
                ),
            },
        },
    }
}

/// The conditional branches of a chain from its `i`-th on.
pub open spec fn tested_from(env: Env, g: CfgV, t: Tests, chain: Seq<BlockId>, i: int) -> Result<
    Tests,
    Fault,
>
    decreases chain.len() - i,
{
    if i < 0 || i >= chain.len() {
        Ok(t)
    } else {
        match tested(env, g, t, chain[i].0 as int) {
            Err(e) => Err(e),
            Ok(u) => tested_from(env, g, u, chain, i + 1),
        }
    }
}

/// The conditions joined by `or`, from the left.
pub open spec fn all_or(conds: Seq<ExprV>) -> ExprV
    decreases conds.len(),
{
    if conds.len() <= 1 {
        conds[0]
    } else {
        ExprV::Or(Box::new(all_or(conds.drop_last())), Box::new(conds.last()))
    }
}

/// The conditions joined by `and`, from the left.
pub open spec fn all_and(conds: Seq<ExprV>) -> ExprV
    decreases conds.len(),
{
    if conds.len() <= 1 {
        conds[0]
    } else {
        ExprV::And(Box::new(all_and(conds.drop_last())), Box::new(conds.last()))
    }
}

/// The shape of an `if`: where its then-body starts, where control goes
/// on behind it, when that is fixed, and its condition.
pub struct IfShape {
    pub then_entry: BlockId,
    pub merge: Option<BlockId>,
    pub cond: ExprV,
}

/// Whether all conditional branches of a chain jump to `target`.
pub open spec fn all_jump_to(g: CfgV, chain: Seq<BlockId>, target: BlockId) -> bool {
    forall|i: int|
        0 <= i < chain.len() ==> branch_edges(g, (#[trigger] chain[i]).0 as int).0 == target
}

/// The shape of the `if` that a chain of conditional branches makes.
/// One branch is a plain condition. When the first jumps to where the
/// last falls through, the branches are joined by `or`: all but the last
/// short-circuit into the then-body. Otherwise all jump over the
/// then-body, and are joined by `and`.
pub open spec fn if_shape(g: CfgV, chain: Seq<BlockId>, t: Tests) -> Result<IfShape, Fault> {
    let first = branch_edges(g, chain[0].0 as int);
    let last = branch_edges(g, chain.last().0 as int);
    if chain.len() == 1 {
        Ok(IfShape { then_entry: first.1, merge: None, cond: t.conds[0] })
    } else if first.0 == last.1 {
        Ok(
            IfShape {
                then_entry: first.0,
                merge: Some(last.0),
                cond: all_or(t.tests.drop_last().push(t.conds.last())),
            },
        )
    } else if all_jump_to(g, chain, last.0) {
        Ok(IfShape { then_entry: last.1, merge: Some(last.0), cond: all_and(t.conds) })
    } else {
        Err(Fault::NotImplemented)
    }
}

/// Whether the block behind `b` ends in a jump, and where it leads.
pub open spec fn jump_behind(g: CfgV, b: BlockId) -> Option<BlockId> {
    if b.0 + 1 < g.blocks.len() {
        match g.blocks[b.0 + 1].terminator {
            Terminator::Jump(target) => Some(target),
            _ => None,
        }
    } else {
        None
    }
}

/// Where the else-body of a plain `if` starts, if it has one, and where
/// control goes on behind it. LuaJIT always emits a jump over the
/// else-body: at the end of the then-body, or, when that returns, dead
/// in the block behind it.
pub open spec fn plain_ends(g: CfgV, then_last: BlockId, true_edge: BlockId) -> Result<
    (Option<BlockId>, BlockId),
    Fault,
> {
    match g.blocks[then_last.0 as int].terminator {
        Terminator::Jump(merge) => Ok((Some(true_edge), merge)),
        Terminator::Fallthrough(target) => Ok((None, target)),
        Terminator::Return => match jump_behind(g, then_last) {
            Some(merge) => Ok((Some(true_edge), merge)),
            None => Ok((None, true_edge)),
        },
        _ => Err(Fault::NotImplemented),
    }
}

/// Where the else-body starts and where control goes on. A chain of
/// conditions with an else-body is not modeled.
pub open spec fn if_ends(g: CfgV, shape: IfShape, then_last: BlockId, true_edge: BlockId) -> Result<
    (Option<BlockId>, BlockId),
    Fault,
> {
    match shape.merge {
        None => plain_ends(g, then_last, true_edge),
        Some(merge) => match g.blocks[then_last.0 as int].terminator {
            Terminator::Fallthrough(target) => if target == merge {
                Ok((None, merge))
            } else {
                Err(Fault::NotImplemented)
            },
            Terminator::Return => if jump_behind(g, then_last) is Some {
                Err(Fault::NotImplemented)
            } else {
                Ok((None, merge))
            },
            _ => Err(Fault::NotImplemented),
        },
    }
}

/// The outcome of one block of the main walk: the walk behind it, and
/// the block to go on with.
pub struct Stride {
    pub walk: Walk,
    pub next: Option<BlockId>,
}

/// A walk whose frame got one more statement and other slots.
pub open spec fn extended(w: Walk, slots: Map<u8, ExprV>, stmt: StmtV, visited: Set<u32>) -> Walk {
    Walk { frame: Frame { slots, out: w.frame.out.push(stmt) }, visited }
}

/// The `if` at block `b`. Each body starts from the slots behind the
/// conditions. Without an else-body those are also the slots behind the
/// `if`; with one, the slots behind the else-body are.
pub open spec fn if_stride(env: Env, g: CfgV, w: Walk, b: int) -> Result<Stride, Fault> {
    let chain = branch_chain(g, b);
    let start = Tests { frame: w.frame, tests: seq![], conds: seq![] };
    match tested_from(env, g, start, chain, 0) {
        Err(e) => Err(e),
        Ok(t) => match if_shape(g, chain, t) {
            Err(e) => Err(e),
            Ok(shape) => match body_at(env, g, t.frame.slots, w.visited, shape.then_entry) {
                Err(e) => Err(e),
                Ok((then_frame, then_last)) => {
                    let visited = w.visited.insert(shape.then_entry.0);
                    let v = Walk { frame: t.frame, visited };
                    match if_ends(g, shape, then_last, branch_edges(g, b).0) {
                        Err(e) => Err(e),
                        Ok((None, merge)) => Ok(
                            Stride {
                                walk: extended(
                                    v,
                                    t.frame.slots,
                                    StmtV::If {
                                        cond: shape.cond,
                                        then_body: then_frame.out,
                                        else_body: None,
                                    },
                                    visited,
                                ),
                                next: Some(merge),
                            },
                        ),
                        Ok((Some(else_start), merge)) => match body_at(
                            env,
                            g,
                            t.frame.slots,
                            visited,
                            else_start,
                        ) {
                            Err(e) => Err(e),
                            Ok((else_frame, else_last)) => Ok(
                                Stride {
                                    walk: extended(
                                        v,
                                        else_frame.slots,
                                        StmtV::If {
                                            cond: shape.cond,
                                            then_body: then_frame.out,
                                            else_body: Some(else_frame.out),
                                        },
                                        visited.insert(else_start.0),
                                    ),
                                    next: Some(merge),
                                },
                            ),
                        },
                    }
                },
            },
        },
    }
}

// ---- Loops -------------------------------------------------------------------------

/// The `repeat` at block `b`, which branches to itself: everything
/// before the test is the body.
pub open spec fn repeat_stride(env: Env, g: CfgV, w: Walk, b: int) -> Result<Stride, Fault> {
    let p = env.proto();
    let (true_edge, false_edge) = branch_edges(g, b);
    let at = branch_test(g, b);
    let exit = if true_edge.0 == b {
        false_edge
    } else {
        true_edge
    };
    match run(env, Frame { slots: w.frame.slots, out: seq![] }, g.blocks[b].insts, at) {
        Err(e) => Err(e),
        Ok(body) => match condition::cond_expr(p, body.slots, p.insts[at]) {
            Err(e) => Err(e),
            Ok(cond) => Ok(
                Stride {
                    walk: extended(
                        w,
                        body.slots,
                        StmtV::Repeat { cond, body: body.out },
                        w.visited,
                    ),
                    next: Some(exit),
                },
            ),
        },
    }
}

/// The `while` whose header is block `b`: its fall-through block, the
/// body, jumps back to it.
pub open spec fn while_stride(env: Env, g: CfgV, w: Walk, b: int) -> Result<Stride, Fault> {
    let p = env.proto();
    let (true_edge, false_edge) = branch_edges(g, b);
    let at = branch_test(g, b);
    match run(env, w.frame, g.blocks[b].insts, at) {
        Err(e) => Err(e),
        Ok(f) => match condition::cond_expr(p, f.slots, p.insts[at]) {
            Err(e) => Err(e),
            Ok(cond) => match run_prefix(
                env,
                Frame { slots: f.slots, out: seq![] },
                g.blocks[false_edge.0 as int],
            ) {
                Err(e) => Err(e),
                Ok(body) => Ok(
                    Stride {
                        walk: extended(
                            Walk { frame: f, visited: w.visited },
                            body.slots,
                            StmtV::While { cond, body: body.out },
                            w.visited.insert(false_edge.0),
                        ),
                        next: Some(true_edge),
                    },
                ),
            },
        },
    }
}

/// Whether block `b` jumps back to block `to`.
pub open spec fn jumps_back(g: CfgV, b: BlockId, to: int) -> bool {
    match g.blocks[b.0 as int].terminator {
        Terminator::Jump(target) => target.0 == to,
        _ => false,
    }
}

/// A conditional branch of the main walk: a loop header, or an `if`.
pub open spec fn branch_stride(env: Env, g: CfgV, w: Walk, b: int) -> Result<Stride, Fault> {
    let (true_edge, false_edge) = branch_edges(g, b);
    if true_edge.0 == b || false_edge.0 == b {
        repeat_stride(env, g, w, b)
    } else if jumps_back(g, false_edge, b) {
        while_stride(env, g, w, b)
    } else {
        if_stride(env, g, w, b)
    }
}

/// The name of the local in a register that may be past the last one.
pub open spec fn loop_name(p: ProtoV, slot: int, index: int) -> Option<Seq<char>> {
    if 0 <= slot <= 255 {
        ir::live_name(p.debug, slot as u8, index)
    } else {
        None
    }
}

/// The step of a numeric for as it is written: LuaJIT stores the
/// default step of 1 too.
pub open spec fn written_step(step: ExprV) -> Option<ExprV> {
    if step == ExprV::Int(1) {
        None
    } else {
        Some(step)
    }
}

/// The numeric for whose FORI is at `last`, behind the frame `f`. Its
/// registers from `base` on are start, stop, step and the loop variable.
pub open spec fn numeric_stride(
    env: Env,
    g: CfgV,
    w: Walk,
    last: int,
    base: u8,
    exit: BlockId,
    body: BlockId,
) -> Result<Stride, Fault> {
    let slots = w.frame.slots;
    match (
        operand::operand(slots, base as int),
        operand::operand(slots, base + 1),
        operand::operand(slots, base + 2),
        loop_name(env.proto(), base + 3, last - 1),
    ) {
        (Ok(start), Ok(stop), Ok(step), Some(var)) => match body_at(
            env,
            g,
            slots.insert((base + 3) as u8, ExprV::Var(var)),
            w.visited,
            body,
        ) {
            Err(e) => Err(e),
            Ok((f, body_last)) => Ok(
                Stride {
                    walk: extended(
                        w,
                        f.slots,
                        StmtV::For { var, start, stop, step: written_step(step), body: f.out },
                        w.visited.insert(body.0),
                    ),
                    next: Some(exit),
                },
            ),
        },
        _ => Err(Fault::NotImplemented),
    }
}

/// The names of the locals in the registers from `slot` on, up to the
/// first without a name, after those of `so_far`.
pub open spec fn loop_names(p: ProtoV, slot: int, index: int, so_far: Seq<Seq<char>>) -> Seq<
    Seq<char>,
>
    decreases 256 - slot,
{
    if slot > 255 {
        so_far
    } else {
        match loop_name(p, slot, index) {
            Some(name) => loop_names(p, slot + 1, index, so_far.push(name)),
            None => so_far,
        }
    }
}

/// Where control goes on behind a generic for: ISNEXT jumps to the
/// block with the back-edge, and the loop's exit is that block's.
pub open spec fn generic_exit(g: CfgV, exit: BlockId) -> BlockId {
    match g.blocks[exit.0 as int].terminator {
        Terminator::LoopLatch { body, exit: latch_exit } => latch_exit,
        _ => exit,
    }
}

/// The generic for whose ISNEXT is at `last`, behind the frame `f`. The
/// call that makes the iterator is three registers below `base`, and the
/// loop variables are in the registers from `base` on.
pub open spec fn generic_stride(
    env: Env,
    g: CfgV,
    w: Walk,
    last: int,
    base: u8,
    exit: BlockId,
    body: BlockId,
) -> Result<Stride, Fault> {
    let slots = w.frame.slots;
    let vars = loop_names(env.proto(), base as int, last - 1, seq![]);
    match operand::operand(slots, base - 3) {
        Err(e) => Err(e),
        Ok(iterator) => if vars.len() == 0 {
            Err(Fault::NotImplemented)
        } else {
            match body_at(env, g, lower::named_slots(slots, base, vars), w.visited, body) {
                Err(e) => Err(e),
                Ok((f, body_last)) => {
                    let visited = w.visited.insert(body.0);
                    Ok(
                        Stride {
                            walk: extended(
                                w,
                                f.slots,
                                StmtV::ForIn { vars, iterator, body: f.out },
                                if g.blocks[exit.0 as int].terminator is LoopLatch {
                                    visited.insert(exit.0)
                                } else {
                                    visited
                                },
                            ),
                            next: Some(generic_exit(g, exit)),
                        },
                    )
                },
            }
        },
    }
}

/// A for loop of the main walk.
pub open spec fn loop_stride(
    env: Env,
    g: CfgV,
    w: Walk,
    b: int,
    base: u8,
    exit: BlockId,
    body: BlockId,
) -> Result<Stride, Fault> {
    let block = g.blocks[b];
    let last = block.insts.last().0 as int;
    match run_prefix(env, w.frame, block) {
        Err(e) => Err(e),
        Ok(f) => {
            let v = Walk { frame: f, visited: w.visited };
            if env.proto().insts[last].op == Opcode::Fori {
                numeric_stride(env, g, v, last, base, exit, body)
            } else {
                generic_stride(env, g, v, last, base, exit, body)
            }
        },
    }
}

// ---- The main walk -------------------------------------------------------------------

/// One block of the main walk. A jump that no condition accounts for is
/// not modeled.
pub open spec fn stride(env: Env, g: CfgV, w: Walk, b: int) -> Result<Stride, Fault> {
    let block = g.blocks[b];
    match block.terminator {
        Terminator::Fallthrough(next) => match run(env, w.frame, block.insts, no_limit()) {
            Err(e) => Err(e),
            Ok(f) => Ok(
                Stride { walk: Walk { frame: f, visited: w.visited }, next: Some(next) },
            ),
        },
        Terminator::ConditionalBranch { .. } => branch_stride(env, g, w, b),
        Terminator::LoopInit { base, exit, body } => loop_stride(env, g, w, b, base, exit, body),
        _ => match closed_by(env, w.frame, block) {
            Err(e) => Err(e),
            Ok(f) => if block.terminator is Jump {
                Err(Fault::NotImplemented)
            } else {
                Ok(Stride { walk: Walk { frame: f, visited: w.visited }, next: None })
            },
        },
    }
}

/// The main walk from block `b` on. A walk that enters more blocks than
/// there are goes round a cycle.
pub open spec fn walk_from(env: Env, g: CfgV, w: Walk, b: int, fuel: nat) -> Result<Walk, Fault>
    decreases fuel,
{
    if fuel == 0 {
        Err(Fault::NotImplemented)
    } else {
        match stride(env, g, w, b) {
            Err(e) => Err(e),
            Ok(s) => match s.next {
                None => Ok(s.walk),
                Some(next) => walk_from(env, g, s.walk, next.0 as int, (fuel - 1) as nat),
            },
        }
    }
}

/// The main walk that starts at block `b`. A block where a walk has
/// started before is not entered again.
pub open spec fn walk_at(env: Env, g: CfgV, w: Walk, b: BlockId) -> Result<Walk, Fault> {
    if w.visited.contains(b.0) {
        Err(Fault::NotImplemented)
    } else {
        walk_from(
            env,
            g,
            Walk { frame: w.frame, visited: w.visited.insert(b.0) },
            b.0 as int,
            g.blocks.len(),
        )
    }
}

// ---- Straight-line code ----------------------------------------------------------------

/// The frame and the visited blocks that executable state stands for.
pub open spec fn walk_v(ctx: RecoveryCtx<'_>, stmts: Seq<Stmt>) -> Walk {
    Walk { frame: ctx.frame(stmts), visited: ctx.visited@ }
}

/// Process the instructions of a list, up to the first whose id is
/// `limit` or more.
fn process_insts(
    ctx: &mut RecoveryCtx,
    stmts: &mut Vec<Stmt>,
    ids: &Vec<InstructionId>,
    limit: u64,
) -> (res: Result<(), DecompilerError>)
    requires
        old(ctx).wf(),
        forall|j: int|
            0 <= j < ids@.len() ==> cfg::in_code(old(ctx).env().proto().insts, #[trigger] ids@[j]),
    ensures
        final(ctx).same_but_slots(*old(ctx)),
        lower::steps(
            res,
            run(old(ctx).env(), old(ctx).frame(old(stmts)@), ids@, limit as int),
            final(ctx).frame(final(stmts)@),
        ),
    decreases old(ctx).proto_idx, 3int,
{
    let ghost env = ctx.env();
    let ghost start = ctx.frame(stmts@);
    let mut i: usize = 0;
    proof {
        assert(ids@.skip(0) =~= ids@);
    }
    while i < ids.len()
        invariant
            i <= ids@.len(),
            ctx.wf(),
            ctx.same_but_slots(*old(ctx)),
            env == ctx.env(),
            env == old(ctx).env(),
            start == old(ctx).frame(old(stmts)@),
            forall|j: int|
                0 <= j < ids@.len() ==> cfg::in_code(env.proto().insts, #[trigger] ids@[j]),
            run(env, start, ids@, limit as int) == run(
                env,
                ctx.frame(stmts@),
                ids@.skip(i as int),
                limit as int,
            ),
        decreases ids@.len() - i,
    {
        proof {
            assert(ids@.skip(i as int)[0] == ids@[i as int]);
            assert(ids@.skip(i as int).drop_first() =~= ids@.skip(i + 1));
        }
        if ids[i].0 as u64 >= limit {
            return Ok(());
        }
        process_inst(ctx, stmts, ids[i])?;
        i = i + 1;
    }
    Ok(())
}

/// Process the instructions of a block before its last.
fn process_prefix(ctx: &mut RecoveryCtx, stmts: &mut Vec<Stmt>, block: &BasicBlock) -> (res: Result<
    (),
    DecompilerError,
>)
    requires
        old(ctx).wf(),
        block.insts@.len() > 0,
        forall|j: int|
            0 <= j < block.insts@.len() ==> cfg::in_code(
                old(ctx).env().proto().insts,
                #[trigger] block.insts@[j],
            ),
    ensures
        final(ctx).same_but_slots(*old(ctx)),
        lower::steps(
            res,
            run_prefix(old(ctx).env(), old(ctx).frame(old(stmts)@), block@),
            final(ctx).frame(final(stmts)@),
        ),
    decreases old(ctx).proto_idx, 4int,
{
    let last: u32 = block.insts[block.insts.len() - 1].0;
    process_insts(ctx, stmts, &block.insts, last as u64)
}

/// Process the trailing RET* instruction at absolute index `idx`.
///
/// `RET0` is the implicit end-of-chunk return (no Stmt emitted).
/// `RET1 A D` with `D == 2` is the single-value return convention.
/// `RETM A D` with `D == 0` returns all values of the previous
/// instruction. Anything else is not modeled.
fn process_return_inst(
    proto: &Proto,
    slot_exprs: &HashMap<u8, Expr>,
    stmts: &mut Vec<Stmt>,
    idx: usize,
) -> (res: Result<(), DecompilerError>)
    requires
        idx < proto.insts@.len(),
    ensures
        lower::steps(
            res,
            returned(proto@, operand::frame_v(slot_exprs@, old(stmts)@), idx as int),
            operand::frame_v(slot_exprs@, final(stmts)@),
        ),
        res is Err ==> final(stmts)@ == old(stmts)@,
{
    let inst = proto.insts[idx];
    if inst.op == Opcode::Ret0 {
        return Ok(());
    }
    if (inst.op == Opcode::Ret1 && inst.d() == 2) || (inst.op == Opcode::Retm && inst.d() == 0) {
        let expr = lookup_operand(slot_exprs, inst.a)?;
        let stmt = Stmt::Return(Some(expr));
        proof {
            ast::lemma_stmts_push(stmts@, stmt);
        }
        stmts.push(stmt);
        return Ok(());
    }
    Err(DecompilerError::NotImplemented)
}

/// Process the tail call at absolute index `idx`: a return of the call.
fn process_tail_call(ctx: &RecoveryCtx, stmts: &mut Vec<Stmt>, idx: usize) -> (res: Result<
    (),
    DecompilerError,
>)
    requires
        ctx.wf(),
        idx < ctx.env().proto().insts.len(),
    ensures
        lower::steps(
            res,
            tail_called(ctx.env(), ctx.frame(old(stmts)@), idx as int),
            ctx.frame(final(stmts)@),
        ),
        res is Err ==> final(stmts)@ == old(stmts)@,
{
    let inst = ctx.proto().insts[idx];
    let base: u16 = if ctx.is_fr2 {
        inst.a as u16 + 2
    } else {
        inst.a as u16 + 1
    };
    let func = lookup_operand(&ctx.slot_exprs, inst.a)?;
    // D - 1 args; D == 0 is a call with all values of the previous
    // instruction.
    if inst.d() == 0 || base > 255 {
        return Err(DecompilerError::NotImplemented);
    }
    let count: u16 = (inst.d() - 1) % 0x100;
    let end: u16 = if base + count < 255 {
        base + count
    } else {
        255
    };
    let args = collect_operands(&ctx.slot_exprs, base, end)?;
    let call = Expr::Call { func: Box::new(func), args };
    assert(call@ == lower::call_expr(func@, ast::exprs_v(args@)));
    let stmt = Stmt::Return(Some(call));
    proof {
        ast::lemma_stmts_push(stmts@, stmt);
    }
    stmts.push(stmt);
    Ok(())
}

/// Process a block that ends the walk.
fn close_block(ctx: &mut RecoveryCtx, stmts: &mut Vec<Stmt>, b: BlockId) -> (res: Result<
    (),
    DecompilerError,
>)
    requires
        old(ctx).wf(),
        cfg::in_graph(old(ctx).cfg@, b),
    ensures
        final(ctx).same_but_slots(*old(ctx)),
        lower::steps(
            res,
            closed_by(
                old(ctx).env(),
                old(ctx).frame(old(stmts)@),
                old(ctx).cfg@.blocks[b.0 as int],
            ),
            final(ctx).frame(final(stmts)@),
        ),
    decreases old(ctx).proto_idx, 5int,
{
    let graph = ctx.cfg;
    let block = &graph.blocks[b.0 as usize];
    assert(graph@.blocks[b.0 as int] == block@);
    assert(cfg::block_fits(graph@, ctx.env().proto().insts, b.0 as int));
    let last: usize = block.insts[block.insts.len() - 1].0 as usize;
    process_prefix(ctx, stmts, block)?;
    match block.terminator {
        Terminator::Return => process_return_inst(ctx.proto(), &ctx.slot_exprs, stmts, last),
        Terminator::TailCall(id) => process_tail_call(ctx, stmts, id.0 as usize),
        _ => Ok(()),
    }
}

// ---- Branch bodies ------------------------------------------------------------------------

/// Recover the branch or loop body that starts at `start`: its
/// statements, and its last block.
fn recover_body(ctx: &mut RecoveryCtx, start: BlockId) -> (res: Result<
    (Vec<Stmt>, BlockId),
    DecompilerError,
>)
    requires
        old(ctx).wf(),
        cfg::in_graph(old(ctx).cfg@, start),
    ensures
        final(ctx).same_context(*old(ctx)),
        match (
            res,
            body_at(
                old(ctx).env(),
                old(ctx).cfg@,
                old(ctx).slots(),
                old(ctx).visited@,
                start,
            ),
        ) {
            (Ok((stmts, last)), Ok((frame, expected))) => {
                &&& final(ctx).frame(stmts@) == frame
                &&& final(ctx).visited@ == old(ctx).visited@.insert(start.0)
                &&& last == expected
                &&& cfg::in_graph(old(ctx).cfg@, last)
            },
            (Err(e), Err(f)) => e@ == f,
            _ => false,
        },
        old(ctx).visited@.contains(start.0) ==> {
            &&& final(ctx).slots() == old(ctx).slots()
            &&& final(ctx).visited@ == old(ctx).visited@
        },
    decreases old(ctx).proto_idx, 6int,
{
    // A block already entered by some walk: a control-flow cycle that is
    // not handled explicitly.
    if ctx.visited.contains(&start.0) {
        return Err(DecompilerError::NotImplemented);
    }
    ctx.visited.insert(start.0);
    let graph = ctx.cfg;
    let ghost env = ctx.env();
    let mut stmts: Vec<Stmt> = Vec::new();
    let ghost first = Frame { slots: old(ctx).slots(), out: seq![] };
    let mut b = start;
    let mut fuel: usize = graph.blocks.len();
    proof {
        assert(ast::stmts_v(stmts@) =~= seq![]);
        assert(graph@.blocks.len() == graph.blocks@.len());
    }
    while fuel > 0
        invariant
            ctx.wf(),
            ctx.same_context(*old(ctx)),
            ctx.visited@ == old(ctx).visited@.insert(start.0),
            !old(ctx).visited@.contains(start.0),
            graph == ctx.cfg,
            env == ctx.env(),
            env == old(ctx).env(),
            first == (Frame { slots: old(ctx).slots(), out: seq![] }),
            cfg::in_graph(graph@, b),
            body_from(env, graph@, first, start.0 as int, graph@.blocks.len()) == body_from(
                env,
                graph@,
                ctx.frame(stmts@),
                b.0 as int,
                fuel as nat,
            ),
        decreases fuel,
    {
        let block = &graph.blocks[b.0 as usize];
        proof {
            assert(graph@.blocks[b.0 as int] == block@);
            assert(cfg::block_fits(graph@, env.proto().insts, b.0 as int));
        }
        fuel = fuel - 1;
        match block.terminator {
            Terminator::Fallthrough(next) => {
                process_insts(ctx, &mut stmts, &block.insts, 0x1_0000_0000)?;
                assert(graph@.blocks[next.0 as int] == graph.blocks@[next.0 as int]@);
                if graph.blocks[next.0 as usize].preds.len() > 1 {
                    // The body falls through into the merge, which
                    // belongs to the outer walk.
                    return Ok((stmts, b));
                }
                b = next;
            },
            // A nested `if` or loop is not modeled.
            Terminator::ConditionalBranch { .. } | Terminator::LoopInit { .. } => {
                return Err(DecompilerError::NotImplemented);
            },
            _ => {
                close_block(ctx, &mut stmts, b)?;
                return Ok((stmts, b));
            },
        }
    }
    Err(DecompilerError::NotImplemented)
}

// ---- Conditions ------------------------------------------------------------------------------

/// Whether a block ends in a conditional branch.
pub fn is_cb(graph: &Cfg, b: BlockId) -> (r: bool)
    requires
        cfg::in_graph(graph@, b),
    ensures
        r == is_branch(graph@, b.0 as int),
{
    assert(graph@.blocks[b.0 as int] == graph.blocks@[b.0 as int]@);
    matches!(graph.blocks[b.0 as usize].terminator, Terminator::ConditionalBranch { .. })
}

/// Extract `(true_edge, false_edge)` from a conditional branch.
fn cb_edges(graph: &Cfg, b: BlockId) -> (edges: (BlockId, BlockId))
    requires
        cfg::in_graph(graph@, b),
    ensures
        edges == branch_edges(graph@, b.0 as int),
{
    assert(graph@.blocks[b.0 as int] == graph.blocks@[b.0 as int]@);
    match graph.blocks[b.0 as usize].terminator {
        Terminator::ConditionalBranch { condition, true_edge, false_edge } => (
            true_edge,
            false_edge,
        ),
        _ => (BlockId(0), BlockId(0)),
    }
}

/// Collect the chain of conditional branches starting at `start`,
/// walking forward via `false_edge` until the next block isn't a
/// conditional branch.
pub fn collect_cb_chain(graph: &Cfg, start: BlockId) -> (chain: Vec<BlockId>)
    requires
        cfg::falls_forward(graph@),
        cfg::in_graph(graph@, start),
        is_branch(graph@, start.0 as int),
    ensures
        chain@ == branch_chain(graph@, start.0 as int),
        chain@.len() > 0,
        chain@[0] == start,
        forall|i: int|
            0 <= i < chain@.len() ==> cfg::in_graph(graph@, #[trigger] chain@[i]) && is_branch(
                graph@,
                chain@[i].0 as int,
            ),
{
    let ghost g = graph@;
    let mut chain: Vec<BlockId> = Vec::new();
    chain.push(start);
    let mut current = start;
    assert(chain@.drop_last() + branch_chain(g, current.0 as int) =~= branch_chain(
        g,
        start.0 as int,
    ));
    loop
        invariant
            g == graph@,
            cfg::falls_forward(g),
            cfg::in_graph(g, current),
            is_branch(g, current.0 as int),
            chain@.len() > 0,
            chain@[0] == start,
            chain@.last() == current,
            forall|i: int|
                0 <= i < chain@.len() ==> cfg::in_graph(g, #[trigger] chain@[i]) && is_branch(
                    g,
                    chain@[i].0 as int,
                ),
            branch_chain(g, start.0 as int) == chain@.drop_last() + branch_chain(
                g,
                current.0 as int,
            ),
        decreases g.blocks.len() - current.0,
    {
        let (true_edge, next) = cb_edges(graph, current);
        if !is_cb(graph, next) {
            assert(chain@.drop_last() + seq![current] =~= chain@);
            return chain;
        }
        proof {
            let rest = branch_chain(g, next.0 as int);
            assert(branch_chain(g, current.0 as int) == seq![current] + rest);
            assert(chain@.push(next).drop_last() =~= chain@);
            assert(chain@.drop_last() + (seq![current] + rest) =~= chain@ + rest);
        }
        chain.push(next);
        current = next;
    }
}

/// The conditions joined by `or`, from the left.
fn join_or(conds: &Vec<Expr>) -> (e: Expr)
    requires
        conds@.len() > 0,
    ensures
        e@ == all_or(ast::exprs_v(conds@)),
{
    let ghost all = ast::exprs_v(conds@);
    proof {
        ast::lemma_exprs_v(conds@);
        assert(all.take(1)[0] == all[0]);
    }
    let mut acc = conds[0].clone();
    let mut i: usize = 1;
    while i < conds.len()
        invariant
            1 <= i <= conds@.len(),
            all == text::views(conds@),
            acc@ == all_or(all.take(i as int)),
        decreases conds@.len() - i,
    {
        let next = conds[i].clone();
        proof {
            assert(all.take(i + 1).drop_last() =~= all.take(i as int));
            assert(all.take(i + 1).last() == next@);
        }
        acc = Expr::Or(Box::new(acc), Box::new(next));
        i = i + 1;
    }
    assert(all.take(i as int) =~= all);
    acc
}

/// The conditions joined by `and`, from the left.
fn join_and(conds: &Vec<Expr>) -> (e: Expr)
    requires
        conds@.len() > 0,
    ensures
        e@ == all_and(ast::exprs_v(conds@)),
{
    let ghost all = ast::exprs_v(conds@);
    proof {
        ast::lemma_exprs_v(conds@);
        assert(all.take(1)[0] == all[0]);
    }
    let mut acc = conds[0].clone();
    let mut i: usize = 1;
    while i < conds.len()
        invariant
            1 <= i <= conds@.len(),
            all == text::views(conds@),
            acc@ == all_and(all.take(i as int)),
        decreases conds@.len() - i,
    {
        let next = conds[i].clone();
        proof {
            assert(all.take(i + 1).drop_last() =~= all.take(i as int));
            assert(all.take(i + 1).last() == next@);
        }
        acc = Expr::And(Box::new(acc), Box::new(next));
        i = i + 1;
    }
    assert(all.take(i as int) =~= all);
    acc
}

/// Walk a conditional branch's prefix instructions, then build what its
/// ISxx tests and the complement of that.
fn process_test(
    ctx: &mut RecoveryCtx,
    stmts: &mut Vec<Stmt>,
    tests: &mut Vec<Expr>,
    conds: &mut Vec<Expr>,
    b: BlockId,
) -> (res: Result<(), DecompilerError>)
    requires
        old(ctx).wf(),
        cfg::in_graph(old(ctx).cfg@, b),
        is_branch(old(ctx).cfg@, b.0 as int),
    ensures
        final(ctx).same_but_slots(*old(ctx)),
        match (
            res,
            tested(
                old(ctx).env(),
                old(ctx).cfg@,
                Tests {
                    frame: old(ctx).frame(old(stmts)@),
                    tests: ast::exprs_v(old(tests)@),
                    conds: ast::exprs_v(old(conds)@),
                },
                b.0 as int,
            ),
        ) {
            (Ok(()), Ok(t)) => {
                &&& t.frame == final(ctx).frame(final(stmts)@)
                &&& t.tests == ast::exprs_v(final(tests)@)
                &&& t.conds == ast::exprs_v(final(conds)@)
                &&& final(tests)@.len() == old(tests)@.len() + 1
                &&& final(conds)@.len() == old(conds)@.len() + 1
            },
            (Err(e), Err(f)) => e@ == f,
            _ => false,
        },
    decreases old(ctx).proto_idx, 4int,
{
    let graph = ctx.cfg;
    let block = &graph.blocks[b.0 as usize];
    assert(graph@.blocks[b.0 as int] == block@);
    assert(cfg::block_fits(graph@, ctx.env().proto().insts, b.0 as int));
    let at: u32 = match block.terminator {
        Terminator::ConditionalBranch { condition, .. } => condition.0,
        _ => 0,
    };
    process_insts(ctx, stmts, &block.insts, at as u64)?;
    let proto = ctx.proto();
    let inst = proto.insts[at as usize];
    let test = build_test_condition(proto, &ctx.slot_exprs, &inst)?;
    let cond = build_condition(proto, &ctx.slot_exprs, &inst)?;
    proof {
        ast::lemma_exprs_push(tests@, test);
        ast::lemma_exprs_push(conds@, cond);
    }
    tests.push(test);
    conds.push(cond);
    Ok(())
}

/// The index of the ISxx instruction of a conditional branch.
fn cb_test(graph: &Cfg, b: BlockId) -> (at: u32)
    requires
        cfg::in_graph(graph@, b),
    ensures
        at == branch_test(graph@, b.0 as int),
{
    assert(graph@.blocks[b.0 as int] == graph.blocks@[b.0 as int]@);
    match graph.blocks[b.0 as usize].terminator {
        Terminator::ConditionalBranch { condition, .. } => condition.0,
        _ => 0,
    }
}

/// Where the block behind `b` jumps, if it does.
fn jump_after(graph: &Cfg, b: BlockId) -> (target: Option<BlockId>)
    requires
        cfg::in_graph(graph@, b),
    ensures
        target == jump_behind(graph@, b),
{
    let total: usize = graph.blocks.len();
    let next: usize = b.0 as usize + 1;
    if next < total {
        assert(graph@.blocks[b.0 + 1] == graph.blocks@[next as int]@);
        if let Terminator::Jump(target) = graph.blocks[next].terminator {
            return Some(target);
        }
    }
    None
}

/// Decide whether the construct recovered from a conditional branch is
/// an `if/then` or an `if/else`, and identify the merge block where
/// control flow reconverges.
///
/// Returns `(else_start, merge)`. LuaJIT's codegen for `if/else` always
/// emits a "skip-else" JMP between the two bodies:
///
/// 1. **Then-body ends with `Jump(merge)`**: the live "skip-else" JMP.
///    `true_edge` is the else-body.
/// 2. **Then-body ends with `Fallthrough(target)`**: `target` is the
///    merge, and there is no else-body.
/// 3. **Then-body ends with `Return`**: a dead `Jump(merge)` block
///    immediately after the then-body means if/else (`true_edge` is the
///    else-body); without one, `true_edge` is the merge.
///
/// Any other terminator is unsupported.
pub fn branch_shape(graph: &Cfg, then_last: BlockId, true_edge: BlockId) -> (res: Result<
    (Option<BlockId>, BlockId),
    DecompilerError,
>)
    requires
        cfg::in_graph(graph@, then_last),
    ensures
        match (res, plain_ends(graph@, then_last, true_edge)) {
            (Ok(ends), Ok(expected)) => ends == expected,
            (Err(e), Err(f)) => e@ == f,
            _ => false,
        },
{
    assert(graph@.blocks[then_last.0 as int] == graph.blocks@[then_last.0 as int]@);
    match graph.blocks[then_last.0 as usize].terminator {
        Terminator::Jump(merge) => Ok((Some(true_edge), merge)),
        Terminator::Fallthrough(target) => Ok((None, target)),
        Terminator::Return => match jump_after(graph, then_last) {
            Some(merge) => Ok((Some(true_edge), merge)),
            None => Ok((None, true_edge)),
        },
        _ => Err(DecompilerError::NotImplemented),
    }
}

/// As [`branch_shape`], for the end of a chain of conditions, whose
/// merge is known. A chain with an else-body is not modeled.
fn chain_ends(graph: &Cfg, then_last: BlockId, merge: BlockId) -> (res: Result<
    (Option<BlockId>, BlockId),
    DecompilerError,
>)
    requires
        cfg::in_graph(graph@, then_last),
    ensures
        forall|shape: IfShape, true_edge: BlockId|
            shape.merge == Some(merge) ==> match (
                res,
                #[trigger] if_ends(graph@, shape, then_last, true_edge),
            ) {
                (Ok(ends), Ok(expected)) => ends == expected,
                (Err(e), Err(f)) => e@ == f,
                _ => false,
            },
        res matches Ok(ends) ==> ends == (None::<BlockId>, merge),
{
    assert(graph@.blocks[then_last.0 as int] == graph.blocks@[then_last.0 as int]@);
    match graph.blocks[then_last.0 as usize].terminator {
        Terminator::Fallthrough(target) => {
            if target == merge {
                Ok((None, merge))
            } else {
                Err(DecompilerError::NotImplemented)
            }
        },
        Terminator::Return => {
            if jump_after(graph, then_last).is_some() {
                Err(DecompilerError::NotImplemented)
            } else {
                Ok((None, merge))
            }
        },
        _ => Err(DecompilerError::NotImplemented),
    }
}

/// Whether all conditional branches of a chain jump to `target`.
fn chain_jumps_to(graph: &Cfg, chain: &Vec<BlockId>, target: BlockId) -> (r: bool)
    requires
        forall|i: int| 0 <= i < chain@.len() ==> cfg::in_graph(graph@, #[trigger] chain@[i]),
    ensures
        r == all_jump_to(graph@, chain@, target),
{
    let mut i: usize = 0;
    while i < chain.len()
        invariant
            i <= chain@.len(),
            forall|k: int| 0 <= k < chain@.len() ==> cfg::in_graph(graph@, #[trigger] chain@[k]),
            forall|k: int|
                0 <= k < i ==> branch_edges(graph@, (#[trigger] chain@[k]).0 as int).0 == target,
        decreases chain@.len() - i,
    {
        let (t, f) = cb_edges(graph, chain[i]);
        if t != target {
            assert(branch_edges(graph@, chain@[i as int].0 as int).0 != target);
            return false;
        }
        i = i + 1;
    }
    true
}

/// Determine the shape of the `if` that a chain of conditional branches
/// makes: single condition, OR chain, or AND chain.
fn chain_shape(graph: &Cfg, chain: &Vec<BlockId>, tests: &Vec<Expr>, conds: &Vec<Expr>) -> (res:
    Result<(BlockId, Option<BlockId>, Expr), DecompilerError>)
    requires
        chain@.len() > 0,
        tests@.len() == chain@.len(),
        conds@.len() == chain@.len(),
        forall|i: int| 0 <= i < chain@.len() ==> cfg::in_graph(graph@, #[trigger] chain@[i]),
    ensures
        forall|frame: Frame|
            match (
                res,
                #[trigger] if_shape(
                    graph@,
                    chain@,
                    Tests {
                        frame,
                        tests: ast::exprs_v(tests@),
                        conds: ast::exprs_v(conds@),
                    },
                ),
            ) {
                (Ok((then_entry, merge, cond)), Ok(shape)) => {
                    &&& then_entry == shape.then_entry
                    &&& merge == shape.merge
                    &&& cond@ == shape.cond
                },
                (Err(e), Err(f)) => e@ == f,
                _ => false,
            },
{
    let n: usize = chain.len();
    let (first_true, first_false) = cb_edges(graph, chain[0]);
    let (last_true, last_false) = cb_edges(graph, chain[n - 1]);
    proof {
        ast::lemma_exprs_v(tests@);
        ast::lemma_exprs_v(conds@);
    }
    if n == 1 {
        return Ok((first_false, None, conds[0].clone()));
    }
    if first_true == last_false {
        // OR chain: all but the last short-circuit via true_edge to the
        // then-body, so their tests stand as they are; the last skips to
        // the merge.
        let mut list: Vec<Expr> = Vec::new();
        let mut i: usize = 0;
        while i < n - 1
            invariant
                n == tests@.len(),
                n >= 2,
                i <= n - 1,
                list@.len() == i,
                forall|k: int| 0 <= k < i ==> (#[trigger] list@[k])@ == tests@[k]@,
            decreases n - 1 - i,
        {
            list.push(tests[i].clone());
            i = i + 1;
        }
        list.push(conds[n - 1].clone());
        proof {
            ast::lemma_exprs_v(list@);
            assert(ast::exprs_v(list@) =~= ast::exprs_v(tests@).drop_last().push(
                ast::exprs_v(conds@).last(),
            ));
        }
        let cond = join_or(&list);
        return Ok((first_true, Some(last_true), cond));
    }
    // AND chain: every conditional branch skips to a common merge.
    if !chain_jumps_to(graph, chain, last_true) {
        return Err(DecompilerError::NotImplemented);
    }
    let cond = join_and(conds);
    Ok((last_false, Some(last_true), cond))
}

/// Whether an executable stride has the given outcome.
pub open spec fn strides(
    res: Result<Option<BlockId>, DecompilerError>,
    outcome: Result<Stride, Fault>,
    walk: Walk,
    g: CfgV,
) -> bool {
    match (res, outcome) {
        (Ok(next), Ok(s)) => {
            &&& next == s.next
            &&& walk == s.walk
            &&& next matches Some(b) ==> cfg::in_graph(g, b)
        },
        (Err(e), Err(f)) => e@ == f,
        _ => false,
    }
}

/// Walk the conditional branches of a chain.
fn process_chain(
    ctx: &mut RecoveryCtx,
    stmts: &mut Vec<Stmt>,
    chain: &Vec<BlockId>,
) -> (res: Result<(Vec<Expr>, Vec<Expr>), DecompilerError>)
    requires
        old(ctx).wf(),
        forall|i: int|
            0 <= i < chain@.len() ==> cfg::in_graph(old(ctx).cfg@, #[trigger] chain@[i])
                && is_branch(old(ctx).cfg@, chain@[i].0 as int),
    ensures
        final(ctx).same_but_slots(*old(ctx)),
        match (
            res,
            tested_from(
                old(ctx).env(),
                old(ctx).cfg@,
                Tests { frame: old(ctx).frame(old(stmts)@), tests: seq![], conds: seq![] },
                chain@,
                0,
            ),
        ) {
            (Ok((tests, conds)), Ok(t)) => {
                &&& t.frame == final(ctx).frame(final(stmts)@)
                &&& t.tests == ast::exprs_v(tests@)
                &&& t.conds == ast::exprs_v(conds@)
                &&& tests@.len() == chain@.len()
                &&& conds@.len() == chain@.len()
            },
            (Err(e), Err(f)) => e@ == f,
            _ => false,
        },
    decreases old(ctx).proto_idx, 5int,
{
    let graph = ctx.cfg;
    let ghost env = ctx.env();
    let ghost start = Tests { frame: ctx.frame(stmts@), tests: seq![], conds: seq![] };
    let mut tests: Vec<Expr> = Vec::new();
    let mut conds: Vec<Expr> = Vec::new();
    let mut i: usize = 0;
    proof {
        assert(ast::exprs_v(tests@) =~= seq![]);
        assert(ast::exprs_v(conds@) =~= seq![]);
    }
    while i < chain.len()
        invariant
            i <= chain@.len(),
            ctx.wf(),
            ctx.same_but_slots(*old(ctx)),
            graph == ctx.cfg,
            env == ctx.env(),
            env == old(ctx).env(),
            start == (Tests {
                frame: old(ctx).frame(old(stmts)@),
                tests: seq![],
                conds: seq![],
            }),
            tests@.len() == i,
            conds@.len() == i,
            forall|k: int|
                0 <= k < chain@.len() ==> cfg::in_graph(graph@, #[trigger] chain@[k])
                    && is_branch(graph@, chain@[k].0 as int),
            tested_from(env, graph@, start, chain@, 0) == tested_from(
                env,
                graph@,
                Tests {
                    frame: ctx.frame(stmts@),
                    tests: ast::exprs_v(tests@),
                    conds: ast::exprs_v(conds@),
                },
                chain@,
                i as int,
            ),
        decreases chain@.len() - i,
    {
        process_test(ctx, stmts, &mut tests, &mut conds, chain[i])?;
        i = i + 1;
    }
    Ok((tests, conds))
}

/// Recover the `if` whose first conditional branch is block `b`.
fn recover_if(ctx: &mut RecoveryCtx, stmts: &mut Vec<Stmt>, b: BlockId) -> (res: Result<
    Option<BlockId>,
    DecompilerError,
>)
    requires
        old(ctx).wf(),
        cfg::in_graph(old(ctx).cfg@, b),
        is_branch(old(ctx).cfg@, b.0 as int),
    ensures
        final(ctx).same_context(*old(ctx)),
        strides(
            res,
            if_stride(old(ctx).env(), old(ctx).cfg@, walk_v(*old(ctx), old(stmts)@), b.0 as int),
            walk_v(*final(ctx), final(stmts)@),
            old(ctx).cfg@,
        ),
    decreases old(ctx).proto_idx, 7int,
{
    let graph = ctx.cfg;
    proof {
        cfg::lemma_fits_falls_forward(graph@, ctx.env().proto().insts);
    }
    let chain = collect_cb_chain(graph, b);
    let (tests, conds) = process_chain(ctx, stmts, &chain)?;
    let (then_entry, merge_known, cond) = chain_shape(graph, &chain, &tests, &conds)?;
    let (true_edge, false_edge) = cb_edges(graph, b);
    proof {
        lemma_branch_targets(graph@, ctx.env().proto().insts, chain@[0].0 as int);
        lemma_branch_targets(graph@, ctx.env().proto().insts, chain@.last().0 as int);
    }
    // Each branch body starts from the state behind the conditions.
    let entry_slots = ctx.slot_exprs.clone();
    let ghost behind = ctx.frame(stmts@);
    let (then_body, then_last) = recover_body(ctx, then_entry)?;
    let (else_start, merge) = match merge_known {
        Some(m) => chain_ends(graph, then_last, m)?,
        None => branch_shape(graph, then_last, true_edge)?,
    };
    proof {
        lemma_ends_targets(graph@, ctx.env().proto().insts, then_last);
    }
    ctx.slot_exprs = entry_slots;
    let else_body = match else_start {
        Some(start) => {
            let (body, else_last) = recover_body(ctx, start)?;
            Some(body)
        },
        None => None,
    };
    let stmt = Stmt::If { cond, then_body, else_body };
    proof {
        ast::lemma_stmts_push(stmts@, stmt);
    }
    stmts.push(stmt);
    Ok(Some(merge))
}

/// The targets of a conditional branch are in range.
proof fn lemma_branch_targets(g: CfgV, insts: Seq<Instruction>, b: int)
    requires
        cfg::graph_fits(g, insts),
        0 <= b < g.blocks.len(),
        is_branch(g, b),
    ensures
        cfg::in_graph(g, branch_edges(g, b).0),
        cfg::in_graph(g, branch_edges(g, b).1),
{
    assert(cfg::block_fits(g, insts, b));
}

/// Where control goes on behind an `if` is in range.
proof fn lemma_ends_targets(g: CfgV, insts: Seq<Instruction>, then_last: BlockId)
    requires
        cfg::graph_fits(g, insts),
        cfg::in_graph(g, then_last),
    ensures
        g.blocks[then_last.0 as int].terminator matches Terminator::Jump(t) ==> cfg::in_graph(g, t),
        g.blocks[then_last.0 as int].terminator matches Terminator::Fallthrough(t)
            ==> cfg::in_graph(g, t),
        jump_behind(g, then_last) matches Some(t) ==> cfg::in_graph(g, t),
{
    assert(cfg::block_fits(g, insts, then_last.0 as int));
    if then_last.0 + 1 < g.blocks.len() {
        assert(cfg::block_fits(g, insts, then_last.0 + 1));
    }
}

// ---- Loops -------------------------------------------------------------------------------------

/// Recover `repeat ... until cond`: the conditional branch at block `b`
/// branches to its own block. The ISxx tests the continue condition; the
/// until-condition is its complement.
fn recover_repeat(ctx: &mut RecoveryCtx, stmts: &mut Vec<Stmt>, b: BlockId) -> (res: Result<
    Option<BlockId>,
    DecompilerError,
>)
    requires
        old(ctx).wf(),
        cfg::in_graph(old(ctx).cfg@, b),
        is_branch(old(ctx).cfg@, b.0 as int),
    ensures
        final(ctx).same_context(*old(ctx)),
        strides(
            res,
            repeat_stride(
                old(ctx).env(),
                old(ctx).cfg@,
                walk_v(*old(ctx), old(stmts)@),
                b.0 as int,
            ),
            walk_v(*final(ctx), final(stmts)@),
            old(ctx).cfg@,
        ),
    decreases old(ctx).proto_idx, 7int,
{
    let graph = ctx.cfg;
    let block = &graph.blocks[b.0 as usize];
    proof {
        assert(graph@.blocks[b.0 as int] == block@);
        assert(cfg::block_fits(graph@, ctx.env().proto().insts, b.0 as int));
    }
    let (true_edge, false_edge) = cb_edges(graph, b);
    let exit = if true_edge == b {
        false_edge
    } else {
        true_edge
    };
    let at: u32 = cb_test(graph, b);
    // The body is everything before the ISxx. LOOP is a no-op marker.
    let mut body: Vec<Stmt> = Vec::new();
    assert(ast::stmts_v(body@) =~= seq![]);
    process_insts(ctx, &mut body, &block.insts, at as u64)?;
    let proto = ctx.proto();
    let cond = build_condition(proto, &ctx.slot_exprs, &proto.insts[at as usize])?;
    let stmt = Stmt::Repeat { cond, body };
    proof {
        ast::lemma_stmts_push(stmts@, stmt);
    }
    stmts.push(stmt);
    Ok(Some(exit))
}

/// Recover `while cond do ... end`: the fall-through block of the
/// conditional branch at block `b`, the body, jumps back to `b`. The
/// ISxx tests the exit condition; the while-condition is its complement.
fn recover_while(ctx: &mut RecoveryCtx, stmts: &mut Vec<Stmt>, b: BlockId) -> (res: Result<
    Option<BlockId>,
    DecompilerError,
>)
    requires
        old(ctx).wf(),
        cfg::in_graph(old(ctx).cfg@, b),
        is_branch(old(ctx).cfg@, b.0 as int),
    ensures
        final(ctx).same_context(*old(ctx)),
        strides(
            res,
            while_stride(
                old(ctx).env(),
                old(ctx).cfg@,
                walk_v(*old(ctx), old(stmts)@),
                b.0 as int,
            ),
            walk_v(*final(ctx), final(stmts)@),
            old(ctx).cfg@,
        ),
    decreases old(ctx).proto_idx, 7int,
{
    let graph = ctx.cfg;
    let block = &graph.blocks[b.0 as usize];
    proof {
        assert(graph@.blocks[b.0 as int] == block@);
        assert(cfg::block_fits(graph@, ctx.env().proto().insts, b.0 as int));
    }
    let (true_edge, false_edge) = cb_edges(graph, b);
    let at: u32 = cb_test(graph, b);
    // The header's prefix loads what the condition reads.
    process_insts(ctx, stmts, &block.insts, at as u64)?;
    let proto = ctx.proto();
    let cond = build_condition(proto, &ctx.slot_exprs, &proto.insts[at as usize])?;
    let body_block = &graph.blocks[false_edge.0 as usize];
    proof {
        assert(graph@.blocks[false_edge.0 as int] == body_block@);
        assert(cfg::block_fits(graph@, ctx.env().proto().insts, false_edge.0 as int));
    }
    let mut body: Vec<Stmt> = Vec::new();
    assert(ast::stmts_v(body@) =~= seq![]);
    process_prefix(ctx, &mut body, body_block)?;
    ctx.visited.insert(false_edge.0);
    let stmt = Stmt::While { cond, body };
    proof {
        ast::lemma_stmts_push(stmts@, stmt);
    }
    stmts.push(stmt);
    Ok(Some(true_edge))
}

/// Recover the construct at a conditional branch of the main walk.
///
/// Two loop shapes come before the `if`: a self-loop (`repeat`), and a
/// fall-through block that jumps back (`while`).
fn recover_branch(ctx: &mut RecoveryCtx, stmts: &mut Vec<Stmt>, b: BlockId) -> (res: Result<
    Option<BlockId>,
    DecompilerError,
>)
    requires
        old(ctx).wf(),
        cfg::in_graph(old(ctx).cfg@, b),
        is_branch(old(ctx).cfg@, b.0 as int),
    ensures
        final(ctx).same_context(*old(ctx)),
        strides(
            res,
            branch_stride(
                old(ctx).env(),
                old(ctx).cfg@,
                walk_v(*old(ctx), old(stmts)@),
                b.0 as int,
            ),
            walk_v(*final(ctx), final(stmts)@),
            old(ctx).cfg@,
        ),
    decreases old(ctx).proto_idx, 8int,
{
    let graph = ctx.cfg;
    proof {
        lemma_branch_targets(graph@, ctx.env().proto().insts, b.0 as int);
    }
    let (true_edge, false_edge) = cb_edges(graph, b);
    if true_edge == b || false_edge == b {
        return recover_repeat(ctx, stmts, b);
    }
    assert(graph@.blocks[false_edge.0 as int] == graph.blocks@[false_edge.0 as int]@);
    let is_while_loop = match graph.blocks[false_edge.0 as usize].terminator {
        Terminator::Jump(target) => target == b,
        _ => false,
    };
    if is_while_loop {
        return recover_while(ctx, stmts, b);
    }
    recover_if(ctx, stmts, b)
}

/// Recover `for var = start, stop[, step] do ... end`.
fn recover_numeric_for(
    ctx: &mut RecoveryCtx,
    stmts: &mut Vec<Stmt>,
    last: usize,
    base: u8,
    exit: BlockId,
    body: BlockId,
) -> (res: Result<Option<BlockId>, DecompilerError>)
    requires
        old(ctx).wf(),
        1 <= last,
        cfg::in_graph(old(ctx).cfg@, exit),
        cfg::in_graph(old(ctx).cfg@, body),
    ensures
        final(ctx).same_context(*old(ctx)),
        strides(
            res,
            numeric_stride(
                old(ctx).env(),
                old(ctx).cfg@,
                walk_v(*old(ctx), old(stmts)@),
                last as int,
                base,
                exit,
                body,
            ),
            walk_v(*final(ctx), final(stmts)@),
            old(ctx).cfg@,
        ),
    decreases old(ctx).proto_idx, 7int,
{
    let start = lookup_operand(&ctx.slot_exprs, base)?;
    let stop = lookup_wide(&ctx.slot_exprs, base as u16 + 1)?;
    let step_expr = lookup_wide(&ctx.slot_exprs, base as u16 + 2)?;
    // LuaJIT stores an explicit 1 even when the source has no step.
    let ghost step_v = step_expr@;
    let step = match step_expr {
        Expr::Int(1) => None,
        other => Some(other),
    };
    assert(match step {
        Some(e) => written_step(step_v) == Some(e@),
        None => written_step(step_v) is None,
    });
    // The loop variable is the local named at the FORI.
    if base > 252 {
        return Err(DecompilerError::NotImplemented);
    }
    let var = match ctx.proto().var_name_at(base + 3, last - 1) {
        Some(name) => name.clone(),
        None => {
            return Err(DecompilerError::NotImplemented);
        },
    };
    let var_expr = Expr::Var(var.clone());
    proof {
        operand::lemma_slots_insert(ctx.slot_exprs@, (base + 3) as u8, var_expr);
    }
    ctx.slot_exprs.insert(base + 3, var_expr);
    let (body_stmts, body_last) = recover_body(ctx, body)?;
    let stmt = Stmt::For { var, start, stop, step, body: body_stmts };
    proof {
        ast::lemma_stmts_push(stmts@, stmt);
    }
    stmts.push(stmt);
    Ok(Some(exit))
}

/// The names of the locals in the registers from `base` on, up to the
/// first without a name.
fn collect_loop_names(proto: &Proto, base: u8, index: usize) -> (names: Vec<String>)
    ensures
        text::views(names@) == loop_names(proto@, base as int, index as int, seq![]),
        base + names@.len() <= 256,
{
    let mut names: Vec<String> = Vec::new();
    let mut slot: u16 = base as u16;
    proof {
        assert(text::views(names@) =~= seq![]);
    }
    while slot < 256
        invariant
            base <= slot <= 256,
            slot == base + names@.len(),
            loop_names(proto@, base as int, index as int, seq![]) == loop_names(
                proto@,
                slot as int,
                index as int,
                text::views(names@),
            ),
        decreases 256 - slot,
    {
        let ghost before = text::views(names@);
        match proto.var_name_at(slot as u8, index) {
            Some(name) => {
                names.push(name.clone());
                assert(text::views(names@) =~= before.push(name@));
            },
            None => {
                return names;
            },
        }
        slot = slot + 1;
    }
    names
}

/// Recover `for k[, v[, ...]] in iterator do ... end`.
fn recover_generic_for(
    ctx: &mut RecoveryCtx,
    stmts: &mut Vec<Stmt>,
    last: usize,
    base: u8,
    exit: BlockId,
    body: BlockId,
) -> (res: Result<Option<BlockId>, DecompilerError>)
    requires
        old(ctx).wf(),
        1 <= last,
        cfg::in_graph(old(ctx).cfg@, exit),
        cfg::in_graph(old(ctx).cfg@, body),
    ensures
        final(ctx).same_context(*old(ctx)),
        strides(
            res,
            generic_stride(
                old(ctx).env(),
                old(ctx).cfg@,
                walk_v(*old(ctx), old(stmts)@),
                last as int,
                base,
                exit,
                body,
            ),
            walk_v(*final(ctx), final(stmts)@),
            old(ctx).cfg@,
        ),
    decreases old(ctx).proto_idx, 7int,
{
    let graph = ctx.cfg;
    // The call before ISNEXT left the iterator three slots below.
    if base < 3 {
        return Err(DecompilerError::NotImplemented);
    }
    let iterator = lookup_operand(&ctx.slot_exprs, base - 3)?;
    let vars = collect_loop_names(ctx.proto(), base, last - 1);
    if vars.len() == 0 {
        // Likely a stripped proto: no name is invented.
        return Err(DecompilerError::NotImplemented);
    }
    bind_names(&mut ctx.slot_exprs, base, &vars);
    let (body_stmts, body_last) = recover_body(ctx, body)?;
    let stmt = Stmt::ForIn { vars, iterator, body: body_stmts };
    proof {
        ast::lemma_stmts_push(stmts@, stmt);
        assert(cfg::block_fits(graph@, ctx.env().proto().insts, exit.0 as int));
        assert(graph@.blocks[exit.0 as int] == graph.blocks@[exit.0 as int]@);
    }
    stmts.push(stmt);
    // ISNEXT's target is the block with the back-edge, whose own exit is
    // that of the loop.
    match graph.blocks[exit.0 as usize].terminator {
        Terminator::LoopLatch { body: latch_body, exit: latch_exit } => {
            ctx.visited.insert(exit.0);
            Ok(Some(latch_exit))
        },
        _ => Ok(Some(exit)),
    }
}

/// Recover the for loop whose FORI or ISNEXT ends block `b`.
fn recover_loop(
    ctx: &mut RecoveryCtx,
    stmts: &mut Vec<Stmt>,
    b: BlockId,
    base: u8,
    exit: BlockId,
    body: BlockId,
) -> (res: Result<Option<BlockId>, DecompilerError>)
    requires
        old(ctx).wf(),
        cfg::in_graph(old(ctx).cfg@, b),
        old(ctx).cfg@.blocks[b.0 as int].terminator == (Terminator::LoopInit { base, exit, body }),
    ensures
        final(ctx).same_context(*old(ctx)),
        strides(
            res,
            loop_stride(
                old(ctx).env(),
                old(ctx).cfg@,
                walk_v(*old(ctx), old(stmts)@),
                b.0 as int,
                base,
                exit,
                body,
            ),
            walk_v(*final(ctx), final(stmts)@),
            old(ctx).cfg@,
        ),
    decreases old(ctx).proto_idx, 8int,
{
    let graph = ctx.cfg;
    let block = &graph.blocks[b.0 as usize];
    proof {
        assert(graph@.blocks[b.0 as int] == block@);
        assert(cfg::block_fits(graph@, ctx.env().proto().insts, b.0 as int));
    }
    let last: usize = block.insts[block.insts.len() - 1].0 as usize;
    // Everything before the FORI/ISNEXT is the pre-loop setup.
    process_prefix(ctx, stmts, block)?;
    if ctx.proto().insts[last].op == Opcode::Fori {
        recover_numeric_for(ctx, stmts, last, base, exit, body)
    } else {
        recover_generic_for(ctx, stmts, last, base, exit, body)
    }
}

// ---- The main walk ------------------------------------------------------------------

/// Walk one block of the main walk.
fn recover_block(ctx: &mut RecoveryCtx, stmts: &mut Vec<Stmt>, b: BlockId) -> (res: Result<
    Option<BlockId>,
    DecompilerError,
>)
    requires
        old(ctx).wf(),
        cfg::in_graph(old(ctx).cfg@, b),
    ensures
        final(ctx).same_context(*old(ctx)),
        strides(
            res,
            stride(old(ctx).env(), old(ctx).cfg@, walk_v(*old(ctx), old(stmts)@), b.0 as int),
            walk_v(*final(ctx), final(stmts)@),
            old(ctx).cfg@,
        ),
    decreases old(ctx).proto_idx, 9int,
{
    let graph = ctx.cfg;
    let block = &graph.blocks[b.0 as usize];
    proof {
        assert(graph@.blocks[b.0 as int] == block@);
        assert(cfg::block_fits(graph@, ctx.env().proto().insts, b.0 as int));
    }
    match block.terminator {
        Terminator::Fallthrough(next) => {
            // No explicit terminator instruction: process every one.
            process_insts(ctx, stmts, &block.insts, 0x1_0000_0000)?;
            Ok(Some(next))
        },
        Terminator::ConditionalBranch { .. } => recover_branch(ctx, stmts, b),
        Terminator::LoopInit { base, exit, body } => recover_loop(ctx, stmts, b, base, exit, body),
        Terminator::Jump(target) => {
            close_block(ctx, stmts, b)?;
            // A top-level standalone JMP (loops, gotos) isn't modeled.
            Err(DecompilerError::NotImplemented)
        },
        _ => {
            close_block(ctx, stmts, b)?;
            Ok(None)
        },
    }
}

/// Walk the blocks from `start` on, appending [`Stmt`]s to `stmts`.
///
/// A start block that a walk has entered before means a control-flow
/// cycle that is not handled explicitly: it is refused with
/// [`DecompilerError::NotImplemented`], and nothing changes.
pub fn recover_from(ctx: &mut RecoveryCtx, stmts: &mut Vec<Stmt>, start: BlockId) -> (res: Result<
    (),
    DecompilerError,
>)
    requires
        old(ctx).wf(),
        cfg::in_graph(old(ctx).cfg@, start),
    ensures
        final(ctx).same_context(*old(ctx)),
        match (
            res,
            walk_at(old(ctx).env(), old(ctx).cfg@, walk_v(*old(ctx), old(stmts)@), start),
        ) {
            (Ok(()), Ok(w)) => walk_v(*final(ctx), final(stmts)@) == w,
            (Err(e), Err(f)) => e@ == f,
            _ => false,
        },
        old(ctx).visited@.contains(start.0) ==> (res matches Err(e) && e@ == Fault::NotImplemented)
            && walk_v(*final(ctx), final(stmts)@) == walk_v(*old(ctx), old(stmts)@),
    decreases old(ctx).proto_idx, 10int,
{
    if ctx.visited.contains(&start.0) {
        return Err(DecompilerError::NotImplemented);
    }
    ctx.visited.insert(start.0);
    let graph = ctx.cfg;
    let ghost env = ctx.env();
    let ghost first = walk_v(*ctx, stmts@);
    let mut b = start;
    let mut fuel: usize = graph.blocks.len();
    assert(graph@.blocks.len() == graph.blocks@.len());
    while fuel > 0
        invariant
            ctx.wf(),
            ctx.same_context(*old(ctx)),
            graph == ctx.cfg,
            env == ctx.env(),
            env == old(ctx).env(),
            !old(ctx).visited@.contains(start.0),
            walk_at(env, graph@, walk_v(*old(ctx), old(stmts)@), start) == walk_from(
                env,
                graph@,
                first,
                start.0 as int,
                graph@.blocks.len(),
            ),
            cfg::in_graph(graph@, b),
            walk_from(env, graph@, first, start.0 as int, graph@.blocks.len()) == walk_from(
                env,
                graph@,
                walk_v(*ctx, stmts@),
                b.0 as int,
                fuel as nat,
            ),
        decreases fuel,
    {
        fuel = fuel - 1;
        match recover_block(ctx, stmts, b)? {
            Some(next) => {
                b = next;
            },
            None => {
                return Ok(());
            },
        }
    }
    Err(DecompilerError::NotImplemented)
}

} // verus!
