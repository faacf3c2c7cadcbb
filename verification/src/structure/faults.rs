//! What can go wrong in recovery: a shape that is not modeled, or a
//! constant operand out of range.

use vstd::prelude::*;

use crate::cfg;
use crate::cfg::{BlockId, BlockV, CfgV, InstructionId, Terminator};
use crate::ir;
use crate::ir::{Instruction, ModuleV, ProtoV, UpvalDesc};
use crate::structure;
use crate::structure::ast::ExprV;
use crate::structure::condition;
use crate::structure::function;
use crate::structure::lower;
use crate::structure::lower::Env;
use crate::structure::operand;
use crate::structure::operand::Frame;
use crate::structure::walk;
use crate::structure::walk::{Tests, Walk};
use crate::Fault;

verus! {

/// Whether a fault is one that recovery may end in: the shape is not
/// modeled, or a constant operand is out of range, which has no offset
/// of its own.
pub open spec fn recovery_fault(f: Fault) -> bool {
    match f {
        Fault::NotImplemented => true,
        Fault::InvalidBytecode { offset, reason } => offset == 0 && exists|d: nat, len: nat|
            d >= len && reason == #[trigger] ir::gc_range_reason(d, len),
    }
}

/// Whether an outcome, if it is a fault, is one of those.
pub open spec fn expected<T>(out: Result<T, Fault>) -> bool {
    out matches Err(f) ==> recovery_fault(f)
}

/// Whether the bodies of earlier prototypes end in no other faults.
spec fn kids_expected(env: Env) -> bool {
    forall|c: nat, n: Option<Seq<Seq<char>>>| expected(#[trigger] (env.kids)(c, n))
}

proof fn lemma_computed(env: Env, slots: Map<u8, ExprV>, inst: Instruction)
    requires
        kids_expected(env),
    ensures
        expected(lower::computed(env, slots, inst)),
{
    let p = env.proto();
    lemma_gc_const(p, ir::inst_d(inst));
    lemma_gc_const(p, inst.c as u16);
    lemma_concat(slots, ir::inst_b(inst) as int, inst.c as int);
    lemma_function(env, slots, ir::inst_d(inst));
}

proof fn lemma_gc_const(p: ProtoV, d: u16)
    ensures
        expected(ir::gc_const_at(p.gc_consts, d)),
        expected(operand::str_expr(p, d)),
        expected(operand::name_const(p, d)),
        expected(lower::template_expr(p, d)),
{
    let len = p.gc_consts.len();
    if d >= len {
        assert(ir::gc_range_reason(d as nat, len) == ir::gc_range_reason(d as nat, len));
    }
}

proof fn lemma_concat(slots: Map<u8, ExprV>, b: int, c: int)
    ensures
        expected(lower::concat_expr(slots, b, c)),
    decreases c - b,
{
    if b < c {
        lemma_concat(slots, b + 1, c);
    }
}

proof fn lemma_operands(slots: Map<u8, ExprV>, from: int, to: int, so_far: Seq<ExprV>)
    ensures
        expected(lower::operands(slots, from, to, so_far)),
    decreases to - from,
{
    if from < to {
        if let Ok(e) = operand::operand(slots, from) {
            lemma_operands(slots, from + 1, to, so_far.push(e));
        }
    }
}

proof fn lemma_upvalue_names(
    slots: Map<u8, ExprV>,
    names: Option<Seq<Seq<char>>>,
    uvs: Seq<UpvalDesc>,
    i: int,
    so_far: Seq<Seq<char>>,
)
    ensures
        expected(function::upvalue_names_from(slots, names, uvs, i, so_far)),
    decreases uvs.len() - i,
{
    if 0 <= i < uvs.len() {
        if let Ok(name) = function::upvalue_name(slots, names, uvs[i]) {
            lemma_upvalue_names(slots, names, uvs, i + 1, so_far.push(name));
        }
    }
}

proof fn lemma_function(env: Env, slots: Map<u8, ExprV>, d: u16)
    requires
        kids_expected(env),
    ensures
        expected(lower::function_expr(env, slots, d)),
{
    lemma_gc_const(env.module.protos[env.idx as int], d);
    if let Ok(c) = function::child_index(env.module, env.idx as int, d) {
        let child = env.module.protos[c as int];
        lemma_upvalue_names(slots, env.names, child.upvalues, 0, seq![]);
        if let Ok(names) = lower::child_names(env, slots, child) {
            assert(expected((env.kids)(c, names)));
        }
    }
}

proof fn lemma_written(env: Env, slots: Map<u8, ExprV>, inst: Instruction)
    ensures
        expected(lower::written(env, slots, inst)),
{
    lemma_gc_const(env.proto(), ir::inst_d(inst));
    lemma_gc_const(env.proto(), inst.c as u16);
}

proof fn lemma_called(env: Env, f: Frame, idx: int)
    ensures
        expected(lower::called(env, f, idx)),
        expected(lower::called_multi(env, f, idx)),
{
    let inst = env.proto().insts[idx];
    let base = lower::arg_base(env.fr2, inst.a);
    let explicit = if inst.c >= 2 {
        inst.c - 2
    } else {
        0
    };
    let fixed = if inst.c >= 1 {
        inst.c - 1
    } else {
        0
    };
    lemma_operands(f.slots, base + 1, lower::clipped(base + 1 + explicit), seq![]);
    lemma_operands(f.slots, base + 1, lower::clipped(base + 1 + fixed), seq![]);
    lemma_operands(f.slots, base, lower::clipped(base + inst.c - 1), seq![]);
}

proof fn lemma_step(env: Env, f: Frame, idx: int)
    requires
        kids_expected(env),
    ensures
        expected(lower::step(env, f, idx)),
{
    let inst = env.proto().insts[idx];
    lemma_computed(env, f.slots, inst);
    lemma_written(env, f.slots, inst);
    lemma_called(env, f, idx);
}

proof fn lemma_run(env: Env, f: Frame, ids: Seq<InstructionId>, limit: int)
    requires
        kids_expected(env),
    ensures
        expected(walk::run(env, f, ids, limit)),
    decreases ids.len(),
{
    if ids.len() > 0 && ids[0].0 < limit {
        lemma_step(env, f, ids[0].0 as int);
        if let Ok(g) = lower::step(env, f, ids[0].0 as int) {
            lemma_run(env, g, ids.drop_first(), limit);
        }
    }
}

proof fn lemma_closed(env: Env, f: Frame, block: BlockV)
    requires
        kids_expected(env),
    ensures
        expected(walk::closed_by(env, f, block)),
{
    lemma_run(env, f, block.insts, block.insts.last().0 as int);
    if let Ok(g) = walk::run_prefix(env, f, block) {
        if let Terminator::TailCall(id) = block.terminator {
            let inst = env.proto().insts[id.0 as int];
            let base = lower::arg_base(env.fr2, inst.a);
            lemma_operands(
                g.slots,
                base,
                lower::clipped(base + (ir::inst_d(inst) - 1) % 0x100),
                seq![],
            );
        }
    }
}

proof fn lemma_body(env: Env, g: CfgV, f: Frame, b: int, fuel: nat)
    requires
        kids_expected(env),
    ensures
        expected(walk::body_from(env, g, f, b, fuel)),
    decreases fuel,
{
    if fuel > 0 {
        lemma_closed(env, f, g.blocks[b]);
        lemma_run(env, f, g.blocks[b].insts, walk::no_limit());
        if let Ok((h, Some(next))) = walk::enter_body(env, g, f, b) {
            lemma_body(env, g, h, next.0 as int, (fuel - 1) as nat);
        }
    }
}

proof fn lemma_body_at(
    env: Env,
    g: CfgV,
    slots: Map<u8, ExprV>,
    visited: Set<u32>,
    b: BlockId,
)
    requires
        kids_expected(env),
    ensures
        expected(walk::body_at(env, g, slots, visited, b)),
{
    lemma_body(env, g, Frame { slots, out: seq![] }, b.0 as int, g.blocks.len());
}

proof fn lemma_condition(p: ProtoV, slots: Map<u8, ExprV>, inst: Instruction)
    ensures
        expected(condition::test_expr(p, slots, inst)),
        expected(condition::cond_expr(p, slots, inst)),
{
}

proof fn lemma_tested(env: Env, g: CfgV, t: Tests, chain: Seq<BlockId>, i: int)
    requires
        kids_expected(env),
    ensures
        expected(walk::tested_from(env, g, t, chain, i)),
    decreases chain.len() - i,
{
    if 0 <= i < chain.len() {
        let b = chain[i].0 as int;
        let at = walk::branch_test(g, b);
        lemma_run(env, t.frame, g.blocks[b].insts, at);
        if let Ok(f) = walk::run(env, t.frame, g.blocks[b].insts, at) {
            lemma_condition(env.proto(), f.slots, env.proto().insts[at]);
        }
        if let Ok(u) = walk::tested(env, g, t, b) {
            lemma_tested(env, g, u, chain, i + 1);
        }
    }
}

proof fn lemma_if(env: Env, g: CfgV, w: Walk, b: int)
    requires
        kids_expected(env),
    ensures
        expected(walk::if_stride(env, g, w, b)),
{
    let chain = walk::branch_chain(g, b);
    let start = Tests { frame: w.frame, tests: seq![], conds: seq![] };
    lemma_tested(env, g, start, chain, 0);
    if let Ok(t) = walk::tested_from(env, g, start, chain, 0) {
        if let Ok(shape) = walk::if_shape(g, chain, t) {
            lemma_body_at(env, g, t.frame.slots, w.visited, shape.then_entry);
            if let Ok((f, last)) = walk::body_at(
                env,
                g,
                t.frame.slots,
                w.visited,
                shape.then_entry,
            ) {
                let visited = w.visited.insert(shape.then_entry.0);
                if let Ok((Some(other), merge)) = walk::if_ends(
                    g,
                    shape,
                    last,
                    walk::branch_edges(g, b).0,
                ) {
                    lemma_body_at(env, g, t.frame.slots, visited, other);
                }
            }
        }
    }
}

proof fn lemma_branch(env: Env, g: CfgV, w: Walk, b: int)
    requires
        kids_expected(env),
    ensures
        expected(walk::branch_stride(env, g, w, b)),
{
    let p = env.proto();
    let at = walk::branch_test(g, b);
    let (true_edge, false_edge) = walk::branch_edges(g, b);
    lemma_if(env, g, w, b);
    let fresh = Frame { slots: w.frame.slots, out: seq![] };
    lemma_run(env, fresh, g.blocks[b].insts, at);
    if let Ok(f) = walk::run(env, fresh, g.blocks[b].insts, at) {
        lemma_condition(p, f.slots, p.insts[at]);
    }
    lemma_run(env, w.frame, g.blocks[b].insts, at);
    if let Ok(f) = walk::run(env, w.frame, g.blocks[b].insts, at) {
        lemma_condition(p, f.slots, p.insts[at]);
        let body = g.blocks[false_edge.0 as int];
        lemma_run(
            env,
            Frame { slots: f.slots, out: seq![] },
            body.insts,
            body.insts.last().0 as int,
        );
    }
}

proof fn lemma_loop(
    env: Env,
    g: CfgV,
    w: Walk,
    b: int,
    base: u8,
    exit: BlockId,
    body: BlockId,
)
    requires
        kids_expected(env),
    ensures
        expected(walk::loop_stride(env, g, w, b, base, exit, body)),
{
    let block = g.blocks[b];
    let last = block.insts.last().0 as int;
    lemma_run(env, w.frame, block.insts, last);
    if let Ok(f) = walk::run_prefix(env, w.frame, block) {
        if let Some(var) = walk::loop_name(env.proto(), base + 3, last - 1) {
            lemma_body_at(
                env,
                g,
                f.slots.insert((base + 3) as u8, ExprV::Var(var)),
                w.visited,
                body,
            );
        }
        let vars = walk::loop_names(env.proto(), base as int, last - 1, seq![]);
        lemma_body_at(env, g, lower::named_slots(f.slots, base, vars), w.visited, body);
    }
}

proof fn lemma_walk(env: Env, g: CfgV, w: Walk, b: int, fuel: nat)
    requires
        kids_expected(env),
    ensures
        expected(walk::walk_from(env, g, w, b, fuel)),
    decreases fuel,
{
    if fuel > 0 {
        let block = g.blocks[b];
        lemma_run(env, w.frame, block.insts, walk::no_limit());
        lemma_closed(env, w.frame, block);
        lemma_branch(env, g, w, b);
        if let Terminator::LoopInit { base, exit, body } = block.terminator {
            lemma_loop(env, g, w, b, base, exit, body);
        }
        if let Ok(s) = walk::stride(env, g, w, b) {
            if let Some(next) = s.next {
                lemma_walk(env, g, s.walk, next.0 as int, (fuel - 1) as nat);
            }
        }
    }
}

/// Recovery ends in no other faults: a shape that is not modeled is
/// answered as such, and nothing else can go wrong but a constant
/// operand that is out of range.
pub proof fn law_recovery_faults(
    m: ModuleV,
    idx: nat,
    fr2: bool,
    names: Option<Seq<Seq<char>>>,
)
    ensures
        expected(structure::recovered_proto(m, idx, fr2, names)),
    decreases idx,
{
    reveal(structure::recovered);
    let kids = structure::earlier(m, idx, fr2);
    let env = Env { module: m, idx, fr2, names, kids };
    assert forall|c: nat, n: Option<Seq<Seq<char>>>| expected(#[trigger] (env.kids)(c, n)) by {
        if c < idx {
            law_recovery_faults(m, c, fr2, n);
        }
    }
    let g = cfg::built(m.protos[idx as int].insts);
    let start = Walk {
        frame: Frame {
            slots: lower::named_slots(Map::empty(), 0, function::param_names(env.proto())),
            out: seq![],
        },
        visited: Set::empty().insert(g.entry.0),
    };
    lemma_walk(env, g, start, g.entry.0 as int, g.blocks.len());
}

} // verus!
