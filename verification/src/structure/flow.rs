//! What recovered control flow does, by where the code goes.

use vstd::prelude::*;

use crate::cfg;
use crate::cfg::{BlockId, BlockV, CfgV, InstructionId, Terminator};
use crate::ir;
use crate::ir::{ModuleV, Opcode, ProtoV};
use crate::structure;
use crate::structure::ast::{ExprV, StmtV};
use crate::structure::condition;
use crate::structure::effects;
use crate::structure::function;
use crate::structure::lower;
use crate::structure::lower::Env;
use crate::structure::meaning;
use crate::structure::meaning::Meaning;
use crate::structure::operand;
use crate::structure::operand::Frame;
use crate::structure::walk;
use crate::structure::walk::{IfShape, Stride, Tests, Walk};
use crate::Fault;

verus! {

// ---- Straight-line code ------------------------------------------------------------

/// Whether instruction ids are in a row.
pub open spec fn consecutive(ids: Seq<InstructionId>) -> bool {
    forall|j: int| 0 <= j < ids.len() ==> (#[trigger] ids[j]).0 == ids[0].0 + j
}

/// Running two lists in a row is running one behind the other, and
/// running one instruction is its step.
pub proof fn law_code_runs_in_order(
    env: Env,
    f: Frame,
    first: Seq<InstructionId>,
    second: Seq<InstructionId>,
    id: InstructionId,
)
    ensures
        walk::run(env, f, first + second, walk::no_limit()) == match walk::run(
            env,
            f,
            first,
            walk::no_limit(),
        ) {
            Err(e) => Err(e),
            Ok(g) => walk::run(env, g, second, walk::no_limit()),
        },
        walk::run(env, f, seq![id], walk::no_limit()) == lower::step(env, f, id.0 as int),
        walk::run(env, f, seq![], walk::no_limit()) == Ok::<Frame, Fault>(f),
    decreases first.len(),
{
    if first.len() == 0 {
        assert(first + second =~= second);
    } else {
        let rest = first.drop_first();
        assert((first + second).drop_first() =~= rest + second);
        assert((first + second)[0] == first[0]);
        if let Ok(g) = lower::step(env, f, first[0].0 as int) {
            law_code_runs_in_order(env, g, rest, second, id);
        }
    }
    let one = seq![id];
    reveal_with_fuel(walk::run, 2);
    assert(one.drop_first() =~= seq![]);
}

/// Of instructions in a row, a run up to `limit` carries out all those
/// below it and none of the others.
pub proof fn law_run_stops_at_its_limit(
    env: Env,
    f: Frame,
    ids: Seq<InstructionId>,
    k: int,
    limit: int,
)
    requires
        consecutive(ids),
        0 <= k <= ids.len(),
        k < ids.len() ==> limit == ids[0].0 + k,
        k == ids.len() && k > 0 ==> limit > ids[k - 1].0,
    ensures
        walk::run(env, f, ids, limit) == walk::run(env, f, ids.take(k), walk::no_limit()),
    decreases k,
{
    if ids.len() > 0 && k > 0 {
        let rest = ids.drop_first();
        assert(ids.take(k).drop_first() =~= rest.take(k - 1));
        assert(ids.take(k)[0] == ids[0]);
        assert forall|j: int| 0 <= j < rest.len() implies (#[trigger] rest[j]).0 == rest[0].0
            + j by {
            assert(ids[j + 1].0 == ids[0].0 + (j + 1));
            assert(ids[1].0 == ids[0].0 + 1);
        }
        if k < ids.len() {
            assert(rest[0].0 == ids[0].0 + 1) by {
                assert(ids[1].0 == ids[0].0 + 1);
            }
        } else if k > 1 {
            assert(rest[k - 2] == ids[k - 1]);
        }
        assert(ids[k - 1].0 == ids[0].0 + (k - 1));
        if let Ok(g) = lower::step(env, f, ids[0].0 as int) {
            law_run_stops_at_its_limit(env, g, rest, k - 1, limit);
        }
    } else {
        assert(ids.take(k) =~= seq![]);
    }
}

/// What a block does before its last instruction is what all its other
/// instructions do.
pub proof fn law_prefix_leaves_out_the_last(env: Env, f: Frame, block: BlockV)
    requires
        block.insts.len() > 0,
        consecutive(block.insts),
    ensures
        walk::run_prefix(env, f, block) == walk::run(
            env,
            f,
            block.insts.drop_last(),
            walk::no_limit(),
        ),
{
    let n = block.insts.len() as int;
    assert(block.insts[n - 1].0 == block.insts[0].0 + (n - 1));
    law_run_stops_at_its_limit(env, f, block.insts, n - 1, block.insts.last().0 as int);
    assert(block.insts.take(n - 1) =~= block.insts.drop_last());
}

/// Where a block of the main walk leads that neither branches nor starts
/// a loop. One that falls through runs whole and leads on; a return, a
/// tail call and a back-edge end the walk; a bare jump is not modeled.
pub proof fn law_plain_blocks(env: Env, g: CfgV, w: Walk, b: int)
    ensures
        match g.blocks[b].terminator {
            Terminator::Fallthrough(next) => match walk::run(
                env,
                w.frame,
                g.blocks[b].insts,
                walk::no_limit(),
            ) {
                Err(e) => walk::stride(env, g, w, b) == Err::<Stride, Fault>(e),
                Ok(f) => walk::stride(env, g, w, b) == Ok::<Stride, Fault>(
                    Stride {
                        walk: Walk { frame: f, visited: w.visited },
                        next: Some(next),
                    },
                ),
            },
            Terminator::Jump(target) => walk::stride(env, g, w, b) is Err,
            Terminator::Return | Terminator::TailCall(_) | Terminator::LoopLatch { .. } =>
                match walk::run_prefix(env, w.frame, g.blocks[b]) {
                Err(e) => walk::stride(env, g, w, b) == Err::<Stride, Fault>(e),
                Ok(f) => {
                    let end = match g.blocks[b].terminator {
                        Terminator::Return => walk::returned(
                            env.proto(),
                            f,
                            g.blocks[b].insts.last().0 as int,
                        ),
                        Terminator::TailCall(id) => walk::tail_called(env, f, id.0 as int),
                        _ => Ok(f),
                    };
                    match end {
                        Err(e) => walk::stride(env, g, w, b) == Err::<Stride, Fault>(e),
                        Ok(h) => walk::stride(env, g, w, b) == Ok::<Stride, Fault>(
                            Stride { walk: Walk { frame: h, visited: w.visited }, next: None },
                        ),
                    }
                },
            },
            _ => true,
        },
{
}

// ---- Bodies -----------------------------------------------------------------------------

/// The instructions of the blocks from `b` to `e`, without `e`.
pub open spec fn code_of(g: CfgV, b: int, e: int) -> Seq<InstructionId>
    decreases e - b,
{
    if b >= e {
        seq![]
    } else {
        g.blocks[b].insts + code_of(g, b + 1, e)
    }
}

/// What the last block of a body does to a frame.
pub open spec fn body_end(env: Env, g: CfgV, f: Frame, e: int) -> Result<Frame, Fault> {
    if g.blocks[e].terminator is Fallthrough {
        walk::run(env, f, g.blocks[e].insts, walk::no_limit())
    } else {
        walk::closed_by(env, f, g.blocks[e])
    }
}

/// The body that starts at a block is a run of blocks: each falls through
/// into the next, which nothing else leads to, and the last returns,
/// jumps, loops back, or falls into a block that something else leads to
/// as well. Its statements are those of the blocks' code, in order.
pub proof fn law_body_is_a_run_of_blocks(env: Env, g: CfgV, f: Frame, b: int, fuel: nat)
    requires
        cfg::falls_forward(g),
        0 <= b < g.blocks.len() <= u32::MAX,
    ensures
        walk::body_from(env, g, f, b, fuel) matches Ok((h, last)) ==> {
            let e = last.0 as int;
            &&& b <= e < g.blocks.len()
            &&& forall|k: int|
                b <= k < e ==> {
                    &&& (#[trigger] g.blocks[k]).terminator == Terminator::Fallthrough(
                        BlockId((k + 1) as u32),
                    )
                    &&& g.blocks[k + 1].preds.len() <= 1
                }
            &&& match g.blocks[e].terminator {
                Terminator::Fallthrough(next) => g.blocks[next.0 as int].preds.len() > 1,
                Terminator::ConditionalBranch { .. } | Terminator::LoopInit { .. } => false,
                _ => true,
            }
            &&& match walk::run(env, f, code_of(g, b, e), walk::no_limit()) {
                Err(fault) => false,
                Ok(mid) => body_end(env, g, mid, e) == Ok::<Frame, Fault>(h),
            }
        },
    decreases fuel,
{
    if fuel > 0 {
        match walk::enter_body(env, g, f, b) {
            Err(fault) => {},
            Ok((h1, None)) => {
                law_code_runs_in_order(env, f, seq![], seq![], InstructionId(0));
                assert(walk::body_from(env, g, f, b, fuel) == Ok::<(Frame, BlockId), Fault>(
                    (h1, BlockId(b as u32)),
                ));
                assert(code_of(g, b, b) == Seq::<InstructionId>::empty());
                assert(body_end(env, g, f, b) == Ok::<Frame, Fault>(h1));
            },
            Ok((h1, Some(next))) => {
                assert(g.blocks[b].terminator == Terminator::Fallthrough(next));
                assert(next.0 == b + 1);
                law_body_is_a_run_of_blocks(env, g, h1, b + 1, (fuel - 1) as nat);
                if let Ok((h, last)) = walk::body_from(env, g, f, b, fuel) {
                    let e = last.0 as int;
                    law_code_runs_in_order(
                        env,
                        f,
                        g.blocks[b].insts,
                        code_of(g, b + 1, e),
                        InstructionId(0),
                    );
                    assert(code_of(g, b, e) == g.blocks[b].insts + code_of(g, b + 1, e));
                    assert forall|k: int| b <= k < e implies {
                        &&& (#[trigger] g.blocks[k]).terminator == Terminator::Fallthrough(
                            BlockId((k + 1) as u32),
                        )
                        &&& g.blocks[k + 1].preds.len() <= 1
                    } by {
                        if k == b {
                            assert(next == BlockId((b + 1) as u32));
                        }
                    }
                }
            },
        }
    }
}

// ---- Conditions --------------------------------------------------------------------------

/// Where a chain of conditional branches goes from its `i`-th on, when
/// `taken` says which tests succeed: a test that succeeds jumps, one that
/// fails falls through to the next.
pub open spec fn landing(g: CfgV, chain: Seq<BlockId>, taken: Seq<bool>, i: int) -> BlockId
    decreases chain.len() - i,
{
    let (jump, fall) = walk::branch_edges(g, chain[i].0 as int);
    if taken[i] {
        jump
    } else if i + 1 < chain.len() {
        landing(g, chain, taken, i + 1)
    } else {
        fall
    }
}

proof fn lemma_landing(g: CfgV, chain: Seq<BlockId>, taken: Seq<bool>, i: int, k: int)
    requires
        0 <= i <= k < chain.len(),
        taken.len() == chain.len(),
        forall|j: int| i <= j < k ==> !(#[trigger] taken[j]),
    ensures
        landing(g, chain, taken, i) == landing(g, chain, taken, k),
    decreases k - i,
{
    if i < k {
        lemma_landing(g, chain, taken, i + 1, k);
    }
}

proof fn lemma_all_and<V>(m: Meaning<V>, conds: Seq<ExprV>)
    requires
        conds.len() > 0,
    ensures
        meaning::holds(m, walk::all_and(conds)) <==> forall|i: int|
            0 <= i < conds.len() ==> meaning::holds(m, #[trigger] conds[i]),
    decreases conds.len(),
{
    if conds.len() > 1 {
        let init = conds.drop_last();
        lemma_all_and(m, init);
        assert(meaning::value(m, walk::all_and(conds)) == if meaning::holds(
            m,
            walk::all_and(init),
        ) {
            meaning::value(m, conds.last())
        } else {
            meaning::value(m, walk::all_and(init))
        });
        if meaning::holds(m, walk::all_and(conds)) {
            assert forall|i: int| 0 <= i < conds.len() implies meaning::holds(
                m,
                #[trigger] conds[i],
            ) by {
                if i < conds.len() - 1 {
                    assert(init[i] == conds[i]);
                }
            }
        } else if meaning::holds(m, walk::all_and(init)) {
            assert(!meaning::holds(m, conds[conds.len() - 1]));
        } else {
            let i = choose|i: int| 0 <= i < init.len() && !meaning::holds(m, #[trigger] init[i]);
            assert(init[i] == conds[i]);
        }
    }
}

proof fn lemma_all_or<V>(m: Meaning<V>, conds: Seq<ExprV>)
    requires
        conds.len() > 0,
    ensures
        meaning::holds(m, walk::all_or(conds)) <==> exists|i: int|
            0 <= i < conds.len() && meaning::holds(m, #[trigger] conds[i]),
    decreases conds.len(),
{
    if conds.len() > 1 {
        let init = conds.drop_last();
        lemma_all_or(m, init);
        assert(meaning::value(m, walk::all_or(conds)) == if meaning::holds(m, walk::all_or(init)) {
            meaning::value(m, walk::all_or(init))
        } else {
            meaning::value(m, conds.last())
        });
        if meaning::holds(m, walk::all_or(init)) {
            let i = choose|i: int| 0 <= i < init.len() && meaning::holds(m, #[trigger] init[i]);
            assert(meaning::holds(m, conds[i]));
        } else if meaning::holds(m, conds.last()) {
            assert(meaning::holds(m, conds[conds.len() - 1]));
        } else {
            assert forall|i: int| 0 <= i < conds.len() implies !meaning::holds(
                m,
                #[trigger] conds[i],
            ) by {
                if i < conds.len() - 1 {
                    assert(init[i] == conds[i]);
                }
            }
        }
    } else {
        if meaning::holds(m, conds[0]) {
        }
    }
}

/// Whether the expressions of a chain say which tests succeed.
pub open spec fn tells<V>(m: Meaning<V>, t: Tests, taken: Seq<bool>) -> bool {
    &&& t.tests.len() == taken.len()
    &&& t.conds.len() == taken.len()
    &&& forall|i: int|
        0 <= i < taken.len() ==> meaning::holds(m, #[trigger] t.tests[i]) == taken[i]
    &&& forall|i: int|
        0 <= i < taken.len() ==> meaning::holds(m, #[trigger] t.conds[i]) == !taken[i]
}

/// Whether a chain that is joined by `or` short-circuits to one place:
/// all branches but the last jump to where the first does.
pub open spec fn one_short_cut(g: CfgV, chain: Seq<BlockId>) -> bool {
    walk::branch_edges(g, chain[0].0 as int).0 == walk::branch_edges(g, chain.last().0 as int).1
        ==> forall|i: int|
        0 <= i < chain.len() - 1 ==> walk::branch_edges(g, (#[trigger] chain[i]).0 as int).0
            == walk::branch_edges(g, chain[0].0 as int).0
}

/// The condition of an `if` holds exactly when its branches lead to the
/// then-body; when it does not, they lead to where control goes on behind
/// it, or to the else-body of a plain condition.
pub proof fn law_condition_leads_to_the_then_body<V>(
    m: Meaning<V>,
    g: CfgV,
    chain: Seq<BlockId>,
    t: Tests,
    taken: Seq<bool>,
)
    requires
        chain.len() > 0,
        taken.len() == chain.len(),
        tells(m, t, taken),
        chain.len() > 1 ==> one_short_cut(g, chain),
    ensures
        walk::if_shape(g, chain, t) matches Ok(shape) ==> landing(g, chain, taken, 0)
            == if meaning::holds(m, shape.cond) {
            shape.then_entry
        } else {
            match shape.merge {
                Some(merge) => merge,
                None => walk::branch_edges(g, chain[0].0 as int).0,
            }
        },
        chain.len() == 1 ==> walk::if_shape(g, chain, t) is Ok,
{
    let n = chain.len() as int;
    if let Ok(shape) = walk::if_shape(g, chain, t) {
        let first = walk::branch_edges(g, chain[0].0 as int);
        let last = walk::branch_edges(g, chain.last().0 as int);
        if n == 1 {
            assert(meaning::holds(m, t.conds[0]) == !taken[0]);
        } else if first.0 == last.1 {
            let parts = t.tests.drop_last().push(t.conds.last());
            lemma_all_or(m, parts);
            if exists|i: int| 0 <= i < n - 1 && #[trigger] taken[i] {
                let k = lemma_first_taken(taken, n - 1);
                lemma_landing(g, chain, taken, 0, k);
                assert(parts[k] == t.tests[k]);
                assert(meaning::holds(m, parts[k]));
            } else {
                lemma_landing(g, chain, taken, 0, n - 1);
                assert(parts[n - 1] == t.conds[n - 1]);
                if taken[n - 1] {
                    assert forall|i: int| 0 <= i < parts.len() implies !meaning::holds(
                        m,
                        #[trigger] parts[i],
                    ) by {
                        if i < n - 1 {
                            assert(parts[i] == t.tests[i]);
                            assert(!taken[i]);
                        }
                    }
                } else {
                    assert(meaning::holds(m, parts[n - 1]));
                }
            }
        } else {
            lemma_all_and(m, t.conds);
            if exists|i: int| 0 <= i < n && #[trigger] taken[i] {
                let k = lemma_first_taken(taken, n);
                lemma_landing(g, chain, taken, 0, k);
                assert(walk::branch_edges(g, chain[k].0 as int).0 == last.0);
                assert(!meaning::holds(m, t.conds[k]));
            } else {
                lemma_landing(g, chain, taken, 0, n - 1);
                assert(!taken[n - 1]);
                assert forall|i: int| 0 <= i < n implies meaning::holds(
                    m,
                    #[trigger] t.conds[i],
                ) by {
                    assert(!taken[i]);
                }
            }
        }
    }
}

proof fn lemma_first_taken(taken: Seq<bool>, n: int) -> (k: int)
    requires
        0 <= n <= taken.len(),
        exists|i: int| 0 <= i < n && #[trigger] taken[i],
    ensures
        0 <= k < n,
        taken[k],
        forall|j: int| 0 <= j < k ==> !(#[trigger] taken[j]),
    decreases n,
{
    if exists|i: int| 0 <= i < n - 1 && #[trigger] taken[i] {
        lemma_first_taken(taken, n - 1)
    } else {
        let i = choose|i: int| 0 <= i < n && #[trigger] taken[i];
        assert(i == n - 1);
        assert forall|j: int| 0 <= j < n - 1 implies !(#[trigger] taken[j]) by {}
        n - 1
    }
}

/// The chain of conditional branches from a block on: it starts there,
/// each branch falls through into the next, and the last falls through
/// into no branch.
pub proof fn law_chain_falls_through(g: CfgV, b: int)
    requires
        cfg::falls_forward(g),
        0 <= b < g.blocks.len(),
        b <= u32::MAX,
        walk::is_branch(g, b),
    ensures
        ({
            let chain = walk::branch_chain(g, b);
            &&& chain.len() > 0
            &&& chain[0].0 == b
            &&& forall|i: int|
                0 <= i < chain.len() ==> walk::is_branch(g, (#[trigger] chain[i]).0 as int)
            &&& forall|i: int|
                0 <= i < chain.len() - 1 ==> walk::branch_edges(
                    g,
                    (#[trigger] chain[i]).0 as int,
                ).1 == chain[i + 1]
            &&& !walk::is_branch(g, walk::branch_edges(g, chain.last().0 as int).1.0 as int)
        }),
    decreases g.blocks.len() - b,
{
    let next = walk::branch_edges(g, b).1.0 as int;
    let chain = walk::branch_chain(g, b);
    assert(g.blocks[b].terminator is ConditionalBranch);
    assert(next == b + 1);
    if walk::is_branch(g, next) {
        law_chain_falls_through(g, next);
        let rest = walk::branch_chain(g, next);
        assert(chain == seq![BlockId(b as u32)] + rest);
        assert forall|i: int| 0 <= i < chain.len() implies walk::is_branch(
            g,
            (#[trigger] chain[i]).0 as int,
        ) by {
            if i > 0 {
                assert(chain[i] == rest[i - 1]);
            }
        }
        assert forall|i: int| 0 <= i < chain.len() - 1 implies walk::branch_edges(
            g,
            (#[trigger] chain[i]).0 as int,
        ).1 == chain[i + 1] by {
            assert(chain[i + 1] == rest[i]);
            if i > 0 {
                assert(chain[i] == rest[i - 1]);
            }
        }
        assert(chain.last() == rest.last());
    }
}

/// A branch of a chain adds what its block does before the test, the
/// test, and its complement, both read where the test stands.
pub proof fn law_tests_are_read_in_place(env: Env, g: CfgV, t: Tests, b: int)
    ensures
        walk::tested(env, g, t, b) matches Ok(u) ==> {
            let p = env.proto();
            let at = walk::branch_test(g, b);
            &&& walk::run(env, t.frame, g.blocks[b].insts, at) == Ok::<Frame, Fault>(u.frame)
            &&& u.tests.drop_last() == t.tests
            &&& u.conds.drop_last() == t.conds
            &&& condition::test_expr(p, u.frame.slots, p.insts[at]) == Ok::<ExprV, Fault>(
                u.tests.last(),
            )
            &&& condition::cond_expr(p, u.frame.slots, p.insts[at]) == Ok::<ExprV, Fault>(
                u.conds.last(),
            )
        },
{
    if let Ok(u) = walk::tested(env, g, t, b) {
        assert(u.tests.drop_last() =~= t.tests);
        assert(u.conds.drop_last() =~= t.conds);
    }
}

/// Which construct a conditional branch is: one that leads to itself is a
/// `repeat`, one whose fall-through block jumps back to it a `while`, and
/// any other an `if`.
pub proof fn law_kinds_of_branches(env: Env, g: CfgV, w: Walk, b: int)
    requires
        walk::is_branch(g, b),
    ensures
        ({
            let (jump, fall) = walk::branch_edges(g, b);
            let back = g.blocks[fall.0 as int].terminator matches Terminator::Jump(t) && t.0 == b;
            walk::stride(env, g, w, b) matches Ok(s) ==> {
                let made = s.walk.frame.out.last();
                if jump.0 == b || fall.0 == b {
                    made is Repeat
                } else if back {
                    made is While
                } else {
                    made is If
                }
            }
        }),
{
}

/// A `repeat` whose test jumps back to its own block: the body is the
/// code before the test, and the condition holds exactly when control
/// leaves the loop.
pub proof fn law_repeat_leaves_when_its_condition_holds<V>(
    m: Meaning<V>,
    regs: spec_fn(int) -> V,
    env: Env,
    g: CfgV,
    w: Walk,
    b: int,
)
    requires
        meaning::sound(m),
        walk::is_branch(g, b),
        walk::branch_edges(g, b).0.0 == b,
        walk::branch_edges(g, b).1.0 != b,
    ensures
        walk::stride(env, g, w, b) matches Ok(s) ==> {
            let p = env.proto();
            let at = walk::branch_test(g, b);
            let inst = p.insts[at];
            let body = walk::run(
                env,
                (Frame { slots: w.frame.slots, out: seq![] }),
                g.blocks[b].insts,
                at,
            );
            &&& body is Ok
            &&& s.walk.frame.slots == body->Ok_0.slots
            &&& s.walk.frame.out.len() == w.frame.out.len() + 1
            &&& s.walk.frame.out.drop_last() == w.frame.out
            &&& s.walk.frame.out.last() matches StmtV::Repeat { cond, body: stmts } && {
                &&& stmts == body->Ok_0.out
                &&& meaning::agrees(m, body->Ok_0.slots, regs) && meaning::machine_tests(inst.op)
                    ==> {
                    let jumps = meaning::machine_test(m, p, regs, inst);
                    let goes = if jumps {
                        walk::branch_edges(g, b).0
                    } else {
                        walk::branch_edges(g, b).1
                    };
                    &&& meaning::holds(m, cond) ==> s.next == Some(goes)
                    &&& !meaning::holds(m, cond) ==> goes.0 == b
                }
            }
        },
{
    let p = env.proto();
    let at = walk::branch_test(g, b);
    if let Ok(s) = walk::stride(env, g, w, b) {
        assert(s.walk.frame.out.drop_last() =~= w.frame.out);
        let body = walk::run(
            env,
            (Frame { slots: w.frame.slots, out: seq![] }),
            g.blocks[b].insts,
            at,
        )->Ok_0;
        if meaning::agrees(m, body.slots, regs) && meaning::machine_tests(p.insts[at].op) {
            meaning::law_conditions_follow_the_jump(m, p, body.slots, regs, p.insts[at]);
        }
    }
}

/// A `while`: the condition is read behind the code before the test, and
/// holds exactly when control enters the body; otherwise it goes on
/// behind the loop. The body is the fall-through block without its jump.
pub proof fn law_while_enters_when_its_condition_holds<V>(
    m: Meaning<V>,
    regs: spec_fn(int) -> V,
    env: Env,
    g: CfgV,
    w: Walk,
    b: int,
)
    requires
        meaning::sound(m),
        walk::is_branch(g, b),
        walk::branch_edges(g, b).0.0 != b,
        walk::branch_edges(g, b).1.0 != b,
        g.blocks[walk::branch_edges(g, b).1.0 as int].terminator == Terminator::Jump(
            BlockId(b as u32),
        ),
        0 <= b <= u32::MAX,
    ensures
        walk::stride(env, g, w, b) matches Ok(s) ==> {
            let p = env.proto();
            let at = walk::branch_test(g, b);
            let inst = p.insts[at];
            let enter = walk::branch_edges(g, b).1;
            let head = walk::run(env, w.frame, g.blocks[b].insts, at);
            let body = walk::run_prefix(
                env,
                (Frame { slots: head->Ok_0.slots, out: seq![] }),
                g.blocks[enter.0 as int],
            );
            &&& head is Ok
            &&& body is Ok
            &&& s.walk.frame.slots == body->Ok_0.slots
            &&& s.walk.frame.out.len() == head->Ok_0.out.len() + 1
            &&& s.walk.frame.out.drop_last() == head->Ok_0.out
            &&& s.walk.frame.out.last() matches StmtV::While { cond, body: stmts } && {
                &&& stmts == body->Ok_0.out
                &&& meaning::agrees(m, head->Ok_0.slots, regs) && meaning::machine_tests(inst.op)
                    ==> {
                    let jumps = meaning::machine_test(m, p, regs, inst);
                    let goes = if jumps {
                        walk::branch_edges(g, b).0
                    } else {
                        enter
                    };
                    &&& meaning::holds(m, cond) ==> goes == enter
                    &&& !meaning::holds(m, cond) ==> s.next == Some(goes)
                }
            }
        },
{
    let p = env.proto();
    let at = walk::branch_test(g, b);
    if let Ok(s) = walk::stride(env, g, w, b) {
        let head = walk::run(env, w.frame, g.blocks[b].insts, at)->Ok_0;
        assert(s.walk.frame.out.drop_last() =~= head.out);
        if meaning::agrees(m, head.slots, regs) && meaning::machine_tests(p.insts[at].op) {
            meaning::law_conditions_follow_the_jump(m, p, head.slots, regs, p.insts[at]);
        }
    }
}

/// Whether `stmts` is the body that starts at `start` from the given
/// slots, `last` its last block, and `after` the slots behind it. A block
/// where a walk has started before starts no body.
pub open spec fn is_body(
    env: Env,
    g: CfgV,
    slots: Map<u8, ExprV>,
    visited: Set<u32>,
    start: BlockId,
    stmts: Seq<StmtV>,
    after: Map<u8, ExprV>,
    last: BlockId,
) -> bool {
    &&& !visited.contains(start.0)
    &&& walk::body_from(
        env,
        g,
        (Frame { slots, out: seq![] }),
        start.0 as int,
        g.blocks.len(),
    ) == Ok::<(Frame, BlockId), Fault>((Frame { slots: after, out: stmts }, last))
}

/// Where the block behind block `b` jumps to, if it does.
pub open spec fn skips_to(g: CfgV, b: BlockId) -> Option<BlockId> {
    if b.0 + 1 < g.blocks.len() && g.blocks[b.0 + 1].terminator is Jump {
        Some(g.blocks[b.0 + 1].terminator->Jump_0)
    } else {
        None
    }
}

/// Whether control goes on at `next` behind a then-body that ends in block
/// `last`: where it jumps or falls, or, when it returns, where a dead
/// jump behind it leads or where the condition jumps. There is an
/// else-body exactly when something jumps over it, which a chain of
/// conditions has not.
pub open spec fn goes_on(
    g: CfgV,
    chain: Seq<BlockId>,
    last: BlockId,
    has_else: bool,
    next: BlockId,
) -> bool {
    let other = walk::branch_edges(g, chain.last().0 as int).0;
    match g.blocks[last.0 as int].terminator {
        Terminator::Jump(to) => chain.len() == 1 && has_else && next == to,
        Terminator::Fallthrough(to) => !has_else && next == to && (chain.len() > 1 ==> to == other),
        Terminator::Return => match skips_to(g, last) {
            Some(to) => chain.len() == 1 && has_else && next == to,
            None => !has_else && next == other,
        },
        _ => false,
    }
}

proof fn lemma_if_ends(g: CfgV, chain: Seq<BlockId>, t: Tests, last: BlockId)
    requires
        chain.len() > 0,
        walk::if_shape(g, chain, t) is Ok,
    ensures
        walk::if_ends(
            g,
            walk::if_shape(g, chain, t)->Ok_0,
            last,
            walk::branch_edges(g, chain[0].0 as int).0,
        ) matches Ok((start, next)) ==> {
            &&& goes_on(g, chain, last, start is Some, next)
            &&& start matches Some(other) ==> other == walk::branch_edges(g, chain[0].0 as int).0
        },
{
    if chain.len() == 1 {
        assert(chain.last() == chain[0]);
    }
}

/// Whether blocks `a` and `b` are marked behind a construct, and no other
/// that was not before.
pub open spec fn marks(before: Set<u32>, after: Set<u32>, a: BlockId, b: BlockId) -> bool {
    forall|x: u32|
        #[trigger] after.contains(x) <==> before.contains(x) || x == a.0 || x == b.0
}

/// What the `if` at block `b` is made of.
pub struct IfParts {
    pub tests: Tests,
    pub shape: IfShape,
    pub then_slots: Map<u8, ExprV>,
    pub then_last: BlockId,
    pub else_last: BlockId,
}

/// Whether a statement is the `if` of the given parts: the then-body
/// starts where the condition leads and the else-body where it jumps,
/// both from the slots behind the condition. Those are also the slots
/// behind an `if` without an else-body.
pub open spec fn is_if(
    env: Env,
    g: CfgV,
    w: Walk,
    b: int,
    parts: IfParts,
    stmt: StmtV,
    after: Map<u8, ExprV>,
) -> bool {
    let slots = parts.tests.frame.slots;
    let entry = parts.shape.then_entry;
    stmt matches StmtV::If { cond, then_body, else_body } && {
        &&& cond == parts.shape.cond
        &&& is_body(
            env,
            g,
            slots,
            w.visited,
            entry,
            then_body,
            parts.then_slots,
            parts.then_last,
        )
        &&& match else_body {
            None => after == slots,
            Some(stmts) => is_body(
                env,
                g,
                slots,
                w.visited.insert(entry.0),
                walk::branch_edges(g, b).0,
                stmts,
                after,
                parts.else_last,
            ),
        }
    }
}

/// An `if` is made of the tests of its chain and the bodies where they
/// lead, and the walk goes on where the then-body does.
pub proof fn law_if_statement(env: Env, g: CfgV, w: Walk, b: int) -> (parts: IfParts)
    requires
        0 <= b <= u32::MAX,
        walk::is_branch(g, b),
        walk::branch_edges(g, b).0.0 != b,
        walk::branch_edges(g, b).1.0 != b,
        g.blocks[walk::branch_edges(g, b).1.0 as int].terminator matches Terminator::Jump(t)
            ==> t.0 != b,
    ensures
        walk::stride(env, g, w, b) matches Ok(s) ==> {
            let chain = walk::branch_chain(g, b);
            let start = Tests { frame: w.frame, tests: seq![], conds: seq![] };
            let t = parts.tests;
            &&& walk::tested_from(env, g, start, chain, 0) == Ok::<Tests, Fault>(t)
            &&& walk::if_shape(g, chain, t) == Ok::<IfShape, Fault>(parts.shape)
            &&& s.walk.frame.out.len() == t.frame.out.len() + 1
            &&& s.walk.frame.out.drop_last() == t.frame.out
            &&& is_if(env, g, w, b, parts, s.walk.frame.out.last(), s.walk.frame.slots)
            &&& marks(
                w.visited,
                s.walk.visited,
                parts.shape.then_entry,
                if s.walk.frame.out.last()->If_else_body is Some {
                    walk::branch_edges(g, b).0
                } else {
                    parts.shape.then_entry
                },
            )
            &&& s.next is Some
            &&& goes_on(
                g,
                chain,
                parts.then_last,
                s.walk.frame.out.last()->If_else_body is Some,
                s.next->Some_0,
            )
        },
{
    let chain = walk::branch_chain(g, b);
    let start = Tests { frame: w.frame, tests: seq![], conds: seq![] };
    let tests = walk::tested_from(env, g, start, chain, 0);
    let t = tests->Ok_0;
    let shape = walk::if_shape(g, chain, t)->Ok_0;
    let other = walk::branch_edges(g, b).0;
    let slots = t.frame.slots;
    let visited = w.visited.insert(shape.then_entry.0);
    let then_part = walk::body_at(env, g, slots, w.visited, shape.then_entry);
    let (then_frame, then_last) = then_part->Ok_0;
    let else_part = walk::body_at(env, g, slots, visited, other);
    let (else_frame, else_last) = else_part->Ok_0;
    let parts = IfParts { tests: t, shape, then_slots: then_frame.slots, then_last, else_last };
    lemma_chain_start(g, b);
    assert(walk::stride(env, g, w, b) == walk::if_stride(env, g, w, b));
    if walk::stride(env, g, w, b) is Ok {
        lemma_if_ends(g, chain, t, then_last);
        let s = walk::if_stride(env, g, w, b)->Ok_0;
        assert(tests is Ok && walk::if_shape(g, chain, t) is Ok && then_part is Ok);
        assert(s.walk.frame.out.drop_last() =~= t.frame.out);
        assert(is_body(
            env,
            g,
            slots,
            w.visited,
            shape.then_entry,
            then_frame.out,
            then_frame.slots,
            then_last,
        ));
        match walk::if_ends(g, shape, then_last, other) {
            Ok((None, merge)) => {},
            Ok((Some(else_start), merge)) => {
                assert(else_start == other);
                assert(is_body(
                    env,
                    g,
                    slots,
                    visited,
                    other,
                    else_frame.out,
                    else_frame.slots,
                    else_last,
                ));
            },
            Err(e) => {},
        }
    }
    parts
}

proof fn lemma_chain_start(g: CfgV, b: int)
    requires
        0 <= b <= u32::MAX,
    ensures
        walk::branch_chain(g, b).len() > 0,
        walk::branch_chain(g, b)[0] == BlockId(b as u32),
{
}

// ---- Loops --------------------------------------------------------------------------------

/// Whether a body starts with the registers from `base` on standing for
/// names, and all others as they were.
pub open spec fn binds(
    before: Map<u8, ExprV>,
    slots: Map<u8, ExprV>,
    base: int,
    names: Seq<Seq<char>>,
) -> bool {
    forall|r: int| #[trigger]
        operand::operand(slots, r) == if base <= r < base + names.len() {
            Ok(ExprV::Var(names[r - base]))
        } else {
            operand::operand(before, r)
        }
}

/// The frame behind the code in front of a loop instruction.
pub open spec fn before_loop(env: Env, g: CfgV, w: Walk, b: int) -> Result<Frame, Fault> {
    walk::run_prefix(env, w.frame, g.blocks[b])
}

/// A numeric for runs over the same values as its FORI: start and stop
/// are what registers A and A+1 hold, and the step, read as 1 when it is
/// missing, what register A+2 holds. The step is missing exactly when it
/// is the integer 1. The loop variable is the local in register A+3, and
/// stands for that register in the body. The walk goes on at the exit.
pub proof fn law_numeric_for_runs_over_its_registers(env: Env, g: CfgV, w: Walk, b: int) -> (r: (
    Map<u8, ExprV>,
    BlockId,
))
    requires
        g.blocks[b].terminator is LoopInit,
        env.proto().insts[g.blocks[b].insts.last().0 as int].op == Opcode::Fori,
    ensures
        walk::stride(env, g, w, b) matches Ok(s) ==> {
            let f = before_loop(env, g, w, b)->Ok_0;
            let a = g.blocks[b].terminator->LoopInit_base as int;
            let last = g.blocks[b].insts.last().0 as int;
            let (slots, body_last) = r;
            &&& before_loop(env, g, w, b) is Ok
            &&& s.next == Some(g.blocks[b].terminator->LoopInit_exit)
            &&& s.walk.frame.out.len() == f.out.len() + 1
            &&& s.walk.frame.out.drop_last() == f.out
            &&& s.walk.frame.out.last() matches StmtV::For {
                var,
                start,
                stop,
                step,
                body,
            } && {
                &&& operand::operand(f.slots, a) == Ok::<ExprV, Fault>(start)
                &&& operand::operand(f.slots, a + 1) == Ok::<ExprV, Fault>(stop)
                &&& operand::operand(f.slots, a + 2) == Ok::<ExprV, Fault>(
                    match step {
                        Some(e) => e,
                        None => ExprV::Int(1),
                    },
                )
                &&& step != Some(ExprV::Int(1))
                &&& a + 3 <= 255
                &&& exists|i: int| #[trigger]
                    effects::named_by(env.proto(), i, (a + 3) as u8, last - 1, var)
                &&& binds(f.slots, slots, a + 3, seq![var])
                &&& is_body(
                    env,
                    g,
                    slots,
                    w.visited,
                    g.blocks[b].terminator->LoopInit_body,
                    body,
                    s.walk.frame.slots,
                    body_last,
                )
            }
        },
{
    let a = g.blocks[b].terminator->LoopInit_base as int;
    let last = g.blocks[b].insts.last().0 as int;
    let body = g.blocks[b].terminator->LoopInit_body;
    let f = before_loop(env, g, w, b)->Ok_0;
    let var = walk::loop_name(env.proto(), a + 3, last - 1)->Some_0;
    let slots = f.slots.insert((a + 3) as u8, ExprV::Var(var));
    let (body_frame, body_last) = walk::body_at(env, g, slots, w.visited, body)->Ok_0;
    if let Ok(s) = walk::stride(env, g, w, b) {
        effects::law_names_by_scope(env.proto(), (a + 3) as u8, last - 1);
        assert(s.walk.frame.out.drop_last() =~= f.out);
        assert(operand::operand(f.slots, a + 2) is Ok);
    }
    (slots, body_last)
}

/// A numeric for is refused only when one of its registers or its name is
/// not known, or its body is refused.
pub proof fn law_numeric_for_is_owed(env: Env, g: CfgV, w: Walk, b: int)
    requires
        g.blocks[b].terminator is LoopInit,
        env.proto().insts[g.blocks[b].insts.last().0 as int].op == Opcode::Fori,
        before_loop(env, g, w, b) is Ok,
        walk::stride(env, g, w, b) is Err,
    ensures
        ({
            let f = before_loop(env, g, w, b)->Ok_0;
            let a = g.blocks[b].terminator->LoopInit_base as int;
            let last = g.blocks[b].insts.last().0 as int;
            let body = g.blocks[b].terminator->LoopInit_body;
            ||| !meaning::known(f.slots, a)
            ||| !meaning::known(f.slots, a + 1)
            ||| !meaning::known(f.slots, a + 2)
            ||| a + 3 > 255
            ||| effects::unnamed(env.proto(), (a + 3) as u8, last - 1)
            ||| w.visited.contains(body.0)
            ||| exists|slots: Map<u8, ExprV>|
                walk::body_from(
                    env,
                    g,
                    (Frame { slots, out: seq![] }),
                    body.0 as int,
                    g.blocks.len(),
                ) is Err && #[trigger] refines(f.slots, slots, a + 3)
        }),
{
    let a = g.blocks[b].terminator->LoopInit_base as int;
    let last = g.blocks[b].insts.last().0 as int;
    let f = before_loop(env, g, w, b)->Ok_0;
    if a + 3 <= 255 {
        effects::law_names_by_scope(env.proto(), (a + 3) as u8, last - 1);
        if let Some(var) = walk::loop_name(env.proto(), a + 3, last - 1) {
            let slots = f.slots.insert((a + 3) as u8, ExprV::Var(var));
            assert(refines(f.slots, slots, a + 3));
        }
    }
}

/// Whether two slot maps agree but for one register, which stands for a
/// name.
pub open spec fn refines(before: Map<u8, ExprV>, slots: Map<u8, ExprV>, r: int) -> bool {
    &&& operand::operand(slots, r) matches Ok(ExprV::Var(_))
    &&& forall|q: int|
        q != r ==> (#[trigger] operand::operand(slots, q)) == operand::operand(before, q)
}

proof fn lemma_loop_names(p: ProtoV, base: int, slot: int, index: int, so_far: Seq<Seq<char>>)
    requires
        0 <= base <= slot <= 256,
        so_far.len() == slot - base,
        forall|i: int|
            0 <= i < so_far.len() ==> ir::live_name(p.debug, (base + i) as u8, index) == Some(
                #[trigger] so_far[i],
            ),
    ensures
        ({
            let names = walk::loop_names(p, slot, index, so_far);
            let end = base + names.len();
            &&& slot <= end <= 256
            &&& forall|i: int|
                0 <= i < names.len() ==> ir::live_name(p.debug, (base + i) as u8, index) == Some(
                    #[trigger] names[i],
                )
            &&& end <= 255 ==> ir::live_name(p.debug, end as u8, index) is None
        }),
    decreases 256 - slot,
{
    if slot <= 255 {
        if let Some(name) = walk::loop_name(p, slot, index) {
            lemma_loop_names(p, base, slot + 1, index, so_far.push(name));
        }
    }
}

/// A generic for: its iterator is what register A-3 holds, and its
/// variables are the locals in the registers from A on, up to the first
/// register without one, and stand for these registers in the body. The
/// walk goes on behind the back-edge to which ISNEXT jumps.
pub proof fn law_generic_for_runs_over_its_iterator(env: Env, g: CfgV, w: Walk, b: int) -> (r: (
    Map<u8, ExprV>,
    BlockId,
))
    requires
        g.blocks[b].terminator is LoopInit,
        env.proto().insts[g.blocks[b].insts.last().0 as int].op != Opcode::Fori,
    ensures
        walk::stride(env, g, w, b) matches Ok(s) ==> {
            let f = before_loop(env, g, w, b)->Ok_0;
            let a = g.blocks[b].terminator->LoopInit_base as int;
            let exit = g.blocks[b].terminator->LoopInit_exit;
            let index = g.blocks[b].insts.last().0 - 1;
            let p = env.proto();
            let (slots, body_last) = r;
            &&& before_loop(env, g, w, b) is Ok
            &&& s.next == Some(
                if g.blocks[exit.0 as int].terminator is LoopLatch {
                    g.blocks[exit.0 as int].terminator->LoopLatch_exit
                } else {
                    exit
                },
            )
            &&& s.walk.frame.out.len() == f.out.len() + 1
            &&& s.walk.frame.out.drop_last() == f.out
            &&& s.walk.frame.out.last() matches StmtV::ForIn { vars, iterator, body } && {
                let n = vars.len() as int;
                &&& operand::operand(f.slots, a - 3) == Ok::<ExprV, Fault>(iterator)
                &&& n > 0
                &&& a + n <= 256
                &&& forall|i: int|
                    0 <= i < n ==> ir::live_name(p.debug, (a + i) as u8, index) == Some(
                        #[trigger] vars[i],
                    )
                &&& a + n <= 255 ==> effects::unnamed(p, (a + n) as u8, index)
                &&& binds(f.slots, slots, a, vars)
                &&& is_body(
                    env,
                    g,
                    slots,
                    w.visited,
                    g.blocks[b].terminator->LoopInit_body,
                    body,
                    s.walk.frame.slots,
                    body_last,
                )
            }
        },
{
    let p = env.proto();
    let base = g.blocks[b].terminator->LoopInit_base;
    let a = base as int;
    let index = g.blocks[b].insts.last().0 - 1;
    let body = g.blocks[b].terminator->LoopInit_body;
    let f = before_loop(env, g, w, b)->Ok_0;
    let vars = walk::loop_names(p, a, index, seq![]);
    let slots = lower::named_slots(f.slots, base, vars);
    let (body_frame, body_last) = walk::body_at(env, g, slots, w.visited, body)->Ok_0;
    lemma_loop_names(p, a, a, index, seq![]);
    effects::lemma_named(f.slots, base, vars);
    if let Ok(s) = walk::stride(env, g, w, b) {
        assert(s.walk.frame.out.drop_last() =~= f.out);
        if a + vars.len() <= 255 {
            effects::law_names_by_scope(p, (a + vars.len()) as u8, index);
        }
    }
    (slots, body_last)
}

// ---- What is refused ------------------------------------------------------------------------

/// A `repeat` is refused only when the code before its test is, or the
/// test reads what is not known.
pub proof fn law_repeat_is_owed(env: Env, g: CfgV, w: Walk, b: int)
    requires
        walk::is_branch(g, b),
        walk::branch_edges(g, b).0.0 == b,
        walk::stride(env, g, w, b) is Err,
        meaning::machine_tests(env.proto().insts[walk::branch_test(g, b)].op),
    ensures
        ({
            let p = env.proto();
            let at = walk::branch_test(g, b);
            let body = walk::run(
                env,
                (Frame { slots: w.frame.slots, out: seq![] }),
                g.blocks[b].insts,
                at,
            );
            body is Ok ==> !meaning::machine_test_reads(p, body->Ok_0.slots, p.insts[at])
        }),
{
    let p = env.proto();
    let at = walk::branch_test(g, b);
    let body = walk::run(
        env,
        (Frame { slots: w.frame.slots, out: seq![] }),
        g.blocks[b].insts,
        at,
    );
    if body is Ok {
        lemma_test_reads(p, body->Ok_0.slots, p.insts[at]);
    }
}

/// A condition can be built exactly when all that its test reads is there.
proof fn lemma_test_reads(p: ProtoV, slots: Map<u8, ExprV>, inst: ir::Instruction)
    requires
        meaning::machine_tests(inst.op),
    ensures
        condition::cond_expr(p, slots, inst) is Ok <==> meaning::machine_test_reads(p, slots, inst),
        condition::test_expr(p, slots, inst) is Ok <==> meaning::machine_test_reads(p, slots, inst),
{
    assert(condition::d_slot(inst) == meaning::machine_b(inst));
    assert(meaning::machine_d(inst) == ir::inst_d(inst));
}

/// A `while` is refused only when the code before its test or its body
/// is, or the test reads what is not known.
pub proof fn law_while_is_owed(env: Env, g: CfgV, w: Walk, b: int)
    requires
        0 <= b <= u32::MAX,
        walk::is_branch(g, b),
        walk::branch_edges(g, b).0.0 != b,
        walk::branch_edges(g, b).1.0 != b,
        g.blocks[walk::branch_edges(g, b).1.0 as int].terminator == Terminator::Jump(
            BlockId(b as u32),
        ),
        walk::stride(env, g, w, b) is Err,
        meaning::machine_tests(env.proto().insts[walk::branch_test(g, b)].op),
    ensures
        ({
            let p = env.proto();
            let at = walk::branch_test(g, b);
            let head = walk::run(env, w.frame, g.blocks[b].insts, at);
            let body = walk::run_prefix(
                env,
                (Frame { slots: head->Ok_0.slots, out: seq![] }),
                g.blocks[walk::branch_edges(g, b).1.0 as int],
            );
            head is Ok && body is Ok ==> !meaning::machine_test_reads(
                p,
                head->Ok_0.slots,
                p.insts[at],
            )
        }),
{
    let p = env.proto();
    let at = walk::branch_test(g, b);
    let head = walk::run(env, w.frame, g.blocks[b].insts, at);
    if head is Ok {
        lemma_test_reads(p, head->Ok_0.slots, p.insts[at]);
    }
}

/// A branch of a chain is refused only when the code before its test is,
/// or the test reads what is not known.
pub proof fn law_tests_are_owed(env: Env, g: CfgV, t: Tests, b: int)
    requires
        walk::tested(env, g, t, b) is Err,
        meaning::machine_tests(env.proto().insts[walk::branch_test(g, b)].op),
    ensures
        ({
            let p = env.proto();
            let at = walk::branch_test(g, b);
            let f = walk::run(env, t.frame, g.blocks[b].insts, at);
            f is Ok ==> !meaning::machine_test_reads(p, f->Ok_0.slots, p.insts[at])
        }),
{
    let p = env.proto();
    let at = walk::branch_test(g, b);
    let f = walk::run(env, t.frame, g.blocks[b].insts, at);
    if f is Ok {
        lemma_test_reads(p, f->Ok_0.slots, p.insts[at]);
    }
}

/// A chain of conditions has a shape when its first branch jumps where
/// its last falls through, or when all its branches jump to one place.
pub proof fn law_shapes_are_owed(g: CfgV, chain: Seq<BlockId>, t: Tests)
    requires
        chain.len() > 0,
        walk::if_shape(g, chain, t) is Err,
    ensures
        chain.len() > 1,
        walk::branch_edges(g, chain[0].0 as int).0 != walk::branch_edges(
            g,
            chain.last().0 as int,
        ).1,
        exists|i: int|
            0 <= i < chain.len() && walk::branch_edges(g, (#[trigger] chain[i]).0 as int).0
                != walk::branch_edges(g, chain.last().0 as int).0,
{
}

/// An `if` is refused only when one of its tests, its shape or one of its
/// bodies is, or when its then-body ends in a way that tells no merge.
pub proof fn law_if_is_owed(env: Env, g: CfgV, w: Walk, b: int)
    requires
        0 <= b <= u32::MAX,
        walk::is_branch(g, b),
        walk::branch_edges(g, b).0.0 != b,
        walk::branch_edges(g, b).1.0 != b,
        g.blocks[walk::branch_edges(g, b).1.0 as int].terminator matches Terminator::Jump(t)
            ==> t.0 != b,
        walk::stride(env, g, w, b) is Err,
    ensures
        ({
            let chain = walk::branch_chain(g, b);
            let start = Tests { frame: w.frame, tests: seq![], conds: seq![] };
            let t = walk::tested_from(env, g, start, chain, 0);
            let shape = walk::if_shape(g, chain, t->Ok_0);
            let slots = t->Ok_0.frame.slots;
            let entry = shape->Ok_0.then_entry;
            let then_part = walk::body_at(env, g, slots, w.visited, entry);
            let last = then_part->Ok_0.1;
            let other = walk::branch_edges(g, b).0;
            ||| t is Err
            ||| shape is Err
            ||| then_part is Err
            ||| !(exists|has_else: bool, next: BlockId| #[trigger]
                goes_on(g, chain, last, has_else, next))
            ||| goes_on_with_else(g, chain, last) && walk::body_at(
                env,
                g,
                slots,
                w.visited.insert(entry.0),
                other,
            ) is Err
        }),
{
    let chain = walk::branch_chain(g, b);
    let start = Tests { frame: w.frame, tests: seq![], conds: seq![] };
    let t = walk::tested_from(env, g, start, chain, 0);
    let shape = walk::if_shape(g, chain, t->Ok_0);
    let slots = t->Ok_0.frame.slots;
    let then_part = walk::body_at(env, g, slots, w.visited, shape->Ok_0.then_entry);
    let last = then_part->Ok_0.1;
    let other = walk::branch_edges(g, b).0;
    lemma_chain_start(g, b);
    assert(walk::stride(env, g, w, b) == walk::if_stride(env, g, w, b));
    if t is Ok && shape is Ok && then_part is Ok {
        lemma_if_ends(g, chain, t->Ok_0, last);
        if chain.len() == 1 {
            assert(chain.last() == chain[0]);
        }
        match walk::if_ends(g, shape->Ok_0, last, other) {
            Err(e) => {
                assert forall|has_else: bool, next: BlockId| !(#[trigger] goes_on(
                    g,
                    chain,
                    last,
                    has_else,
                    next,
                )) by {}
            },
            Ok((None, next)) => {},
            Ok((Some(start), next)) => {
                assert(goes_on(g, chain, last, true, next));
                assert(start == other);
            },
        }
    }
}

/// Whether an else-body follows a then-body that ends in block `last`.
pub open spec fn goes_on_with_else(g: CfgV, chain: Seq<BlockId>, last: BlockId) -> bool {
    exists|next: BlockId| #[trigger] goes_on(g, chain, last, true, next)
}

/// A generic for is refused only when its iterator or its first variable
/// is not known, or its body is refused.
pub proof fn law_generic_for_is_owed(env: Env, g: CfgV, w: Walk, b: int)
    requires
        g.blocks[b].terminator is LoopInit,
        env.proto().insts[g.blocks[b].insts.last().0 as int].op != Opcode::Fori,
        before_loop(env, g, w, b) is Ok,
        walk::stride(env, g, w, b) is Err,
    ensures
        ({
            let f = before_loop(env, g, w, b)->Ok_0;
            let base = g.blocks[b].terminator->LoopInit_base;
            let index = g.blocks[b].insts.last().0 - 1;
            let body = g.blocks[b].terminator->LoopInit_body;
            ||| !meaning::known(f.slots, base - 3)
            ||| effects::unnamed(env.proto(), base, index)
            ||| exists|slots: Map<u8, ExprV>, vars: Seq<Seq<char>>| #[trigger]
                binds(f.slots, slots, base as int, vars) && walk::body_at(
                    env,
                    g,
                    slots,
                    w.visited,
                    body,
                ) is Err
        }),
{
    let p = env.proto();
    let f = before_loop(env, g, w, b)->Ok_0;
    let base = g.blocks[b].terminator->LoopInit_base;
    let index = g.blocks[b].insts.last().0 - 1;
    let vars = walk::loop_names(p, base as int, index, seq![]);
    lemma_loop_names(p, base as int, base as int, index, seq![]);
    effects::lemma_named(f.slots, base, vars);
    effects::law_names_by_scope(p, base, index);
    assert(binds(f.slots, lower::named_slots(f.slots, base, vars), base as int, vars));
}

/// A body is refused where a walk has started before, and else is what
/// its blocks are.
pub proof fn law_bodies_start_once(
    env: Env,
    g: CfgV,
    slots: Map<u8, ExprV>,
    visited: Set<u32>,
    b: BlockId,
)
    ensures
        walk::body_at(env, g, slots, visited, b) == if visited.contains(b.0) {
            Err(Fault::NotImplemented)
        } else {
            walk::body_from(
                env,
                g,
                (Frame { slots, out: seq![] }),
                b.0 as int,
                g.blocks.len(),
            )
        },
{
}

// ---- The walk as a whole ----------------------------------------------------------------------

/// The tests of a chain are read in order, each behind those before it.
pub proof fn law_chain_reads_its_tests_in_order(
    env: Env,
    g: CfgV,
    t: Tests,
    chain: Seq<BlockId>,
    next: BlockId,
    i: int,
)
    requires
        0 <= i <= chain.len(),
    ensures
        walk::tested_from(env, g, t, chain.push(next), i) == match walk::tested_from(
            env,
            g,
            t,
            chain,
            i,
        ) {
            Err(e) => Err(e),
            Ok(u) => walk::tested(env, g, u, next.0 as int),
        },
        walk::tested_from(env, g, t, seq![], 0) == Ok::<Tests, Fault>(t),
    decreases chain.len() - i,
{
    let longer = chain.push(next);
    if i < chain.len() {
        assert(longer[i] == chain[i]);
        if let Ok(u) = walk::tested(env, g, t, chain[i].0 as int) {
            law_chain_reads_its_tests_in_order(env, g, u, chain, next, i + 1);
        }
    } else {
        assert(longer[i] == next);
        if let Ok(u) = walk::tested(env, g, t, next.0 as int) {
            assert(walk::tested_from(env, g, u, longer, i + 1) == Ok::<Tests, Fault>(u));
        }
    }
}

/// A walk goes from block to block: it is over where a block leads
/// nowhere, and else goes on where the block leads, from the state behind
/// it. It may enter as many blocks as there are.
pub proof fn law_walk_follows_its_blocks(env: Env, g: CfgV, w: Walk, b: BlockId, fuel: nat)
    ensures
        fuel > 0 ==> match walk::stride(env, g, w, b.0 as int) {
            Err(e) => walk::walk_from(env, g, w, b.0 as int, fuel) == Err::<Walk, Fault>(e),
            Ok(s) => match s.next {
                None => walk::walk_from(env, g, w, b.0 as int, fuel) == Ok::<Walk, Fault>(s.walk),
                Some(next) => walk::walk_from(env, g, w, b.0 as int, fuel) == walk::walk_from(
                    env,
                    g,
                    s.walk,
                    next.0 as int,
                    (fuel - 1) as nat,
                ),
            },
        },
        w.visited.contains(b.0) ==> walk::walk_at(env, g, w, b) == Err::<Walk, Fault>(
            Fault::NotImplemented,
        ),
        !w.visited.contains(b.0) ==> walk::walk_at(env, g, w, b) == walk::walk_from(
            env,
            g,
            (Walk { frame: w.frame, visited: w.visited.insert(b.0) }),
            b.0 as int,
            g.blocks.len(),
        ),
{
}

/// What a construct marks, so that no walk starts there again: a loop the
/// block of its body, and a generic one also its latch. A `repeat` marks
/// nothing, being its own body.
pub proof fn law_loops_mark_their_bodies(env: Env, g: CfgV, w: Walk, b: int)
    ensures
        walk::stride(env, g, w, b) matches Ok(s) ==> {
            let (jump, fall) = walk::branch_edges(g, b);
            let last = env.proto().insts[g.blocks[b].insts.last().0 as int];
            &&& g.blocks[b].terminator matches Terminator::LoopInit { base, exit, body } ==> marks(
                w.visited,
                s.walk.visited,
                body,
                if last.op != Opcode::Fori && g.blocks[exit.0 as int].terminator is LoopLatch {
                    exit
                } else {
                    body
                },
            )
            &&& walk::is_branch(g, b) && (jump.0 == b || fall.0 == b) ==> s.walk.visited
                == w.visited
            &&& walk::is_branch(g, b) && jump.0 != b && fall.0 != b && (
            g.blocks[fall.0 as int].terminator matches Terminator::Jump(t) && t.0 == b) ==> marks(
                w.visited,
                s.walk.visited,
                fall,
                fall,
            )
        },
{
}

/// The body of a prototype is its walk from the entry, with its
/// parameters in the registers from 0 up and every other register empty.
pub proof fn law_recovery_starts_with_the_parameters(env: Env, g: CfgV, start: Walk)
    requires
        g.blocks.len() > 0,
        structure::single_chain(g),
        start.frame.out == Seq::<StmtV>::empty(),
        start.visited == Set::<u32>::empty(),
        binds(Map::empty(), start.frame.slots, 0, function::param_names(env.proto())),
    ensures
        structure::recovered(env, g) == match walk::walk_at(env, g, start, g.entry) {
            Err(e) => Err(e),
            Ok(w) => Ok(w.frame.out),
        },
{
    let names = function::param_names(env.proto());
    let slots = lower::named_slots(Map::empty(), 0, names);
    function::law_one_name_per_parameter(env.proto());
    effects::lemma_named(Map::empty(), 0, names);
    assert(binds(Map::empty(), slots, 0, names));
    lemma_bound_slots(Map::empty(), slots, start.frame.slots, 0, names);
    let first = Walk { frame: Frame { slots, out: seq![] }, visited: Set::empty() };
    assert(start == first);
    reveal(structure::recovered);
}

/// Registers that are bound alike are the same.
proof fn lemma_bound_slots(
    before: Map<u8, ExprV>,
    a: Map<u8, ExprV>,
    b: Map<u8, ExprV>,
    base: int,
    names: Seq<Seq<char>>,
)
    requires
        binds(before, a, base, names),
        binds(before, b, base, names),
    ensures
        a == b,
{
    assert forall|r: u8| #[trigger] a.contains_key(r) == b.contains_key(r) && (a.contains_key(r)
        ==> a[r] == b[r]) by {
        assert(operand::operand(a, r as int) == operand::operand(b, r as int));
    }
    assert(a =~= b);
}

/// A prototype is recovered from its own graph; its children are the
/// prototypes before it, in the same frame layout.
pub proof fn law_prototypes_have_their_own_graph(
    m: ModuleV,
    idx: nat,
    fr2: bool,
    names: Option<Seq<Seq<char>>>,
    c: nat,
    child_names: Option<Seq<Seq<char>>>,
)
    ensures
        structure::recovered_proto(m, idx, fr2, names) == structure::recovered(
            (Env { module: m, idx, fr2, names, kids: structure::earlier(m, idx, fr2) }),
            cfg::built(m.protos[idx as int].insts),
        ),
        c < idx ==> (structure::earlier(m, idx, fr2))(c, child_names) == structure::recovered_proto(
            m,
            c,
            fr2,
            child_names,
        ),
{
}

proof fn lemma_branch_count(g: CfgV, from: int, to: int)
    requires
        0 <= from <= to,
    ensures
        structure::branch_count(g, from) <= structure::branch_count(g, to) <= structure::branch_count(
            g,
            from,
        ) + (to - from),
        (forall|k: int| from <= k < to ==> #[trigger] walk::is_branch(g, k))
            ==> structure::branch_count(g, to) == structure::branch_count(g, from) + (to - from),
    decreases to - from,
{
    if from < to {
        lemma_branch_count(g, from, to - 1);
    }
}

/// A branch behind or in front of a run of branches counts as well.
proof fn lemma_branch_outside(g: CfgV, from: int, to: int, k: int)
    requires
        0 <= from <= to <= g.blocks.len(),
        0 <= k < g.blocks.len(),
        !(from <= k < to),
        walk::is_branch(g, k),
        forall|j: int| from <= j < to ==> #[trigger] walk::is_branch(g, j),
    ensures
        structure::branch_count(g, g.blocks.len() as int) > to - from,
{
    let n = g.blocks.len() as int;
    lemma_branch_count(g, from, to);
    if k < from {
        lemma_branch_count(g, 0, k);
        lemma_branch_count(g, k + 1, from);
        lemma_branch_count(g, to, n);
    } else {
        lemma_branch_count(g, 0, from);
        lemma_branch_count(g, to, k);
        lemma_branch_count(g, k + 1, n);
    }
}

/// The blocks of a chain follow each other.
proof fn lemma_chain_in_a_row(g: CfgV, b: int)
    requires
        cfg::falls_forward(g),
        0 <= b < g.blocks.len() <= u32::MAX,
        walk::is_branch(g, b),
    ensures
        ({
            let chain = walk::branch_chain(g, b);
            &&& b + chain.len() <= g.blocks.len()
            &&& forall|i: int| 0 <= i < chain.len() ==> (#[trigger] chain[i]).0 == b + i
            &&& forall|k: int| b <= k < b + chain.len() ==> #[trigger] walk::is_branch(g, k)
        }),
    decreases g.blocks.len() - b,
{
    let next = walk::branch_edges(g, b).1.0 as int;
    let chain = walk::branch_chain(g, b);
    assert(g.blocks[b].terminator is ConditionalBranch);
    assert(next == b + 1);
    if walk::is_branch(g, next) {
        lemma_chain_in_a_row(g, next);
        let rest = walk::branch_chain(g, next);
        assert(chain == seq![BlockId(b as u32)] + rest);
        assert forall|i: int| 0 <= i < chain.len() implies (#[trigger] chain[i]).0 == b + i by {
            if i > 0 {
                assert(chain[i] == rest[i - 1]);
            }
        }
    }
}

proof fn lemma_first_branch(g: CfgV, b: int)
    requires
        cfg::falls_forward(g),
        0 <= b < g.blocks.len(),
    ensures
        structure::first_branch(g, b) matches Some(r) ==> b <= r < g.blocks.len()
            && walk::is_branch(g, r) && forall|k: int|
            b <= k < r ==> (#[trigger] g.blocks[k]).terminator is Fallthrough,
        structure::first_branch(g, b) is None ==> exists|e: int|
            {
                &&& b <= e < g.blocks.len()
                &&& !((#[trigger] g.blocks[e]).terminator is Fallthrough)
                &&& !walk::is_branch(g, e)
                &&& forall|k: int|
                    b <= k < e ==> (#[trigger] g.blocks[k]).terminator is Fallthrough
            },
    decreases g.blocks.len() - b,
{
    if let Terminator::Fallthrough(next) = g.blocks[b].terminator {
        assert(next.0 == b + 1);
        lemma_first_branch(g, b + 1);
        if structure::first_branch(g, b) is None {
            let e = choose|e: int|
                {
                    &&& b + 1 <= e < g.blocks.len()
                    &&& !((#[trigger] g.blocks[e]).terminator is Fallthrough)
                    &&& !walk::is_branch(g, e)
                    &&& forall|k: int|
                        b + 1 <= k < e ==> (#[trigger] g.blocks[k]).terminator is Fallthrough
                };
            assert(!(g.blocks[e].terminator is Fallthrough));
        }
    } else if !walk::is_branch(g, b) {
        assert(!(g.blocks[b].terminator is Fallthrough));
    }
}

proof fn lemma_recovered_chain(env: Env, g: CfgV)
    requires
        g.blocks.len() > 0,
        structure::recovered(env, g) is Ok,
    ensures
        structure::single_chain(g),
{
    reveal(structure::recovered);
}

/// A function with several conditional branches is recovered only when
/// they are all one chain, which the entry falls into.
pub proof fn law_several_branches_are_one_chain(env: Env, g: CfgV, j: int, k: int)
    requires
        cfg::falls_forward(g),
        g.blocks.len() <= u32::MAX,
        cfg::in_graph(g, g.entry),
        structure::recovered(env, g) is Ok,
        0 <= j < k < g.blocks.len(),
        walk::is_branch(g, j),
        walk::is_branch(g, k),
    ensures
        exists|b: int|
            {
                &&& g.entry.0 <= b <= j
                &&& #[trigger] walk::is_branch(g, b)
                &&& forall|i: int|
                    g.entry.0 <= i < b ==> (#[trigger] g.blocks[i]).terminator is Fallthrough
                &&& walk::branch_chain(g, b).contains(BlockId(j as u32))
                &&& walk::branch_chain(g, b).contains(BlockId(k as u32))
            },
{
    lemma_recovered_chain(env, g);
    let n = g.blocks.len() as int;
    lemma_branch_count(g, 0, j);
    lemma_branch_count(g, j + 1, k);
    lemma_branch_count(g, k + 1, n);
    assert(structure::branch_count(g, n) >= 2);
    lemma_first_branch(g, g.entry.0 as int);
    let b = structure::first_branch(g, g.entry.0 as int)->Some_0;
    lemma_chain_in_a_row(g, b);
    let chain = walk::branch_chain(g, b);
    let e = b + chain.len();
    if !(b <= j < e) {
        lemma_branch_outside(g, b, e, j);
    }
    if !(b <= k < e) {
        lemma_branch_outside(g, b, e, k);
    }
    assert(chain[j - b] == BlockId(j as u32));
    assert(chain[k - b] == BlockId(k as u32));
    assert(walk::is_branch(g, b));
}

/// A function with at most one conditional branch, or one whose branches
/// are a single chain, is recovered as its walk goes.
pub proof fn law_single_chains_are_owed(g: CfgV)
    requires
        cfg::falls_forward(g),
        g.blocks.len() <= u32::MAX,
        cfg::in_graph(g, g.entry),
        !structure::single_chain(g),
    ensures
        exists|j: int, k: int|
            0 <= j < k < g.blocks.len() && #[trigger] walk::is_branch(g, j)
                && #[trigger] walk::is_branch(g, k) && (structure::first_branch(
                g,
                g.entry.0 as int,
            ) matches Some(b) ==> !(walk::branch_chain(g, b).contains(BlockId(j as u32))
                && walk::branch_chain(g, b).contains(BlockId(k as u32)))),
{
    let n = g.blocks.len() as int;
    let last = lemma_last_branch(g, n);
    let before = lemma_last_branch(g, last);
    lemma_first_branch(g, g.entry.0 as int);
    if let Some(b) = structure::first_branch(g, g.entry.0 as int) {
        lemma_chain_in_a_row(g, b);
        let chain = walk::branch_chain(g, b);
        let e = b + chain.len();
        lemma_branch_count(g, b, e);
        lemma_branch_count(g, 0, b);
        lemma_branch_count(g, e, n);
        if structure::branch_count(g, b) > 0 {
            let j = lemma_last_branch(g, b);
            if chain.contains(BlockId(j as u32)) {
                let i = choose|i: int| 0 <= i < chain.len() && chain[i] == BlockId(j as u32);
                assert(chain[i].0 == b + i);
            }
            assert(walk::is_branch(g, j) && walk::is_branch(g, b));
        } else {
            assert(structure::branch_count(g, n) > structure::branch_count(g, e));
            assert(last >= e) by {
                if last < e {
                    lemma_branch_count(g, last + 1, e);
                }
            }
            if chain.contains(BlockId(last as u32)) {
                let i = choose|i: int| 0 <= i < chain.len() && chain[i] == BlockId(last as u32);
                assert(chain[i].0 == b + i);
            }
            assert(walk::is_branch(g, before) && walk::is_branch(g, last));
        }
    } else {
        assert(walk::is_branch(g, before) && walk::is_branch(g, last));
    }
}

/// The last branch below `n`.
proof fn lemma_last_branch(g: CfgV, n: int) -> (k: int)
    requires
        0 <= n <= g.blocks.len(),
        structure::branch_count(g, n) > 0,
    ensures
        0 <= k < n,
        walk::is_branch(g, k),
        structure::branch_count(g, k) == structure::branch_count(g, n) - 1,
        forall|j: int| k < j < n ==> !(#[trigger] walk::is_branch(g, j)),
    decreases n,
{
    if walk::is_branch(g, n - 1) {
        n - 1
    } else {
        lemma_last_branch(g, n - 1)
    }
}

} // verus!
