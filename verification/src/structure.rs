//! Structural recovery: turn the [`Cfg`] of a [`crate::ir::Proto`] into an
//! AST.
//!
//! [`recovered`] says what the statements of a graph are, or why there
//! are none; [`recover`] computes exactly that. The submodules follow the
//! work from the leaves up: [`operand`] reads registers and constants,
//! [`condition`] and [`table`] build expressions, [`lower`] carries out
//! single instructions, [`function`] names parameters and child
//! functions, and [`walk`] follows the blocks of the graph. [`faults`]
//! says which faults recovery may end in.
//!
//! Three more hold what the recovered source is worth. [`meaning`] states
//! that expressions have the values that the machine computes, [`effects`]
//! what each instruction adds to the source, and [`flow`] that loops and
//! branches go where the code goes.

use std::collections::{HashMap, HashSet};

use vstd::prelude::*;

use crate::cfg;
use crate::cfg::{Cfg, CfgV, Terminator};
use crate::ir::{Module, ModuleV};
use crate::text;
use crate::DecompilerError;
use crate::Fault;

pub mod ast;
pub mod condition;
pub mod effects;
pub mod equality;
pub mod faults;
pub mod flow;
pub mod function;
pub mod lower;
pub mod meaning;
pub mod operand;
pub mod table;
pub mod walk;

pub use ast::{BinOpKind, Expr, ExprV, Stmt, StmtV, TableEntry};
use function::extract_params;
use lower::{bind_names, Env, RecoveryCtx};
use operand::Frame;
use walk::{collect_cb_chain, recover_from, Walk};

verus! {

broadcast use vstd::std_specs::hash::group_hash_axioms;

// ---- What recovery yields ------------------------------------------------------

/// How many of the first `n` blocks end in a conditional branch.
pub open spec fn branch_count(g: CfgV, n: int) -> nat
    decreases n,
{
    if n <= 0 {
        0
    } else {
        branch_count(g, n - 1) + if walk::is_branch(g, n - 1) {
            1nat
        } else {
            0nat
        }
    }
}

/// The first conditional branch that is reached from `b` by falling
/// through.
pub open spec fn first_branch(g: CfgV, b: int) -> Option<int>
    decreases g.blocks.len() - b,
{
    match g.blocks[b].terminator {
        Terminator::ConditionalBranch { .. } => Some(b),
        Terminator::Fallthrough(next) => if b < next.0 < g.blocks.len() {
            first_branch(g, next.0 as int)
        } else {
            None
        },
        _ => None,
    }
}

/// Whether the conditional branches of a graph, if there are several,
/// are a single chain that the entry falls into.
pub open spec fn single_chain(g: CfgV) -> bool {
    let count = branch_count(g, g.blocks.len() as int);
    count <= 1 || match first_branch(g, g.entry.0 as int) {
        Some(b) => walk::branch_chain(g, b).len() == count,
        None => false,
    }
}

/// What the body of a prototype with the graph `g` is recovered to.
#[verifier::opaque]
pub open spec fn recovered(env: Env, g: CfgV) -> Result<Seq<StmtV>, Fault> {
    if g.blocks.len() == 0 {
        Ok(seq![])
    } else if !single_chain(g) {
        Err(Fault::NotImplemented)
    } else {
        let start = Walk {
            frame: Frame {
                slots: lower::named_slots(
                    Map::empty(),
                    0,
                    function::param_names(env.proto()),
                ),
                out: seq![],
            },
            visited: Set::empty(),
        };
        match walk::walk_at(env, g, start, g.entry) {
            Err(e) => Err(e),
            Ok(w) => Ok(w.frame.out),
        }
    }
}

/// What the body of prototype `idx` is recovered to, given the names of
/// its upvalues.
pub open spec fn recovered_proto(
    m: ModuleV,
    idx: nat,
    fr2: bool,
    names: Option<Seq<Seq<char>>>,
) -> Result<Seq<StmtV>, Fault>
    decreases idx, 1int,
{
    recovered(
        Env { module: m, idx, fr2, names, kids: earlier(m, idx, fr2) },
        cfg::built(m.protos[idx as int].insts),
    )
}

/// What the bodies of the prototypes before `idx` are recovered to.
pub open spec fn earlier(m: ModuleV, idx: nat, fr2: bool) -> spec_fn(
    nat,
    Option<Seq<Seq<char>>>,
) -> Result<Seq<StmtV>, Fault>
    decreases idx, 0int,
{
    |c: nat, n: Option<Seq<Seq<char>>>|
        if c < idx {
            recovered_proto(m, c, fr2, n)
        } else {
            Err(Fault::NotImplemented)
        }
}

// ---- Recovery -------------------------------------------------------------------------

/// How many blocks end in a conditional branch.
fn count_cbs(graph: &Cfg) -> (count: usize)
    ensures
        count == branch_count(graph@, graph@.blocks.len() as int),
{
    let mut count: usize = 0;
    let mut i: usize = 0;
    while i < graph.blocks.len()
        invariant
            i <= graph.blocks@.len(),
            count <= i,
            count == branch_count(graph@, i as int),
        decreases graph.blocks@.len() - i,
    {
        assert(graph@.blocks[i as int] == graph.blocks@[i as int]@);
        if matches!(graph.blocks[i].terminator, Terminator::ConditionalBranch { .. }) {
            count = count + 1;
        }
        i = i + 1;
    }
    count
}

/// Whether every conditional branch in `graph` belongs to a single
/// linear chain connected via `false_edge`, reachable from the entry by
/// falling through.
///
/// The chain shape covers `if a and b then ...` and `if a or b then ...`.
/// Every other layout with several conditional branches (nested `if`s,
/// sequential `if`s, `elseif` chains) is not modeled.
fn is_single_cb_chain(graph: &Cfg) -> (single: bool)
    requires
        cfg::falls_forward(graph@),
        cfg::in_graph(graph@, graph.entry),
    ensures
        single == single_chain(graph@),
{
    let cb_count: usize = count_cbs(graph);
    if cb_count <= 1 {
        return true;
    }
    // Find the chain's root. If the entry's walk hits any other
    // terminator first, there is none.
    let mut current = graph.entry;
    loop
        invariant
            cfg::falls_forward(graph@),
            cfg::in_graph(graph@, current),
            cb_count == branch_count(graph@, graph@.blocks.len() as int),
            cb_count > 1,
            first_branch(graph@, graph.entry.0 as int) == first_branch(graph@, current.0 as int),
        decreases graph@.blocks.len() - current.0,
    {
        assert(graph@.blocks[current.0 as int] == graph.blocks@[current.0 as int]@);
        match graph.blocks[current.0 as usize].terminator {
            Terminator::Fallthrough(next) => {
                current = next;
            },
            Terminator::ConditionalBranch { .. } => {
                let chain = collect_cb_chain(graph, current);
                return chain.len() == cb_count;
            },
            _ => {
                return false;
            },
        }
    }
}

/// Recover source-level structure from the [`Cfg`] of a [`crate::ir::Proto`].
///
/// Walks the CFG starting at the entry block, threading a slot map and
/// producing [`Stmt`] nodes. Returns
/// [`DecompilerError::NotImplemented`] for any CFG shape that is not
/// modeled: nested `if`, `elseif` chains, sequential `if`s, compound
/// `while`/`repeat` conditions, nested loops, endless loops,
/// `break`/`continue`, and any block whose terminator isn't recognized.
///
/// Unreachable blocks (e.g. the dead "skip-else" JMP LuaJIT emits after
/// a returning then-body) are part of the if/else structural signature;
/// the walk never enters them.
///
/// `proto_idx` is the index of the proto within `module.protos`, which
/// FNEW uses to resolve child protos. `upvalue_names` carries the names
/// of the proto's own upvalues, or `None` when it has none.
pub fn recover(
    module: &Module,
    proto_idx: usize,
    cfg: &Cfg,
    is_fr2: bool,
    upvalue_names: Option<Vec<String>>,
) -> (res: Result<Vec<Stmt>, DecompilerError>)
    requires
        proto_idx < module.protos@.len(),
        cfg::module_fits(*module),
        cfg::graph_fits(cfg@, module.protos@[proto_idx as int].insts@),
    ensures
        match (
            res,
            recovered(
                Env {
                    module: module@,
                    idx: proto_idx as nat,
                    fr2: is_fr2,
                    names: match upvalue_names {
                        Some(names) => Some(text::views(names@)),
                        None => None,
                    },
                    kids: earlier(module@, proto_idx as nat, is_fr2),
                },
                cfg@,
            ),
        ) {
            (Ok(stmts), Ok(expected)) => ast::stmts_v(stmts@) == expected,
            (Err(e), Err(f)) => e@ == f,
            _ => false,
        },
    decreases proto_idx, 11int,
{
    reveal(recovered);
    let mut stmts: Vec<Stmt> = Vec::new();
    assert(ast::stmts_v(stmts@) =~= seq![]);
    if cfg.blocks.len() == 0 {
        return Ok(stmts);
    }
    let proto = &module.protos[proto_idx];
    proof {
        cfg::lemma_fits_falls_forward(cfg@, proto.insts@);
    }
    if !is_single_cb_chain(cfg) {
        return Err(DecompilerError::NotImplemented);
    }
    // Parameter slots resolve to the parameter names.
    let mut slot_exprs: HashMap<u8, Expr> = HashMap::new();
    let params = extract_params(proto);
    proof {
        function::law_one_name_per_parameter(proto@);
        assert(operand::slots_v(slot_exprs@) =~= Map::empty());
    }
    bind_names(&mut slot_exprs, 0, &params);
    let visited: HashSet<u32> = HashSet::new();
    assert(visited@ =~= Set::empty());
    let names = match &upvalue_names {
        Some(n) => Some(n.as_slice()),
        None => None,
    };
    let mut ctx = RecoveryCtx {
        module,
        proto_idx,
        cfg,
        is_fr2,
        slot_exprs,
        visited,
        upvalue_names: names,
    };
    recover_from(&mut ctx, &mut stmts, cfg.entry)?;
    Ok(stmts)
}

} // verus!
