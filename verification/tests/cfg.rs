//! Control flow graphs and dominator trees.

use luadejit_core::cfg::{BlockId, Cfg, DominatorTree, EdgeKind, InstructionId, Terminator};
use luadejit_core::ir::{Instruction, Opcode, Proto};

// ---- proto / instruction builders ----------------------------------

/// Build an AD-format instruction.
fn ad(op: Opcode, a: u8, d: u16) -> Instruction {
    Instruction {
        op,
        a,
        b_or_d: u32::from(d),
        c: 0,
    }
}

fn proto_with_real_insts(real_insts: Vec<Instruction>) -> Proto {
    let mut insts = Vec::with_capacity(real_insts.len() + 1);
    insts.push(Instruction::synthetic_header(Opcode::Funcv, 1));
    insts.extend(real_insts);
    Proto {
        flags: 0x02, // VARARG (main chunk convention)
        numparams: 0,
        framesize: 1,
        upvalues: Vec::new(),
        gc_consts: Vec::new(),
        num_consts: Vec::new(),
        insts,
        debug: None,
    }
}

/// Assert two BlockIds match, with a readable panic.
fn assert_block_id(actual: BlockId, expected: u32) {
    assert_eq!(actual, BlockId(expected), "expected BlockId({})", expected);
}

// ---- Test 1: linear sequence (no branches) -------------------------

// Source: `return 5` -> KSHORT 0 5; RET1 0 2.
#[test]
fn linear_sequence_produces_single_return_block() {
    let proto = proto_with_real_insts(vec![
        ad(Opcode::Kshort, 0, 5), // idx 1
        ad(Opcode::Ret1, 0, 2),   // idx 2
    ]);
    let cfg = Cfg::build(&proto);

    assert_eq!(cfg.blocks.len(), 1, "linear code should be one block");
    assert_block_id(cfg.entry, 0);

    let entry = &cfg.blocks[0];
    assert_eq!(
        entry.insts,
        vec![InstructionId(1), InstructionId(2)],
        "entry should contain KSHORT and RET1"
    );
    assert!(
        matches!(entry.terminator, Terminator::Return),
        "entry should be a Return"
    );
    assert!(entry.succs.is_empty(), "Return has no successors");
    assert!(entry.preds.is_empty(), "entry has no predecessors");
}

// ---- Test 4: multi-statement linear sequence -----------------------

// Source: `local x = 1; return x` -> KSHORT 0 1; RET1 0 2.
// Structurally identical to Test 1.
#[test]
fn multi_statement_linear_produces_single_return_block() {
    let proto = proto_with_real_insts(vec![
        ad(Opcode::Kshort, 0, 1), // idx 1
        ad(Opcode::Ret1, 0, 2),   // idx 2
    ]);
    let cfg = Cfg::build(&proto);

    assert_eq!(cfg.blocks.len(), 1);
    assert!(matches!(cfg.blocks[0].terminator, Terminator::Return));
    assert_eq!(
        cfg.blocks[0].insts,
        vec![InstructionId(1), InstructionId(2)]
    );
}

// ---- Test 2: if/then -----------------------------------------------

#[test]
fn if_then_produces_conditional_branch_with_three_blocks() {
    let proto = proto_with_real_insts(vec![
        ad(Opcode::Gget, 0, 0),     // idx 1
        ad(Opcode::Isf, 0, 0),      // idx 2  (D unused for ISxx)
        ad(Opcode::Jmp, 1, 0x8002), // idx 3: target = idx 6
        ad(Opcode::Kshort, 0, 1),   // idx 4
        ad(Opcode::Ret1, 0, 2),     // idx 5
        ad(Opcode::Ret0, 0, 1),     // idx 6
    ]);
    let cfg = Cfg::build(&proto);

    assert_eq!(cfg.blocks.len(), 3, "if/then should produce 3 blocks");
    assert_block_id(cfg.entry, 0);

    // Block 0 (entry): [GGET, ISF, JMP] -> ConditionalBranch.
    let entry = &cfg.blocks[0];
    assert_eq!(
        entry.insts,
        vec![InstructionId(1), InstructionId(2), InstructionId(3)]
    );
    match &entry.terminator {
        Terminator::ConditionalBranch {
            condition,
            true_edge,
            false_edge,
        } => {
            assert_eq!(*condition, InstructionId(2), "condition is ISF at idx 2");
            // JMP target is idx 6 (the RET0 / merge block).
            assert_block_id(*true_edge, 2);
            // Fall-through is idx 4 (the then-body).
            assert_block_id(*false_edge, 1);
        }
        other => panic!(
            "entry terminator should be ConditionalBranch, got {:?}",
            other
        ),
    }
    assert_eq!(
        entry.succs,
        vec![(BlockId(2), EdgeKind::True), (BlockId(1), EdgeKind::False)]
    );
    assert!(entry.preds.is_empty(), "entry has no predecessors");

    // Block 1 (then-body): [KSHORT, RET1] -> Return.
    let then_body = &cfg.blocks[1];
    assert_eq!(then_body.insts, vec![InstructionId(4), InstructionId(5)]);
    assert!(
        matches!(then_body.terminator, Terminator::Return),
        "then-body should Return"
    );
    assert!(then_body.succs.is_empty());
    assert_eq!(then_body.preds, vec![BlockId(0)]);

    // Block 2 (merge): [RET0] -> Return.
    let merge = &cfg.blocks[2];
    assert_eq!(merge.insts, vec![InstructionId(6)]);
    assert!(
        matches!(merge.terminator, Terminator::Return),
        "merge should Return"
    );
    assert!(merge.succs.is_empty());
    assert_eq!(merge.preds, vec![BlockId(0)]);
}

// ---- Test 3: if/then/else ------------------------------------------

#[test]
fn if_then_else_produces_conditional_branch_and_five_blocks() {
    let proto = proto_with_real_insts(vec![
        ad(Opcode::Gget, 0, 0),     // idx 1
        ad(Opcode::Isf, 0, 0),      // idx 2
        ad(Opcode::Jmp, 1, 0x8003), // idx 3: target = idx 7 (else-body)
        ad(Opcode::Kshort, 0, 1),   // idx 4
        ad(Opcode::Ret1, 0, 2),     // idx 5
        ad(Opcode::Jmp, 0, 0x8002), // idx 6: target = idx 9 (merge)
        ad(Opcode::Kshort, 0, 2),   // idx 7
        ad(Opcode::Ret1, 0, 2),     // idx 8
        ad(Opcode::Ret0, 0, 1),     // idx 9
    ]);
    let cfg = Cfg::build(&proto);

    assert_eq!(cfg.blocks.len(), 5);
    assert_block_id(cfg.entry, 0);

    // Block 0 (entry): [GGET, ISF, JMP] -> ConditionalBranch.
    let entry = &cfg.blocks[0];
    assert_eq!(
        entry.insts,
        vec![InstructionId(1), InstructionId(2), InstructionId(3)]
    );
    match &entry.terminator {
        Terminator::ConditionalBranch {
            condition,
            true_edge,
            false_edge,
        } => {
            assert_eq!(*condition, InstructionId(2));
            // JMP target idx 7 -> Block 3 (else-body).
            assert_block_id(*true_edge, 3);
            // Fall-through idx 4 -> Block 1 (then-body).
            assert_block_id(*false_edge, 1);
        }
        other => panic!("expected ConditionalBranch, got {:?}", other),
    }
    assert_eq!(
        entry.succs,
        vec![(BlockId(3), EdgeKind::True), (BlockId(1), EdgeKind::False)]
    );

    // Block 1 (then-body): [KSHORT, RET1] -> Return.
    let then_body = &cfg.blocks[1];
    assert_eq!(then_body.insts, vec![InstructionId(4), InstructionId(5)]);
    assert!(matches!(then_body.terminator, Terminator::Return));
    assert!(then_body.succs.is_empty());
    assert_eq!(then_body.preds, vec![BlockId(0)]);

    // Block 2 (dead jump after then-body): [JMP] -> Jump(merge).
    // RET1 at idx 5 ended the then-body block, so the JMP at
    // idx 6 becomes its own block. Its proto-level predecessor
    // (idx 5) is RET1, not ISxx, so it classifies as a standalone
    // Jump.
    let dead_jump = &cfg.blocks[2];
    assert_eq!(dead_jump.insts, vec![InstructionId(6)]);
    match &dead_jump.terminator {
        Terminator::Jump(target) => assert_block_id(*target, 4),
        other => panic!("expected Jump, got {:?}", other),
    }
    assert_eq!(dead_jump.succs, vec![(BlockId(4), EdgeKind::Unconditional)]);

    // Block 3 (else-body): [KSHORT, RET1] -> Return.
    let else_body = &cfg.blocks[3];
    assert_eq!(else_body.insts, vec![InstructionId(7), InstructionId(8)]);
    assert!(matches!(else_body.terminator, Terminator::Return));
    assert!(else_body.succs.is_empty());
    assert_eq!(else_body.preds, vec![BlockId(0)]);

    // Block 4 (merge): [RET0] -> Return.
    let merge = &cfg.blocks[4];
    assert_eq!(merge.insts, vec![InstructionId(9)]);
    assert!(matches!(merge.terminator, Terminator::Return));
    assert!(merge.succs.is_empty());
    // Merge has two predecessors: the dead-jump (Block 2). The
    // else-body returns, so it does not flow into the merge.
    assert_eq!(merge.preds, vec![BlockId(2)]);
}

// ---- Standalone unconditional jump ---------------------------------

// A standalone JMP not preceded by ISxx should classify as
// `Terminator::Jump`, not `ConditionalBranch`. Source shape:
// `goto label` style, but constructed directly to keep the test
// focused. Bytecode:
//   0001 KSHORT 0 1
//   0002 JMP    0 => 0004   (D=0x8001 -> j=1 -> target=2+1+1=4)
//   0003 KSHORT 0 2
//   0004 RET0   0 1
#[test]
fn standalone_jmp_classifies_as_jump() {
    let proto = proto_with_real_insts(vec![
        ad(Opcode::Kshort, 0, 1),   // idx 1
        ad(Opcode::Jmp, 0, 0x8001), // idx 2: target = idx 4
        ad(Opcode::Kshort, 0, 2),   // idx 3
        ad(Opcode::Ret0, 0, 1),     // idx 4
    ]);
    let cfg = Cfg::build(&proto);

    // Leaders: {1 (entry), 3 (after JMP at 2), 4 (target of JMP)}.
    assert_eq!(cfg.blocks.len(), 3);

    // Block 0: [KSHORT, JMP] -> Jump(target=Block 2).
    let b0 = &cfg.blocks[0];
    assert_eq!(b0.insts, vec![InstructionId(1), InstructionId(2)]);
    match &b0.terminator {
        Terminator::Jump(target) => assert_block_id(*target, 2),
        other => panic!("expected Jump, got {:?}", other),
    }
    assert_eq!(b0.succs, vec![(BlockId(2), EdgeKind::Unconditional)]);

    let b1 = &cfg.blocks[1];
    assert_eq!(b1.insts, vec![InstructionId(3)]);
    match &b1.terminator {
        Terminator::Fallthrough(target) => assert_block_id(*target, 2),
        other => panic!("expected Fallthrough, got {:?}", other),
    }
    assert!(b1.preds.is_empty(), "Block 1 is unreachable from entry");

    // Block 2: [RET0] -> Return. Two structural predecessors:
    // Block 0 (via Jump) and Block 1 (via Fallthrough), in
    // ascending id order.
    let b2 = &cfg.blocks[2];
    assert_eq!(b2.insts, vec![InstructionId(4)]);
    assert!(matches!(b2.terminator, Terminator::Return));
    assert_eq!(b2.preds, vec![BlockId(0), BlockId(1)]);
}

// ---- Tail call terminator ------------------------------------------

// CALLT (tail call) should classify as `Terminator::TailCall`
// with no successors. Bytecode:
//   0001 GGET  0 0      ; f
//   0002 CALLT 0 2      ; tail call f()
#[test]
fn callt_classifies_as_tail_call() {
    let proto = proto_with_real_insts(vec![
        ad(Opcode::Gget, 0, 0),  // idx 1
        ad(Opcode::Callt, 0, 2), // idx 2
    ]);
    let cfg = Cfg::build(&proto);

    assert_eq!(cfg.blocks.len(), 1);
    match &cfg.blocks[0].terminator {
        Terminator::TailCall(InstructionId(id)) => assert_eq!(*id, 2),
        other => panic!("expected TailCall, got {:?}", other),
    }
    assert!(cfg.blocks[0].succs.is_empty(), "TailCall has no successors");
}

// ---- Fallthrough terminator ----------------------------------------

// A block whose last instruction is not a terminator should
// fall through to the next block. Constructed directly: a JMP
// in the middle (whose presence makes the post-JMP instruction
// a leader) followed by non-terminator instructions, then RET.
#[test]
fn non_terminator_block_falls_through() {
    //   0001 JMP    0 => 0003   (target=3)
    //   0002 KSHORT 0 1         (leader; Fallthrough into next)
    //   0003 RET0   0 1         (leader: JMP target)
    // Block 0 [JMP] -> Jump(Block 2). Block 1 [KSHORT] ends with
    // a non-terminator and has a successor -> Fallthrough(Block 2).
    // Recompute: we want JMP at idx 1 to target idx 3.
    // target = 1 + 1 + j = 3 -> j = 1 -> D = 0x8001.
    let proto = proto_with_real_insts(vec![
        ad(Opcode::Jmp, 0, 0x8001), // idx 1: target = idx 3
        ad(Opcode::Kshort, 0, 1),   // idx 2: leader (after JMP)
        ad(Opcode::Ret0, 0, 1),     // idx 3: leader (JMP target)
    ]);
    let cfg = Cfg::build(&proto);

    // Leaders: {1, 2 (after JMP), 3 (JMP target)}.
    assert_eq!(cfg.blocks.len(), 3);

    // Block 1 [KSHORT] ends with a non-terminator -> Fallthrough.
    let fallthrough_block = &cfg.blocks[1];
    assert_eq!(fallthrough_block.insts, vec![InstructionId(2)]);
    match &fallthrough_block.terminator {
        Terminator::Fallthrough(target) => assert_block_id(*target, 2),
        other => panic!("expected Fallthrough, got {:?}", other),
    }
    assert_eq!(
        fallthrough_block.succs,
        vec![(BlockId(2), EdgeKind::Unconditional)]
    );
}

// ---- JMP target formula verification -------------------------------

#[test]
fn jmp_target_formula_matches_luajit_bl_output() {
    // if/then: JMP at internal idx 3, D=0x8002 -> target 6.
    let ifthen = proto_with_real_insts(vec![
        ad(Opcode::Gget, 0, 0),
        ad(Opcode::Isf, 0, 0),
        ad(Opcode::Jmp, 1, 0x8002), // idx 3
        ad(Opcode::Kshort, 0, 1),
        ad(Opcode::Ret1, 0, 2),
        ad(Opcode::Ret0, 0, 1), // idx 6
    ]);
    assert_eq!(Cfg::jmp_target(&ifthen, 3), Some(6));

    // if/then/else: two JMPs.
    //   JMP at idx 3, D=0x8003 -> target 7.
    //   JMP at idx 6, D=0x8002 -> target 9.
    let ifelse = proto_with_real_insts(vec![
        ad(Opcode::Gget, 0, 0),     // idx 1
        ad(Opcode::Isf, 0, 0),      // idx 2
        ad(Opcode::Jmp, 1, 0x8003), // idx 3
        ad(Opcode::Kshort, 0, 1),   // idx 4
        ad(Opcode::Ret1, 0, 2),     // idx 5
        ad(Opcode::Jmp, 0, 0x8002), // idx 6
        ad(Opcode::Kshort, 0, 2),   // idx 7
        ad(Opcode::Ret1, 0, 2),     // idx 8
        ad(Opcode::Ret0, 0, 1),     // idx 9
    ]);
    assert_eq!(Cfg::jmp_target(&ifelse, 3), Some(7));
    assert_eq!(Cfg::jmp_target(&ifelse, 6), Some(9));
}

// Backward jump (negative offset). Verifies the sign correction
// of the biased D encoding works in the negative direction.
#[test]
fn jmp_target_handles_backward_jump() {
    // Construct a 3-instruction loop where idx 3 jumps back to
    // idx 2. target = 3 + 1 + j = 2 -> j = -2 -> D = 0x8000 - 2 = 0x7ffe.
    // (D is u16; (0x7ffe as i16) = -2.)
    let proto = proto_with_real_insts(vec![
        ad(Opcode::Kshort, 0, 0),   // idx 1
        ad(Opcode::Loop, 0, 0),     // idx 2 (LOOP marker; loop target)
        ad(Opcode::Jmp, 0, 0x7ffe), // idx 3: target = idx 2 (back-edge)
    ]);
    assert_eq!(Cfg::jmp_target(&proto, 3), Some(2));
}

// ---- Edge case: proto with only the FUNC* header -------------------

#[test]
fn empty_proto_produces_empty_cfg() {
    let proto = Proto {
        flags: 0x02,
        numparams: 0,
        framesize: 0,
        upvalues: Vec::new(),
        gc_consts: Vec::new(),
        num_consts: Vec::new(),
        insts: vec![Instruction::synthetic_header(Opcode::Funcv, 0)],
        debug: None,
    };
    let cfg = Cfg::build(&proto);
    assert!(cfg.blocks.is_empty(), "no real instructions -> no blocks");
}

// ---- Edge case: single RET0 (return-only chunk) --------------------

#[test]
fn single_ret0_produces_single_return_block() {
    let proto = proto_with_real_insts(vec![ad(Opcode::Ret0, 0, 1)]);
    let cfg = Cfg::build(&proto);
    assert_eq!(cfg.blocks.len(), 1);
    assert_eq!(cfg.blocks[0].insts, vec![InstructionId(1)]);
    assert!(matches!(cfg.blocks[0].terminator, Terminator::Return));
}

/// Pretty-print a dominator tree as "block -> idom" pairs for
/// readable assertion failures.
fn dump_dom(tree: &DominatorTree) -> String {
    tree.immediate_doms
        .iter()
        .enumerate()
        .map(|(i, idom)| match idom {
            Some(d) => format!("{}->{}", i, d.0),
            None => format!("{}->None", i),
        })
        .collect::<Vec<_>>()
        .join(", ")
}

// ---- Dom tree: linear sequence (1 block) ---------------------------
//
// Source: `return 5`. Single entry block that returns. The entry
// has no strict dominator (idom = None) but dominates itself.
#[test]
fn dom_tree_linear_sequence() {
    let proto = proto_with_real_insts(vec![
        ad(Opcode::Kshort, 0, 5), // idx 1
        ad(Opcode::Ret1, 0, 2),   // idx 2
    ]);
    let cfg = Cfg::build(&proto);
    let tree = cfg.compute_dominators();

    assert_eq!(
        tree.immediate_doms,
        vec![None],
        "single-block CFG: entry has no strict dominator. tree = {}",
        dump_dom(&tree)
    );
    // A block always dominates itself, even the entry.
    assert!(tree.dominates(BlockId(0), BlockId(0)));
    assert!(!tree.strictly_dominates(BlockId(0), BlockId(0)));
    assert_eq!(tree.idom(BlockId(0)), None);
}

// ---- Dom tree: if/then (3 blocks, all reachable) -------------------
//
// Source: `if x then return 1 end`. CFG:
//   entry(0) -true->  merge(2)
//          \-false-> then(1) [returns]
// Both then-body and merge are direct children of entry; neither
// dominates the other.
#[test]
fn dom_tree_if_then_all_reachable() {
    let proto = proto_with_real_insts(vec![
        ad(Opcode::Gget, 0, 0),     // idx 1
        ad(Opcode::Isf, 0, 0),      // idx 2
        ad(Opcode::Jmp, 1, 0x8002), // idx 3: target = idx 6
        ad(Opcode::Kshort, 0, 1),   // idx 4
        ad(Opcode::Ret1, 0, 2),     // idx 5
        ad(Opcode::Ret0, 0, 1),     // idx 6
    ]);
    let cfg = Cfg::build(&proto);
    let tree = cfg.compute_dominators();

    // entry(0) -> None, then-body(1) -> entry(0), merge(2) -> entry(0).
    assert_eq!(
        tree.immediate_doms,
        vec![None, Some(BlockId(0)), Some(BlockId(0))],
        "tree = {}",
        dump_dom(&tree)
    );

    // Entry dominates every reachable block.
    assert!(tree.dominates(BlockId(0), BlockId(1)));
    assert!(tree.dominates(BlockId(0), BlockId(2)));
    assert!(tree.strictly_dominates(BlockId(0), BlockId(1)));
    assert!(tree.strictly_dominates(BlockId(0), BlockId(2)));

    // Siblings: then-body and merge are children of entry; neither
    // dominates the other.
    assert!(!tree.dominates(BlockId(1), BlockId(2)));
    assert!(!tree.dominates(BlockId(2), BlockId(1)));

    // idom helper round-trips.
    assert_eq!(tree.idom(BlockId(0)), None);
    assert_eq!(tree.idom(BlockId(1)), Some(BlockId(0)));
    assert_eq!(tree.idom(BlockId(2)), Some(BlockId(0)));

    // Self-dominance.
    assert!(tree.dominates(BlockId(1), BlockId(1)));
    assert!(!tree.strictly_dominates(BlockId(1), BlockId(1)));
}

#[test]
fn dom_tree_if_else_with_returns_has_unreachable_blocks() {
    let proto = proto_with_real_insts(vec![
        ad(Opcode::Gget, 0, 0),     // idx 1
        ad(Opcode::Isf, 0, 0),      // idx 2
        ad(Opcode::Jmp, 1, 0x8003), // idx 3: target = idx 7
        ad(Opcode::Kshort, 0, 1),   // idx 4
        ad(Opcode::Ret1, 0, 2),     // idx 5
        ad(Opcode::Jmp, 0, 0x8002), // idx 6: dead, target = idx 9
        ad(Opcode::Kshort, 0, 2),   // idx 7
        ad(Opcode::Ret1, 0, 2),     // idx 8
        ad(Opcode::Ret0, 0, 1),     // idx 9
    ]);
    let cfg = Cfg::build(&proto);
    let tree = cfg.compute_dominators();

    // entry(0) -> None
    // then-body(1) -> entry(0)
    // dead-jmp(2) -> None (unreachable)
    // else-body(3) -> entry(0)
    // merge(4) -> None (only pred is unreachable dead-jmp)
    assert_eq!(
        tree.immediate_doms,
        vec![None, Some(BlockId(0)), None, Some(BlockId(0)), None,],
        "tree = {}",
        dump_dom(&tree)
    );

    // Reachable blocks: entry dominates both branches.
    assert!(tree.dominates(BlockId(0), BlockId(1)));
    assert!(tree.dominates(BlockId(0), BlockId(3)));
    // Unreachable blocks are not dominated by entry.
    assert!(!tree.dominates(BlockId(0), BlockId(2)));
    assert!(!tree.dominates(BlockId(0), BlockId(4)));
    // An unreachable block still dominates itself by convention.
    assert!(tree.dominates(BlockId(2), BlockId(2)));
}

// ---- Dom tree: if/then with fallthrough merge (3 blocks) -----------
//
// Source: `if x then y = 1 end; return y`. Bytecode:
//   0001 GGET   0 0
//   0002 ISF    0
//   0003 JMP    1 => 0005   (D=0x8001: j=1, target=3+1+1=5)
//   0004 KSHORT 1 1         ; y = 1
//   0005 RET1   1 2         ; return y
//
// CFG: entry(0) [GGET,ISF,JMP] branches; then-body(1) [KSHORT]
// falls through to merge(2) [RET1]. The merge has two preds
// (entry via the JMP true-edge, then-body via fallthrough), so
// idom[merge] = entry (entry is the LCA of both paths).
#[test]
fn dom_tree_if_then_with_fallthrough_merge() {
    let proto = proto_with_real_insts(vec![
        ad(Opcode::Gget, 0, 0),     // idx 1
        ad(Opcode::Isf, 0, 0),      // idx 2
        ad(Opcode::Jmp, 1, 0x8001), // idx 3: target = idx 5
        ad(Opcode::Kshort, 1, 1),   // idx 4: y = 1
        ad(Opcode::Ret1, 1, 2),     // idx 5: return y
    ]);
    let cfg = Cfg::build(&proto);

    assert_eq!(cfg.blocks.len(), 3, "expected 3 blocks");
    assert_eq!(
        cfg.blocks[2].preds,
        vec![BlockId(0), BlockId(1)],
        "merge should have entry and then-body as preds"
    );

    let tree = cfg.compute_dominators();

    // entry(0) -> None
    // then-body(1) -> entry(0)
    // merge(2) -> entry(0)   [entry dominates both paths into merge]
    assert_eq!(
        tree.immediate_doms,
        vec![None, Some(BlockId(0)), Some(BlockId(0))],
        "tree = {}",
        dump_dom(&tree)
    );
    // Crucially, then-body does NOT dominate merge - the entry's
    // true-edge bypasses then-body entirely and lands in merge.
    assert!(
        !tree.dominates(BlockId(1), BlockId(2)),
        "then-body must not dominate merge (entry bypasses it)"
    );
    assert!(tree.dominates(BlockId(0), BlockId(2)));
}

#[test]
fn dom_tree_standalone_jmp_with_unreachable_block() {
    let proto = proto_with_real_insts(vec![
        ad(Opcode::Kshort, 0, 1),   // idx 1
        ad(Opcode::Jmp, 0, 0x8001), // idx 2: target = idx 4
        ad(Opcode::Kshort, 0, 2),   // idx 3 (unreachable)
        ad(Opcode::Ret0, 0, 1),     // idx 4
    ]);
    let cfg = Cfg::build(&proto);
    let tree = cfg.compute_dominators();

    // Block 0 (entry) -> None
    // Block 1 (unreachable) -> None
    // Block 2 -> Block 0 (entry is its only reachable pred)
    assert_eq!(
        tree.immediate_doms,
        vec![None, None, Some(BlockId(0))],
        "tree = {}",
        dump_dom(&tree)
    );
    assert!(tree.dominates(BlockId(0), BlockId(2)));
    assert!(!tree.dominates(BlockId(0), BlockId(1)));
}

// ---- Dom tree: empty CFG -------------------------------------------
//
// A proto with no real instructions builds an empty CFG; computing
// dominators must not panic and must return an empty tree.
#[test]
fn dom_tree_empty_cfg() {
    let proto = Proto {
        flags: 0x02,
        numparams: 0,
        framesize: 0,
        upvalues: Vec::new(),
        gc_consts: Vec::new(),
        num_consts: Vec::new(),
        insts: vec![Instruction::synthetic_header(Opcode::Funcv, 0)],
        debug: None,
    };
    let cfg = Cfg::build(&proto);
    let tree = cfg.compute_dominators();
    assert!(tree.immediate_doms.is_empty());
    // Out-of-range id lookups are defensive (no panic, returns None).
    assert_eq!(tree.idom(BlockId(0)), None);
    assert_eq!(tree.idom(BlockId(99)), None);
    // dominates(a, b) where neither block exists: entry-vs-block
    // queries must return false (no dominance between ghosts).
    assert!(!tree.dominates(BlockId(0), BlockId(1)));
    assert!(!tree.dominates(BlockId(1), BlockId(0)));
}

// ---- Dom tree: idom() out-of-range is defensive --------------------
//
// A BlockId past the end of the tree returns None rather than
// panicking, so callers iterating over block lists don't need to
// bounds-check before calling idom().
#[test]
fn dom_tree_idom_out_of_range_returns_none() {
    let proto = proto_with_real_insts(vec![ad(Opcode::Ret0, 0, 1)]);
    let cfg = Cfg::build(&proto);
    let tree = cfg.compute_dominators();
    assert_eq!(tree.idom(BlockId(99)), None);
    assert!(!tree.dominates(BlockId(0), BlockId(99)));
    assert!(!tree.dominates(BlockId(99), BlockId(0)));
}
