//! Properties of graphs and dominator trees on many graphs.

use luadejit_core::cfg::{
    BasicBlock, BlockId, Cfg, DominatorTree, EdgeKind, InstructionId, Terminator,
};
use luadejit_core::ir::{Instruction, Opcode, Proto};

/// A small generator of numbers.
struct Dice(u64);

impl Dice {
    fn below(&mut self, n: u64) -> u64 {
        self.0 ^= self.0 << 13;
        self.0 ^= self.0 >> 7;
        self.0 ^= self.0 << 17;
        (self.0 >> 11) % n
    }
}

/// A graph with the given edges. Terminators play no part in dominance.
fn graph(n: usize, edges: &[(u32, u32)]) -> Cfg {
    let mut blocks: Vec<BasicBlock> = (0..n)
        .map(|i| BasicBlock {
            id: BlockId(i as u32),
            insts: vec![InstructionId(i as u32 + 1)],
            terminator: Terminator::Return,
            preds: Vec::new(),
            succs: Vec::new(),
        })
        .collect();
    for &(u, v) in edges {
        blocks[u as usize]
            .succs
            .push((BlockId(v), EdgeKind::Unconditional));
    }
    for u in 0..n as u32 {
        for &(s, v) in edges {
            let preds = &mut blocks[v as usize].preds;
            if s == u && !preds.contains(&BlockId(u)) {
                preds.push(BlockId(u));
            }
        }
    }
    Cfg {
        blocks,
        entry: BlockId(0),
    }
}

/// The blocks that control can reach without entering `without`.
fn reached(g: &Cfg, without: Option<usize>) -> Vec<bool> {
    let mut seen = vec![false; g.blocks.len()];
    let start = g.entry.0 as usize;
    if Some(start) == without {
        return seen;
    }
    seen[start] = true;
    let mut todo = vec![start];
    while let Some(b) = todo.pop() {
        for (next, _) in &g.blocks[b].succs {
            let k = next.0 as usize;
            if Some(k) != without && !seen[k] {
                seen[k] = true;
                todo.push(k);
            }
        }
    }
    seen
}

/// Check a tree against the definition of dominance.
fn check(g: &Cfg, tree: &DominatorTree) {
    let n = g.blocks.len();
    let reachable = reached(g, None);
    for a in 0..n {
        let without = reached(g, Some(a));
        for b in 0..n {
            let (x, y) = (BlockId(a as u32), BlockId(b as u32));
            let expected = if reachable[b] { !without[b] } else { a == b };
            assert_eq!(tree.dominates(x, y), expected, "{} {} in {:?}", a, b, g);
            assert_eq!(tree.strictly_dominates(x, y), expected && a != b);
        }
    }
    for b in 0..n {
        match tree.idom(BlockId(b as u32)) {
            None => assert!(b == g.entry.0 as usize || !reachable[b]),
            Some(d) => {
                assert!(reachable[b] && b != g.entry.0 as usize);
                let y = BlockId(b as u32);
                assert!(tree.strictly_dominates(d, y));
                for a in 0..n {
                    let x = BlockId(a as u32);
                    if tree.strictly_dominates(x, y) {
                        assert!(tree.dominates(x, d));
                    }
                }
            }
        }
    }
}

#[test]
fn diamond_joins_at_its_head() {
    let g = graph(4, &[(0, 1), (0, 2), (1, 3), (2, 3)]);
    let tree = g.compute_dominators();
    assert_eq!(tree.idom(BlockId(3)), Some(BlockId(0)));
    check(&g, &tree);
}

#[test]
fn loop_with_two_entries() {
    // Neither block of the cycle dominates the other.
    let g = graph(4, &[(0, 1), (0, 2), (1, 2), (2, 1), (1, 3)]);
    let tree = g.compute_dominators();
    assert_eq!(tree.idom(BlockId(1)), Some(BlockId(0)));
    assert_eq!(tree.idom(BlockId(2)), Some(BlockId(0)));
    assert_eq!(tree.idom(BlockId(3)), Some(BlockId(1)));
    check(&g, &tree);
}

#[test]
fn candidate_has_to_move_up_twice() {
    // The graph on which one pass is not enough.
    let g = graph(
        6,
        &[(0, 5), (5, 4), (5, 3), (4, 1), (3, 2), (1, 2), (2, 1), (2, 3), (3, 4)],
    );
    check(&g, &g.compute_dominators());
}

#[test]
fn self_loop_and_lone_entry() {
    let g = graph(1, &[(0, 0)]);
    let tree = g.compute_dominators();
    assert_eq!(tree.idom(BlockId(0)), None);
    check(&g, &tree);
}

#[test]
fn trees_hold_dominance_on_many_graphs() {
    let mut dice = Dice(0x2545_f491_4f6c_dd1d);
    for round in 0..600 {
        let n = 1 + dice.below(9) as usize;
        let m = dice.below(3 * n as u64);
        let edges: Vec<(u32, u32)> = (0..m)
            .map(|_| (dice.below(n as u64) as u32, dice.below(n as u64) as u32))
            .collect();
        let mut g = graph(n, &edges);
        if round % 3 == 0 {
            g.entry = BlockId(dice.below(n as u64) as u32);
        }
        check(&g, &g.compute_dominators());
    }
}

/// A prototype with made-up instructions.
fn random_proto(dice: &mut Dice) -> Proto {
    let ops = [
        Opcode::Kshort,
        Opcode::Mov,
        Opcode::Jmp,
        Opcode::Isf,
        Opcode::Islt,
        Opcode::Ret0,
        Opcode::Callt,
        Opcode::Fori,
        Opcode::Forl,
        Opcode::Isnext,
        Opcode::Iterl,
        Opcode::Call,
    ];
    let mut insts = vec![Instruction::synthetic_header(Opcode::Funcv, 8)];
    for _ in 0..dice.below(24) {
        insts.push(Instruction {
            op: ops[dice.below(ops.len() as u64) as usize],
            a: dice.below(4) as u8,
            b_or_d: (0x8000 - 8 + dice.below(20)) as u32,
            c: 0,
        });
    }
    Proto {
        flags: 2,
        numparams: 0,
        framesize: 8,
        upvalues: Vec::new(),
        gc_consts: Vec::new(),
        num_consts: Vec::new(),
        insts,
        debug: None,
    }
}

#[test]
fn built_graphs_partition_the_code() {
    let mut dice = Dice(88172645463325252);
    for _ in 0..400 {
        let proto = random_proto(&mut dice);
        let g = Cfg::build(&proto);
        let ids: Vec<u32> = g
            .blocks
            .iter()
            .flat_map(|b| b.insts.iter().map(|i| i.0))
            .collect();
        let expected: Vec<u32> = (1..proto.insts.len() as u32).collect();
        assert_eq!(ids, expected);
        for (k, b) in g.blocks.iter().enumerate() {
            assert_eq!(b.id, BlockId(k as u32));
        }
    }
}

#[test]
fn built_graphs_list_each_edge_both_ways() {
    let mut dice = Dice(0xdead_beef_cafe);
    for _ in 0..400 {
        let g = Cfg::build(&random_proto(&mut dice));
        for (v, b) in g.blocks.iter().enumerate() {
            let expected: Vec<BlockId> = g
                .blocks
                .iter()
                .filter(|u| u.succs.iter().any(|(t, _)| t.0 as usize == v))
                .map(|u| u.id)
                .collect();
            assert_eq!(b.preds, expected);
        }
        if !g.blocks.is_empty() {
            check(&g, &g.compute_dominators());
        }
    }
}

#[test]
fn jumps_lead_to_the_block_at_their_target() {
    let mut dice = Dice(77);
    let mut seen = 0;
    for _ in 0..400 {
        let proto = random_proto(&mut dice);
        let g = Cfg::build(&proto);
        for b in &g.blocks {
            let last = b.insts.last().unwrap().0 as usize;
            let target = match b.terminator {
                Terminator::Jump(t) if !b.succs.is_empty() => t,
                Terminator::ConditionalBranch { true_edge, .. } => true_edge,
                Terminator::LoopInit { exit, .. } => exit,
                Terminator::LoopLatch { body, .. } => body,
                _ => continue,
            };
            let start = Cfg::jmp_target(&proto, last).unwrap();
            assert_eq!(g.blocks[target.0 as usize].insts[0].0 as usize, start);
            seen += 1;
        }
    }
    assert!(seen > 100);
}

#[test]
fn loop_opcodes_end_their_blocks() {
    let d = |j: i32| (0x8000 + j) as u32;
    let ad = |op, a, d| Instruction { op, a, b_or_d: d, c: 0 };
    let proto = Proto {
        flags: 2,
        numparams: 0,
        framesize: 5,
        upvalues: Vec::new(),
        gc_consts: Vec::new(),
        num_consts: Vec::new(),
        insts: vec![
            Instruction::synthetic_header(Opcode::Funcv, 5),
            ad(Opcode::Fori, 1, d(2)),
            ad(Opcode::Mov, 0, 4),
            ad(Opcode::Forl, 1, d(-2)),
            ad(Opcode::Ret0, 0, 1),
        ],
        debug: None,
    };
    let g = Cfg::build(&proto);
    assert_eq!(g.blocks.len(), 3);
    assert!(matches!(
        g.blocks[0].terminator,
        Terminator::LoopInit { base: 1, exit: BlockId(2), body: BlockId(1) }
    ));
    assert_eq!(
        g.blocks[0].succs,
        vec![(BlockId(2), EdgeKind::True), (BlockId(1), EdgeKind::False)]
    );
    assert!(matches!(
        g.blocks[1].terminator,
        Terminator::LoopLatch { body: BlockId(1), exit: BlockId(2) }
    ));
    assert!(matches!(g.blocks[2].terminator, Terminator::Return));
}
