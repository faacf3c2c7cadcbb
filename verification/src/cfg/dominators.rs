//! The dominator tree of a control flow graph.
//!
//! [`Cfg::compute_dominators`] uses the Cooper-Harvey-Kennedy iterative
//! dominance algorithm (Cooper, Harvey, Kennedy. "A Simple, Fast
//! Dominance Algorithm." Rice University, 2001). Dominance itself is
//! stated over paths ([`dominates`]), and the tree is proved to hold
//! exactly that relation.

use vstd::prelude::*;

use crate::cfg;
use crate::cfg::{BlockId, Cfg, CfgV};
use crate::ir::Instruction;

verus! {

// ---- Paths and dominance --------------------------------------------------------

/// Whether `b` is a block of the graph.
pub open spec fn node(g: CfgV, b: int) -> bool {
    0 <= b < g.blocks.len()
}

/// Whether there is an edge from block `u` to block `v`.
pub open spec fn edge(g: CfgV, u: int, v: int) -> bool {
    node(g, u) && node(g, v) && cfg::leads_to(g.blocks[u].succs, v)
}

/// Whether `p` is a path: blocks of the graph, each with an edge to the
/// next.
pub open spec fn is_path(g: CfgV, p: Seq<int>) -> bool {
    &&& p.len() > 0
    &&& forall|i: int| 0 <= i < p.len() ==> node(g, #[trigger] p[i])
    &&& forall|i: int, j: int|
        0 <= i && j == i + 1 && j < p.len() ==> edge(g, #[trigger] p[i], #[trigger] p[j])
}

/// Whether `p` is a path from `a` to `b`.
pub open spec fn path_between(g: CfgV, p: Seq<int>, a: int, b: int) -> bool {
    is_path(g, p) && p[0] == a && p.last() == b
}

/// Whether `p` is a path from the entry to `b`.
pub open spec fn path_to(g: CfgV, p: Seq<int>, b: int) -> bool {
    path_between(g, p, g.entry.0 as int, b)
}

/// Whether control can get from `a` to `b`.
pub open spec fn reaches(g: CfgV, a: int, b: int) -> bool {
    exists|p: Seq<int>| #[trigger] path_between(g, p, a, b)
}

/// Whether control can reach `b` from the entry.
pub open spec fn reachable(g: CfgV, b: int) -> bool {
    reaches(g, g.entry.0 as int, b)
}

/// Whether `a` dominates `b`: every path from the entry to `b` passes
/// through `a`.
pub open spec fn dominates(g: CfgV, a: int, b: int) -> bool {
    forall|p: Seq<int>| #[trigger] path_to(g, p, b) ==> p.contains(a)
}

/// Whether `a` dominates `b` and is another block.
pub open spec fn strictly_dominates(g: CfgV, a: int, b: int) -> bool {
    a != b && dominates(g, a, b)
}

/// Whether `d` is the immediate dominator of `b`: the strict dominator
/// that all others dominate.
pub open spec fn immediately_dominates(g: CfgV, d: int, b: int) -> bool {
    &&& strictly_dominates(g, d, b)
    &&& forall|a: int| #[trigger] strictly_dominates(g, a, b) ==> dominates(g, a, d)
}

/// Whether the entry and all edges are in range.
pub open spec fn ranged(g: CfgV) -> bool {
    &&& g.blocks.len() <= u32::MAX
    &&& g.blocks.len() > 0 ==> cfg::in_graph(g, g.entry)
    &&& forall|u: int, e: int|
        node(g, u) && 0 <= e < g.blocks[u].succs.len() ==> cfg::in_graph(
            g,
            (#[trigger] g.blocks[u].succs[e]).0,
        )
}

/// Whether the entry and all edges are in range, and the predecessor
/// lists hold exactly the blocks with an edge.
pub open spec fn wired(g: CfgV) -> bool {
    &&& ranged(g)
    &&& forall|v: int, i: int|
        node(g, v) && 0 <= i < g.blocks[v].preds.len() ==> edge(
            g,
            (#[trigger] g.blocks[v].preds[i]).0 as int,
            v,
        )
    &&& forall|u: int, v: int| #[trigger]
        edge(g, u, v) ==> g.blocks[v].preds.contains(BlockId(u as u32))
}

/// The graph that is built for an instruction stream is wired.
pub proof fn law_built_graph_is_wired(insts: Seq<Instruction>)
    requires
        insts.len() <= cfg::MAX_INSTS,
    ensures
        wired(cfg::built(insts)),
{
    let g = cfg::built(insts);
    cfg::law_built_graph_fits(insts);
    if g.blocks.len() > 0 {
        cfg::lemma_block_range(insts, 0);
    }
    assert forall|u: int, e: int|
        node(g, u) && 0 <= e < g.blocks[u].succs.len() implies cfg::in_graph(
        g,
        (#[trigger] g.blocks[u].succs[e]).0,
    ) by {
        assert(cfg::block_fits(g, insts, u));
    }
    assert forall|v: int, i: int| node(g, v) && 0 <= i < g.blocks[v].preds.len() implies edge(
        g,
        (#[trigger] g.blocks[v].preds[i]).0 as int,
        v,
    ) by {
        cfg::law_preds_mirror_succs(insts, v);
        assert(g.blocks[v].preds.contains(g.blocks[v].preds[i]));
    }
    assert forall|u: int, v: int| #[trigger] edge(g, u, v) implies g.blocks[v].preds.contains(
        BlockId(u as u32),
    ) by {
        cfg::law_preds_mirror_succs(insts, v);
        assert(cfg::in_graph(g, BlockId(u as u32)));
    }
}

/// A block dominates itself.
pub proof fn law_dominance_is_reflexive(g: CfgV, b: int)
    ensures
        dominates(g, b, b),
{
    assert forall|p: Seq<int>| #[trigger] path_to(g, p, b) implies p.contains(b) by {
        assert(p[p.len() - 1] == b);
    }
}

/// The entry dominates every block.
pub proof fn law_entry_dominates_all(g: CfgV, b: int)
    ensures
        dominates(g, g.entry.0 as int, b),
{
    assert forall|p: Seq<int>| #[trigger] path_to(g, p, b) implies p.contains(
        g.entry.0 as int,
    ) by {
        assert(p[0] == g.entry.0);
    }
}

/// What dominates a dominator of a block dominates the block.
pub proof fn law_dominance_is_transitive(g: CfgV, a: int, b: int, c: int)
    requires
        dominates(g, a, b),
        dominates(g, b, c),
    ensures
        dominates(g, a, c),
{
    assert forall|p: Seq<int>| #[trigger] path_to(g, p, c) implies p.contains(a) by {
        assert(p.contains(b));
        let i = choose|i: int| 0 <= i < p.len() && p[i] == b;
        let q = p.take(i + 1);
        lemma_path_prefix(g, p, i + 1);
        assert(path_to(g, q, b));
        let j = choose|j: int| 0 <= j < q.len() && q[j] == a;
        assert(p[j] == a);
    }
}

/// Two reachable blocks that dominate each other are the same.
pub proof fn law_dominance_is_antisymmetric(g: CfgV, a: int, b: int)
    requires
        reachable(g, a),
        dominates(g, a, b),
        dominates(g, b, a),
    ensures
        a == b,
{
    let p = choose|p: Seq<int>| #[trigger] path_between(g, p, g.entry.0 as int, a);
    assert(path_to(g, p, a));
    lemma_mutual_dominance(g, a, b, p);
}

proof fn lemma_mutual_dominance(g: CfgV, a: int, b: int, p: Seq<int>)
    requires
        dominates(g, a, b),
        dominates(g, b, a),
        path_to(g, p, a),
    ensures
        a == b,
    decreases p.len(),
{
    if a != b {
        assert(p.contains(b));
        let i = choose|i: int| 0 <= i < p.len() && p[i] == b;
        let q = p.take(i + 1);
        lemma_path_prefix(g, p, i + 1);
        assert(path_to(g, q, b));
        assert(q.contains(a));
        let j = choose|j: int| 0 <= j < q.len() && q[j] == a;
        assert(j < i);
        lemma_path_prefix(g, q, j + 1);
        let r = q.take(j + 1);
        assert(path_to(g, r, a));
        lemma_mutual_dominance(g, a, b, r);
    }
}

/// A reachable block has at most one immediate dominator.
pub proof fn law_immediate_dominator_is_unique(g: CfgV, d: int, e: int, b: int)
    requires
        reachable(g, b),
        immediately_dominates(g, d, b),
        immediately_dominates(g, e, b),
    ensures
        d == e,
{
    assert(strictly_dominates(g, d, b));
    assert(strictly_dominates(g, e, b));
    let p = choose|p: Seq<int>| #[trigger] path_between(g, p, g.entry.0 as int, b);
    assert(path_to(g, p, b));
    assert(p.contains(d));
    let i = choose|i: int| 0 <= i < p.len() && p[i] == d;
    lemma_path_prefix(g, p, i + 1);
    assert(path_to(g, p.take(i + 1), d));
    law_dominance_is_antisymmetric(g, d, e);
}

proof fn lemma_path_push(g: CfgV, p: Seq<int>, b: int)
    requires
        is_path(g, p),
        edge(g, p.last(), b),
    ensures
        is_path(g, p.push(b)),
        p.push(b)[0] == p[0],
        p.push(b).last() == b,
{
    let q = p.push(b);
    assert forall|i: int, j: int| 0 <= i && j == i + 1 && j < q.len() implies edge(
        g,
        #[trigger] q[i],
        #[trigger] q[j],
    ) by {
        if j < p.len() {
            assert(edge(g, p[i], p[j]));
        }
    }
}

proof fn lemma_path_prefix(g: CfgV, p: Seq<int>, n: int)
    requires
        is_path(g, p),
        0 < n <= p.len(),
    ensures
        is_path(g, p.take(n)),
        p.take(n)[0] == p[0],
{
    let q = p.take(n);
    assert forall|i: int, j: int| 0 <= i && j == i + 1 && j < q.len() implies edge(
        g,
        #[trigger] q[i],
        #[trigger] q[j],
    ) by {
        assert(edge(g, p[i], p[j]));
    }
}

/// Two paths that meet make one.
proof fn lemma_path_join(g: CfgV, p: Seq<int>, q: Seq<int>)
    requires
        is_path(g, p),
        is_path(g, q),
        p.last() == q[0],
    ensures
        is_path(g, p + q.drop_first()),
        (p + q.drop_first())[0] == p[0],
        (p + q.drop_first()).last() == q.last(),
{
    let r = p + q.drop_first();
    assert forall|i: int| 0 <= i < r.len() implies node(g, #[trigger] r[i]) by {
        if i >= p.len() {
            assert(r[i] == q[i - p.len() + 1]);
        }
    }
    assert forall|i: int, j: int| 0 <= i && j == i + 1 && j < r.len() implies edge(
        g,
        #[trigger] r[i],
        #[trigger] r[j],
    ) by {
        if j < p.len() {
            assert(edge(g, p[i], p[j]));
        } else {
            let k = j - p.len();
            assert(r[j] == q[k + 1]);
            if i < p.len() {
                assert(r[i] == q[0]);
                assert(k == 0);
            } else {
                assert(r[i] == q[k]);
            }
            assert(edge(g, q[k], q[k + 1]));
        }
    }
    if q.len() == 1 {
        assert(r =~= p);
    }
}

/// A block alone is a path.
proof fn lemma_path_single(g: CfgV, b: int)
    requires
        node(g, b),
    ensures
        path_between(g, seq![b], b, b),
{
}

/// What dominates a block, other than itself, dominates its reachable
/// predecessors.
proof fn lemma_dominates_pred(g: CfgV, d: int, p: int, b: int)
    requires
        dominates(g, d, b),
        d != b,
        edge(g, p, b),
    ensures
        dominates(g, d, p),
{
    assert forall|q: Seq<int>| #[trigger] path_to(g, q, p) implies q.contains(d) by {
        lemma_path_push(g, q, b);
        let r = q.push(b);
        assert(path_to(g, r, b));
        assert(r.contains(d));
        let i = choose|i: int| 0 <= i < r.len() && r[i] == d;
        assert(q[i] == d);
    }
}

// ---- Climbing a tree ---------------------------------------------------------------

/// The parent of a block in a tree given by immediate dominators.
pub open spec fn parent(doms: Seq<Option<BlockId>>, b: int) -> Option<BlockId> {
    if 0 <= b < doms.len() {
        doms[b]
    } else {
        None
    }
}

/// The `k`-th ancestor of a block.
pub open spec fn ancestor(doms: Seq<Option<BlockId>>, b: BlockId, k: nat) -> Option<BlockId>
    decreases k,
{
    if k == 0 {
        Some(b)
    } else {
        match ancestor(doms, b, (k - 1) as nat) {
            Some(c) => parent(doms, c.0 as int),
            None => None,
        }
    }
}

/// Whether `a` is `b` or one of its ancestors.
pub open spec fn above(doms: Seq<Option<BlockId>>, a: BlockId, b: BlockId) -> bool {
    exists|k: nat| #[trigger] ancestor(doms, b, k) == Some(a)
}

/// Whether climbing from any block ends.
pub open spec fn rooted(doms: Seq<Option<BlockId>>) -> bool {
    forall|b: BlockId| (#[trigger] ancestor(doms, b, (doms.len() + 1) as nat)) is None
}

/// The immediate-dominator tree for a CFG.
///
/// `immediate_doms[i]` gives the immediate dominator of block `i`, or
/// `None` for the entry block (which dominates itself by convention but
/// has no *strict* dominator) and for unreachable blocks.
#[derive(Clone, Debug)]
pub struct DominatorTree {
    /// `immediate_doms[block_id]` = that block's immediate dominator.
    pub immediate_doms: Vec<Option<BlockId>>,
}

impl DominatorTree {
    /// The immediate dominator of `b`, or `None` for the entry block
    /// and unreachable blocks. Out-of-range ids return `None` (treated
    /// like an unreachable block).
    pub fn idom(&self, b: BlockId) -> (d: Option<BlockId>)
        ensures
            d == parent(self.immediate_doms@, b.0 as int),
    {
        if (b.0 as usize) < self.immediate_doms.len() {
            self.immediate_doms[b.0 as usize]
        } else {
            None
        }
    }

    /// Whether `a` dominates `b`: every control-flow path from the
    /// entry to `b` passes through `a`. A block dominates itself
    /// (`a == b` returns `true`) even if `a` is unreachable.
    ///
    /// Implemented as a walk up the dominator tree from `b` to the
    /// entry.
    pub fn dominates(&self, a: BlockId, b: BlockId) -> (r: bool)
        requires
            rooted(self.immediate_doms@),
        ensures
            r == above(self.immediate_doms@, a, b),
    {
        let ghost doms = self.immediate_doms@;
        let ghost mut k: nat = 0;
        let mut cur = b;
        loop
            invariant
                doms == self.immediate_doms@,
                rooted(doms),
                ancestor(doms, b, k) == Some(cur),
                k <= doms.len(),
                forall|j: nat| j < k ==> #[trigger] ancestor(doms, b, j) != Some(a),
            decreases doms.len() + 1 - k,
        {
            if cur == a {
                return true;
            }
            match self.idom(cur) {
                Some(d) => {
                    proof {
                        assert(ancestor(doms, b, (doms.len() + 1) as nat) is None);
                        assert(ancestor(doms, b, k + 1) == Some(d));
                        k = k + 1;
                    }
                    cur = d;
                },
                None => {
                    proof {
                        assert(ancestor(doms, b, k + 1) is None);
                        assert forall|j: nat| #[trigger] ancestor(doms, b, j) != Some(a) by {
                            if j > k {
                                lemma_ancestor_stays_none(doms, b, k + 1, j);
                            }
                        }
                    }
                    return false;
                },
            }
        }
    }

    /// Whether `a` strictly dominates `b`: `a` dominates `b` and
    /// `a != b`.
    pub fn strictly_dominates(&self, a: BlockId, b: BlockId) -> (r: bool)
        requires
            rooted(self.immediate_doms@),
        ensures
            r == (a != b && above(self.immediate_doms@, a, b)),
    {
        a != b && self.dominates(a, b)
    }
}

proof fn lemma_ancestor_stays_none(doms: Seq<Option<BlockId>>, b: BlockId, k: nat, j: nat)
    requires
        k <= j,
        ancestor(doms, b, k) is None,
    ensures
        ancestor(doms, b, j) is None,
    decreases j,
{
    if k < j {
        lemma_ancestor_stays_none(doms, b, k, (j - 1) as nat);
    }
}

// ---- Reverse postorder -------------------------------------------------------------

/// Whether `order` is a reverse postorder of the blocks that the entry
/// reaches: each of them once, the entry first, every other one behind
/// some predecessor, and a successor stands before its block only where
/// control can get back from it.
pub open spec fn reverse_postordered(g: CfgV, order: Seq<BlockId>) -> bool {
    &&& order.len() > 0
    &&& order[0] == g.entry
    &&& forall|i: int|
        0 <= i < order.len() ==> cfg::in_graph(g, #[trigger] order[i]) && reachable(
            g,
            order[i].0 as int,
        )
    &&& forall|b: int| #[trigger] reachable(g, b) ==> listed(order, b)
    &&& forall|i: int, j: int|
        0 <= i < j < order.len() ==> #[trigger] order[i] != #[trigger] order[j]
    &&& forall|i: int| 0 < i < order.len() ==> preceded(g, order, i)
    &&& forall|i: int, j: int|
        0 <= j <= i < order.len() && edge(
            g,
            (#[trigger] order[i]).0 as int,
            (#[trigger] order[j]).0 as int,
        ) ==> reaches(g, order[j].0 as int, order[i].0 as int)
}

/// Whether a list of blocks holds block `b`.
pub open spec fn listed(order: Seq<BlockId>, b: int) -> bool {
    exists|i: int| 0 <= i < order.len() && (#[trigger] order[i]).0 == b
}

/// Whether a predecessor of the `i`-th block stands before it.
pub open spec fn preceded(g: CfgV, order: Seq<BlockId>, i: int) -> bool {
    exists|j: int|
        0 <= j < i && edge(g, (#[trigger] order[j]).0 as int, order[i].0 as int)
}

/// Whether block `b` is on the search stack.
spec fn stacked(stack: Seq<(BlockId, usize)>, b: int) -> bool {
    exists|k: int| 0 <= k < stack.len() && (#[trigger] stack[k]).0.0 == b
}

/// Whether the finished block at `k` is done with its edges: each leads
/// to a block that was finished before, or from which control can get
/// back.
spec fn edges_settled(g: CfgV, visited: Seq<bool>, post: Seq<BlockId>, k: int) -> bool {
    forall|v: int| #[trigger]
        edge(g, post[k].0 as int, v) ==> visited[v] && (listed(post.take(k), v) || reaches(
            g,
            v,
            post[k].0 as int,
        ))
}

/// Whether a predecessor of the finished block at `k` is on the stack or
/// was finished after it.
spec fn has_parent(g: CfgV, stack: Seq<(BlockId, usize)>, post: Seq<BlockId>, k: int) -> bool {
    exists|u: int| #[trigger]
        edge(g, u, post[k].0 as int) && (stacked(stack, u) || listed(post.skip(k + 1), u))
}

/// The state of a depth-first search.
spec fn searching(
    g: CfgV,
    visited: Seq<bool>,
    stack: Seq<(BlockId, usize)>,
    post: Seq<BlockId>,
) -> bool {
    &&& visited.len() == g.blocks.len()
    &&& forall|k: int|
        0 <= k < stack.len() ==> cfg::in_graph(g, (#[trigger] stack[k]).0) && stack[k].1
            <= g.blocks[stack[k].0.0 as int].succs.len()
    &&& forall|k: int| 0 <= k < post.len() ==> cfg::in_graph(g, #[trigger] post[k])
    &&& forall|k: int, m: int|
        0 <= k && m == k + 1 && m < stack.len() ==> edge(
            g,
            (#[trigger] stack[k]).0.0 as int,
            (#[trigger] stack[m]).0.0 as int,
        )
    &&& forall|b: int|
        node(g, b) ==> (#[trigger] visited[b] <==> stacked(stack, b) || listed(post, b))
    &&& forall|k: int, m: int|
        0 <= k < m < stack.len() ==> (#[trigger] stack[k]).0 != (#[trigger] stack[m]).0
    &&& forall|k: int, m: int| 0 <= k < m < post.len() ==> #[trigger] post[k] != #[trigger] post[m]
    &&& forall|k: int| 0 <= k < post.len() ==> !stacked(stack, (#[trigger] post[k]).0 as int)
    &&& forall|b: int| node(g, b) && #[trigger] visited[b] ==> reachable(g, b)
    &&& forall|k: int, e: int|
        0 <= k < stack.len() && 0 <= e < stack[k].1 ==> visited[(
        #[trigger] g.blocks[stack[k].0.0 as int].succs[e]).0.0 as int]
    &&& forall|k: int| 0 <= k < post.len() ==> #[trigger] edges_settled(g, visited, post, k)
    &&& forall|k: int|
        0 <= k < post.len() && post[k] != g.entry ==> #[trigger] has_parent(g, stack, post, k)
    &&& stack.len() > 0 ==> stack[0].0 == g.entry
    &&& stack.len() == 0 ==> post.len() > 0 && post.last() == g.entry
}

/// Control can get from a block on the stack to any above it.
proof fn lemma_stack_reaches(g: CfgV, stack: Seq<(BlockId, usize)>, k: int, m: int)
    requires
        0 <= k <= m < stack.len(),
        forall|i: int| 0 <= i < stack.len() ==> cfg::in_graph(g, (#[trigger] stack[i]).0),
        forall|i: int, j: int|
            0 <= i && j == i + 1 && j < stack.len() ==> edge(
                g,
                (#[trigger] stack[i]).0.0 as int,
                (#[trigger] stack[j]).0.0 as int,
            ),
    ensures
        reaches(g, stack[k].0.0 as int, stack[m].0.0 as int),
    decreases m - k,
{
    let a = stack[k].0.0 as int;
    if k == m {
        lemma_path_single(g, a);
    } else {
        lemma_stack_reaches(g, stack, k, m - 1);
        let mid = stack[m - 1].0.0 as int;
        let p = choose|p: Seq<int>| #[trigger] path_between(g, p, a, mid);
        assert(edge(g, stack[m - 1].0.0 as int, stack[m].0.0 as int));
        lemma_path_push(g, p, stack[m].0.0 as int);
        assert(path_between(g, p.push(stack[m].0.0 as int), a, stack[m].0.0 as int));
    }
}

/// A successor of a reachable block is reachable.
proof fn lemma_reachable_step(g: CfgV, u: int, v: int)
    requires
        reachable(g, u),
        edge(g, u, v),
    ensures
        reachable(g, v),
{
    let p = choose|p: Seq<int>| #[trigger] path_between(g, p, g.entry.0 as int, u);
    lemma_path_push(g, p, v);
    assert(path_between(g, p.push(v), g.entry.0 as int, v));
}

/// Entering a new block keeps the search state.
proof fn lemma_search_push(
    g: CfgV,
    visited: Seq<bool>,
    stack: Seq<(BlockId, usize)>,
    post: Seq<BlockId>,
    next: BlockId,
)
    requires
        ranged(g),
        searching(g, visited, stack, post),
        stack.len() > 0,
        cfg::in_graph(g, next),
        !visited[next.0 as int],
        edge(g, stack.last().0.0 as int, next.0 as int),
    ensures
        searching(g, visited.update(next.0 as int, true), stack.push((next, 0)), post),
{
    let visited2 = visited.update(next.0 as int, true);
    let stack2 = stack.push((next, 0usize));
    let top = stack.last().0.0 as int;
    assert(stacked(stack, top)) by {
        assert(stack[stack.len() - 1].0.0 == top);
    }
    assert(visited[top]);
    lemma_reachable_step(g, top, next.0 as int);
    assert forall|b: int| stacked(stack2, b) <==> stacked(stack, b) || b == next.0 by {
        if stacked(stack2, b) {
            let k = choose|k: int| 0 <= k < stack2.len() && (#[trigger] stack2[k]).0.0 == b;
            if k < stack.len() {
                assert(stack[k].0.0 == b);
            }
        }
        if stacked(stack, b) {
            let k = choose|k: int| 0 <= k < stack.len() && (#[trigger] stack[k]).0.0 == b;
            assert(stack2[k].0.0 == b);
        }
        if b == next.0 {
            assert(stack2[stack.len() as int].0.0 == b);
        }
    }
    assert(!stacked(stack, next.0 as int) && !listed(post, next.0 as int));
    assert forall|k: int, m: int| 0 <= k < m < stack2.len() implies (#[trigger] stack2[k]).0 != (
    #[trigger] stack2[m]).0 by {
        if m == stack.len() {
            assert(stack[k].0.0 != next.0);
        }
    }
    assert forall|k: int, m: int| 0 <= k && m == k + 1 && m < stack2.len() implies edge(
        g,
        (#[trigger] stack2[k]).0.0 as int,
        (#[trigger] stack2[m]).0.0 as int,
    ) by {
        if m < stack.len() {
            assert(edge(g, stack[k].0.0 as int, stack[m].0.0 as int));
        }
    }
    assert forall|k: int| 0 <= k < post.len() implies !stacked(
        stack2,
        (#[trigger] post[k]).0 as int,
    ) by {
        assert(post[k].0 != next.0);
    }
    assert forall|k: int| 0 <= k < post.len() implies #[trigger] edges_settled(
        g,
        visited2,
        post,
        k,
    ) by {
        assert(edges_settled(g, visited, post, k));
    }
    assert forall|k: int| 0 <= k < post.len() && post[k] != g.entry implies #[trigger] has_parent(
        g,
        stack2,
        post,
        k,
    ) by {
        assert(has_parent(g, stack, post, k));
        let u = choose|u: int| #[trigger]
            edge(g, u, post[k].0 as int) && (stacked(stack, u) || listed(post.skip(k + 1), u));
        assert(edge(g, u, post[k].0 as int) && (stacked(stack2, u) || listed(
            post.skip(k + 1),
            u,
        )));
    }
    assert forall|b: int| node(g, b) implies (#[trigger] visited2[b] <==> stacked(stack2, b)
        || listed(post, b)) by {
        assert(visited[b] <==> stacked(stack, b) || listed(post, b));
    }
    assert forall|k: int, e: int|
        0 <= k < stack2.len() && 0 <= e < stack2[k].1 implies visited2[(
    #[trigger] g.blocks[stack2[k].0.0 as int].succs[e]).0.0 as int] by {
        assert(stack2[k] == stack[k]);
        assert(cfg::in_graph(g, stack[k].0));
        assert(cfg::in_graph(g, g.blocks[stack[k].0.0 as int].succs[e].0));
        assert(visited[g.blocks[stack[k].0.0 as int].succs[e].0.0 as int]);
    }
    assert forall|k: int| 0 <= k < stack2.len() implies cfg::in_graph(
        g,
        (#[trigger] stack2[k]).0,
    ) && stack2[k].1 <= g.blocks[stack2[k].0.0 as int].succs.len() by {
        if k < stack.len() {
            assert(stack2[k] == stack[k]);
        }
    }
    assert forall|b: int| node(g, b) && #[trigger] visited2[b] implies reachable(g, b) by {
        if b != next.0 {
            assert(visited[b]);
        }
    }
    assert(stack2[0] == stack[0]);
}

/// Finishing the block on top keeps the search state.
proof fn lemma_search_pop(
    g: CfgV,
    visited: Seq<bool>,
    stack: Seq<(BlockId, usize)>,
    post: Seq<BlockId>,
)
    requires
        ranged(g),
        searching(g, visited, stack, post),
        stack.len() > 0,
        stack.last().1 == g.blocks[stack.last().0.0 as int].succs.len(),
    ensures
        searching(g, visited, stack.drop_last(), post.push(stack.last().0)),
{
    let top = stack.last().0;
    let n = stack.len() - 1;
    let stack2 = stack.drop_last();
    let post2 = post.push(top);
    assert(stack[n].0 == top);
    assert(!stacked(stack2, top.0 as int)) by {
        if stacked(stack2, top.0 as int) {
            let k = choose|k: int| 0 <= k < stack2.len() && (#[trigger] stack2[k]).0.0 == top.0;
            assert(stack[k].0 == stack[n].0);
        }
    }
    assert forall|b: int| stacked(stack, b) <==> stacked(stack2, b) || b == top.0 by {
        if stacked(stack, b) {
            let k = choose|k: int| 0 <= k < stack.len() && (#[trigger] stack[k]).0.0 == b;
            if k < n {
                assert(stack2[k].0.0 == b);
            }
        }
        if stacked(stack2, b) {
            let k = choose|k: int| 0 <= k < stack2.len() && (#[trigger] stack2[k]).0.0 == b;
            assert(stack[k].0.0 == b);
        }
    }
    assert forall|b: int| listed(post2, b) <==> listed(post, b) || b == top.0 by {
        if listed(post2, b) {
            let k = choose|k: int| 0 <= k < post2.len() && (#[trigger] post2[k]).0 == b;
            if k < post.len() {
                assert(post[k].0 == b);
            }
        }
        if listed(post, b) {
            let k = choose|k: int| 0 <= k < post.len() && (#[trigger] post[k]).0 == b;
            assert(post2[k].0 == b);
        }
        if b == top.0 {
            assert(post2[post.len() as int].0 == b);
        }
    }
    assert(stacked(stack, top.0 as int));
    assert(!listed(post, top.0 as int)) by {
        if listed(post, top.0 as int) {
            let k = choose|k: int| 0 <= k < post.len() && (#[trigger] post[k]).0 == top.0;
            assert(!stacked(stack, post[k].0 as int));
        }
    }
    assert forall|k: int, m: int| 0 <= k < m < post2.len() implies #[trigger] post2[k]
        != #[trigger] post2[m] by {
        if m == post.len() {
            assert(post[k].0 != top.0);
        }
    }
    assert forall|k: int| 0 <= k < post2.len() implies !stacked(
        stack2,
        (#[trigger] post2[k]).0 as int,
    ) by {
        if k < post.len() {
            assert(!stacked(stack, post[k].0 as int));
        }
    }
    assert forall|k: int| 0 <= k < post2.len() implies #[trigger] edges_settled(
        g,
        visited,
        post2,
        k,
    ) by {
        if k < post.len() {
            assert(edges_settled(g, visited, post, k));
            assert(post2.take(k) =~= post.take(k));
        } else {
            assert(post2.take(k) =~= post);
            assert forall|v: int| #[trigger] edge(g, post2[k].0 as int, v) implies visited[v] && (
            listed(post2.take(k), v) || reaches(g, v, post2[k].0 as int)) by {
                let succs = g.blocks[top.0 as int].succs;
                let e = choose|e: int| 0 <= e < succs.len() && (#[trigger] succs[e]).0.0 == v;
                assert(0 <= n < stack.len() && 0 <= e < stack[n].1);
                assert(visited[g.blocks[stack[n].0.0 as int].succs[e].0.0 as int]);
                assert(visited[v]);
                if !listed(post, v) {
                    assert(stacked(stack, v));
                    let m = choose|m: int| 0 <= m < stack.len() && (#[trigger] stack[m]).0.0 == v;
                    lemma_stack_reaches(g, stack, m, n as int);
                }
            }
        }
    }
    assert forall|k: int| 0 <= k < post2.len() && post2[k] != g.entry implies #[trigger] has_parent(
        g,
        stack2,
        post2,
        k,
    ) by {
        if k < post.len() {
            assert(has_parent(g, stack, post, k));
            let u = choose|u: int| #[trigger]
                edge(g, u, post[k].0 as int) && (stacked(stack, u) || listed(post.skip(k + 1), u));
            assert(post2.skip(k + 1) =~= post.skip(k + 1).push(top));
            let later = post2.skip(k + 1);
            if listed(post.skip(k + 1), u) {
                let i = choose|i: int|
                    0 <= i < post.skip(k + 1).len() && (#[trigger] post.skip(k + 1)[i]).0 == u;
                assert(later[i].0 == u);
            } else if !stacked(stack2, u) {
                assert(u == top.0);
                assert(later[later.len() - 1].0 == u);
            }
            assert(edge(g, u, post2[k].0 as int) && (stacked(stack2, u) || listed(
                post2.skip(k + 1),
                u,
            )));
        } else {
            assert(n > 0);
            let u = stack[n - 1].0.0 as int;
            assert(edge(g, stack[n - 1].0.0 as int, stack[n as int].0.0 as int));
            assert(stack2[n - 1].0.0 == u);
            assert(stacked(stack2, u));
            assert(edge(g, u, post2[k].0 as int) && (stacked(stack2, u) || listed(
                post2.skip(k + 1),
                u,
            )));
        }
    }
    assert forall|k: int, m: int| 0 <= k && m == k + 1 && m < stack2.len() implies edge(
        g,
        (#[trigger] stack2[k]).0.0 as int,
        (#[trigger] stack2[m]).0.0 as int,
    ) by {
        assert(edge(g, stack[k].0.0 as int, stack[m].0.0 as int));
    }
    assert forall|b: int| node(g, b) implies (#[trigger] visited[b] <==> stacked(stack2, b)
        || listed(post2, b)) by {
        assert(visited[b] <==> stacked(stack, b) || listed(post, b));
    }
    assert forall|k: int, m: int| 0 <= k < m < stack2.len() implies (#[trigger] stack2[k]).0 != (
    #[trigger] stack2[m]).0 by {
        assert(stack[k].0 != stack[m].0);
    }
    assert forall|k: int, e: int|
        0 <= k < stack2.len() && 0 <= e < stack2[k].1 implies visited[(
    #[trigger] g.blocks[stack2[k].0.0 as int].succs[e]).0.0 as int] by {
        assert(stack2[k] == stack[k]);
        assert(visited[g.blocks[stack[k].0.0 as int].succs[e].0.0 as int]);
    }
    assert forall|k: int| 0 <= k < stack2.len() implies cfg::in_graph(
        g,
        (#[trigger] stack2[k]).0,
    ) && stack2[k].1 <= g.blocks[stack2[k].0.0 as int].succs.len() by {
        assert(stack2[k] == stack[k]);
    }
    if stack2.len() > 0 {
        assert(stack2[0] == stack[0]);
    }
}

/// What a finished search has found.
proof fn lemma_search_done(g: CfgV, visited: Seq<bool>, post: Seq<BlockId>)
    requires
        ranged(g),
        searching(g, visited, seq![], post),
    ensures
        reverse_postordered(g, post.reverse()),
{
    let order = post.reverse();
    let n = post.len();
    let none = Seq::<(BlockId, usize)>::empty();
    assert(forall|b: int| !stacked(none, b));
    assert forall|b: int| #[trigger] reachable(g, b) implies listed(order, b) by {
        let p = choose|p: Seq<int>| #[trigger] path_between(g, p, g.entry.0 as int, b);
        lemma_search_covers(g, visited, post, p);
        assert(listed(post, b));
        let i = choose|i: int| 0 <= i < post.len() && (#[trigger] post[i]).0 == b;
        assert(order[n - 1 - i].0 == b);
    }
    assert forall|i: int| 0 <= i < order.len() implies cfg::in_graph(g, #[trigger] order[i])
        && reachable(g, order[i].0 as int) by {
        assert(order[i] == post[n - 1 - i]);
        assert(listed(post, order[i].0 as int));
        assert(visited[order[i].0 as int]);
    }
    assert forall|i: int, j: int| 0 <= i < j < order.len() implies #[trigger] order[i]
        != #[trigger] order[j] by {
        assert(order[i] == post[n - 1 - i] && order[j] == post[n - 1 - j]);
    }
    assert forall|i: int| 0 < i < order.len() implies preceded(g, order, i) by {
        let k = n - 1 - i;
        assert(order[i] == post[k]);
        assert(post[k] != post[n - 1]);
        assert(has_parent(g, none, post, k));
        let u = choose|u: int| #[trigger]
            edge(g, u, post[k].0 as int) && (stacked(none, u) || listed(post.skip(k + 1), u));
        let m = choose|m: int|
            0 <= m < post.skip(k + 1).len() && (#[trigger] post.skip(k + 1)[m]).0 == u;
        assert(post[k + 1 + m].0 == u);
        let j = n - 1 - (k + 1 + m);
        assert(order[j] == post[k + 1 + m]);
        assert(0 <= j < i && edge(g, order[j].0 as int, order[i].0 as int));
    }
    assert forall|i: int, j: int|
        0 <= j <= i < order.len() && edge(
            g,
            (#[trigger] order[i]).0 as int,
            (#[trigger] order[j]).0 as int,
        ) implies reaches(g, order[j].0 as int, order[i].0 as int) by {
        let k = n - 1 - i;
        assert(order[i] == post[k] && order[j] == post[n - 1 - j]);
        assert(edges_settled(g, visited, post, k));
        assert(edge(g, post[k].0 as int, order[j].0 as int));
        if listed(post.take(k), order[j].0 as int) {
            let m = choose|m: int|
                0 <= m < post.take(k).len() && (#[trigger] post.take(k)[m]).0 == order[j].0;
            assert(post[m] == post[n - 1 - j]);
        }
    }
}

/// A finished search has visited every block on a path.
proof fn lemma_search_covers(g: CfgV, visited: Seq<bool>, post: Seq<BlockId>, p: Seq<int>)
    requires
        searching(g, visited, seq![], post),
        is_path(g, p),
        p[0] == g.entry.0,
    ensures
        visited[p.last()],
        listed(post, p.last()),
    decreases p.len(),
{
    let none = Seq::<(BlockId, usize)>::empty();
    assert(forall|b: int| !stacked(none, b));
    if p.len() == 1 {
        assert(post[post.len() - 1].0 == g.entry.0);
        assert(listed(post, g.entry.0 as int));
        assert(node(g, p[0]));
    } else {
        let q = p.take(p.len() - 1);
        lemma_path_prefix(g, p, p.len() - 1);
        lemma_search_covers(g, visited, post, q);
        let u = q.last();
        let k = choose|k: int| 0 <= k < post.len() && (#[trigger] post[k]).0 == u;
        assert(edges_settled(g, visited, post, k));
        assert(edge(g, p[p.len() - 2], p[p.len() - 1]));
        assert(edge(g, post[k].0 as int, p.last()));
        assert(visited[p.last()]);
    }
}

/// How many entries of a mask are not set.
spec fn unset(mask: Seq<bool>) -> nat
    decreases mask.len(),
{
    if mask.len() == 0 {
        0
    } else {
        unset(mask.drop_last()) + if mask.last() {
            0nat
        } else {
            1nat
        }
    }
}

proof fn lemma_unset_update(mask: Seq<bool>, i: int)
    requires
        0 <= i < mask.len(),
        !mask[i],
    ensures
        unset(mask.update(i, true)) + 1 == unset(mask),
    decreases mask.len(),
{
    let m2 = mask.update(i, true);
    if i == mask.len() - 1 {
        assert(m2.drop_last() =~= mask.drop_last());
    } else {
        lemma_unset_update(mask.drop_last(), i);
        assert(m2.drop_last() =~= mask.drop_last().update(i, true));
    }
}

impl Cfg {
    /// Compute the reverse postorder of the reachable blocks via an
    /// iterative DFS from the entry.
    ///
    /// Returns only blocks reachable from the entry. The entry is first
    /// in the result.
    fn reverse_postorder(&self) -> (order: Vec<BlockId>)
        requires
            ranged(self@),
            self.blocks@.len() > 0,
        ensures
            reverse_postordered(self@, order@),
    {
        let ghost g = self@;
        let n: usize = self.blocks.len();
        let entry_idx: usize = self.entry.0 as usize;
        let mut visited: Vec<bool> = Vec::new();
        let mut i: usize = 0;
        while i < n
            invariant
                i <= n,
                visited@.len() == i,
                forall|b: int| 0 <= b < i ==> !(#[trigger] visited@[b]),
            decreases n - i,
        {
            visited.push(false);
            i = i + 1;
        }
        let mut post: Vec<BlockId> = Vec::new();
        // Each frame is (block, next-succ-index); a block is appended to
        // the postorder once all its successors have been explored.
        let mut stack: Vec<(BlockId, usize)> = Vec::new();
        visited.set(entry_idx, true);
        stack.push((self.entry, 0));
        proof {
            lemma_path_single(g, g.entry.0 as int);
            assert(reachable(g, g.entry.0 as int));
            assert(stack@[0].0 == g.entry);
            assert forall|b: int| node(g, b) implies (#[trigger] visited@[b] <==> stacked(
                stack@,
                b,
            ) || listed(post@, b)) by {
                if b == g.entry.0 {
                    assert(stack@[0].0.0 == b);
                }
            }
        }
        while stack.len() > 0
            invariant
                g == self@,
                ranged(g),
                searching(g, visited@, stack@, post@),
            decreases
                unset(visited@),
                stack@.len(),
                if stack@.len() > 0 {
                    g.blocks[stack@.last().0.0 as int].succs.len() - stack@.last().1
                } else {
                    0
                },
        {
            let top: usize = stack.len() - 1;
            let (block, succ_i) = stack[top];
            assert(cfg::in_graph(g, stack@[top as int].0));
            assert(g.blocks[block.0 as int] == self.blocks@[block.0 as int]@);
            if succ_i < self.blocks[block.0 as usize].succs.len() {
                let next = self.blocks[block.0 as usize].succs[succ_i].0;
                let ghost old_stack = stack@;
                assert(cfg::in_graph(g, g.blocks[block.0 as int].succs[succ_i as int].0));
                assert(edge(g, block.0 as int, next.0 as int)) by {
                    assert(g.blocks[block.0 as int].succs[succ_i as int].0.0 == next.0);
                }
                if !visited[next.0 as usize] {
                    proof {
                        lemma_unset_update(visited@, next.0 as int);
                        lemma_search_push(g, visited@, stack@, post@, next);
                        lemma_search_advance(
                            g,
                            visited@.update(next.0 as int, true),
                            stack@.push((next, 0usize)),
                            post@,
                            top as int,
                        );
                    }
                    visited.set(next.0 as usize, true);
                    stack.set(top, (block, succ_i + 1));
                    stack.push((next, 0));
                    assert(stack@ =~= old_stack.push((next, 0usize)).update(
                        top as int,
                        (block, (succ_i + 1) as usize),
                    ));
                } else {
                    proof {
                        lemma_search_advance(g, visited@, stack@, post@, top as int);
                    }
                    stack.set(top, (block, succ_i + 1));
                }
            } else {
                proof {
                    lemma_search_pop(g, visited@, stack@, post@);
                    assert(stack@.last() == stack@[top as int]);
                }
                post.push(block);
                let _ = stack.pop();
            }
        }
        proof {
            assert(stack@ =~= seq![]);
            lemma_search_done(g, visited@, post@);
        }
        let mut order: Vec<BlockId> = Vec::new();
        let mut k: usize = post.len();
        while k > 0
            invariant
                k <= post@.len(),
                order@.len() == post@.len() - k,
                forall|j: int|
                    0 <= j < order@.len() ==> #[trigger] order@[j] == post@[post@.len() - 1 - j],
            decreases k,
        {
            k = k - 1;
            order.push(post[k]);
        }
        assert(order@ =~= post@.reverse());
        order
    }
}

/// Passing over an edge to a visited block keeps the search state.
proof fn lemma_search_advance(
    g: CfgV,
    visited: Seq<bool>,
    stack: Seq<(BlockId, usize)>,
    post: Seq<BlockId>,
    t: int,
)
    requires
        ranged(g),
        searching(g, visited, stack, post),
        0 <= t < stack.len(),
        stack[t].1 < g.blocks[stack[t].0.0 as int].succs.len(),
        visited[g.blocks[stack[t].0.0 as int].succs[stack[t].1 as int].0.0 as int],
    ensures
        searching(g, visited, stack.update(t, (stack[t].0, (stack[t].1 + 1) as usize)), post),
{
    let stack2 = stack.update(t, (stack[t].0, (stack[t].1 + 1) as usize));
    assert forall|b: int| stacked(stack2, b) <==> stacked(stack, b) by {
        if stacked(stack2, b) {
            let k = choose|k: int| 0 <= k < stack2.len() && (#[trigger] stack2[k]).0.0 == b;
            assert(stack[k].0.0 == b);
        }
        if stacked(stack, b) {
            let k = choose|k: int| 0 <= k < stack.len() && (#[trigger] stack[k]).0.0 == b;
            assert(stack2[k].0.0 == b);
        }
    }
    assert forall|k: int| 0 <= k < stack2.len() implies cfg::in_graph(
        g,
        (#[trigger] stack2[k]).0,
    ) && stack2[k].1 <= g.blocks[stack2[k].0.0 as int].succs.len() by {
        assert(cfg::in_graph(g, stack[k].0));
    }
    assert forall|k: int, m: int| 0 <= k && m == k + 1 && m < stack2.len() implies edge(
        g,
        (#[trigger] stack2[k]).0.0 as int,
        (#[trigger] stack2[m]).0.0 as int,
    ) by {
        assert(edge(g, stack[k].0.0 as int, stack[m].0.0 as int));
    }
    assert forall|k: int, m: int| 0 <= k < m < stack2.len() implies (#[trigger] stack2[k]).0 != (
    #[trigger] stack2[m]).0 by {
        assert(stack[k].0 != stack[m].0);
    }
    assert forall|b: int| node(g, b) implies (#[trigger] visited[b] <==> stacked(stack2, b)
        || listed(post, b)) by {
        assert(visited[b] <==> stacked(stack, b) || listed(post, b));
    }
    assert forall|k: int| 0 <= k < post.len() implies !stacked(
        stack2,
        (#[trigger] post[k]).0 as int,
    ) by {
        assert(!stacked(stack, post[k].0 as int));
    }
    assert forall|k: int, e: int|
        0 <= k < stack2.len() && 0 <= e < stack2[k].1 implies visited[(
    #[trigger] g.blocks[stack2[k].0.0 as int].succs[e]).0.0 as int] by {
        if k == t && e == stack[t].1 {
        } else {
            assert(0 <= e < stack[k].1);
            assert(visited[g.blocks[stack[k].0.0 as int].succs[e].0.0 as int]);
        }
    }
    assert forall|k: int| 0 <= k < post.len() && post[k] != g.entry implies #[trigger] has_parent(
        g,
        stack2,
        post,
        k,
    ) by {
        assert(has_parent(g, stack, post, k));
        let u = choose|u: int| #[trigger]
            edge(g, u, post[k].0 as int) && (stacked(stack, u) || listed(post.skip(k + 1), u));
        assert(edge(g, u, post[k].0 as int) && (stacked(stack2, u) || listed(
            post.skip(k + 1),
            u,
        )));
    }
    assert(stack2[0].0 == stack[0].0);
}

// ---- The iteration: ranks and candidate trees ---------------------------------------

/// Whether `rank` numbers the blocks of `order` by their place, and the
/// others past the end.
spec fn ranked(g: CfgV, order: Seq<BlockId>, rank: Seq<u32>) -> bool {
    &&& wired(g)
    &&& reverse_postordered(g, order)
    &&& order.len() <= g.blocks.len()
    &&& rank.len() == g.blocks.len()
    &&& forall|i: int| 0 <= i < order.len() ==> rank[(#[trigger] order[i]).0 as int] == i
    &&& forall|b: int|
        node(g, b) && (#[trigger] rank[b]) < order.len() ==> order[rank[b] as int].0 == b
}

/// Whether a block has a candidate for its immediate dominator.
spec fn known(doms: Seq<Option<BlockId>>, b: int) -> bool {
    0 <= b < doms.len() && doms[b] is Some
}

/// The candidate of a block.
spec fn dom_of(doms: Seq<Option<BlockId>>, b: int) -> int {
    doms[b]->Some_0.0 as int
}

/// Whether `a` is `b` or above it in the candidate tree. Candidates
/// have lower ranks, except that the entry is its own.
spec fn over(doms: Seq<Option<BlockId>>, rank: Seq<u32>, b: int, a: int) -> bool
    decreases rank[b],
{
    a == b || (known(doms, b) && 0 <= dom_of(doms, b) < rank.len() && rank[dom_of(doms, b)]
        < rank[b] && over(doms, rank, dom_of(doms, b), a))
}

/// Whether the candidates make a tree over the reached blocks.
spec fn candidates(
    g: CfgV,
    order: Seq<BlockId>,
    rank: Seq<u32>,
    doms: Seq<Option<BlockId>>,
    front: int,
) -> bool {
    &&& ranked(g, order, rank)
    &&& doms.len() == g.blocks.len()
    &&& doms[g.entry.0 as int] == Some(g.entry)
    &&& 1 <= front <= order.len()
    &&& forall|b: int| node(g, b) ==> (#[trigger] known(doms, b) <==> rank[b] < front)
    &&& forall|b: int|
        #[trigger] known(doms, b) && b != g.entry.0 ==> node(g, dom_of(doms, b)) && rank[dom_of(
            doms,
            b,
        )] < rank[b]
}

/// Whether `p` is a predecessor of `b` with a candidate.
spec fn known_pred(g: CfgV, doms: Seq<Option<BlockId>>, p: int, b: int) -> bool {
    edge(g, p, b) && known(doms, p)
}

/// Whether `a` is above all known predecessors of `b`.
spec fn common(g: CfgV, rank: Seq<u32>, doms: Seq<Option<BlockId>>, b: int, a: int) -> bool {
    forall|p: int| #[trigger] known_pred(g, doms, p, b) ==> over(doms, rank, p, a)
}

/// Whether `c` is where the known predecessors of `b` meet in the tree.
spec fn meets(g: CfgV, rank: Seq<u32>, doms: Seq<Option<BlockId>>, b: int, c: int) -> bool {
    &&& node(g, c)
    &&& known(doms, c)
    &&& rank[c] < rank[b]
    &&& forall|a: int|
        #![trigger over(doms, rank, c, a)]
        #![trigger common(g, rank, doms, b, a)]
        over(doms, rank, c, a) <==> common(g, rank, doms, b, a)
}

/// Whether there is a path from `a` to `b` that stays, behind `a`, on
/// blocks of a higher rank than `a`.
spec fn rising(g: CfgV, rank: Seq<u32>, a: int, b: int) -> bool {
    exists|p: Seq<int>| #[trigger]
        path_between(g, p, a, b) && forall|i: int| 1 <= i < p.len() ==> rank[#[trigger] p[i]]
            > rank[a]
}

/// No dominator is missing from the tree.
spec fn complete(g: CfgV, rank: Seq<u32>, doms: Seq<Option<BlockId>>) -> bool {
    forall|x: int, d: int| #[trigger]
        known(doms, x) && #[trigger] dominates(g, d, x) ==> over(doms, rank, x, d)
}

/// Control rises from each candidate to its block.
spec fn climbing(g: CfgV, rank: Seq<u32>, doms: Seq<Option<BlockId>>) -> bool {
    forall|x: int|
        #[trigger] known(doms, x) && x != g.entry.0 ==> rising(g, rank, dom_of(doms, x), x)
}

/// A candidate can only move up.
spec fn monotone(g: CfgV, rank: Seq<u32>, doms: Seq<Option<BlockId>>) -> bool {
    forall|b: int, a: int|
        known(doms, b) && b != g.entry.0 && #[trigger] common(g, rank, doms, b, a) ==> over(
            doms,
            rank,
            dom_of(doms, b),
            a,
        )
}

/// Below rank `i`, candidates are above the predecessors of lower rank.
spec fn settled_below(g: CfgV, rank: Seq<u32>, doms: Seq<Option<BlockId>>, i: int) -> bool {
    forall|b: int, p: int| #[trigger]
        edge(g, p, b) && known(doms, b) && b != g.entry.0 && rank[b] < i && rank[p] < rank[b]
            ==> over(doms, rank, p, dom_of(doms, b))
}

/// From rank `i` on, what is above a candidate from rank `i` on is above
/// the predecessors of lower rank.
spec fn settled_from(g: CfgV, rank: Seq<u32>, doms: Seq<Option<BlockId>>, i: int) -> bool {
    forall|b: int, p: int, y: int|
        #![trigger edge(g, p, b), over(doms, rank, dom_of(doms, b), y)]
        edge(g, p, b) && known(doms, b) && b != g.entry.0 && rank[b] >= i && rank[p] < rank[b]
            && over(doms, rank, dom_of(doms, b), y) && rank[y] >= i ==> over(doms, rank, p, y)
}

/// What holds of the candidates when a pass is at rank `i`.
spec fn progressing(
    g: CfgV,
    order: Seq<BlockId>,
    rank: Seq<u32>,
    doms: Seq<Option<BlockId>>,
    front: int,
    i: int,
) -> bool {
    &&& candidates(g, order, rank, doms, front)
    &&& complete(g, rank, doms)
    &&& climbing(g, rank, doms)
    &&& monotone(g, rank, doms)
    &&& settled_below(g, rank, doms, i)
    &&& settled_from(g, rank, doms, i)
}

/// What is above a known block is known, and of lower rank unless it is
/// the block.
proof fn lemma_over_known(
    g: CfgV,
    order: Seq<BlockId>,
    rank: Seq<u32>,
    doms: Seq<Option<BlockId>>,
    front: int,
    b: int,
    a: int,
)
    requires
        candidates(g, order, rank, doms, front),
        known(doms, b),
        over(doms, rank, b, a),
    ensures
        node(g, a),
        known(doms, a),
        rank[a] <= rank[b],
        a != b ==> rank[a] < rank[b],
    decreases rank[b],
{
    if a != b {
        let d = dom_of(doms, b);
        if b == g.entry.0 {
            assert(d == b);
        }
        assert(rank[d] < front);
        assert(known(doms, d));
        lemma_over_known(g, order, rank, doms, front, d, a);
    }
}

proof fn lemma_over_transitive(
    doms: Seq<Option<BlockId>>,
    rank: Seq<u32>,
    b: int,
    a: int,
    c: int,
)
    requires
        over(doms, rank, b, a),
        over(doms, rank, a, c),
    ensures
        over(doms, rank, b, c),
    decreases rank[b],
{
    if a != b {
        lemma_over_transitive(doms, rank, dom_of(doms, b), a, c);
    }
}

/// A reachable block other than the entry has a predecessor of lower
/// rank.
proof fn lemma_lower_pred(g: CfgV, order: Seq<BlockId>, rank: Seq<u32>, b: int) -> (p: int)
    requires
        ranked(g, order, rank),
        node(g, b),
        rank[b] < order.len(),
        b != g.entry.0,
    ensures
        edge(g, p, b),
        rank[p] < rank[b],
        rank[p] < order.len(),
{
    let i = rank[b] as int;
    assert(order[i].0 == b);
    if i == 0 {
        assert(order[0] == g.entry);
    }
    assert(preceded(g, order, i));
    let j = choose|j: int|
        0 <= j < i && edge(g, (#[trigger] order[j]).0 as int, order[i].0 as int);
    assert(rank[order[j].0 as int] == j);
    order[j].0 as int
}

/// Different reachable blocks have different ranks.
proof fn lemma_rank_distinct(g: CfgV, order: Seq<BlockId>, rank: Seq<u32>, a: int, b: int)
    requires
        ranked(g, order, rank),
        node(g, a),
        node(g, b),
        rank[a] < order.len(),
        rank[a] == rank[b],
    ensures
        a == b,
{
    assert(order[rank[a] as int].0 == a);
    assert(order[rank[b] as int].0 == b);
}

/// Control rises from what is above a block to the block.
proof fn lemma_over_rising(
    g: CfgV,
    order: Seq<BlockId>,
    rank: Seq<u32>,
    doms: Seq<Option<BlockId>>,
    front: int,
    b: int,
    a: int,
)
    requires
        candidates(g, order, rank, doms, front),
        climbing(g, rank, doms),
        known(doms, b),
        over(doms, rank, b, a),
    ensures
        rising(g, rank, a, b),
    decreases rank[b],
{
    if a == b {
        lemma_path_single(g, b);
        assert(path_between(g, seq![b], b, b));
    } else {
        let d = dom_of(doms, b);
        if b == g.entry.0 {
            assert(d == b);
        }
        assert(rank[d] < front);
        assert(known(doms, d));
        lemma_over_rising(g, order, rank, doms, front, d, a);
        lemma_over_known(g, order, rank, doms, front, d, a);
        let p = choose|p: Seq<int>| #[trigger]
            path_between(g, p, a, d) && forall|i: int| 1 <= i < p.len() ==> rank[#[trigger] p[i]]
                > rank[a];
        let q = choose|q: Seq<int>| #[trigger]
            path_between(g, q, d, b) && forall|i: int| 1 <= i < q.len() ==> rank[#[trigger] q[i]]
                > rank[d];
        lemma_path_join(g, p, q);
        let r = p + q.drop_first();
        assert forall|i: int| 1 <= i < r.len() implies rank[#[trigger] r[i]] > rank[a] by {
            if i < p.len() {
                assert(r[i] == p[i]);
            } else {
                assert(r[i] == q[i - p.len() + 1]);
            }
        }
        assert(path_between(g, r, a, b));
    }
}

/// What dominates `x` and has a lower rank than `z`, from which control
/// rises to `x`, dominates `z`.
proof fn lemma_dominates_below_rise(g: CfgV, rank: Seq<u32>, z: int, x: int, d: int)
    requires
        rising(g, rank, z, x),
        dominates(g, d, x),
        rank[d] < rank[z],
    ensures
        dominates(g, d, z),
{
    let p = choose|p: Seq<int>| #[trigger]
        path_between(g, p, z, x) && forall|i: int| 1 <= i < p.len() ==> rank[#[trigger] p[i]]
            > rank[z];
    assert forall|q: Seq<int>| #[trigger] path_to(g, q, z) implies q.contains(d) by {
        lemma_path_join(g, q, p);
        let r = q + p.drop_first();
        assert(path_to(g, r, x));
        let i = choose|i: int| 0 <= i < r.len() && r[i] == d;
        if i >= q.len() {
            assert(r[i] == p[i - q.len() + 1]);
            assert(rank[p[i - q.len() + 1]] > rank[z]);
        }
        assert(q[i] == d);
    }
}

// ---- The iteration: one step -----------------------------------------------------------

/// How the tree changes when block `z` gets the candidate `c`: under
/// `z`, what was between `z` and `c` is gone; elsewhere nothing changes.
proof fn lemma_over_update(
    g: CfgV,
    order: Seq<BlockId>,
    rank: Seq<u32>,
    doms: Seq<Option<BlockId>>,
    front: int,
    z: int,
    c: BlockId,
    x: int,
    a: int,
)
    requires
        candidates(g, order, rank, doms, front),
        node(g, z),
        z != g.entry.0,
        rank[z] < order.len(),
        cfg::in_graph(g, c),
        known(doms, c.0 as int),
        rank[c.0 as int] < rank[z],
        node(g, x),
        known(doms, x) || x == z,
    ensures
        over(doms.update(z, Some(c)), rank, x, a) == if over(doms, rank, x, z) {
            (over(doms, rank, x, a) && rank[a] >= rank[z]) || over(doms, rank, c.0 as int, a)
        } else {
            over(doms, rank, x, a)
        },
    decreases rank[x],
{
    let doms2 = doms.update(z, Some(c));
    let ci = c.0 as int;
    if x == z {
        // Nothing above c is z.
        if over(doms, rank, ci, z) {
            lemma_over_known(g, order, rank, doms, front, ci, z);
        }
        lemma_over_update(g, order, rank, doms, front, z, c, ci, a);
        if known(doms, z) && over(doms, rank, z, a) {
            lemma_over_known(g, order, rank, doms, front, z, a);
        }
    } else {
        let d = dom_of(doms, x);
        assert(doms2[x] == doms[x]);
        if x == g.entry.0 {
            assert(d == x);
        } else {
            assert(rank[d] < rank[x] < front);
            assert(known(doms, d));
            lemma_over_update(g, order, rank, doms, front, z, c, d, a);
            if over(doms, rank, x, z) {
                // x itself is still there, with a rank above z's.
                lemma_over_known(g, order, rank, doms, front, x, z);
            }
        }
    }
}

/// After the update nothing new is above a known block.
proof fn lemma_over_shrinks(
    g: CfgV,
    order: Seq<BlockId>,
    rank: Seq<u32>,
    doms: Seq<Option<BlockId>>,
    front: int,
    z: int,
    c: BlockId,
    x: int,
    a: int,
)
    requires
        candidates(g, order, rank, doms, front),
        node(g, z),
        z != g.entry.0,
        rank[z] < order.len(),
        cfg::in_graph(g, c),
        known(doms, c.0 as int),
        rank[c.0 as int] < rank[z],
        known(doms, z) ==> over(doms, rank, dom_of(doms, z), c.0 as int),
        known(doms, x),
        node(g, x),
        over(doms.update(z, Some(c)), rank, x, a),
    ensures
        over(doms, rank, x, a),
{
    lemma_over_update(g, order, rank, doms, front, z, c, x, a);
    if over(doms, rank, x, z) && over(doms, rank, c.0 as int, a) {
        lemma_over_known(g, order, rank, doms, front, x, z);
        assert(known(doms, z));
        lemma_over_transitive(doms, rank, z, c.0 as int, a);
        lemma_over_transitive(doms, rank, x, z, a);
    }
}

/// Giving block `z`, whose turn it is, the meeting point of its known
/// predecessors keeps everything in order.
#[verifier::rlimit(40)]
proof fn lemma_update(
    g: CfgV,
    order: Seq<BlockId>,
    rank: Seq<u32>,
    doms: Seq<Option<BlockId>>,
    front: int,
    i: int,
    c: BlockId,
)
    requires
        progressing(g, order, rank, doms, front, i),
        1 <= i < order.len(),
        i <= front,
        meets(g, rank, doms, order[i].0 as int, c.0 as int),
    ensures
        progressing(
            g,
            order,
            rank,
            doms.update(order[i].0 as int, Some(c)),
            if front > i {
                front
            } else {
                i + 1
            },
            i + 1,
        ),
        known(doms, order[i].0 as int) ==> over(
            doms,
            rank,
            dom_of(doms, order[i].0 as int),
            c.0 as int,
        ),
{
    let z = order[i].0 as int;
    let ci = c.0 as int;
    let doms2 = doms.update(z, Some(c));
    let front2 = if front > i {
        front
    } else {
        i + 1
    };
    assert(cfg::in_graph(g, order[i]));
    assert(rank[z] == i);
    assert(z != g.entry.0) by {
        assert(order[0] == g.entry);
        assert(order[0] != order[i]);
    }
    // The candidate moves up.
    assert(over(doms, rank, ci, ci));
    assert(common(g, rank, doms, z, ci));
    if known(doms, z) {
        assert(over(doms, rank, dom_of(doms, z), ci));
    }
    // The new candidates still make a tree.
    assert forall|b: int| node(g, b) implies (#[trigger] known(doms2, b) <==> rank[b] < front2) by {
        assert(known(doms, b) <==> rank[b] < front);
        if b == z {
        } else if rank[b] == i {
            lemma_rank_distinct(g, order, rank, b, z);
        }
    }
    assert forall|b: int| #[trigger] known(doms2, b) && b != g.entry.0 implies node(
        g,
        dom_of(doms2, b),
    ) && rank[dom_of(doms2, b)] < rank[b] by {
        if b != z {
            assert(known(doms, b));
        }
    }
    assert(candidates(g, order, rank, doms2, front2));
    // Completeness.
    assert forall|d: int| #[trigger] dominates(g, d, z) && d != z implies over(
        doms,
        rank,
        ci,
        d,
    ) by {
        assert forall|p: int| #[trigger] known_pred(g, doms, p, z) implies over(
            doms,
            rank,
            p,
            d,
        ) by {
            lemma_dominates_pred(g, d, p, z);
            assert(known(doms, p) && dominates(g, d, p));
        }
        assert(common(g, rank, doms, z, d));
    }
    assert forall|x: int, d: int| #[trigger] known(doms2, x) && #[trigger] dominates(
        g,
        d,
        x,
    ) implies over(doms2, rank, x, d) by {
        lemma_over_update(g, order, rank, doms, front, z, c, x, d);
        if x == z {
            if d != z {
                assert(over(doms, rank, ci, d));
            }
        } else {
            assert(known(doms, x));
            assert(over(doms, rank, x, d));
            if over(doms, rank, x, z) && rank[d] < rank[z] {
                lemma_over_rising(g, order, rank, doms, front, x, z);
                lemma_dominates_below_rise(g, rank, z, x, d);
                assert(dominates(g, d, z));
                assert(over(doms, rank, ci, d));
            }
        }
    }
    // Rising paths.
    assert forall|x: int| #[trigger] known(doms2, x) && x != g.entry.0 implies rising(
        g,
        rank,
        dom_of(doms2, x),
        x,
    ) by {
        if x != z {
            assert(known(doms, x));
            assert(dom_of(doms2, x) == dom_of(doms, x));
        } else {
            let t = lemma_lower_pred(g, order, rank, z);
            assert(known(doms, t));
            assert(known_pred(g, doms, t, z));
            assert(over(doms, rank, t, ci));
            lemma_over_rising(g, order, rank, doms, front, t, ci);
            let p = choose|p: Seq<int>| #[trigger]
                path_between(g, p, ci, t) && forall|k: int|
                    1 <= k < p.len() ==> rank[#[trigger] p[k]] > rank[ci];
            lemma_path_push(g, p, z);
            let q = p.push(z);
            assert forall|k: int| 1 <= k < q.len() implies rank[#[trigger] q[k]] > rank[ci] by {
                if k < p.len() {
                    assert(q[k] == p[k]);
                }
            }
            assert(path_between(g, q, ci, z));
        }
    }
    // Monotonicity.
    assert forall|b: int, a: int|
        known(doms2, b) && b != g.entry.0 && #[trigger] common(g, rank, doms2, b, a) implies over(
        doms2,
        rank,
        dom_of(doms2, b),
        a,
    ) by {
        assert(common(g, rank, doms, b, a)) by {
            assert forall|p: int| #[trigger] known_pred(g, doms, p, b) implies over(
                doms,
                rank,
                p,
                a,
            ) by {
                assert(known_pred(g, doms2, p, b));
                lemma_over_shrinks(g, order, rank, doms, front, z, c, p, a);
            }
        }
        if b == z {
            assert(over(doms, rank, ci, a));
            if over(doms, rank, ci, z) {
                lemma_over_known(g, order, rank, doms, front, ci, z);
            }
            lemma_over_update(g, order, rank, doms, front, z, c, ci, a);
        } else {
            assert(known(doms, b));
            let w = dom_of(doms, b);
            assert(over(doms, rank, w, a));
            assert(rank[w] < rank[b] < front);
            assert(known(doms, w));
            lemma_over_update(g, order, rank, doms, front, z, c, w, a);
            if over(doms, rank, w, z) && rank[a] < rank[z] {
                lemma_over_known(g, order, rank, doms, front, w, z);
                let t = lemma_lower_pred(g, order, rank, b);
                assert(known(doms, t));
                assert(over(doms, rank, t, z));
                assert(known_pred(g, doms2, t, b));
                assert(over(doms2, rank, t, a));
                lemma_over_update(g, order, rank, doms, front, z, c, t, a);
            }
        }
    }
    // Settled below the next rank.
    assert forall|b: int, p: int| #[trigger]
        edge(g, p, b) && known(doms2, b) && b != g.entry.0 && rank[b] < i + 1 && rank[p]
            < rank[b] implies over(doms2, rank, p, dom_of(doms2, b)) by {
        assert(known(doms, p));
        if over(doms, rank, p, z) {
            lemma_over_known(g, order, rank, doms, front, p, z);
        }
        if b == z {
            assert(known_pred(g, doms, p, z));
            assert(over(doms, rank, p, ci));
            lemma_over_update(g, order, rank, doms, front, z, c, p, ci);
        } else {
            if rank[b] == i {
                lemma_rank_distinct(g, order, rank, b, z);
            }
            assert(known(doms, b));
            assert(over(doms, rank, p, dom_of(doms, b)));
            lemma_over_update(g, order, rank, doms, front, z, c, p, dom_of(doms, b));
        }
    }
    // Settled from the next rank on.
    assert forall|b: int, p: int, y: int|
        #![trigger edge(g, p, b), over(doms2, rank, dom_of(doms2, b), y)]
        edge(g, p, b) && known(doms2, b) && b != g.entry.0 && rank[b] >= i + 1 && rank[p] < rank[b]
            && over(doms2, rank, dom_of(doms2, b), y) && rank[y] >= i + 1 implies over(
        doms2,
        rank,
        p,
        y,
    ) by {
        assert(b != z);
        assert(known(doms, b));
        let w = dom_of(doms, b);
        assert(rank[w] < rank[b] < front);
        assert(known(doms, w));
        assert(known(doms, p));
        lemma_over_update(g, order, rank, doms, front, z, c, w, y);
        if over(doms, rank, ci, y) {
            lemma_over_known(g, order, rank, doms, front, ci, y);
        }
        assert(over(doms, rank, w, y));
        assert(over(doms, rank, p, y));
        lemma_over_update(g, order, rank, doms, front, z, c, p, y);
    }
}

/// Leaving a block as it is, when its candidate is already right, keeps
/// everything in order.
proof fn lemma_keep(
    g: CfgV,
    order: Seq<BlockId>,
    rank: Seq<u32>,
    doms: Seq<Option<BlockId>>,
    front: int,
    i: int,
)
    requires
        progressing(g, order, rank, doms, front, i),
        0 <= i < order.len(),
        i < front,
        i > 0 ==> meets(g, rank, doms, order[i].0 as int, dom_of(doms, order[i].0 as int)),
    ensures
        progressing(g, order, rank, doms, front, i + 1),
{
    let z = order[i].0 as int;
    assert(rank[z] == i);
    assert forall|b: int, p: int| #[trigger]
        edge(g, p, b) && known(doms, b) && b != g.entry.0 && rank[b] < i + 1 && rank[p]
            < rank[b] implies over(doms, rank, p, dom_of(doms, b)) by {
        if rank[b] == i {
            lemma_rank_distinct(g, order, rank, b, z);
            if i == 0 {
                assert(order[0] == g.entry);
            }
            assert(known(doms, p));
            assert(known_pred(g, doms, p, z));
            let d = dom_of(doms, z);
            assert(over(doms, rank, d, d));
            assert(common(g, rank, doms, z, d));
        }
    }
}

/// A finished pass is the start of the next.
proof fn lemma_next_pass(
    g: CfgV,
    order: Seq<BlockId>,
    rank: Seq<u32>,
    doms: Seq<Option<BlockId>>,
    front: int,
)
    requires
        progressing(g, order, rank, doms, front, order.len() as int),
    ensures
        progressing(g, order, rank, doms, front, 0),
{
    assert forall|b: int, p: int, y: int|
        #![trigger edge(g, p, b), over(doms, rank, dom_of(doms, b), y)]
        edge(g, p, b) && known(doms, b) && b != g.entry.0 && rank[b] >= 0 && rank[p] < rank[b]
            && over(doms, rank, dom_of(doms, b), y) && rank[y] >= 0 implies over(
        doms,
        rank,
        p,
        y,
    ) by {
        assert(rank[b] < front);
        assert(over(doms, rank, p, dom_of(doms, b)));
        lemma_over_transitive(doms, rank, p, dom_of(doms, b), y);
    }
}

// ---- The iteration: its end ------------------------------------------------------------

/// What a block adds to the distance from the end of the iteration: the
/// rank of its candidate, or more than any rank.
spec fn height(doms: Seq<Option<BlockId>>, rank: Seq<u32>, b: int) -> nat {
    match doms[b] {
        Some(d) => rank[d.0 as int] as nat,
        None => 0x1_0000_0000,
    }
}

/// The sum of the heights of the first `k` blocks.
spec fn heights(doms: Seq<Option<BlockId>>, rank: Seq<u32>, k: nat) -> nat
    decreases k,
{
    if k == 0 {
        0
    } else {
        heights(doms, rank, (k - 1) as nat) + height(doms, rank, k - 1)
    }
}

/// Lowering one height lowers the sum.
proof fn lemma_heights_fall(
    doms: Seq<Option<BlockId>>,
    rank: Seq<u32>,
    z: int,
    c: BlockId,
    k: nat,
)
    requires
        0 <= z < doms.len(),
        k <= doms.len(),
        rank[c.0 as int] < height(doms, rank, z),
    ensures
        z < k ==> heights(doms.update(z, Some(c)), rank, k) < heights(doms, rank, k),
        z >= k ==> heights(doms.update(z, Some(c)), rank, k) == heights(doms, rank, k),
    decreases k,
{
    if k > 0 {
        lemma_heights_fall(doms, rank, z, c, (k - 1) as nat);
    }
}

/// Whether every block has its meeting point as its candidate.
spec fn settled(g: CfgV, order: Seq<BlockId>, rank: Seq<u32>, doms: Seq<Option<BlockId>>) -> bool {
    forall|i: int|
        0 < i < order.len() ==> meets(
            g,
            rank,
            doms,
            (#[trigger] order[i]).0 as int,
            dom_of(doms, order[i].0 as int),
        )
}

/// Once all blocks are settled, what is above a block is on every path
/// to it.
proof fn lemma_settled_sound(
    g: CfgV,
    order: Seq<BlockId>,
    rank: Seq<u32>,
    doms: Seq<Option<BlockId>>,
    p: Seq<int>,
    b: int,
    a: int,
)
    requires
        candidates(g, order, rank, doms, order.len() as int),
        settled(g, order, rank, doms),
        known(doms, b),
        over(doms, rank, b, a),
        path_to(g, p, b),
    ensures
        p.contains(a),
    decreases p.len(),
{
    if a == b {
        assert(p[p.len() - 1] == a);
    } else {
        lemma_over_known(g, order, rank, doms, order.len() as int, b, a);
        assert(order[0] == g.entry);
        assert(rank[g.entry.0 as int] == 0);
        assert(b != g.entry.0);
        let i = rank[b] as int;
        assert(known(doms, b) <==> rank[b] < order.len());
        assert(order[i].0 == b);
        assert(meets(g, rank, doms, b, dom_of(doms, b)));
        assert(over(doms, rank, dom_of(doms, b), a));
        assert(common(g, rank, doms, b, a));
        assert(p.len() > 1);
        let q = p.take(p.len() - 1);
        lemma_path_prefix(g, p, p.len() - 1);
        let u = p[p.len() - 2];
        assert(q.last() == u);
        assert(edge(g, p[p.len() - 2], p[p.len() - 1]));
        assert(path_to(g, q, u));
        assert(reachable(g, u));
        assert(listed(order, u));
        assert(known(doms, u) <==> rank[u] < order.len());
        assert(known_pred(g, doms, u, b));
        lemma_settled_sound(g, order, rank, doms, q, u, a);
        let k = choose|k: int| 0 <= k < q.len() && q[k] == a;
        assert(p[k] == a);
    }
}

/// A block's ancestors, counted from its parent.
proof fn lemma_ancestor_shift(doms: Seq<Option<BlockId>>, b: BlockId, d: BlockId, k: nat)
    requires
        parent(doms, b.0 as int) == Some(d),
    ensures
        ancestor(doms, b, k + 1) == ancestor(doms, d, k),
    decreases k,
{
    reveal_with_fuel(ancestor, 2);
    if k > 0 {
        lemma_ancestor_shift(doms, b, d, (k - 1) as nat);
    }
}

/// Climbing the published tree keeps to known blocks and lowers the rank
/// at each step.
proof fn lemma_ancestor_rank(
    g: CfgV,
    order: Seq<BlockId>,
    rank: Seq<u32>,
    doms: Seq<Option<BlockId>>,
    b: BlockId,
    k: nat,
)
    requires
        candidates(g, order, rank, doms, order.len() as int),
        known(doms, b.0 as int),
    ensures
        ({
            let published = doms.update(g.entry.0 as int, None);
            match ancestor(published, b, k) {
                Some(c) => {
                    &&& known(doms, c.0 as int)
                    &&& over(doms, rank, b.0 as int, c.0 as int)
                    &&& rank[c.0 as int] + k <= rank[b.0 as int]
                },
                None => true,
            }
        }),
    decreases k,
{
    let published = doms.update(g.entry.0 as int, None);
    if k > 0 {
        lemma_ancestor_rank(g, order, rank, doms, b, (k - 1) as nat);
        match ancestor(published, b, (k - 1) as nat) {
            Some(c) => {
                match parent(published, c.0 as int) {
                    Some(d) => {
                        assert(c.0 != g.entry.0);
                        assert(doms[c.0 as int] == Some(d));
                        assert(rank[d.0 as int] < rank[c.0 as int]);
                        assert(rank[c.0 as int] < order.len());
                        assert(known(doms, d.0 as int));
                        assert(over(doms, rank, d.0 as int, d.0 as int));
                        assert(over(doms, rank, c.0 as int, d.0 as int));
                        lemma_over_transitive(
                            doms,
                            rank,
                            b.0 as int,
                            c.0 as int,
                            d.0 as int,
                        );
                    },
                    None => {},
                }
            },
            None => {},
        }
    }
}

/// What is above a block in the candidate tree is above it in the
/// published one.
proof fn lemma_over_above(
    g: CfgV,
    order: Seq<BlockId>,
    rank: Seq<u32>,
    doms: Seq<Option<BlockId>>,
    b: BlockId,
    a: BlockId,
)
    requires
        candidates(g, order, rank, doms, order.len() as int),
        known(doms, b.0 as int),
        over(doms, rank, b.0 as int, a.0 as int),
    ensures
        above(doms.update(g.entry.0 as int, None), a, b),
    decreases rank[b.0 as int],
{
    let published = doms.update(g.entry.0 as int, None);
    if a == b {
        assert(ancestor(published, b, 0) == Some(a));
    } else {
        let d = doms[b.0 as int]->Some_0;
        if b.0 == g.entry.0 {
            assert(d == g.entry);
        }
        assert(rank[d.0 as int] < rank[b.0 as int]);
        assert(rank[b.0 as int] < order.len());
        assert(known(doms, d.0 as int));
        lemma_over_above(g, order, rank, doms, d, a);
        let k = choose|k: nat| #[trigger] ancestor(published, d, k) == Some(a);
        lemma_ancestor_shift(published, b, d, k);
        assert(ancestor(published, b, k + 1) == Some(a));
    }
}

/// Whether `doms` is the dominator tree of the graph: it gives each
/// reachable block other than the entry its immediate dominator, the
/// others none, and climbing it finds exactly the dominators.
pub open spec fn is_dominator_tree(g: CfgV, doms: Seq<Option<BlockId>>) -> bool {
    &&& doms.len() == g.blocks.len()
    &&& rooted(doms)
    &&& forall|b: int|
        node(g, b) ==> match #[trigger] doms[b] {
            Some(d) => {
                &&& b != g.entry.0
                &&& reachable(g, b)
                &&& cfg::in_graph(g, d)
                &&& reachable(g, d.0 as int)
                &&& immediately_dominates(g, d.0 as int, b)
            },
            None => b == g.entry.0 || !reachable(g, b),
        }
    &&& forall|a: BlockId, b: BlockId|
        reachable(g, b.0 as int) ==> (#[trigger] above(doms, a, b) <==> dominates(
            g,
            a.0 as int,
            b.0 as int,
        ))
    &&& forall|a: BlockId, b: BlockId|
        !reachable(g, b.0 as int) ==> (#[trigger] above(doms, a, b) <==> a == b)
}

/// Publishing settled candidates gives the dominator tree.
proof fn lemma_settled_tree(
    g: CfgV,
    order: Seq<BlockId>,
    rank: Seq<u32>,
    doms: Seq<Option<BlockId>>,
)
    requires
        candidates(g, order, rank, doms, order.len() as int),
        complete(g, rank, doms),
        settled(g, order, rank, doms),
    ensures
        is_dominator_tree(g, doms.update(g.entry.0 as int, None)),
{
    let published = doms.update(g.entry.0 as int, None);
    let total = order.len() as int;
    // The known blocks are the reachable ones.
    assert forall|b: int| #[trigger] known(doms, b) <==> reachable(g, b) by {
        if known(doms, b) {
            assert(rank[b] < order.len());
            assert(order[rank[b] as int].0 == b);
        }
        if reachable(g, b) {
            assert(listed(order, b));
            let i = choose|i: int| 0 <= i < order.len() && (#[trigger] order[i]).0 == b;
            assert(cfg::in_graph(g, order[i]));
            assert(known(doms, b) <==> rank[b] < order.len());
        }
    }
    // Being above is dominating.
    assert forall|b: int, a: int| known(doms, b) implies (#[trigger] over(doms, rank, b, a)
        <==> dominates(g, a, b)) by {
        if over(doms, rank, b, a) {
            assert forall|p: Seq<int>| #[trigger] path_to(g, p, b) implies p.contains(a) by {
                lemma_settled_sound(g, order, rank, doms, p, b, a);
            }
        }
        if dominates(g, a, b) {
            assert(known(doms, b) && dominates(g, a, b));
        }
    }
    assert forall|b: BlockId| (#[trigger] ancestor(
        published,
        b,
        (published.len() + 1) as nat,
    )) is None by {
        if known(doms, b.0 as int) {
            lemma_ancestor_rank(g, order, rank, doms, b, (published.len() + 1) as nat);
            assert(rank[b.0 as int] < order.len());
        } else {
            reveal_with_fuel(ancestor, 2);
            assert(ancestor(published, b, 1) is None);
            lemma_ancestor_stays_none(published, b, 1, (published.len() + 1) as nat);
        }
    }
    assert forall|a: BlockId, b: BlockId| reachable(g, b.0 as int) implies (#[trigger] above(
        published,
        a,
        b,
    ) <==> dominates(g, a.0 as int, b.0 as int)) by {
        assert(known(doms, b.0 as int));
        if above(published, a, b) {
            let k = choose|k: nat| #[trigger] ancestor(published, b, k) == Some(a);
            lemma_ancestor_rank(g, order, rank, doms, b, k);
            assert(over(doms, rank, b.0 as int, a.0 as int));
        }
        if dominates(g, a.0 as int, b.0 as int) {
            assert(over(doms, rank, b.0 as int, a.0 as int));
            lemma_over_above(g, order, rank, doms, b, a);
        }
    }
    assert forall|a: BlockId, b: BlockId| !reachable(g, b.0 as int) implies (#[trigger] above(
        published,
        a,
        b,
    ) <==> a == b) by {
        assert(!known(doms, b.0 as int));
        assert(ancestor(published, b, 0) == Some(b));
        if above(published, a, b) {
            let k = choose|k: nat| #[trigger] ancestor(published, b, k) == Some(a);
            if k > 0 {
                reveal_with_fuel(ancestor, 2);
                assert(ancestor(published, b, 1) is None);
                lemma_ancestor_stays_none(published, b, 1, k);
            }
        }
    }
    assert forall|b: int| node(g, b) implies match #[trigger] published[b] {
        Some(d) => {
            &&& b != g.entry.0
            &&& reachable(g, b)
            &&& cfg::in_graph(g, d)
            &&& reachable(g, d.0 as int)
            &&& immediately_dominates(g, d.0 as int, b)
        },
        None => b == g.entry.0 || !reachable(g, b),
    } by {
        match published[b] {
            Some(d) => {
                assert(known(doms, b));
                let di = d.0 as int;
                assert(di == dom_of(doms, b));
                assert(rank[di] < rank[b] < order.len());
                assert(known(doms, di));
                assert(over(doms, rank, di, di));
                assert(over(doms, rank, b, di));
                assert forall|a: int| #[trigger] strictly_dominates(g, a, b) implies dominates(
                    g,
                    a,
                    di,
                ) by {
                    assert(over(doms, rank, b, a));
                    assert(over(doms, rank, di, a));
                }
            },
            None => {
                assert(b != g.entry.0 ==> !known(doms, b));
            },
        }
    }
}

/// Walk both blocks up the tree toward the entry, the one of higher
/// rank first, until they meet at their lowest common ancestor.
fn intersect(
    b1: BlockId,
    b2: BlockId,
    idom: &Vec<Option<BlockId>>,
    rank: &Vec<u32>,
    Ghost(g): Ghost<CfgV>,
    Ghost(order): Ghost<Seq<BlockId>>,
    Ghost(front): Ghost<int>,
) -> (c: BlockId)
    requires
        candidates(g, order, rank@, idom@, front),
        known(idom@, b1.0 as int),
        known(idom@, b2.0 as int),
    ensures
        known(idom@, c.0 as int),
        rank@[c.0 as int] <= rank@[b1.0 as int],
        rank@[c.0 as int] <= rank@[b2.0 as int],
        forall|a: int| #[trigger]
            over(idom@, rank@, c.0 as int, a) <==> over(idom@, rank@, b1.0 as int, a) && over(
                idom@,
                rank@,
                b2.0 as int,
                a,
            ),
{
    let mut finger1 = b1;
    let mut finger2 = b2;
    while finger1 != finger2
        invariant
            candidates(g, order, rank@, idom@, front),
            known(idom@, finger1.0 as int),
            known(idom@, finger2.0 as int),
            rank@[finger1.0 as int] <= rank@[b1.0 as int],
            rank@[finger2.0 as int] <= rank@[b2.0 as int],
            forall|a: int|
                #![trigger over(idom@, rank@, finger1.0 as int, a)]
                #![trigger over(idom@, rank@, finger2.0 as int, a)]
                over(idom@, rank@, finger1.0 as int, a) && over(idom@, rank@, finger2.0 as int, a)
                    <==> over(idom@, rank@, b1.0 as int, a) && over(idom@, rank@, b2.0 as int, a),
        decreases rank@[finger1.0 as int] + rank@[finger2.0 as int],
    {
        let ghost f1 = finger1.0 as int;
        let ghost f2 = finger2.0 as int;
        proof {
            assert(node(g, f1) && node(g, f2));
            assert(order[0] == g.entry);
            assert(rank@[g.entry.0 as int] == 0);
            assert(rank@[f1] < front && rank@[f2] < front);
            if rank@[f1] == rank@[f2] {
                lemma_rank_distinct(g, order, rank@, f1, f2);
            }
        }
        if rank[finger1.0 as usize] > rank[finger2.0 as usize] {
            if let Some(d) = idom[finger1.0 as usize] {
                proof {
                    assert(rank@[d.0 as int] < front);
                    assert(known(idom@, d.0 as int));
                    assert forall|a: int|
                        #![trigger over(idom@, rank@, d.0 as int, a)]
                        #![trigger over(idom@, rank@, f2, a)]
                        over(idom@, rank@, d.0 as int, a) && over(idom@, rank@, f2, a) <==> over(
                            idom@,
                            rank@,
                            b1.0 as int,
                            a,
                        ) && over(idom@, rank@, b2.0 as int, a) by {
                        if over(idom@, rank@, f2, a) {
                            lemma_over_known(g, order, rank@, idom@, front, f2, a);
                        }
                        assert(over(idom@, rank@, f1, a) <==> a == f1 || over(
                            idom@,
                            rank@,
                            d.0 as int,
                            a,
                        ));
                    }
                }
                finger1 = d;
            }
        } else {
            if let Some(d) = idom[finger2.0 as usize] {
                proof {
                    assert(rank@[d.0 as int] < front);
                    assert(known(idom@, d.0 as int));
                    assert forall|a: int|
                        #![trigger over(idom@, rank@, d.0 as int, a)]
                        #![trigger over(idom@, rank@, f1, a)]
                        over(idom@, rank@, f1, a) && over(idom@, rank@, d.0 as int, a) <==> over(
                            idom@,
                            rank@,
                            b1.0 as int,
                            a,
                        ) && over(idom@, rank@, b2.0 as int, a) by {
                        if over(idom@, rank@, f1, a) {
                            lemma_over_known(g, order, rank@, idom@, front, f1, a);
                        }
                        assert(over(idom@, rank@, f2, a) <==> a == f2 || over(
                            idom@,
                            rank@,
                            d.0 as int,
                            a,
                        ));
                    }
                }
                finger2 = d;
            }
        }
    }
    finger1
}

impl Cfg {
    /// Where the predecessors of `b` that have a candidate meet in the
    /// tree.
    fn meeting_point(
        &self,
        b: BlockId,
        idom: &Vec<Option<BlockId>>,
        rank: &Vec<u32>,
        Ghost(order): Ghost<Seq<BlockId>>,
        Ghost(front): Ghost<int>,
    ) -> (c: Option<BlockId>)
        requires
            candidates(self@, order, rank@, idom@, front),
            cfg::in_graph(self@, b),
            b != self.entry,
            rank@[b.0 as int] < order.len(),
            rank@[b.0 as int] <= front,
        ensures
            c is Some,
            meets(self@, rank@, idom@, b.0 as int, c->Some_0.0 as int),
    {
        let ghost g = self@;
        let ghost bi = b.0 as int;
        let preds = &self.blocks[b.0 as usize].preds;
        let mut met: Option<BlockId> = None;
        let mut i: usize = 0;
        while i < preds.len()
            invariant
                g == self@,
                bi == b.0,
                candidates(g, order, rank@, idom@, front),
                node(g, bi),
                preds@ == g.blocks[bi].preds,
                i <= preds@.len(),
                match met {
                    Some(c) => {
                        &&& known(idom@, c.0 as int)
                        &&& forall|a: int| #[trigger]
                            over(idom@, rank@, c.0 as int, a) <==> (forall|j: int|
                                0 <= j < i && known(idom@, (#[trigger] preds@[j]).0 as int)
                                    ==> over(idom@, rank@, preds@[j].0 as int, a))
                        &&& forall|j: int|
                            0 <= j < i && known(idom@, (#[trigger] preds@[j]).0 as int)
                                ==> rank@[c.0 as int] <= rank@[preds@[j].0 as int]
                    },
                    None => forall|j: int|
                        0 <= j < i ==> !known(idom@, (#[trigger] preds@[j]).0 as int),
                },
            decreases preds.len() - i,
        {
            let p = preds[i];
            proof {
                assert(edge(g, g.blocks[bi].preds[i as int].0 as int, bi));
            }
            if idom[p.0 as usize].is_some() {
                match met {
                    None => {
                        met = Some(p);
                    },
                    Some(c) => {
                        let m = intersect(
                            c,
                            p,
                            idom,
                            rank,
                            Ghost(g),
                            Ghost(order),
                            Ghost(front),
                        );
                        met = Some(m);
                    },
                }
            }
            i = i + 1;
        }
        proof {
            let t = lemma_lower_pred(g, order, rank@, bi);
            assert(known(idom@, t));
            assert(g.blocks[bi].preds.contains(BlockId(t as u32)));
            let j = choose|j: int| 0 <= j < preds@.len() && preds@[j] == BlockId(t as u32);
            assert(preds@[j].0 == t);
            assert(met is Some);
            let c = met->Some_0.0 as int;
            assert(rank@[c] <= rank@[t]);
            assert forall|a: int|
                #![trigger over(idom@, rank@, c, a)]
                #![trigger common(g, rank@, idom@, bi, a)]
                over(idom@, rank@, c, a) <==> common(g, rank@, idom@, bi, a) by {
                if over(idom@, rank@, c, a) {
                    assert forall|p: int| #[trigger] known_pred(g, idom@, p, bi) implies over(
                        idom@,
                        rank@,
                        p,
                        a,
                    ) by {
                        assert(g.blocks[bi].preds.contains(BlockId(p as u32)));
                        let k = choose|k: int|
                            0 <= k < preds@.len() && preds@[k] == BlockId(p as u32);
                        assert(preds@[k].0 == p);
                    }
                }
                if common(g, rank@, idom@, bi, a) {
                    assert forall|k: int|
                        0 <= k < preds@.len() && known(
                            idom@,
                            (#[trigger] preds@[k]).0 as int,
                        ) implies over(idom@, rank@, preds@[k].0 as int, a) by {
                        assert(edge(g, g.blocks[bi].preds[k].0 as int, bi));
                        assert(known_pred(g, idom@, preds@[k].0 as int, bi));
                    }
                }
            }
        }
        met
    }

    /// The place of each block in the order; blocks that are not in it
    /// get `u32::MAX`.
    fn ranks(&self, order: &Vec<BlockId>) -> (rank: Vec<u32>)
        requires
            wired(self@),
            self.blocks@.len() > 0,
            reverse_postordered(self@, order@),
        ensures
            ranked(self@, order@, rank@),
    {
        let ghost g = self@;
        let n: usize = self.blocks.len();
        let mut rank: Vec<u32> = Vec::new();
        let mut i: usize = 0;
        while i < n
            invariant
                i <= n,
                rank@.len() == i,
                forall|b: int| 0 <= b < i ==> #[trigger] rank@[b] == u32::MAX,
            decreases n - i,
        {
            rank.push(u32::MAX);
            i = i + 1;
        }
        proof {
            lemma_order_fits(g, order@);
        }
        let mut j: usize = 0;
        while j < order.len()
            invariant
                g == self@,
                n == g.blocks.len(),
                wired(g),
                reverse_postordered(g, order@),
                order@.len() <= n,
                j <= order@.len(),
                rank@.len() == n,
                forall|k: int| 0 <= k < j ==> rank@[(#[trigger] order@[k]).0 as int] == k,
                forall|b: int|
                    0 <= b < n && (#[trigger] rank@[b]) < u32::MAX ==> rank@[b] < j
                        && order@[rank@[b] as int].0 == b,
            decreases order@.len() - j,
        {
            let b: usize = order[j].0 as usize;
            let ghost before = rank@;
            assert(cfg::in_graph(g, order@[j as int]));
            rank[b] = j as u32;
            proof {
                assert forall|k: int| 0 <= k < j + 1 implies rank@[(
                #[trigger] order@[k]).0 as int] == k by {
                    if k < j {
                        assert(order@[k] != order@[j as int]);
                        assert(before[order@[k].0 as int] == k);
                    }
                }
            }
            j = j + 1;
        }
        rank
    }

    /// Compute the immediate-dominator tree for this CFG using the
    /// Cooper-Harvey-Kennedy iterative algorithm.
    ///
    /// - The entry block maps to `None` (no strict dominator).
    /// - Every other reachable block maps to `Some(idom)`.
    /// - Unreachable blocks (not on any path from the entry) map to
    ///   `None`.
    pub fn compute_dominators(&self) -> (tree: DominatorTree)
        requires
            wired(self@),
        ensures
            self.blocks@.len() == 0 ==> tree.immediate_doms@.len() == 0,
            self.blocks@.len() > 0 ==> is_dominator_tree(self@, tree.immediate_doms@),
            rooted(tree.immediate_doms@),
    {
        let ghost g = self@;
        let n: usize = self.blocks.len();
        if n == 0 {
            let immediate_doms: Vec<Option<BlockId>> = Vec::new();
            proof {
                assert forall|b: BlockId| (#[trigger] ancestor(immediate_doms@, b, 1)) is None by {
                    reveal_with_fuel(ancestor, 2);
                }
            }
            return DominatorTree { immediate_doms };
        }
        let order = self.reverse_postorder();
        let rank = self.ranks(&order);
        // The entry is its own candidate, so that `intersect` can walk up
        // from any reachable block.
        let mut idom: Vec<Option<BlockId>> = Vec::new();
        let mut i: usize = 0;
        while i < n
            invariant
                i <= n,
                idom@.len() == i,
                forall|b: int| 0 <= b < i ==> (#[trigger] idom@[b]) is None,
            decreases n - i,
        {
            idom.push(None);
            i = i + 1;
        }
        let entry: usize = self.entry.0 as usize;
        idom[entry] = Some(self.entry);
        let ghost mut front: int = 1;
        proof {
            lemma_start(g, order@, rank@, idom@);
        }
        let mut changed = true;
        while changed
            invariant
                g == self@,
                n == g.blocks.len(),
                n > 0,
                progressing(g, order@, rank@, idom@, front, 0),
                !changed ==> front == order@.len() && settled(g, order@, rank@, idom@),
            decreases
                heights(idom@, rank@, n as nat),
                if changed {
                    1int
                } else {
                    0int
                },
        {
            changed = false;
            let ghost start = idom@;
            let mut j: usize = 0;
            while j < order.len()
                invariant
                    g == self@,
                    n == g.blocks.len(),
                    start.len() == n,
                    j <= order@.len(),
                    j <= front,
                    progressing(g, order@, rank@, idom@, front, j as int),
                    changed ==> heights(idom@, rank@, n as nat) < heights(start, rank@, n as nat),
                    !changed ==> idom@ == start && forall|k: int|
                        0 < k < j ==> meets(
                            g,
                            rank@,
                            idom@,
                            (#[trigger] order@[k]).0 as int,
                            dom_of(idom@, order@[k].0 as int),
                        ),
                decreases order@.len() - j,
            {
                let b = order[j];
                let ghost bi = b.0 as int;
                proof {
                    assert(cfg::in_graph(g, order@[j as int]));
                    assert(order@[0] == g.entry);
                    assert(rank@[bi] == j);
                    if j > 0 {
                        assert(order@[0] != order@[j as int]);
                    }
                }
                if b != self.entry {
                    if let Some(c) = self.meeting_point(
                        b,
                        &idom,
                        &rank,
                        Ghost(order@),
                        Ghost(front),
                    ) {
                        let same = match idom[b.0 as usize] {
                            Some(d) => d == c,
                            None => false,
                        };
                        let ghost before = idom@;
                        if same {
                            proof {
                                assert(known(idom@, bi));
                                assert(dom_of(idom@, bi) == c.0);
                                lemma_keep(g, order@, rank@, idom@, front, j as int);
                            }
                        } else {
                            proof {
                                lemma_update(g, order@, rank@, before, front, j as int, c);
                                if known(before, bi) {
                                    let d = dom_of(before, bi);
                                    assert(rank@[d] < rank@[bi]);
                                    assert(rank@[bi] < front);
                                    assert(known(before, d));
                                    lemma_over_known(
                                        g,
                                        order@,
                                        rank@,
                                        before,
                                        front,
                                        d,
                                        c.0 as int,
                                    );
                                }
                                lemma_heights_fall(before, rank@, bi, c, n as nat);
                                front = if front > j {
                                    front
                                } else {
                                    j + 1
                                };
                            }
                            idom[b.0 as usize] = Some(c);
                            changed = true;
                        }
                    }
                } else {
                    proof {
                        assert(j == 0);
                        lemma_keep(g, order@, rank@, idom@, front, 0);
                    }
                }
                j = j + 1;
            }
            proof {
                assert(front == order@.len());
                lemma_next_pass(g, order@, rank@, idom@, front);
            }
        }
        proof {
            lemma_settled_tree(g, order@, rank@, idom@);
        }
        // Publish the entry as `None`.
        idom[entry] = None;
        DominatorTree { immediate_doms: idom }
    }
}

/// An order without repetitions is no longer than the graph.
proof fn lemma_order_fits(g: CfgV, order: Seq<BlockId>)
    requires
        reverse_postordered(g, order),
    ensures
        order.len() <= g.blocks.len(),
{
    let n = g.blocks.len();
    let ids = order.map_values(|b: BlockId| b.0 as int);
    let all = Set::new(|b: int| 0 <= b < n);
    vstd::set_lib::lemma_int_range(0, n as int);
    assert(all =~= vstd::set_lib::set_int_range(0, n as int));
    assert forall|i: int, j: int| 0 <= i < ids.len() && 0 <= j < ids.len() && i
        != j implies #[trigger] ids[i] != #[trigger] ids[j] by {
        if i < j {
            assert(order[i] != order[j]);
        } else {
            assert(order[j] != order[i]);
        }
    }
    ids.unique_seq_to_set();
    assert forall|b: int| #[trigger] ids.to_set().contains(b) implies all.contains(b) by {
        let i = choose|i: int| 0 <= i < ids.len() && ids[i] == b;
        assert(cfg::in_graph(g, order[i]));
    }
    vstd::set_lib::lemma_len_subset(ids.to_set(), all);
}

/// The iteration starts in order.
proof fn lemma_start(
    g: CfgV,
    order: Seq<BlockId>,
    rank: Seq<u32>,
    doms: Seq<Option<BlockId>>,
)
    requires
        g.blocks.len() > 0,
        ranked(g, order, rank),
        doms.len() == g.blocks.len(),
        doms[g.entry.0 as int] == Some(g.entry),
        forall|b: int| node(g, b) && b != g.entry.0 ==> (#[trigger] doms[b]) is None,
    ensures
        progressing(g, order, rank, doms, 1, 0),
{
    let e = g.entry.0 as int;
    assert(order[0] == g.entry);
    assert(rank[e] == 0);
    assert forall|b: int| node(g, b) implies (#[trigger] known(doms, b) <==> rank[b] < 1) by {
        if rank[b] < 1 {
            assert(order[rank[b] as int].0 == b);
        }
    }
    assert forall|x: int, d: int| #[trigger] known(doms, x) && #[trigger] dominates(
        g,
        d,
        x,
    ) implies over(doms, rank, x, d) by {
        lemma_path_single(g, e);
        let p = seq![e];
        assert(path_to(g, p, x));
        assert(p.contains(d));
    }
}

} // verus!
