use vstd::prelude::*;
use vstd::set_lib::lemma_len_subset;
use crate::cfg::{block_wf, blocks_wf, duplicate_all, same_block, targets, BasicBlock, StructureError, Terminator, NO_EXIT, SYNTHETIC_OFFSET};
use crate::graph::{contains, lemma_room, Graph};
use crate::scc::{partition_wf, TarjanScc};
use crate::topo::push_at;

verus! {

/// The ids that `view` holds.
pub open spec fn view_set(view: Seq<bool>) -> Set<int> {
    Set::new(|i: int| 0 <= i < view.len() && view[i])
}

fn in_view(view: &Vec<bool>, x: usize) -> (r: bool)
    ensures
        r == (x < view@.len() && view@[x as int]),
{
    x < view.len() && view[x]
}

/// `p` is a path of control flow from its first block whose later blocks
/// all lie in `view`.
pub open spec fn is_view_walk(blocks: Seq<BasicBlock>, view: Seq<bool>, p: Seq<usize>) -> bool {
    &&& p.len() >= 1
    &&& forall|i: int| #![trigger p[i]] 0 <= i < p.len() ==> p[i] < blocks.len()
    &&& forall|i: int| #![trigger p[i]] 1 <= i < p.len() ==> p[i] < view.len() && view[p[i] as int]
    &&& forall|i: int| #![trigger p[i]] 0 <= i < p.len() - 1 ==> targets(blocks[p[i] as int].next).contains(p[i + 1])
}

/// Control can flow from `start` to `v` through blocks of `view`.
pub open spec fn reaches_in_view(blocks: Seq<BasicBlock>, view: Seq<bool>, start: usize, v: usize) -> bool {
    exists|p: Seq<usize>| #[trigger] is_view_walk(blocks, view, p) && p[0] == start && p.last() == v
}

/// Every target of `u` inside `view` has been reached, and, where `u` is
/// inside `view` too, is joined to it by an edge.
pub open spec fn settled(blocks: Seq<BasicBlock>, view: Seq<bool>, visited: Seq<bool>, g: Graph, u: usize) -> bool {
    forall|t: usize| #![trigger targets(blocks[u as int].next).contains(t)]
        targets(blocks[u as int].next).contains(t) && t < view.len() && view[t as int]
        ==> visited[t as int] && (u < view.len() && view[u as int] ==> g.has_edge(u, t))
}

proof fn lemma_view_walk_visited(blocks: Seq<BasicBlock>, view: Seq<bool>, visited: Seq<bool>, g: Graph, p: Seq<usize>, i: int)
    requires
        visited.len() == blocks.len(),
        is_view_walk(blocks, view, p),
        visited[p[0] as int],
        forall|u: usize| u < blocks.len() && #[trigger] visited[u as int] ==> settled(blocks, view, visited, g, u),
        0 <= i < p.len(),
    ensures
        visited[p[i] as int],
    decreases i,
{
    if i > 0 {
        lemma_view_walk_visited(blocks, view, visited, g, p, i - 1);
        let u = p[i - 1];
        assert(settled(blocks, view, visited, g, u));
        assert(targets(blocks[u as int].next).contains(p[i]));
    }
}

/// The part of the control-flow graph inside `view` that can be reached
/// from `start`: the edges between blocks of the view that control reaches
/// from `start` through the view.
pub fn build_graph(blocks: &Vec<BasicBlock>, view: &Vec<bool>, start: usize) -> (g: Graph)
    requires
        blocks_wf(blocks@),
        start < blocks@.len(),
    ensures
        g.wf(),
        g.n() == blocks@.len(),
        forall|u: usize| g.has_node(u) ==> u < view@.len() && view@[u as int],
        start < view@.len() && view@[start as int] ==> g.has_node(start),
        forall|u: usize, v: usize| g.has_edge(u, v) ==> targets(blocks@[u as int].next).contains(v),
        forall|u: usize, v: usize|
            reaches_in_view(blocks@, view@, start, u) && u < view@.len() && view@[u as int] && v < view@.len() && view@[v as int]
            && targets(blocks@[u as int].next).contains(v) ==> #[trigger] g.has_edge(u, v),
{
    let n = blocks.len();
    let mut graph = Graph::new(n);
    let mut visited = crate::topo::filled(n, false);
    let mut stack: Vec<usize> = Vec::new();
    stack.push(start);
    visited.set(start, true);
    let ghost mut seen: Set<int> = Set::empty().insert(start as int);
    if in_view(view, start) {
        graph.ensure_node(start);
    }
    assert(stack@[0] == start);
    loop
        invariant
            n == blocks@.len(),
            start < n,
            blocks_wf(blocks@),
            graph.wf(),
            graph.n() == n,
            forall|u: usize| graph.has_node(u) ==> u < view@.len() && view@[u as int],
            start < view@.len() && view@[start as int] ==> graph.has_node(start),
            forall|u: usize, v: usize| graph.has_edge(u, v) ==> targets(blocks@[u as int].next).contains(v),
            visited@.len() == n,
            visited@[start as int],
            forall|i: int| #[trigger] seen.contains(i) ==> 0 <= i < n,
            forall|i: int| 0 <= i < n ==> (seen.contains(i) <==> #[trigger] visited@[i]),
            seen.finite(),
            stack@.no_duplicates(),
            forall|j: int| 0 <= j < stack@.len() ==> #[trigger] stack@[j] < n && visited@[stack@[j] as int],
            forall|u: usize| u < n && #[trigger] visited@[u as int] && !stack@.contains(u) ==> settled(blocks@, view@, visited@, graph, u),
        ensures
            graph.wf(),
            graph.n() == n,
            forall|u: usize| graph.has_node(u) ==> u < view@.len() && view@[u as int],
            start < view@.len() && view@[start as int] ==> graph.has_node(start),
            forall|u: usize, v: usize| graph.has_edge(u, v) ==> targets(blocks@[u as int].next).contains(v),
            visited@.len() == n,
            visited@[start as int],
            forall|u: usize| u < n && #[trigger] visited@[u as int] ==> settled(blocks@, view@, visited@, graph, u),
        decreases 2 * (n - seen.len()) + stack@.len(),
    {
        proof {
            lemma_room(seen, n + 1, n as int);
        }
        let ghost m0 = 2 * (n - seen.len()) + stack@.len();
        let ghost st0 = stack@;
        let idx = match stack.pop() {
            None => break,
            Some(u) => u,
        };
        proof {
            assert(st0 == stack@.push(idx));
            assert(st0[st0.len() - 1] == idx);
            assert forall|j: int| 0 <= j < stack@.len() implies #[trigger] stack@[j] < n && visited@[stack@[j] as int] by {
                assert(st0[j] == stack@[j]);
            }
            assert(!stack@.contains(idx)) by {
                if stack@.contains(idx) {
                    let q = choose|q: int| 0 <= q < stack@.len() && stack@[q] == idx;
                    assert(st0[q] == idx);
                }
            }
            assert forall|w: usize| stack@.contains(w) implies st0.contains(w) by {
                let q = choose|q: int| 0 <= q < stack@.len() && stack@[q] == w;
                assert(st0[q] == w);
            }
        }
        assert(block_wf(blocks@[idx as int], idx as int, n as int));
        let succ = blocks[idx].next.next_blocks();
        let mut k: usize = 0;
        while k < succ.len()
            invariant
                n == blocks@.len(),
                start < n,
                blocks_wf(blocks@),
                idx < n,
                visited@[idx as int],
                !stack@.contains(idx),
                succ@ == targets(blocks@[idx as int].next),
                forall|q: int| 0 <= q < succ@.len() ==> #[trigger] succ@[q] < n,
                k <= succ@.len(),
                graph.wf(),
                graph.n() == n,
                forall|u: usize| graph.has_node(u) ==> u < view@.len() && view@[u as int],
                start < view@.len() && view@[start as int] ==> graph.has_node(start),
                forall|u: usize, v: usize| graph.has_edge(u, v) ==> targets(blocks@[u as int].next).contains(v),
                visited@.len() == n,
                visited@[start as int],
                forall|i: int| #[trigger] seen.contains(i) ==> 0 <= i < n,
                forall|i: int| 0 <= i < n ==> (seen.contains(i) <==> #[trigger] visited@[i]),
                seen.finite(),
                seen.len() <= n,
                stack@.no_duplicates(),
                forall|j: int| 0 <= j < stack@.len() ==> #[trigger] stack@[j] < n && visited@[stack@[j] as int],
                forall|u: usize| u < n && #[trigger] visited@[u as int] && !stack@.contains(u) && u != idx ==> settled(blocks@, view@, visited@, graph, u),
                forall|q: int| 0 <= q < k && succ@[q] < view@.len() && view@[succ@[q] as int] ==> visited@[#[trigger] succ@[q] as int]
                    && (idx < view@.len() && view@[idx as int] ==> graph.has_edge(idx, succ@[q])),
                2 * (n - seen.len()) + stack@.len() < m0,
            decreases succ@.len() - k,
        {
            let nxt = succ[k];
            assert(succ@[k as int] == nxt);
            let ghost g0 = graph;
            let ghost v0 = visited@;
            let ghost sk = stack@;
            if in_view(view, nxt) {
                if in_view(view, idx) {
                    graph.add_edge(idx, nxt);
                }
                if !visited[nxt] {
                    proof {
                        lemma_room(seen, n as int, nxt as int);
                        seen = seen.insert(nxt as int);
                        assert(!sk.contains(nxt)) by {
                            if sk.contains(nxt) {
                                let q = choose|q: int| 0 <= q < sk.len() && sk[q] == nxt;
                            }
                        }
                    }
                    visited.set(nxt, true);
                    stack.push(nxt);
                    proof {
                        assert(stack@[stack@.len() - 1] == nxt);
                        assert forall|j: int| 0 <= j < stack@.len() implies #[trigger] stack@[j] < n && visited@[stack@[j] as int] by {
                            if j < sk.len() {
                                assert(sk[j] == stack@[j]);
                            }
                        }
                        assert forall|w: usize| sk.contains(w) implies stack@.contains(w) by {
                            let q = choose|q: int| 0 <= q < sk.len() && sk[q] == w;
                            assert(stack@[q] == w);
                        }
                        assert forall|w: usize| stack@.contains(w) implies sk.contains(w) || w == nxt by {
                            let q = choose|q: int| 0 <= q < stack@.len() && stack@[q] == w;
                            if q < sk.len() {
                                assert(sk[q] == w);
                            }
                        }
                        assert forall|i: int, j: int| 0 <= i < j < stack@.len() implies stack@[i] != stack@[j] by {
                            assert(sk[i] == stack@[i]);
                            if j == sk.len() {
                                assert(sk.contains(stack@[i]));
                            } else {
                                assert(sk[j] == stack@[j]);
                            }
                        }
                    }
                }
            }
            proof {
                assert forall|u: usize| u < n && #[trigger] visited@[u as int] && !stack@.contains(u) && u != idx
                    implies settled(blocks@, view@, visited@, graph, u) by {
                    assert(v0[u as int]);
                    assert(!sk.contains(u));
                    assert(settled(blocks@, view@, v0, g0, u));
                    assert forall|t: usize| #![trigger targets(blocks@[u as int].next).contains(t)]
                        targets(blocks@[u as int].next).contains(t) && t < view@.len() && view@[t as int]
                        implies visited@[t as int] && (u < view@.len() && view@[u as int] ==> graph.has_edge(u, t)) by {
                        assert(block_wf(blocks@[u as int], u as int, n as int));
                        let q = choose|q: int| 0 <= q < targets(blocks@[u as int].next).len() && targets(blocks@[u as int].next)[q] == t;
                        assert(t < n);
                        assert(v0[t as int]);
                        if u < view@.len() && view@[u as int] {
                            assert(g0.has_edge(u, t));
                        }
                    }
                }
                assert forall|q: int| 0 <= q < k + 1 && succ@[q] < view@.len() && view@[succ@[q] as int] implies visited@[#[trigger] succ@[q] as int]
                    && (idx < view@.len() && view@[idx as int] ==> graph.has_edge(idx, succ@[q])) by {
                    if q < k {
                        assert(v0[succ@[q] as int]);
                        if idx < view@.len() && view@[idx as int] {
                            assert(g0.has_edge(idx, succ@[q]));
                        }
                    }
                }
            }
            k = k + 1;
        }
        proof {
            assert(settled(blocks@, view@, visited@, graph, idx)) by {
                assert forall|t: usize| #![trigger targets(blocks@[idx as int].next).contains(t)]
                    targets(blocks@[idx as int].next).contains(t) && t < view@.len() && view@[t as int]
                    implies visited@[t as int] && (idx < view@.len() && view@[idx as int] ==> graph.has_edge(idx, t)) by {
                    let q = choose|q: int| 0 <= q < succ@.len() && succ@[q] == t;
                    assert(succ@[q] == t);
                }
            }
        }
    }
    proof {
        assert forall|u: usize, v: usize|
            reaches_in_view(blocks@, view@, start, u) && u < view@.len() && view@[u as int] && v < view@.len() && view@[v as int]
            && targets(blocks@[u as int].next).contains(v) implies #[trigger] graph.has_edge(u, v) by {
            let p = choose|p: Seq<usize>| #[trigger] is_view_walk(blocks@, view@, p) && p[0] == start && p.last() == u;
            lemma_view_walk_visited(blocks@, view@, visited@, graph, p, p.len() - 1);
            assert(settled(blocks@, view@, visited@, graph, u));
        }
    }
    graph
}

/// An arm that was `old_arm` in an array of `n` blocks: the same block, or
/// one appended since.
pub open spec fn same_arm(old_arm: usize, new_arm: usize, n: int) -> bool {
    new_arm == old_arm || new_arm >= n
}

/// How structuring may change a terminator in an array of `n` blocks: an
/// `IfElse` may become an `IfElse` or a `While` whose two arms are its own
/// `if` and `else` arms, each possibly replaced by an appended block; a
/// `Branch` may become a `Continue` or a `Break` to the same target;
/// nothing else changes.
pub open spec fn reshaped(old_t: Terminator, new_t: Terminator, n: int) -> bool {
    ||| new_t == old_t
    ||| (old_t matches Terminator::IfElse { if_block: a0, else_block: b0 } && match new_t {
        Terminator::IfElse { if_block, else_block } => same_arm(a0, if_block, n) && same_arm(b0, else_block, n),
        Terminator::While { inner_block, outer_block } => same_arm(a0, inner_block, n) && same_arm(b0, outer_block, n),
        _ => false,
    })
    ||| (old_t matches Terminator::Branch { target }
        && (new_t == Terminator::Continue { target } || new_t == Terminator::Break { target }))
}

/// `new` is `old` with its blocks kept in place, their offsets unchanged
/// and their terminators reshaped, and only synthetic blocks appended.
pub open spec fn grown_from(old: Seq<BasicBlock>, new: Seq<BasicBlock>) -> bool {
    &&& new.len() >= old.len()
    &&& forall|i: int| 0 <= i < old.len() ==> (#[trigger] new[i]).offset == old[i].offset
    &&& forall|i: int| 0 <= i < old.len() ==> reshaped(old[i].next, (#[trigger] new[i]).next, old.len() as int)
    &&& forall|i: int| old.len() <= i < new.len() ==> (#[trigger] new[i]).offset == SYNTHETIC_OFFSET
}

/// `b` is marked as the entry of a loop: it ends in `While`, or it records
/// the loop's exit for an unconditional loop.
pub open spec fn marks_loop_entry(b: BasicBlock) -> bool {
    b.next is While || b.unconditional_loop_entry is Some
}

/// The blocks of `old` outside `view` are unchanged in `new`.
pub open spec fn untouched_outside(old: Seq<BasicBlock>, new: Seq<BasicBlock>, view: Seq<bool>) -> bool {
    forall|i: int| 0 <= i < old.len() && !(i < view.len() && view[i]) ==> #[trigger] new[i] == old[i]
}

/// Every block appended to `old` is a synthetic `Break` or `Continue`
/// with priority zero, and the blocks of `old` from `lo` on are unchanged.
pub open spec fn kept_above(old: Seq<BasicBlock>, new: Seq<BasicBlock>, lo: int) -> bool {
    &&& grown_from(old, new)
    &&& forall|i: int| lo <= i < old.len() ==> #[trigger] new[i] == old[i]
    &&& forall|i: int| old.len() <= i < new.len() ==> {
        &&& (#[trigger] new[i]).topo_priority == Some(0usize)
        &&& (new[i].next is Break || new[i].next is Continue)
    }
}

proof fn lemma_kept_trans(a: Seq<BasicBlock>, b: Seq<BasicBlock>, c: Seq<BasicBlock>, lo: int)
    requires
        0 <= lo <= a.len(),
        kept_above(a, b, lo),
        kept_above(b, c, lo),
    ensures
        kept_above(a, c, lo),
{
    lemma_grown_trans(a, b, c);
    assert forall|i: int| lo <= i < a.len() implies #[trigger] c[i] == a[i] by {
        assert(c[i] == b[i]);
    }
    assert forall|i: int| a.len() <= i < c.len() implies {
        &&& (#[trigger] c[i]).topo_priority == Some(0usize)
        &&& (c[i].next is Break || c[i].next is Continue)
    } by {
        if i < b.len() {
            assert(c[i] == b[i]);
        }
    }
}

proof fn lemma_wf_grows(bbs: Seq<BasicBlock>, b: BasicBlock)
    requires
        blocks_wf(bbs),
        block_wf(b, bbs.len() as int, bbs.len() as int + 1),
    ensures
        blocks_wf(bbs.push(b)),
{
    let n = bbs.len() as int;
    assert forall|i: int| 0 <= i < n + 1 implies block_wf(#[trigger] bbs.push(b)[i], i, n + 1) by {
        if i < n {
            assert(bbs.push(b)[i] == bbs[i]);
            assert(block_wf(bbs[i], i, n));
        }
    }
}

/// Appends a synthetic block that ends in `next`, placed after `base` and
/// before `exit`, and returns its index.
fn add_dummy(bbs: &mut Vec<BasicBlock>, base: usize, exit: usize, next: Terminator) -> (id: usize)
    requires
        blocks_wf(old(bbs)@),
        base < old(bbs)@.len(),
        exit < old(bbs)@.len() || exit == NO_EXIT,
        forall|k: int| 0 <= k < targets(next).len() ==> #[trigger] targets(next)[k] < old(bbs)@.len(),
        next is Break || next is Continue,
    ensures
        blocks_wf(final(bbs)@),
        kept_above(old(bbs)@, final(bbs)@, 0),
        final(bbs)@.len() == old(bbs)@.len() + 1,
        final(bbs)@.subrange(0, old(bbs)@.len() as int) == old(bbs)@,
        id == old(bbs)@.len(),
        final(bbs)@[id as int].next == next,
{
    let id = bbs.len();
    let mut topo_after: Vec<usize> = Vec::new();
    topo_after.push(base);
    let mut topo_before: Vec<usize> = Vec::new();
    if exit != NO_EXIT {
        topo_before.push(exit);
    }
    let b = BasicBlock {
        idx: id,
        offset: SYNTHETIC_OFFSET,
        next,
        topo_priority: Some(0),
        topo_before,
        topo_after,
        unconditional_loop_entry: None,
    };
    proof {
        lemma_wf_grows(bbs@, b);
    }
    let ghost b0 = bbs@;
    bbs.push(b);
    assert(bbs@.subrange(0, b0.len() as int) =~= b0);
    id
}

/// `x`, or in its place a synthetic `Continue` block where `x` is the loop
/// entry, or a synthetic `Break` block where `x` is the loop exit. The
/// blocks made for one `base` are kept in `cont` and `brk` and reused.
fn redirect(
    bbs: &mut Vec<BasicBlock>,
    base: usize,
    x: usize,
    entry: usize,
    exit: usize,
    cont: &mut Option<usize>,
    brk: &mut Option<usize>,
    fresh: Ghost<int>,
) -> (y: usize)
    requires
        fresh@ <= old(bbs)@.len(),
        *old(cont) matches Some(c) ==> c >= fresh@,
        *old(brk) matches Some(c) ==> c >= fresh@,
        blocks_wf(old(bbs)@),
        base < old(bbs)@.len(),
        x < old(bbs)@.len(),
        entry < old(bbs)@.len(),
        exit < old(bbs)@.len() || exit == NO_EXIT,
        *old(cont) matches Some(c) ==> c < old(bbs)@.len(),
        *old(brk) matches Some(c) ==> c < old(bbs)@.len(),
    ensures
        blocks_wf(final(bbs)@),
        kept_above(old(bbs)@, final(bbs)@, 0),
        final(bbs)@.subrange(0, old(bbs)@.len() as int) == old(bbs)@,
        y < final(bbs)@.len(),
        y == x || y >= fresh@,
        *final(cont) matches Some(c) ==> c >= fresh@,
        *final(brk) matches Some(c) ==> c >= fresh@,
        *final(cont) matches Some(c) ==> c < final(bbs)@.len(),
        *final(brk) matches Some(c) ==> c < final(bbs)@.len(),
{
    let mut y = x;
    if y == entry {
        y = match *cont {
            Some(id) => id,
            None => {
                let id = add_dummy(bbs, base, exit, Terminator::Continue { target: entry });
                *cont = Some(id);
                id
            },
        };
    }
    let ghost mid = bbs@;
    if y == exit {
        y = match *brk {
            Some(id) => id,
            None => {
                let id = add_dummy(bbs, base, exit, Terminator::Break { target: exit });
                *brk = Some(id);
                id
            },
        };
    }
    proof {
        lemma_kept_trans(old(bbs)@, mid, bbs@, 0);
        assert(bbs@.subrange(0, old(bbs)@.len() as int) =~= old(bbs)@) by {
            assert(bbs@.subrange(0, mid.len() as int) == mid);
            assert(mid.subrange(0, old(bbs)@.len() as int) == old(bbs)@);
            assert forall|i: int| 0 <= i < old(bbs)@.len() implies bbs@[i] == old(bbs)@[i] by {
                assert(bbs@.subrange(0, mid.len() as int)[i] == bbs@[i]);
                assert(mid.subrange(0, old(bbs)@.len() as int)[i] == mid[i]);
            }
        }
    }
    y
}

/// Replaces the terminator of block `i`.
fn set_next(bbs: &mut Vec<BasicBlock>, i: usize, t: Terminator)
    requires
        i < old(bbs)@.len(),
    ensures
        final(bbs)@ == old(bbs)@.update(i as int, BasicBlock { next: t, ..old(bbs)@[i as int] }),
{
    let mut b = BasicBlock::new(0, 0, Terminator::Ret);
    bbs.set_and_swap(i, &mut b);
    b.next = t;
    bbs.set_and_swap(i, &mut b);
}

/// Marks block `i` as the entry of a loop that leaves to `exit`.
fn set_loop_exit(bbs: &mut Vec<BasicBlock>, i: usize, exit: usize)
    requires
        i < old(bbs)@.len(),
    ensures
        final(bbs)@ == old(bbs)@.update(i as int, BasicBlock { unconditional_loop_entry: Some(exit), ..old(bbs)@[i as int] }),
{
    let mut b = BasicBlock::new(0, 0, Terminator::Ret);
    bbs.set_and_swap(i, &mut b);
    b.unconditional_loop_entry = Some(exit);
    bbs.set_and_swap(i, &mut b);
}

/// Adds `x` to row `i` unless it is there.
fn insert_at(rows: &mut Vec<Vec<usize>>, i: usize, x: usize)
    requires
        i < old(rows)@.len(),
    ensures
        final(rows)@.len() == old(rows)@.len(),
        forall|y: usize| final(rows)@[i as int]@.contains(y) <==> (old(rows)@[i as int]@.contains(y) || y == x),
        forall|j: int| 0 <= j < old(rows)@.len() && j != i ==> final(rows)@[j] == old(rows)@[j],
{
    if !contains(&rows[i], x) {
        push_at(rows, i, x);
        proof {
            let r0 = old(rows)@[i as int]@;
            assert forall|y: usize| rows@[i as int]@.contains(y) <==> (r0.contains(y) || y == x) by {
                if rows@[i as int]@.contains(y) {
                    let k = choose|k: int| 0 <= k < rows@[i as int]@.len() && rows@[i as int]@[k] == y;
                    if k < r0.len() {
                        assert(r0[k] == y);
                    }
                }
                if r0.contains(y) {
                    let k = choose|k: int| 0 <= k < r0.len() && r0[k] == y;
                    assert(rows@[i as int]@[k] == y);
                }
                if y == x {
                    assert(rows@[i as int]@[r0.len() as int] == x);
                }
            }
        }
    }
}

fn empty_rows(n: usize) -> (r: Vec<Vec<usize>>)
    ensures
        r@.len() == n,
        forall|i: int| 0 <= i < n ==> (#[trigger] r@[i])@.len() == 0,
{
    let mut r: Vec<Vec<usize>> = Vec::new();
    let mut i: usize = 0;
    while i < n
        invariant
            i <= n,
            r@.len() == i,
            forall|j: int| 0 <= j < i ==> (#[trigger] r@[j])@.len() == 0,
        decreases n - i,
    {
        r.push(Vec::new());
        i = i + 1;
    }
    r
}

/// Whether a component with `members` is a loop: more than one member, or
/// one member that jumps to itself.
fn is_loop(bbs: &Vec<BasicBlock>, members: &Vec<usize>) -> (r: bool)
    requires
        blocks_wf(bbs@),
        forall|k: int| 0 <= k < members@.len() ==> #[trigger] members@[k] < bbs@.len(),
    ensures
        r == (members@.len() > 1 || (members@.len() == 1 && targets(bbs@[members@[0] as int].next).contains(members@[0]))),
{
    if members.len() == 1 {
        let m = members[0];
        contains(&bbs[m].next.next_blocks(), m)
    } else {
        members.len() > 1
    }
}

/// The exit of a loop with several exits whose entry names none of them:
/// the exit with the largest bytecode offset, taken as the loop's lexical
/// successor. This is a guess that code from a usual compiler bears out;
/// hand-written bytecode may defeat it.
pub fn exit_by_largest_offset(bbs: &Vec<BasicBlock>, exits: &Vec<usize>) -> (r: usize)
    requires
        forall|k: int| 0 <= k < exits@.len() ==> #[trigger] exits@[k] < bbs@.len(),
    ensures
        r == 0 || exists|k: int| 0 <= k < exits@.len() && r == bbs@[#[trigger] exits@[k] as int].idx,
        forall|k: int| 0 <= k < exits@.len() && bbs@[#[trigger] exits@[k] as int].offset > 0 ==>
            exists|q: int| 0 <= q < exits@.len() && r == bbs@[#[trigger] exits@[q] as int].idx
                && bbs@[exits@[q] as int].offset >= bbs@[exits@[k] as int].offset,
{
    let mut max_offset: usize = 0;
    let mut current: usize = 0;
    let mut k: usize = 0;
    while k < exits.len()
        invariant
            k <= exits@.len(),
            forall|q: int| 0 <= q < exits@.len() ==> #[trigger] exits@[q] < bbs@.len(),
            max_offset == 0 ==> current == 0,
            max_offset > 0 ==> exists|q: int| 0 <= q < k && current == bbs@[#[trigger] exits@[q] as int].idx
                && bbs@[exits@[q] as int].offset == max_offset,
            forall|q: int| 0 <= q < k ==> bbs@[#[trigger] exits@[q] as int].offset <= max_offset,
        decreases exits@.len() - k,
    {
        let b = &bbs[exits[k]];
        if b.offset > max_offset {
            max_offset = b.offset;
            current = b.idx;
        }
        k = k + 1;
    }
    current
}

proof fn lemma_grown_trans(a: Seq<BasicBlock>, b: Seq<BasicBlock>, c: Seq<BasicBlock>)
    requires
        grown_from(a, b),
        grown_from(b, c),
    ensures
        grown_from(a, c),
{
    assert forall|i: int| 0 <= i < a.len() implies (#[trigger] c[i]).offset == a[i].offset by {
        assert(c[i].offset == b[i].offset);
    }
    assert forall|i: int| 0 <= i < a.len() implies reshaped(a[i].next, (#[trigger] c[i]).next, a.len() as int) by {
        assert(reshaped(a[i].next, b[i].next, a.len() as int));
        assert(reshaped(b[i].next, c[i].next, b.len() as int));
    }
    assert forall|i: int| a.len() <= i < c.len() implies (#[trigger] c[i]).offset == SYNTHETIC_OFFSET by {
        if i < b.len() {
            assert(c[i].offset == b[i].offset);
        }
    }
}

/// The successors of `start` that lie in `view`, each once: where the view
/// is a loop body, the places where control enters it from the loop entry.
pub fn find_possible_root(bbs: &Vec<BasicBlock>, start: usize, view: &Vec<bool>) -> (r: Vec<usize>)
    requires
        blocks_wf(bbs@),
        start < bbs@.len(),
    ensures
        forall|v: usize| r@.contains(v) <==> (targets(bbs@[start as int].next).contains(v) && v < view@.len() && view@[v as int]),
        forall|q: int| 0 <= q < r@.len() ==> #[trigger] r@[q] < bbs@.len(),
{
    assert(block_wf(bbs@[start as int], start as int, bbs@.len() as int));
    let succ = bbs[start].next.next_blocks();
    let mut r: Vec<usize> = Vec::new();
    let mut k: usize = 0;
    while k < succ.len()
        invariant
            k <= succ@.len(),
            succ@ == targets(bbs@[start as int].next),
            forall|q: int| 0 <= q < succ@.len() ==> #[trigger] succ@[q] < bbs@.len(),
            forall|q: int| 0 <= q < r@.len() ==> #[trigger] r@[q] < bbs@.len(),
            forall|v: usize| r@.contains(v) <==> (exists|q: int| 0 <= q < k && #[trigger] succ@[q] == v) && v < view@.len() && view@[v as int],
        decreases succ@.len() - k,
    {
        let v = succ[k];
        let ghost r0 = r@;
        if in_view(view, v) && !contains(&r, v) {
            r.push(v);
        }
        proof {
            assert forall|w: usize| r@.contains(w) <==> (exists|q: int| 0 <= q < k + 1 && #[trigger] succ@[q] == w) && w < view@.len() && view@[w as int] by {
                if r@.contains(w) {
                    let q = choose|q: int| 0 <= q < r@.len() && r@[q] == w;
                    if q < r0.len() {
                        assert(r0[q] == w);
                        assert(r0.contains(w));
                        let j = choose|j: int| 0 <= j < k && #[trigger] succ@[j] == w;
                        assert(succ@[j] == w);
                    } else {
                        assert(succ@[k as int] == w);
                    }
                }
                if (exists|q: int| 0 <= q < k + 1 && #[trigger] succ@[q] == w) && w < view@.len() && view@[w as int] {
                    let q = choose|q: int| 0 <= q < k + 1 && #[trigger] succ@[q] == w;
                    if q < k {
                        assert(r0.contains(w));
                        let j = choose|j: int| 0 <= j < r0.len() && r0[j] == w;
                        assert(r@[j] == w);
                    } else if r@.len() > r0.len() {
                        assert(r@[r0.len() as int] == w);
                    }
                }
            }
        }
        k = k + 1;
    }
    proof {
        assert forall|v: usize| r@.contains(v) <==> (targets(bbs@[start as int].next).contains(v) && v < view@.len() && view@[v as int]) by {
            if targets(bbs@[start as int].next).contains(v) {
                let q = choose|q: int| 0 <= q < succ@.len() && succ@[q] == v;
                assert(succ@[q] == v);
            }
        }
    }
    r
}

/// Rewrites the jumps of the loop members: a `Branch` to the entry becomes
/// `Continue`, one to the exit `Break`, and each arm of an `IfElse` (but
/// the entry's) that leads to the entry or the exit goes through a
/// synthetic block instead.
fn rewrite_members(bbs: &mut Vec<BasicBlock>, members: &Vec<usize>, entry: usize, exit: usize, lo: usize)
    requires
        blocks_wf(old(bbs)@),
        lo <= old(bbs)@.len(),
        forall|k: int| 0 <= k < members@.len() ==> #[trigger] members@[k] < lo,
        entry < old(bbs)@.len(),
        exit < old(bbs)@.len() || exit == NO_EXIT,
    ensures
        blocks_wf(final(bbs)@),
        kept_above(old(bbs)@, final(bbs)@, lo as int),
        forall|q: int| 0 <= q < old(bbs)@.len() && !members@.contains(q as usize) ==> #[trigger] final(bbs)@[q] == old(bbs)@[q],
{
    let mut j: usize = 0;
    while j < members.len()
        invariant
            j <= members@.len(),
            blocks_wf(bbs@),
            kept_above(old(bbs)@, bbs@, lo as int),
            forall|q: int| 0 <= q < old(bbs)@.len() && !members@.contains(q as usize) ==> #[trigger] bbs@[q] == old(bbs)@[q],
            lo <= old(bbs)@.len(),
            forall|k: int| 0 <= k < members@.len() ==> #[trigger] members@[k] < lo,
            entry < old(bbs)@.len(),
            exit < old(bbs)@.len() || exit == NO_EXIT,
        decreases members@.len() - j,
    {
        let i = members[j];
        let ghost before = bbs@;
        assert(block_wf(bbs@[i as int], i as int, bbs@.len() as int));
        match bbs[i].next {
            Terminator::Branch { target } => {
                if target == entry {
                    set_next(bbs, i, Terminator::Continue { target });
                }
                if target == exit {
                    set_next(bbs, i, Terminator::Break { target });
                }
                proof {
                    assert(targets(before[i as int].next)[0] == target);
                    assert(block_wf(bbs@[i as int], i as int, bbs@.len() as int));
                    assert forall|q: int| 0 <= q < bbs@.len() implies block_wf(#[trigger] bbs@[q], q, bbs@.len() as int) by {
                        if q != i {
                            assert(bbs@[q] == before[q]);
                        }
                    }
                }
            },
            Terminator::IfElse { if_block, else_block } => {
                if i != entry {
                    proof {
                        assert(targets(before[i as int].next)[0] == if_block);
                        assert(targets(before[i as int].next)[1] == else_block);
                    }
                    let mut cont: Option<usize> = None;
                    let mut brk: Option<usize> = None;
                    let a = redirect(bbs, i, if_block, entry, exit, &mut cont, &mut brk, Ghost(before.len() as int));
                    let ghost mid = bbs@;
                    let b = redirect(bbs, i, else_block, entry, exit, &mut cont, &mut brk, Ghost(before.len() as int));
                    proof {
                        lemma_kept_trans(before, mid, bbs@, 0);
                        assert(bbs@.subrange(0, before.len() as int)[i as int] == bbs@[i as int]);
                        assert(mid.subrange(0, before.len() as int)[i as int] == mid[i as int]);
                        assert(bbs@[i as int] == before[i as int]);
                    }
                    let ghost mid2 = bbs@;
                    set_next(bbs, i, Terminator::IfElse { if_block: a, else_block: b });
                    proof {
                        assert(block_wf(bbs@[i as int], i as int, bbs@.len() as int)) by {
                            assert(block_wf(mid2[i as int], i as int, mid2.len() as int));
                        }
                        assert forall|q: int| 0 <= q < bbs@.len() implies block_wf(#[trigger] bbs@[q], q, bbs@.len() as int) by {
                            if q != i {
                                assert(bbs@[q] == mid2[q]);
                            }
                        }
                    }
                }
            },
            _ => {},
        }
        proof {
            assert(kept_above(before, bbs@, lo as int));
            lemma_kept_trans(old(bbs)@, before, bbs@, lo as int);
            assert(members@[j as int] == i);
            assert forall|q: int| 0 <= q < old(bbs)@.len() && !members@.contains(q as usize) implies #[trigger] bbs@[q] == old(bbs)@[q] by {
                assert(q != i);
                assert(before[q] == old(bbs)@[q]);
                if bbs@.len() > before.len() {
                    assert(bbs@.subrange(0, before.len() as int)[q] == bbs@[q]);
                }
            }
        }
        j = j + 1;
    }
}

/// One step of `loop_reconstruction` over the blocks in `view`, entered
/// from `start_idx`: finds the components of the part of the graph that
/// is reachable, checks that each loop among them has exactly one entry,
/// structures each loop, and goes on into its body without its entry.
fn loop_reconstruction_recursive(
    bbs: &mut Vec<BasicBlock>,
    view: &Vec<bool>,
    start_idx: usize,
) -> (r: Result<(), StructureError>)
    requires
        blocks_wf(old(bbs)@),
        start_idx < old(bbs)@.len(),
        view@.len() <= old(bbs)@.len(),
    ensures
        blocks_wf(final(bbs)@),
        kept_above(old(bbs)@, final(bbs)@, view@.len() as int),
        untouched_outside(old(bbs)@, final(bbs)@, view@),
        r is Ok && start_idx < view@.len() && view@[start_idx as int]
            && targets(old(bbs)@[start_idx as int].next).contains(start_idx)
            ==> marks_loop_entry(final(bbs)@[start_idx as int]),
    decreases view_set(view@).len(),
{
    let ghost sl = start_idx < view@.len() && view@[start_idx as int] && targets(old(bbs)@[start_idx as int].next).contains(start_idx);
    let graph = build_graph(bbs, view, start_idx);
    if graph.nodes().len() == 0 {
        proof {
            assert(!sl) by {
                if sl {
                    assert(graph.has_node(start_idx));
                }
            }
        }
        return Ok(());
    }
    let scc = TarjanScc::new(&graph);
    let n0 = bbs.len();
    let ghost c0: int = if sl { scc.scc@[start_idx as int].unwrap() as int } else { 0 };
    proof {
        if sl {
            assert(graph.has_node(start_idx));
        }
    }
    let ncomp = scc.sccs.len();
    let mut entries = empty_rows(ncomp);
    let mut exits = empty_rows(ncomp);
    let mut u: usize = 0;
    while u < n0
        invariant
            n0 == bbs@.len(),
            blocks_wf(bbs@),
            scc.wf_for(&graph),
            graph.n() == n0,
            ncomp == scc.sccs@.len(),
            entries@.len() == ncomp,
            exits@.len() == ncomp,
            forall|c: int, k: int| 0 <= c < ncomp && 0 <= k < entries@[c]@.len() ==> {
                let v = #[trigger] entries@[c]@[k];
                &&& v < n0
                &&& scc.scc@[v as int] == Some(c as usize)
            },
            forall|c: int, k: int| 0 <= c < ncomp && 0 <= k < exits@[c]@.len() ==> #[trigger] exits@[c]@[k] < n0,
        decreases n0 - u,
    {
        if in_view(view, u) {
            if let Some(c) = scc.scc_for_node(u) {
                assert(block_wf(bbs@[u as int], u as int, n0 as int));
                let succ = bbs[u].next.next_blocks();
                let mut k: usize = 0;
                while k < succ.len()
                    invariant
                        k <= succ@.len(),
                        forall|q: int| 0 <= q < succ@.len() ==> #[trigger] succ@[q] < n0,
                        n0 == bbs@.len(),
                        scc.wf_for(&graph),
                        graph.n() == n0,
                        c < ncomp,
                        ncomp == scc.sccs@.len(),
                        entries@.len() == ncomp,
                        exits@.len() == ncomp,
                        forall|c: int, k: int| 0 <= c < ncomp && 0 <= k < entries@[c]@.len() ==> {
                            let v = #[trigger] entries@[c]@[k];
                            &&& v < n0
                            &&& scc.scc@[v as int] == Some(c as usize)
                        },
                        forall|c: int, k: int| 0 <= c < ncomp && 0 <= k < exits@[c]@.len() ==> #[trigger] exits@[c]@[k] < n0,
                    decreases succ@.len() - k,
                {
                    let v = succ[k];
                    assert(succ@[k as int] == v);
                    let vc = scc.scc_for_node(v);
                    if vc != Some(c) {
                        if let Some(d) = vc {
                            add_member(&mut entries, d, v, Ghost(scc.scc@), Ghost(n0));
                        }
                        add_bounded(&mut exits, c, v, Ghost(n0));
                    }
                    k = k + 1;
                }
            }
        }
        u = u + 1;
    }
    if in_view(view, start_idx) {
        if let Some(c) = scc.scc_for_node(start_idx) {
            add_member(&mut entries, c, start_idx, Ghost(scc.scc@), Ghost(n0));
        }
        assert(sl ==> entries@[c0]@.contains(start_idx));
    } else {
        let roots = find_possible_root(bbs, start_idx, view);
        let mut k: usize = 0;
        while k < roots.len()
            invariant
                k <= roots@.len(),
                forall|q: int| 0 <= q < roots@.len() ==> #[trigger] roots@[q] < n0,
                n0 == bbs@.len(),
                scc.wf_for(&graph),
                graph.n() == n0,
                ncomp == scc.sccs@.len(),
                entries@.len() == ncomp,
                forall|c: int, k: int| 0 <= c < ncomp && 0 <= k < entries@[c]@.len() ==> {
                    let v = #[trigger] entries@[c]@[k];
                    &&& v < n0
                    &&& scc.scc@[v as int] == Some(c as usize)
                },
            decreases roots@.len() - k,
        {
            let v = roots[k];
            if let Some(c) = scc.scc_for_node(v) {
                add_member(&mut entries, c, v, Ghost(scc.scc@), Ghost(n0));
            }
            k = k + 1;
        }
    }
    let mut c: usize = 0;
    while c < ncomp
        invariant
            n0 == bbs@.len(),
            blocks_wf(bbs@),
            scc.wf_for(&graph),
            graph.n() == n0,
            ncomp == scc.sccs@.len(),
            entries@.len() == ncomp,
            bbs@ == old(bbs)@,
            start_idx < n0,
            scc.scc@.len() == n0,
            sl == (start_idx < view@.len() && view@[start_idx as int] && targets(old(bbs)@[start_idx as int].next).contains(start_idx)),
            sl ==> 0 <= c0 < ncomp && scc.scc@[start_idx as int] == Some(c0 as usize),
            sl ==> entries@[c0]@.contains(start_idx),
            sl && c > c0 ==> entries@[c0]@.len() == 1,
        decreases ncomp - c,
    {
        assert(forall|k: int| 0 <= k < scc.sccs@[c as int]@.len() ==> #[trigger] scc.sccs@[c as int]@[k] < n0);
        proof {
            if sl && c == c0 {
                assert(bbs@[start_idx as int] == old(bbs)@[start_idx as int]);
                lemma_loop_of_self_jump(&scc, bbs@, start_idx, c);
            }
        }
        if is_loop(bbs, &scc.sccs[c]) {
            if entries[c].len() > 1 {
                return Err(StructureError::MultipleEntries);
            }
            if entries[c].len() == 0 {
                return Err(StructureError::DeadBlock);
            }
        }
        c = c + 1;
    }
    proof {
        if sl {
            let k = choose|k: int| 0 <= k < entries@[c0]@.len() && entries@[c0]@[k] == start_idx;
            assert(entries@[c0]@[0] == start_idx);
        }
    }
    let mut c: usize = 0;
    while c < ncomp
        invariant
            n0 <= bbs@.len(),
            blocks_wf(bbs@),
            kept_above(old(bbs)@, bbs@, view@.len() as int),
            old(bbs)@.len() == n0,
            view@.len() <= n0,
            scc.wf_for(&graph),
            graph.n() == n0,
            forall|u: usize| graph.has_node(u) ==> u < view@.len() && view@[u as int],
            ncomp == scc.sccs@.len(),
            entries@.len() == ncomp,
            exits@.len() == ncomp,
            forall|c: int, k: int| 0 <= c < ncomp && 0 <= k < entries@[c]@.len() ==> {
                let v = #[trigger] entries@[c]@[k];
                &&& v < n0
                &&& scc.scc@[v as int] == Some(c as usize)
            },
            forall|c: int, k: int| 0 <= c < ncomp && 0 <= k < exits@[c]@.len() ==> #[trigger] exits@[c]@[k] < n0,
            untouched_outside(old(bbs)@, bbs@, view@),
            start_idx < n0,
            sl == (start_idx < view@.len() && view@[start_idx as int] && targets(old(bbs)@[start_idx as int].next).contains(start_idx)),
            sl ==> 0 <= c0 < ncomp && scc.scc@[start_idx as int] == Some(c0 as usize),
            sl ==> entries@[c0]@.len() == 1 && entries@[c0]@[0] == start_idx,
            sl && c <= c0 ==> bbs@[start_idx as int] == old(bbs)@[start_idx as int],
            sl && c > c0 ==> marks_loop_entry(bbs@[start_idx as int]),
        decreases ncomp - c,
    {
        let members = &scc.sccs[c];
        let ghost b_start = bbs@;
        proof {
            if sl && c == c0 {
                assert(bbs@[start_idx as int] == old(bbs)@[start_idx as int]);
                lemma_loop_of_self_jump(&scc, bbs@, start_idx, c);
            }
        }
        assert(forall|k: int| 0 <= k < members@.len() ==> #[trigger] members@[k] < n0);
        if is_loop(bbs, members) && entries[c].len() > 0 {
            let entry = entries[c][0];
            let scc_exits = &exits[c];
            let mut exit = NO_EXIT;
            if scc_exits.len() > 1 {
                assert(block_wf(bbs@[entry as int], entry as int, bbs@.len() as int));
                if let Terminator::IfElse { else_block, .. } = bbs[entry].next {
                    if contains(scc_exits, else_block) {
                        exit = else_block;
                    }
                }
                if exit == NO_EXIT {
                    exit = exit_by_largest_offset(bbs, scc_exits);
                    proof {
                        if exit != 0 {
                            let k = choose|k: int| 0 <= k < scc_exits@.len() && exit == bbs@[#[trigger] scc_exits@[k] as int].idx;
                            assert(block_wf(bbs@[scc_exits@[k] as int], scc_exits@[k] as int, bbs@.len() as int));
                        }
                    }
                }
            }
            if exit == NO_EXIT && scc_exits.len() == 1 {
                exit = scc_exits[0];
            }
            let ghost before = bbs@;
            proof {
                assert forall|k: int| 0 <= k < members@.len() implies #[trigger] members@[k] < view@.len() by {
                    assert(scc.scc@[members@[k] as int] == Some(c));
                    assert(graph.has_node(members@[k]));
                }
                assert(graph.has_node(entry));
            }
            rewrite_members(bbs, members, entry, exit, view.len());
            proof {
                lemma_kept_trans(old(bbs)@, before, bbs@, view@.len() as int);
                assert forall|i: int| 0 <= i < old(bbs)@.len() && !(i < view@.len() && view@[i]) implies #[trigger] bbs@[i] == old(bbs)@[i] by {
                    if members@.contains(i as usize) {
                        let k = choose|k: int| 0 <= k < members@.len() && members@[k] == i as usize;
                        assert(scc.scc@[members@[k] as int] == Some(c));
                        assert(graph.has_node(members@[k]));
                    }
                    assert(before[i] == old(bbs)@[i]);
                }
                if sl && c != c0 {
                    assert(!members@.contains(start_idx)) by {
                        if members@.contains(start_idx) {
                            let k = choose|k: int| 0 <= k < members@.len() && members@[k] == start_idx;
                            assert(scc.scc@[members@[k] as int] == Some(c));
                        }
                    }
                    assert(entry != start_idx);
                }
                if sl && c == c0 {
                    assert(entry == start_idx);
                }
            }
            let ghost before2 = bbs@;
            assert(block_wf(bbs@[entry as int], entry as int, bbs@.len() as int));
            let ghost t = bbs@[entry as int].next;
            match bbs[entry].next {
                Terminator::IfElse { if_block, else_block } => {
                    if !contains(members, if_block) && if_block != exit {
                        return Err(StructureError::MalformedLoopEntry);
                    }
                    if else_block == exit {
                        let ghost b1 = bbs@;
                        assert(targets(t)[0] == if_block && targets(t)[1] == else_block);
                        set_next(bbs, entry, Terminator::While { inner_block: if_block, outer_block: else_block });
                        proof {
                            assert(bbs@[entry as int].next is While);
                            assert forall|q: int| 0 <= q < bbs@.len() implies block_wf(#[trigger] bbs@[q], q, bbs@.len() as int) by {
                                if q != entry {
                                    assert(bbs@[q] == b1[q]);
                                }
                            }
                            assert(kept_above(b1, bbs@, view@.len() as int));
                        }
                    } else {
                        mark_loop_entry(bbs, entry, exit, view.len());
                    }
                },
                _ => {
                    mark_loop_entry(bbs, entry, exit, view.len());
                },
            }
            proof {
                lemma_kept_trans(old(bbs)@, before2, bbs@, view@.len() as int);
                assert(marks_loop_entry(bbs@[entry as int]));
                assert forall|i: int| 0 <= i < old(bbs)@.len() && !(i < view@.len() && view@[i]) implies #[trigger] bbs@[i] == old(bbs)@[i] by {
                    assert(i != entry);
                    assert(before2[i] == old(bbs)@[i]);
                }
            }
            let ghost b3 = bbs@;
            let mut body = crate::topo::filled(view.len(), false);
            let mut any = false;
            let mut k: usize = 0;
            while k < members.len()
                invariant
                    k <= members@.len(),
                    body@.len() == view@.len(),
                    forall|i: int| 0 <= i < body@.len() && #[trigger] body@[i] ==> view@[i] && i != entry && members@.contains(i as usize),
                decreases members@.len() - k,
            {
                let i = members[k];
                if i != entry && in_view(view, i) {
                    body.set(i, true);
                    any = true;
                }
                k = k + 1;
            }
            if any {
                proof {
                    assert(graph.has_node(entry));
                    lemma_room(view_set(view@), view@.len() as int + 1, view@.len() as int);
                    assert(view_set(body@).subset_of(view_set(view@).remove(entry as int)));
                    lemma_len_subset(view_set(body@), view_set(view@).remove(entry as int));
                }
                let ghost b2 = bbs@;
                let res = loop_reconstruction_recursive(bbs, &body, entry);
                proof {
                    lemma_kept_trans(old(bbs)@, b2, bbs@, view@.len() as int);
                    assert forall|i: int| 0 <= i < old(bbs)@.len() && !(i < view@.len() && view@[i]) implies #[trigger] bbs@[i] == old(bbs)@[i] by {
                        assert(b2[i] == old(bbs)@[i]);
                        assert(!(i < body@.len() && body@[i]));
                    }
                    if sl {
                        assert(!(start_idx < body@.len() && body@[start_idx as int])) by {
                            if start_idx < body@.len() && body@[start_idx as int] {
                                let k = choose|k: int| 0 <= k < members@.len() && members@[k] == start_idx;
                                assert(scc.scc@[members@[k] as int] == Some(c));
                            }
                        }
                        assert(bbs@[start_idx as int] == b2[start_idx as int]);
                    }
                }
                if res.is_err() {
                    return res;
                }
            }
        }
        c = c + 1;
    }
    Ok(())
}

/// The component of a node that jumps to itself is a loop.
proof fn lemma_loop_of_self_jump(scc: &TarjanScc, bbs: Seq<BasicBlock>, u: usize, c: usize)
    requires
        0 <= c < scc.sccs@.len(),
        u < scc.scc@.len(),
        scc.scc@[u as int] == Some(c),
        partition_wf(scc.scc@, scc.sccs@),
        targets(bbs[u as int].next).contains(u),
    ensures
        scc.sccs@[c as int]@.len() > 1 || (scc.sccs@[c as int]@.len() == 1 && targets(bbs[scc.sccs@[c as int]@[0] as int].next).contains(scc.sccs@[c as int]@[0])),
{
    assert(scc.sccs@[c as int]@.contains(u));
    let k = choose|k: int| 0 <= k < scc.sccs@[c as int]@.len() && scc.sccs@[c as int]@[k] == u;
    if scc.sccs@[c as int]@.len() == 1 {
        assert(k == 0);
    }
}

/// Adds `v` to row `d` of a table whose rows hold members of their own
/// component.
fn add_member(rows: &mut Vec<Vec<usize>>, d: usize, v: usize, scc: Ghost<Seq<Option<usize>>>, n0: Ghost<usize>)
    requires
        d < old(rows)@.len(),
        v < n0@,
        scc@[v as int] == Some(d),
        forall|c: int, k: int| 0 <= c < old(rows)@.len() && 0 <= k < old(rows)@[c]@.len() ==> {
            let w = #[trigger] old(rows)@[c]@[k];
            &&& w < n0@
            &&& scc@[w as int] == Some(c as usize)
        },
    ensures
        final(rows)@.len() == old(rows)@.len(),
        forall|c: int, k: int| 0 <= c < final(rows)@.len() && 0 <= k < final(rows)@[c]@.len() ==> {
            let w = #[trigger] final(rows)@[c]@[k];
            &&& w < n0@
            &&& scc@[w as int] == Some(c as usize)
        },
        final(rows)@[d as int]@.contains(v),
{
    insert_at(rows, d, v);
    proof {
        assert forall|c: int, k: int| 0 <= c < rows@.len() && 0 <= k < rows@[c]@.len() implies {
            let w = #[trigger] rows@[c]@[k];
            &&& w < n0@
            &&& scc@[w as int] == Some(c as usize)
        } by {
            let w = rows@[c]@[k];
            if c == d {
                assert(rows@[c]@.contains(w));
                if w != v {
                    let q = choose|q: int| 0 <= q < old(rows)@[c]@.len() && old(rows)@[c]@[q] == w;
                }
            } else {
                assert(rows@[c] == old(rows)@[c]);
            }
        }
    }
}

/// Adds `v` to row `c` of a table of ids below `n0`.
fn add_bounded(rows: &mut Vec<Vec<usize>>, c: usize, v: usize, n0: Ghost<usize>)
    requires
        c < old(rows)@.len(),
        v < n0@,
        forall|d: int, k: int| 0 <= d < old(rows)@.len() && 0 <= k < old(rows)@[d]@.len() ==> #[trigger] old(rows)@[d]@[k] < n0@,
    ensures
        final(rows)@.len() == old(rows)@.len(),
        forall|d: int, k: int| 0 <= d < final(rows)@.len() && 0 <= k < final(rows)@[d]@.len() ==> #[trigger] final(rows)@[d]@[k] < n0@,
{
    insert_at(rows, c, v);
    proof {
        assert forall|d: int, k: int| 0 <= d < rows@.len() && 0 <= k < rows@[d]@.len() implies #[trigger] rows@[d]@[k] < n0@ by {
            let w = rows@[d]@[k];
            if d == c {
                assert(rows@[d]@.contains(w));
                if w != v {
                    let q = choose|q: int| 0 <= q < old(rows)@[d]@.len() && old(rows)@[d]@[q] == w;
                }
            } else {
                assert(rows@[d] == old(rows)@[d]);
            }
        }
    }
}

/// Marks `entry` as the entry of an unconditional loop that leaves to
/// `exit`.
fn mark_loop_entry(bbs: &mut Vec<BasicBlock>, entry: usize, exit: usize, lo: usize)
    requires
        blocks_wf(old(bbs)@),
        entry < lo <= old(bbs)@.len(),
        exit < old(bbs)@.len() || exit == NO_EXIT,
    ensures
        blocks_wf(final(bbs)@),
        kept_above(old(bbs)@, final(bbs)@, lo as int),
        final(bbs)@.len() == old(bbs)@.len(),
        final(bbs)@[entry as int].unconditional_loop_entry == Some(exit),
        forall|q: int| 0 <= q < old(bbs)@.len() && q != entry ==> #[trigger] final(bbs)@[q] == old(bbs)@[q],
{
    set_loop_exit(bbs, entry, exit);
    proof {
        assert forall|q: int| 0 <= q < bbs@.len() implies block_wf(#[trigger] bbs@[q], q, bbs@.len() as int) by {
            if q != entry {
                assert(bbs@[q] == old(bbs)@[q]);
            } else {
                assert(block_wf(old(bbs)@[q], q, bbs@.len() as int));
            }
        }
    }
}

/// Finds every loop of the control-flow graph rooted at block `0` and turns
/// it into structured form: a conditional entry whose `else` arm leaves the
/// loop becomes `While`; any other entry is marked with the loop's exit in
/// `unconditional_loop_entry`; jumps back to the entry become `Continue`
/// and jumps to the exit `Break`, through synthetic blocks where they leave
/// from an `IfElse`. Loops nested in a loop's body are found the same way.
///
/// Where a loop has several exits, the entry's `else` arm is taken if it is
/// one of them, else `exit_by_largest_offset` decides. Fails with
/// `MultipleEntries` for a loop entered at more than one block, with
/// `DeadBlock` for one never entered, and with `MalformedLoopEntry` for a
/// conditional entry whose `if` arm is neither in the loop nor its exit;
/// the blocks are then given back as they were.
pub fn loop_reconstruction(bbs: &mut Vec<BasicBlock>) -> (r: Result<(), StructureError>)
    requires
        blocks_wf(old(bbs)@),
    ensures
        blocks_wf(final(bbs)@),
        kept_above(old(bbs)@, final(bbs)@, old(bbs)@.len() as int),
        r is Ok && old(bbs)@.len() > 0 && targets(old(bbs)@[0].next).contains(0) ==> marks_loop_entry(final(bbs)@[0]),
        r is Err ==> final(bbs)@.len() == old(bbs)@.len()
            && forall|i: int| 0 <= i < old(bbs)@.len() ==> same_block(#[trigger] final(bbs)@[i], old(bbs)@[i]),
{
    if bbs.len() == 0 {
        return Ok(());
    }
    let saved = duplicate_all(bbs);
    let view = crate::topo::filled(bbs.len(), true);
    let r = loop_reconstruction_recursive(bbs, &view, 0);
    if r.is_err() {
        *bbs = saved;
        proof {
            assert forall|q: int| 0 <= q < bbs@.len() implies block_wf(#[trigger] bbs@[q], q, bbs@.len() as int) by {
                assert(same_block(bbs@[q], old(bbs)@[q]));
                assert(block_wf(old(bbs)@[q], q, old(bbs)@.len() as int));
            }
            assert forall|i: int| 0 <= i < old(bbs)@.len() implies reshaped(old(bbs)@[i].next, (#[trigger] bbs@[i]).next, old(bbs)@.len() as int) by {
                assert(same_block(bbs@[i], old(bbs)@[i]));
            }
        }
    }
    r
}

/// A `While` that structuring made out of a block splits where the block's
/// condition did: its inner block is the block's former `if` arm and its
/// outer block the former `else` arm, each of them possibly replaced by a
/// synthetic block appended in its place.
pub proof fn lemma_while_keeps_condition_split(old: Seq<BasicBlock>, new: Seq<BasicBlock>, i: int)
    requires
        kept_above(old, new, old.len() as int),
        0 <= i < old.len(),
        new[i].next is While,
        !(old[i].next is While),
    ensures
        old[i].next matches Terminator::IfElse { if_block, else_block } && (new[i].next matches
            Terminator::While { inner_block, outer_block } && same_arm(if_block, inner_block, old.len() as int)
                && same_arm(else_block, outer_block, old.len() as int)),
{
    assert(reshaped(old[i].next, new[i].next, old.len() as int));
}

} // verus!
