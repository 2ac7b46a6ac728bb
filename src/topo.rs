use vstd::prelude::*;
use crate::cfg::{block_wf, blocks_wf, targets, BasicBlock, StructureError, Terminator, SYNTHETIC_OFFSET};
use crate::graph::{contains, lemma_room};

verus! {

/// Every row of `rows` names only ids below `n`.
pub open spec fn rows_below(rows: Seq<Vec<usize>>, n: int) -> bool {
    forall|i: int, k: int| 0 <= i < rows.len() && 0 <= k < rows[i]@.len() ==> #[trigger] rows[i]@[k] < n
}

/// Appends `x` to row `i`.
pub fn push_at(rows: &mut Vec<Vec<usize>>, i: usize, x: usize)
    requires
        i < old(rows)@.len(),
    ensures
        final(rows)@.len() == old(rows)@.len(),
        final(rows)@[i as int]@ == old(rows)@[i as int]@.push(x),
        forall|j: int| 0 <= j < old(rows)@.len() && j != i ==> final(rows)@[j] == old(rows)@[j],
        final(rows)@[i as int]@.contains(x),
        forall|j: int, y: usize| 0 <= j < old(rows)@.len() && old(rows)@[j]@.contains(y) ==> #[trigger] final(rows)@[j]@.contains(y),
{
    let mut row: Vec<usize> = Vec::new();
    rows.set_and_swap(i, &mut row);
    row.push(x);
    rows.set_and_swap(i, &mut row);
    proof {
        let r0 = old(rows)@[i as int]@;
        assert(rows@[i as int]@[r0.len() as int] == x);
        assert forall|j: int, y: usize| 0 <= j < old(rows)@.len() && old(rows)@[j]@.contains(y) implies #[trigger] rows@[j]@.contains(y) by {
            if j == i {
                let k = choose|k: int| 0 <= k < r0.len() && r0[k] == y;
                assert(rows@[j]@[k] == y);
            }
        }
    }
}

/// A vector of `n` copies of `x`.
pub fn filled<T: Copy>(n: usize, x: T) -> (r: Vec<T>)
    ensures
        r@.len() == n,
        forall|i: int| 0 <= i < n ==> r@[i] == x,
{
    let mut r: Vec<T> = Vec::new();
    let mut i: usize = 0;
    while i < n
        invariant
            i <= n,
            r@.len() == i,
            forall|j: int| 0 <= j < i ==> r@[j] == x,
        decreases n - i,
    {
        r.push(x);
        i = i + 1;
    }
    r
}

/// Which ids can be reached from `0` along `edges`.
fn reachable_from_entry(edges: &Vec<Vec<usize>>) -> (r: Vec<bool>)
    requires
        edges@.len() > 0,
        rows_below(edges@, edges@.len() as int),
    ensures
        r@.len() == edges@.len(),
        r@[0],
        forall|u: int, k: int| 0 <= u < edges@.len() && r@[u] && 0 <= k < edges@[u]@.len() ==> r@[#[trigger] edges@[u]@[k] as int],
{
    let n = edges.len();
    let mut visited = filled(n, false);
    let mut stack: Vec<usize> = Vec::new();
    stack.push(0);
    visited.set(0, true);
    let ghost mut seen: Set<int> = Set::empty().insert(0);
    assert(stack@[0] == 0);
    assert forall|u: int| 0 <= u < n && visited@[u] implies u == 0 && stack@.contains(u as usize) by {}
    loop
        invariant
            n == edges@.len(),
            n > 0,
            rows_below(edges@, n as int),
            visited@.len() == n,
            visited@[0],
            forall|i: int| #[trigger] seen.contains(i) ==> 0 <= i < n,
            forall|i: int| 0 <= i < n ==> (seen.contains(i) <==> #[trigger] visited@[i]),
            seen.finite(),
            stack@.no_duplicates(),
            forall|j: int| 0 <= j < stack@.len() ==> #[trigger] stack@[j] < n && visited@[stack@[j] as int],
            forall|u: int, k: int| 0 <= u < n && visited@[u] && !stack@.contains(u as usize) && 0 <= k < edges@[u]@.len()
                ==> visited@[#[trigger] edges@[u]@[k] as int],
        ensures
            visited@.len() == n,
            visited@[0],
            forall|u: int, k: int| 0 <= u < n && visited@[u] && 0 <= k < edges@[u]@.len() ==> visited@[#[trigger] edges@[u]@[k] as int],
        decreases 2 * (n - seen.len()) + stack@.len(),
    {
        proof {
            lemma_room(seen, n + 1, n as int);
        }
        let ghost m0 = 2 * (n - seen.len()) + stack@.len();
        let ghost st0 = stack@;
        let u = match stack.pop() {
            None => break,
            Some(u) => u,
        };
        proof {
            assert(st0 == stack@.push(u));
            assert(st0[st0.len() - 1] == u);
            assert(!stack@.contains(u)) by {
                if stack@.contains(u) {
                    let k = choose|k: int| 0 <= k < stack@.len() && stack@[k] == u;
                    assert(st0[k] == u);
                }
            }
            assert forall|j: int| 0 <= j < stack@.len() implies #[trigger] stack@[j] < n && visited@[stack@[j] as int] by {
                assert(st0[j] == stack@[j]);
            }
            assert forall|w: usize| stack@.contains(w) implies st0.contains(w) by {
                let k = choose|k: int| 0 <= k < stack@.len() && stack@[k] == w;
                assert(st0[k] == w);
            }
        }
        let row = &edges[u];
        let mut k: usize = 0;
        while k < row.len()
            invariant
                n == edges@.len(),
                u < n,
                row@ == edges@[u as int]@,
                k <= row@.len(),
                rows_below(edges@, n as int),
                visited@.len() == n,
                visited@[0],
                visited@[u as int],
                forall|i: int| #[trigger] seen.contains(i) ==> 0 <= i < n,
                forall|i: int| 0 <= i < n ==> (seen.contains(i) <==> #[trigger] visited@[i]),
                seen.finite(),
                seen.len() <= n,
                stack@.no_duplicates(),
                forall|j: int| 0 <= j < stack@.len() ==> #[trigger] stack@[j] < n && visited@[stack@[j] as int],
                forall|j: int| 0 <= j < k ==> visited@[#[trigger] row@[j] as int],
                forall|w: int, q: int| 0 <= w < n && visited@[w] && w != u && !stack@.contains(w as usize) && 0 <= q < edges@[w]@.len()
                    ==> visited@[#[trigger] edges@[w]@[q] as int],
                2 * (n - seen.len()) + stack@.len() < m0,
            decreases row@.len() - k,
        {
            let v = row[k];
            assert(edges@[u as int]@[k as int] == v);
            if !visited[v] {
                let ghost sk = stack@;
                proof {
                    lemma_room(seen, n as int, v as int);
                    seen = seen.insert(v as int);
                    assert(!sk.contains(v)) by {
                        if sk.contains(v) {
                            let q = choose|q: int| 0 <= q < sk.len() && sk[q] == v;
                        }
                    }
                }
                visited.set(v, true);
                stack.push(v);
                proof {
                    assert forall|j: int| 0 <= j < stack@.len() implies #[trigger] stack@[j] < n && visited@[stack@[j] as int] by {
                        if j < sk.len() {
                            assert(sk[j] == stack@[j]);
                        }
                    }
                    assert(stack@[stack@.len() - 1] == v);
                    assert forall|w: usize| sk.contains(w) implies stack@.contains(w) by {
                        let q = choose|q: int| 0 <= q < sk.len() && sk[q] == w;
                        assert(stack@[q] == w);
                    }
                    assert forall|w: usize| stack@.contains(w) implies sk.contains(w) || w == v by {
                        let q = choose|q: int| 0 <= q < stack@.len() && stack@[q] == w;
                        if q < sk.len() {
                            assert(sk[q] == w);
                        }
                    }
                    assert forall|i: int, j: int| 0 <= i < j < stack@.len() implies stack@[i] != stack@[j] by {
                        if j == sk.len() {
                            assert(sk[i] == stack@[i]);
                            assert(sk.contains(stack@[i]));
                        } else {
                            assert(sk[i] == stack@[i]);
                            assert(sk[j] == stack@[j]);
                        }
                    }
                }
            }
            k = k + 1;
        }
    }
    visited
}

/// Whether every row other than `v`'s that names `v` belongs to a placed id.
fn predecessors_placed(rows: &Vec<Vec<usize>>, placed: &Vec<bool>, v: usize) -> (r: bool)
    requires
        rows@.len() == placed@.len(),
    ensures
        r == forall|u: int| 0 <= u < rows@.len() && u != v && #[trigger] rows@[u]@.contains(v) ==> placed@[u],
{
    let mut u: usize = 0;
    while u < rows.len()
        invariant
            u <= rows@.len(),
            rows@.len() == placed@.len(),
            forall|w: int| 0 <= w < u && w != v && #[trigger] rows@[w]@.contains(v) ==> placed@[w],
        decreases rows@.len() - u,
    {
        if u != v && !placed[u] && contains(&rows[u], v) {
            return false;
        }
        u = u + 1;
    }
    true
}

/// `(priority[a], a)` is at most `(priority[b], b)`.
pub open spec fn precedes(priority: Seq<usize>, a: int, b: int) -> bool {
    priority[a] < priority[b] || (priority[a] == priority[b] && a <= b)
}

/// The id `v` with `eligible[v]` and not `placed[v]` whose `(priority[v], v)`
/// is least, if there is one.
fn least_by_priority(eligible: &Vec<bool>, placed: &Vec<bool>, priority: &Vec<usize>) -> (r: Option<usize>)
    requires
        eligible@.len() == placed@.len(),
        priority@.len() == placed@.len(),
    ensures
        r is None ==> forall|v: int| 0 <= v < placed@.len() ==> !(eligible@[v] && !placed@[v]),
        r matches Some(v) ==> {
            &&& v < placed@.len()
            &&& eligible@[v as int] && !placed@[v as int]
            &&& forall|w: int| 0 <= w < placed@.len() && eligible@[w] && !placed@[w] ==>
                precedes(priority@, v as int, w)
        },
{
    let mut best: Option<usize> = None;
    let mut v: usize = 0;
    while v < placed.len()
        invariant
            v <= placed@.len(),
            eligible@.len() == placed@.len(),
            priority@.len() == placed@.len(),
            best is None ==> forall|w: int| 0 <= w < v ==> !(eligible@[w] && !placed@[w]),
            best matches Some(b) ==> {
                &&& b < v
                &&& eligible@[b as int] && !placed@[b as int]
                &&& forall|w: int| 0 <= w < v && eligible@[w] && !placed@[w] ==>
                    precedes(priority@, b as int, w)
            },
        decreases placed@.len() - v,
    {
        if eligible[v] && !placed[v] {
            match best {
                None => best = Some(v),
                Some(b) => {
                    if priority[v] < priority[b] {
                        best = Some(v);
                    }
                },
            }
        }
        v = v + 1;
    }
    best
}

/// `p` is a walk along `edges`: each id in it has an edge to the next.
pub open spec fn is_walk(edges: Seq<Vec<usize>>, p: Seq<usize>) -> bool {
    &&& p.len() >= 1
    &&& forall|i: int| #![trigger p[i]] 0 <= i < p.len() - 1 ==> p[i] < edges.len() && edges[p[i] as int]@.contains(p[i + 1])
}

/// Some walk along `edges` leads from `0` to `v`.
pub open spec fn reachable(edges: Seq<Vec<usize>>, v: usize) -> bool {
    exists|p: Seq<usize>| #[trigger] is_walk(edges, p) && p[0] == 0 && p.last() == v
}

/// No row names anything.
pub open spec fn all_empty(rows: Seq<Vec<usize>>) -> bool {
    forall|i: int| 0 <= i < rows.len() ==> (#[trigger] rows[i])@.len() == 0
}

/// Every id other than `w` whose row names `w` is placed.
pub open spec fn preds_placed(rows: Seq<Vec<usize>>, placed: Seq<bool>, w: usize) -> bool {
    forall|u: int| 0 <= u < rows.len() && u != w && #[trigger] rows[u]@.contains(w) ==> placed[u]
}

proof fn lemma_walk_stays(edges: Seq<Vec<usize>>, reach: Seq<bool>, p: Seq<usize>, i: int)
    requires
        edges.len() > 0,
        reach.len() == edges.len(),
        rows_below(edges, edges.len() as int),
        reach[0],
        forall|u: int, k: int| 0 <= u < edges.len() && reach[u] && 0 <= k < edges[u]@.len() ==> reach[#[trigger] edges[u]@[k] as int],
        is_walk(edges, p),
        p[0] == 0,
        0 <= i < p.len(),
    ensures
        p[i] < edges.len(),
        reach[p[i] as int],
    decreases i,
{
    if i > 0 {
        lemma_walk_stays(edges, reach, p, i - 1);
        let u = p[i - 1];
        assert(edges[u as int]@.contains(p[i]));
        let k = choose|k: int| 0 <= k < edges[u as int]@.len() && edges[u as int]@[k] == p[i];
        assert(reach[edges[u as int]@[k] as int]);
        assert(edges[u as int]@[k] < edges.len());
    }
}

/// Orders the ids reachable from `0` so that every id follows the ids with
/// an edge or a constraint edge into it. Among ids that are ready, the one
/// with the least `(priority, id)` goes first. Where nothing is ready but
/// reachable ids remain, the smallest of them that waits on no constraint
/// goes next, whatever edges lead into it; where every one of them waits on
/// a constraint, the sort fails.
pub fn topo_sort_stable_usize(
    edges: &Vec<Vec<usize>>,
    constraint_edges: &Vec<Vec<usize>>,
    priority: &Vec<usize>,
) -> (r: Result<Vec<usize>, StructureError>)
    requires
        edges@.len() > 0,
        constraint_edges@.len() == edges@.len(),
        priority@.len() == edges@.len(),
        rows_below(edges@, edges@.len() as int),
        rows_below(constraint_edges@, edges@.len() as int),
    ensures
        r is Err ==> r == Err::<Vec<usize>, StructureError>(StructureError::ConstraintCycle),
        all_empty(constraint_edges@) ==> r is Ok,
        r matches Ok(order) ==> {
            &&& order@.no_duplicates()
            &&& order@.contains(0)
            &&& forall|k: int| 0 <= k < order@.len() ==> #[trigger] order@[k] < edges@.len()
            &&& forall|v: usize| reachable(edges@, v) ==> order@.contains(v)
            &&& forall|a: int, b: int| #![trigger order@[a], order@[b]]
                0 <= a < order@.len() && 0 <= b < order@.len() && order@[a] != order@[b]
                && constraint_edges@[order@[a] as int]@.contains(order@[b]) ==> a < b
        },
{
    let n = edges.len();
    let reach = reachable_from_entry(edges);
    let mut placed = filled(n, false);
    let mut queued = filled(n, false);
    let mut order: Vec<usize> = Vec::new();
    let ghost mut done: Set<int> = Set::empty();
    let mut v: usize = 0;
    while v < n
        invariant
            v <= n,
            n == edges@.len(),
            placed@.len() == n,
            queued@.len() == n,
            reach@.len() == n,
            forall|w: int| 0 <= w < n ==> !placed@[w],
            constraint_edges@.len() == edges@.len(),
            forall|w: int| 0 <= w < n && #[trigger] queued@[w] ==> preds_placed(constraint_edges@, placed@, w as usize),
        decreases n - v,
    {
        if reach[v] && predecessors_placed(edges, &placed, v) && predecessors_placed(constraint_edges, &placed, v) {
            queued.set(v, true);
        }
        v = v + 1;
    }
    loop
        invariant
            n == edges@.len(),
            n > 0,
            constraint_edges@.len() == n,
            priority@.len() == n,
            rows_below(edges@, n as int),
            rows_below(constraint_edges@, n as int),
            placed@.len() == n,
            queued@.len() == n,
            reach@.len() == n,
            reach@[0],
            done.finite(),
            done.len() == order@.len(),
            forall|i: int| #[trigger] done.contains(i) ==> 0 <= i < n,
            forall|i: int| 0 <= i < n ==> (done.contains(i) <==> #[trigger] placed@[i]),
            forall|i: usize| order@.contains(i) <==> i < n && placed@[i as int],
            order@.no_duplicates(),
            forall|k: int| 0 <= k < order@.len() ==> #[trigger] order@[k] < n,
            forall|u: int, k: int| 0 <= u < n && reach@[u] && 0 <= k < edges@[u]@.len() ==> reach@[#[trigger] edges@[u]@[k] as int],
            forall|w: int| 0 <= w < n && #[trigger] queued@[w] && !placed@[w] ==> preds_placed(constraint_edges@, placed@, w as usize),
            forall|k: int, u: int| #![trigger order@[k], constraint_edges@[u]]
                0 <= k < order@.len() && 0 <= u < n && u != order@[k] && constraint_edges@[u]@.contains(order@[k])
                ==> exists|q: int| 0 <= q < k && order@[q] == u,
        ensures
            forall|w: int| 0 <= w < n && reach@[w] ==> placed@[w],
            forall|k: int, u: int| #![trigger order@[k], constraint_edges@[u]]
                0 <= k < order@.len() && 0 <= u < n && u != order@[k] && constraint_edges@[u]@.contains(order@[k])
                ==> exists|q: int| 0 <= q < k && order@[q] == u,

            forall|i: usize| order@.contains(i) <==> i < n && placed@[i as int],
            order@.no_duplicates(),
            forall|k: int| 0 <= k < order@.len() ==> #[trigger] order@[k] < n,
        decreases n - order@.len(),
    {
        let next = match least_by_priority(&queued, &placed, priority) {
            Some(w) => w,
            None => {
                let ghost some_left: int;
                match least_by_priority(&reach, &placed, priority) {
                    None => break,
                    Some(x) => {
                        proof {
                            some_left = x as int;
                        }
                    },
                }
                assert(reach@[some_left] && !placed@[some_left] && 0 <= some_left < n);
                let mut forced: Option<usize> = None;
                let mut w: usize = 0;
                while w < n
                    invariant
                        w <= n,
                        n == edges@.len(),
                        reach@.len() == n,
                        placed@.len() == n,
                        constraint_edges@.len() == n,
                        forced matches Some(f) ==> f < n && reach@[f as int] && !placed@[f as int]
                            && preds_placed(constraint_edges@, placed@, f),
                        forced is None && all_empty(constraint_edges@) ==> forall|x: int| 0 <= x < w ==> !(reach@[x] && !placed@[x]),
                    ensures
                        forced is None ==> w == n,
                    decreases n - w,
                {
                    if reach[w] && !placed[w] && predecessors_placed(constraint_edges, &placed, w) {
                        forced = Some(w);
                        break;
                    }
                    proof {
                        if all_empty(constraint_edges@) {
                            assert(preds_placed(constraint_edges@, placed@, w)) by {
                                assert forall|u: int| 0 <= u < n && u != w && #[trigger] constraint_edges@[u]@.contains(w) implies placed@[u] by {
                                    assert(constraint_edges@[u]@.len() == 0);
                                }
                            }
                        }
                    }
                    w = w + 1;
                }
                match forced {
                    None => return Err(StructureError::ConstraintCycle),
                    Some(w) => {
                        queued.set(w, true);
                        w
                    },
                }
            },
        };
        proof {
            lemma_room(done, n as int, next as int);
            assert(!order@.contains(next));
        }
        assert(preds_placed(constraint_edges@, placed@, next));
        let ghost o0 = order@;
        let ghost p0 = placed@;
        placed.set(next, true);
        order.push(next);
        proof {
            done = done.insert(next as int);
            assert(order@[o0.len() as int] == next);
            assert forall|i: usize| order@.contains(i) <==> i < n && placed@[i as int] by {
                if order@.contains(i) {
                    let k = choose|k: int| 0 <= k < order@.len() && order@[k] == i;
                    if k < o0.len() {
                        assert(o0[k] == i);
                    }
                }
                if o0.contains(i) {
                    let k = choose|k: int| 0 <= k < o0.len() && o0[k] == i;
                    assert(order@[k] == i);
                }
            }
            assert forall|a: int, b: int| 0 <= a < b < order@.len() implies order@[a] != order@[b] by {
                assert(order@[a] == o0[a]);
                if b == o0.len() {
                    assert(o0.contains(order@[a]));
                } else {
                    assert(order@[b] == o0[b]);
                }
            }
            assert forall|k: int, u: int| #![trigger order@[k], constraint_edges@[u]]
                0 <= k < order@.len() && 0 <= u < n && u != order@[k] && constraint_edges@[u]@.contains(order@[k])
                implies exists|q: int| 0 <= q < k && order@[q] == u by {
                if k < o0.len() {
                    assert(order@[k] == o0[k]);
                    let q = choose|q: int| 0 <= q < k && o0[q] == u;
                    assert(order@[q] == u);
                } else {
                    assert(order@[k] == next);
                    assert(p0[u]);
                    assert(o0.contains(u as usize));
                    let q = choose|q: int| 0 <= q < o0.len() && o0[q] == u as usize;
                    assert(order@[q] == u);
                }
            }
        }
        let row = &edges[next];
        let mut k: usize = 0;
        while k < row.len()
            invariant
                k <= row@.len(),
                next < n,
                row@ == edges@[next as int]@,
                forall|w: int| 0 <= w < n && #[trigger] queued@[w] && !placed@[w] ==> preds_placed(constraint_edges@, placed@, w as usize),
                n == edges@.len(),
                constraint_edges@.len() == n,
                rows_below(edges@, n as int),
                placed@.len() == n,
                queued@.len() == n,
            decreases row@.len() - k,
        {
            let w = row[k];
            assert(edges@[next as int]@[k as int] == w);
            if !queued[w] && predecessors_placed(edges, &placed, w)
                && predecessors_placed(constraint_edges, &placed, w) {
                queued.set(w, true);
            }
            k = k + 1;
        }
        let row = &constraint_edges[next];
        let mut k: usize = 0;
        while k < row.len()
            invariant
                k <= row@.len(),
                next < n,
                row@ == constraint_edges@[next as int]@,
                forall|w: int| 0 <= w < n && #[trigger] queued@[w] && !placed@[w] ==> preds_placed(constraint_edges@, placed@, w as usize),
                n == edges@.len(),
                constraint_edges@.len() == n,
                rows_below(constraint_edges@, n as int),
                placed@.len() == n,
                queued@.len() == n,
            decreases row@.len() - k,
        {
            let w = row[k];
            assert(constraint_edges@[next as int]@[k as int] == w);
            if !queued[w] && predecessors_placed(edges, &placed, w)
                && predecessors_placed(constraint_edges, &placed, w) {
                queued.set(w, true);
            }
            k = k + 1;
        }
    }
    proof {
        assert(placed@[0]);
        assert forall|v: usize| reachable(edges@, v) implies order@.contains(v) by {
            let p = choose|p: Seq<usize>| #[trigger] is_walk(edges@, p) && p[0] == 0 && p.last() == v;
            lemma_walk_stays(edges@, reach@, p, p.len() - 1);
        }
        assert forall|a: int, b: int| #![trigger order@[a], order@[b]]
            0 <= a < order@.len() && 0 <= b < order@.len() && order@[a] != order@[b]
            && constraint_edges@[order@[a] as int]@.contains(order@[b]) implies a < b by {
            let u = order@[a] as int;
            assert(order@[b] != u);
            let q = choose|q: int| 0 <= q < b && order@[q] == u;
            assert(q == a);
        }
    }
    Ok(order)
}

/// `t` with every target `x` replaced by `f[x]`.
pub open spec fn renumbered(t: Terminator, f: Seq<usize>) -> Terminator {
    match t {
        Terminator::Normal => Terminator::Normal,
        Terminator::Ret => Terminator::Ret,
        Terminator::Abort => Terminator::Abort,
        Terminator::Branch { target } => Terminator::Branch { target: f[target as int] },
        Terminator::Break { target } => Terminator::Break { target: f[target as int] },
        Terminator::Continue { target } => Terminator::Continue { target: f[target as int] },
        Terminator::IfElse { if_block, else_block } => Terminator::IfElse {
            if_block: f[if_block as int],
            else_block: f[else_block as int],
        },
        Terminator::While { inner_block, outer_block } => Terminator::While {
            inner_block: f[inner_block as int],
            outer_block: f[outer_block as int],
        },
    }
}

fn renumber_terminator(t: Terminator, f: &Vec<usize>) -> (r: Terminator)
    requires
        forall|k: int| 0 <= k < targets(t).len() ==> #[trigger] targets(t)[k] < f@.len(),
    ensures
        r == renumbered(t, f@),
{
    match t {
        Terminator::Normal => Terminator::Normal,
        Terminator::Ret => Terminator::Ret,
        Terminator::Abort => Terminator::Abort,
        Terminator::Branch { target } => {
            assert(targets(t)[0] == target);
            Terminator::Branch { target: f[target] }
        },
        Terminator::Break { target } => {
            assert(targets(t)[0] == target);
            Terminator::Break { target: f[target] }
        },
        Terminator::Continue { target } => {
            assert(targets(t)[0] == target);
            Terminator::Continue { target: f[target] }
        },
        Terminator::IfElse { if_block, else_block } => {
            assert(targets(t)[0] == if_block);
            assert(targets(t)[1] == else_block);
            Terminator::IfElse { if_block: f[if_block], else_block: f[else_block] }
        },
        Terminator::While { inner_block, outer_block } => {
            assert(targets(t)[0] == inner_block);
            assert(targets(t)[1] == outer_block);
            Terminator::While { inner_block: f[inner_block], outer_block: f[outer_block] }
        },
    }
}

/// The ids `f[x]` for `x` in `xs`, each once.
fn renumber_all(xs: &Vec<usize>, f: &Vec<usize>) -> (r: Vec<usize>)
    requires
        forall|k: int| 0 <= k < xs@.len() ==> #[trigger] xs@[k] < f@.len(),
    ensures
        forall|y: usize| r@.contains(y) <==> exists|k: int| 0 <= k < xs@.len() && f@[#[trigger] xs@[k] as int] == y,
{
    let mut r: Vec<usize> = Vec::new();
    let mut i: usize = 0;
    while i < xs.len()
        invariant
            i <= xs@.len(),
            forall|k: int| 0 <= k < xs@.len() ==> #[trigger] xs@[k] < f@.len(),
            forall|y: usize| r@.contains(y) <==> exists|k: int| 0 <= k < i && f@[#[trigger] xs@[k] as int] == y,
        decreases xs@.len() - i,
    {
        let y = f[xs[i]];
        let ghost r0 = r@;
        if !contains(&r, y) {
            r.push(y);
        }
        proof {
            assert forall|z: usize| r@.contains(z) <==> exists|k: int| 0 <= k < i + 1 && f@[#[trigger] xs@[k] as int] == z by {
                if r@.contains(z) {
                    let q = choose|q: int| 0 <= q < r@.len() && r@[q] == z;
                    if q < r0.len() {
                        assert(r0[q] == z);
                        assert(r0.contains(z));
                        let k = choose|k: int| 0 <= k < i && f@[#[trigger] xs@[k] as int] == z;
                        assert(f@[xs@[k] as int] == z);
                    } else {
                        assert(f@[xs@[i as int] as int] == z);
                    }
                }
                if exists|k: int| 0 <= k < i + 1 && f@[#[trigger] xs@[k] as int] == z {
                    let k = choose|k: int| 0 <= k < i + 1 && f@[#[trigger] xs@[k] as int] == z;
                    if k < i {
                        assert(r0.contains(z));
                        let q = choose|q: int| 0 <= q < r0.len() && r0[q] == z;
                        assert(r@[q] == z);
                    } else if r@.len() > r0.len() {
                        assert(r@[r0.len() as int] == z);
                    }
                }
            }
        }
        i = i + 1;
    }
    r
}

/// No block carries an ordering constraint.
pub open spec fn unconstrained(blocks: Seq<BasicBlock>) -> bool {
    forall|i: int| 0 <= i < blocks.len() ==> (#[trigger] blocks[i]).topo_before@.len() == 0 && blocks[i].topo_after@.len() == 0
}

/// `p` is a path of control flow: each block in it can hand control to the
/// next.
pub open spec fn is_flow_walk(blocks: Seq<BasicBlock>, p: Seq<usize>) -> bool {
    &&& p.len() >= 1
    &&& forall|i: int| #![trigger p[i]] 0 <= i < p.len() ==> p[i] < blocks.len()
    &&& forall|i: int| #![trigger p[i]] 0 <= i < p.len() - 1 ==> targets(blocks[p[i] as int].next).contains(p[i + 1])
}

/// Control can flow from block `0` to block `v`.
pub open spec fn flows_to(blocks: Seq<BasicBlock>, v: usize) -> bool {
    exists|p: Seq<usize>| #[trigger] is_flow_walk(blocks, p) && p[0] == 0 && p.last() == v
}

/// The edges, constraint edges and priorities that `topo_sort` orders
/// the blocks by.
fn ordering_rows(blocks: &Vec<BasicBlock>) -> (r: (Vec<Vec<usize>>, Vec<Vec<usize>>, Vec<usize>))
    requires
        blocks_wf(blocks@),
        blocks@.len() <= usize::MAX / 100000,
    ensures
        r.0@.len() == blocks@.len(),
        r.1@.len() == blocks@.len(),
        r.2@.len() == blocks@.len(),
        rows_below(r.0@, blocks@.len() as int),
        rows_below(r.1@, blocks@.len() as int),
        forall|j: int, y: usize| 0 <= j < blocks@.len() && targets(blocks@[j].next).contains(y) ==> #[trigger] r.0@[j]@.contains(y),
        unconstrained(blocks@) ==> all_empty(r.1@),
        forall|j: int, q: int| 0 <= j < blocks@.len() && 0 <= q < blocks@[j].topo_before@.len() && blocks@[j].topo_before@[q] < blocks@.len()
            ==> #[trigger] r.1@[j]@.contains(#[trigger] blocks@[j].topo_before@[q]),
        forall|j: int, q: int| 0 <= j < blocks@.len() && 0 <= q < blocks@[j].topo_after@.len() && blocks@[j].topo_after@[q] < blocks@.len()
            ==> #[trigger] r.1@[blocks@[j].topo_after@[q] as int]@.contains(j as usize),
{
    let n = blocks.len();
    let mut edges: Vec<Vec<usize>> = Vec::new();
    let mut constraint_edges: Vec<Vec<usize>> = Vec::new();
    let mut priority: Vec<usize> = Vec::new();
    let mut i: usize = 0;
    while i < n
        invariant
            i <= n,
            n == blocks@.len(),
            edges@.len() == i,
            constraint_edges@.len() == i,
            priority@.len() == i,
            forall|j: int| 0 <= j < i ==> #[trigger] edges@[j]@.len() == 0,
            forall|j: int| 0 <= j < i ==> #[trigger] constraint_edges@[j]@.len() == 0,
        decreases n - i,
    {
        edges.push(Vec::new());
        constraint_edges.push(Vec::new());
        priority.push(0);
        i = i + 1;
    }
    assert(rows_below(edges@, n as int));
    assert(rows_below(constraint_edges@, n as int));
    let mut i: usize = 0;
    while i < n
        invariant
            i <= n,
            n == blocks@.len(),
            n <= usize::MAX / 100000,
            blocks_wf(blocks@),
            edges@.len() == n,
            constraint_edges@.len() == n,
            priority@.len() == n,
            rows_below(edges@, n as int),
            rows_below(constraint_edges@, n as int),
            forall|j: int, y: usize| 0 <= j < i && targets(blocks@[j].next).contains(y) ==> #[trigger] edges@[j]@.contains(y),
            unconstrained(blocks@) ==> all_empty(constraint_edges@),
            forall|j: int, q: int| 0 <= j < i && 0 <= q < blocks@[j].topo_before@.len() && blocks@[j].topo_before@[q] < n
                ==> #[trigger] constraint_edges@[j]@.contains(#[trigger] blocks@[j].topo_before@[q]),
            forall|j: int, q: int| 0 <= j < i && 0 <= q < blocks@[j].topo_after@.len() && blocks@[j].topo_after@[q] < n
                ==> #[trigger] constraint_edges@[blocks@[j].topo_after@[q] as int]@.contains(j as usize),
        decreases n - i,
    {
        let b = &blocks[i];
        let ghost e0 = edges@;
        assert(block_wf(blocks@[i as int], i as int, n as int));
        priority.set(i, match b.topo_priority {
            Some(p) => p,
            None => if b.offset != SYNTHETIC_OFFSET { b.idx * 100000 + 1 } else { usize::MAX - 1 },
        });
        let ghost t = b.next;
        match b.next {
            Terminator::IfElse { if_block, else_block } => {
                assert(targets(t)[0] == if_block && targets(t)[1] == else_block);
                push_at(&mut edges, i, if_block);
                push_at(&mut edges, i, else_block);
            },
            Terminator::Break { target } | Terminator::Continue { target } | Terminator::Branch { target } => {
                assert(targets(t)[0] == target);
                push_at(&mut edges, i, target);
            },
            Terminator::While { inner_block, outer_block } => {
                assert(targets(t)[0] == inner_block && targets(t)[1] == outer_block);
                push_at(&mut edges, i, inner_block);
                push_at(&mut edges, i, outer_block);
                push_at(&mut edges, inner_block, outer_block);
            },
            _ => {},
        }
        proof {
            assert forall|j: int, y: usize| 0 <= j < i + 1 && targets(blocks@[j].next).contains(y) implies #[trigger] edges@[j]@.contains(y) by {
                if j < i {
                    assert(e0[j]@.contains(y));
                } else {
                    let q = choose|q: int| 0 <= q < targets(t).len() && targets(t)[q] == y;
                }
            }
        }
        let mut k: usize = 0;
        while k < b.topo_before.len()
            invariant
                *b == blocks@[i as int],
                unconstrained(blocks@) ==> all_empty(constraint_edges@),
                forall|j: int, q: int| 0 <= j < i && 0 <= q < blocks@[j].topo_before@.len() && blocks@[j].topo_before@[q] < n
                ==> #[trigger] constraint_edges@[j]@.contains(#[trigger] blocks@[j].topo_before@[q]),
                forall|j: int, q: int| 0 <= j < i && 0 <= q < blocks@[j].topo_after@.len() && blocks@[j].topo_after@[q] < n
                ==> #[trigger] constraint_edges@[blocks@[j].topo_after@[q] as int]@.contains(j as usize),
                forall|q: int| 0 <= q < k && b.topo_before@[q] < n ==> #[trigger] constraint_edges@[i as int]@.contains(b.topo_before@[q]),
                k <= b.topo_before@.len(),
                i < n,
                n == blocks@.len(),
                block_wf(*b, i as int, n as int),
                constraint_edges@.len() == n,
                rows_below(constraint_edges@, n as int),
            decreases b.topo_before@.len() - k,
        {
            let x = b.topo_before[k];
            if x < n {
                push_at(&mut constraint_edges, i, x);
            }
            k = k + 1;
        }
        let mut k: usize = 0;
        while k < b.topo_after.len()
            invariant
                *b == blocks@[i as int],
                unconstrained(blocks@) ==> all_empty(constraint_edges@),
                forall|j: int, q: int| 0 <= j < i + 1 && 0 <= q < blocks@[j].topo_before@.len() && blocks@[j].topo_before@[q] < n
                ==> #[trigger] constraint_edges@[j]@.contains(#[trigger] blocks@[j].topo_before@[q]),
                forall|j: int, q: int| 0 <= j < i && 0 <= q < blocks@[j].topo_after@.len() && blocks@[j].topo_after@[q] < n
                ==> #[trigger] constraint_edges@[blocks@[j].topo_after@[q] as int]@.contains(j as usize),
                forall|q: int| 0 <= q < k && b.topo_after@[q] < n ==> #[trigger] constraint_edges@[b.topo_after@[q] as int]@.contains(i),
                k <= b.topo_after@.len(),
                i < n,
                n == blocks@.len(),
                block_wf(*b, i as int, n as int),
                constraint_edges@.len() == n,
                rows_below(constraint_edges@, n as int),
            decreases b.topo_after@.len() - k,
        {
            let x = b.topo_after[k];
            if x < n {
                push_at(&mut constraint_edges, x, i);
            }
            k = k + 1;
        }
        i = i + 1;
    }
    (edges, constraint_edges, priority)
}

proof fn lemma_constraints_kept(blocks: Seq<BasicBlock>, cons: Seq<Vec<usize>>, ord: Seq<usize>)
    requires
        cons.len() == blocks.len(),
        forall|k: int| 0 <= k < ord.len() ==> #[trigger] ord[k] < blocks.len(),
        forall|j: int, q: int| 0 <= j < blocks.len() && 0 <= q < blocks[j].topo_before@.len() && blocks[j].topo_before@[q] < blocks.len()
            ==> #[trigger] cons[j]@.contains(#[trigger] blocks[j].topo_before@[q]),
        forall|j: int, q: int| 0 <= j < blocks.len() && 0 <= q < blocks[j].topo_after@.len() && blocks[j].topo_after@[q] < blocks.len()
            ==> #[trigger] cons[blocks[j].topo_after@[q] as int]@.contains(j as usize),
        forall|a: int, b: int| #![trigger ord[a], ord[b]]
            0 <= a < ord.len() && 0 <= b < ord.len() && ord[a] != ord[b] && cons[ord[a] as int]@.contains(ord[b]) ==> a < b,
    ensures
        forall|a: int, b: int| #![trigger ord[a], ord[b]]
            0 <= a < ord.len() && 0 <= b < ord.len() && ord[a] != ord[b]
            && (blocks[ord[a] as int].topo_before@.contains(ord[b]) || blocks[ord[b] as int].topo_after@.contains(ord[a]))
            ==> a < b,
{
    assert forall|a: int, b: int| #![trigger ord[a], ord[b]]
        0 <= a < ord.len() && 0 <= b < ord.len() && ord[a] != ord[b]
        && (blocks[ord[a] as int].topo_before@.contains(ord[b]) || blocks[ord[b] as int].topo_after@.contains(ord[a]))
        implies a < b by {
        let x = ord[a] as int;
        let y = ord[b] as int;
        if blocks[x].topo_before@.contains(ord[b]) {
            let q = choose|q: int| 0 <= q < blocks[x].topo_before@.len() && blocks[x].topo_before@[q] == ord[b];
            assert(cons[x]@.contains(blocks[x].topo_before@[q]));
        } else {
            let q = choose|q: int| 0 <= q < blocks[y].topo_after@.len() && blocks[y].topo_after@[q] == ord[a];
            assert(cons[blocks[y].topo_after@[q] as int]@.contains(y as usize));
        }
        assert(cons[ord[a] as int]@.contains(ord[b]));
    }
}

proof fn lemma_flow_kept(blocks: Seq<BasicBlock>, edges: Seq<Vec<usize>>, ord: Seq<usize>)
    requires
        edges.len() == blocks.len(),
        forall|j: int, y: usize| 0 <= j < blocks.len() && targets(blocks[j].next).contains(y) ==> #[trigger] edges[j]@.contains(y),
        forall|v: usize| reachable(edges, v) ==> ord.contains(v),
    ensures
        forall|v: usize| flows_to(blocks, v) ==> ord.contains(v),
{
    assert forall|v: usize| flows_to(blocks, v) implies ord.contains(v) by {
        let p = choose|p: Seq<usize>| #[trigger] is_flow_walk(blocks, p) && p[0] == 0 && p.last() == v;
        assert forall|i: int| #![trigger p[i]] 0 <= i < p.len() - 1 implies p[i] < edges.len() && edges[p[i] as int]@.contains(p[i + 1]) by {
            assert(targets(blocks[p[i] as int].next).contains(p[i + 1]));
        }
        assert(is_walk(edges, p));
        assert(reachable(edges, v));
    }
}

/// Puts the blocks reachable from block `0` into emission order (see
/// `topo_sort_stable_usize`) and renumbers every block reference to match.
/// Edges come from the terminators; a `While` also orders its body before
/// the block after the loop. `topo_before` and `topo_after` add constraint
/// edges.
pub fn topo_sort(blocks: Vec<BasicBlock>) -> (r: Result<Vec<BasicBlock>, StructureError>)
    requires
        blocks_wf(blocks@),
        blocks@.len() <= usize::MAX / 100000,
    ensures
        (exists|i: int| 0 <= i < blocks@.len() && blocks@[i].next == Terminator::Normal)
            ==> r == Err::<Vec<BasicBlock>, StructureError>(StructureError::UnsupportedTerminator),
        (forall|i: int| 0 <= i < blocks@.len() ==> blocks@[i].next != Terminator::Normal) && unconstrained(blocks@)
            ==> r is Ok,
        r is Err ==> r == Err::<Vec<BasicBlock>, StructureError>(StructureError::UnsupportedTerminator)
            || r == Err::<Vec<BasicBlock>, StructureError>(StructureError::ConstraintCycle),
        r matches Ok(out) ==> {
            &&& blocks_wf(out@)
            &&& blocks@.len() > 0 ==> out@.len() > 0
            &&& exists|ord: Seq<usize>, pos: Seq<usize>| #![trigger ord.len(), pos.len()] {
                &&& ord.len() == out@.len()
                &&& pos.len() == blocks@.len()
                &&& ord.no_duplicates()
                &&& forall|v: usize| flows_to(blocks@, v) ==> ord.contains(v)
                &&& forall|a: int, b: int| #![trigger ord[a], ord[b]]
                    0 <= a < ord.len() && 0 <= b < ord.len() && ord[a] != ord[b]
                    && (blocks@[ord[a] as int].topo_before@.contains(ord[b]) || blocks@[ord[b] as int].topo_after@.contains(ord[a]))
                    ==> a < b
                &&& forall|k: int| 0 <= k < ord.len() ==> {
                    let b = blocks@[#[trigger] ord[k] as int];
                    &&& ord[k] < blocks@.len()
                    &&& pos[ord[k] as int] == k
                    &&& out@[k].offset == b.offset
                    &&& out@[k].topo_priority == b.topo_priority
                    &&& out@[k].next == renumbered(b.next, pos)
                    &&& forall|y: usize| out@[k].topo_before@.contains(y) <==>
                        exists|q: int| 0 <= q < b.topo_before@.len() && pos[#[trigger] b.topo_before@[q] as int] == y
                    &&& forall|y: usize| out@[k].topo_after@.contains(y) <==>
                        exists|q: int| 0 <= q < b.topo_after@.len() && pos[#[trigger] b.topo_after@[q] as int] == y
                    &&& out@[k].unconditional_loop_entry == match b.unconditional_loop_entry {
                        Some(x) => Some(if x < blocks@.len() { pos[x as int] } else { x }),
                        None => None,
                    }
                }
            }
        },
{
    let n = blocks.len();
    if n == 0 {
        let out: Vec<BasicBlock> = Vec::new();
        proof {
            let ord = Seq::<usize>::empty();
            let pos = Seq::<usize>::empty();
            assert(ord.len() == out@.len() && pos.len() == blocks@.len() && ord.no_duplicates());
        }
        return Ok(out);
    }
    let mut i: usize = 0;
    while i < n
        invariant
            i <= n,
            n == blocks@.len(),
            forall|j: int| 0 <= j < i ==> blocks@[j].next != Terminator::Normal,
        decreases n - i,
    {
        if blocks[i].next == Terminator::Normal {
            return Err(StructureError::UnsupportedTerminator);
        }
        i = i + 1;
    }
    let (edges, constraint_edges, priority) = ordering_rows(&blocks);
    let order = topo_sort_stable_usize(&edges, &constraint_edges, &priority)?;
    let mut position = filled(n, 0usize);
    let mut k: usize = 0;
    while k < order.len()
        invariant
            k <= order@.len(),
            position@.len() == n,
            order@.len() > 0,
            order@.no_duplicates(),
            forall|q: int| 0 <= q < order@.len() ==> #[trigger] order@[q] < n,
            forall|x: int| 0 <= x < n ==> #[trigger] position@[x] < order@.len(),
            forall|q: int| 0 <= q < k ==> position@[#[trigger] order@[q] as int] == q,
        decreases order@.len() - k,
    {
        position.set(order[k], k);
        proof {
            assert forall|q: int| 0 <= q < k + 1 implies position@[#[trigger] order@[q] as int] == q by {
                if q < k {
                    assert(order@[q] != order@[k as int]);
                }
            }
        }
        k = k + 1;
    }
    let mut out: Vec<BasicBlock> = Vec::new();
    let mut k: usize = 0;
    while k < order.len()
        invariant
            k <= order@.len(),
            n == blocks@.len(),
            blocks_wf(blocks@),
            position@.len() == n,
            order@.no_duplicates(),
            forall|q: int| 0 <= q < order@.len() ==> #[trigger] order@[q] < n,
            forall|x: int| 0 <= x < n ==> #[trigger] position@[x] < order@.len(),
            out@.len() == k,
            forall|q: int| 0 <= q < k ==> block_wf(#[trigger] out@[q], q, order@.len() as int),
            forall|q: int| 0 <= q < order@.len() ==> position@[#[trigger] order@[q] as int] == q,
            forall|q: int| 0 <= q < k ==> {
                let b = blocks@[order@[q] as int];
                &&& (#[trigger] out@[q]).offset == b.offset
                &&& out@[q].topo_priority == b.topo_priority
                &&& out@[q].next == renumbered(b.next, position@)
                &&& forall|y: usize| out@[q].topo_before@.contains(y) <==>
                    exists|z: int| 0 <= z < b.topo_before@.len() && position@[#[trigger] b.topo_before@[z] as int] == y
                &&& forall|y: usize| out@[q].topo_after@.contains(y) <==>
                    exists|z: int| 0 <= z < b.topo_after@.len() && position@[#[trigger] b.topo_after@[z] as int] == y
                &&& out@[q].unconditional_loop_entry == match b.unconditional_loop_entry {
                    Some(x) => Some(if x < blocks@.len() { position@[x as int] } else { x }),
                    None => None,
                }
            },
        decreases order@.len() - k,
    {
        let b = &blocks[order[k]];
        assert(block_wf(blocks@[order@[k as int] as int], order@[k as int] as int, n as int));
        let next = renumber_terminator(b.next, &position);
        let topo_before = renumber_all(&b.topo_before, &position);
        let topo_after = renumber_all(&b.topo_after, &position);
        let unconditional_loop_entry = match b.unconditional_loop_entry {
            Some(x) => Some(if x < n { position[x] } else { x }),
            None => None,
        };
        let nb = BasicBlock {
            idx: k,
            offset: b.offset,
            next,
            topo_priority: b.topo_priority,
            topo_before,
            topo_after,
            unconditional_loop_entry,
        };
        proof {
            let m = order@.len() as int;
            assert forall|q: int| 0 <= q < targets(nb.next).len() implies #[trigger] targets(nb.next)[q] < m by {
                assert(targets(nb.next)[q] == position@[targets(b.next)[q] as int]);
            }
            assert forall|q: int| 0 <= q < nb.topo_before@.len() implies #[trigger] nb.topo_before@[q] < m by {
                assert(nb.topo_before@.contains(nb.topo_before@[q]));
            }
            assert forall|q: int| 0 <= q < nb.topo_after@.len() implies #[trigger] nb.topo_after@[q] < m by {
                assert(nb.topo_after@.contains(nb.topo_after@[q]));
            }
        }
        out.push(nb);
        k = k + 1;
    }
    proof {
        assert(forall|q: int| 0 <= q < out@.len() ==> block_wf(#[trigger] out@[q], q, out@.len() as int));
        assert(order@.contains(0));
        let ord = order@;
        let pos = position@;
        assert(ord.len() == out@.len() && pos.len() == blocks@.len());
        lemma_constraints_kept(blocks@, constraint_edges@, ord);
        lemma_flow_kept(blocks@, edges@, ord);
        assert(forall|k: int| 0 <= k < ord.len() ==> pos[#[trigger] ord[k] as int] == k);
    }
    Ok(out)
}

} // verus!
