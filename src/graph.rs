use vstd::prelude::*;
use vstd::set_lib::{lemma_int_range, lemma_len_subset, set_int_range};

verus! {

/// A set of ids below `n` that misses one of them has fewer than `n`
/// members.
pub proof fn lemma_room(s: Set<int>, n: int, v: int)
    requires
        forall|i: int| #[trigger] s.contains(i) ==> 0 <= i < n,
        0 <= v < n,
        !s.contains(v),
    ensures
        s.finite(),
        s.len() < n,
{
    lemma_int_range(0, n);
    let full = set_int_range(0, n);
    assert(s.subset_of(full.remove(v)));
    lemma_len_subset(s, full.remove(v));
}

/// Whether `v` holds `x`.
pub fn contains(v: &Vec<usize>, x: usize) -> (r: bool)
    ensures
        r == v@.contains(x),
{
    let mut i: usize = 0;
    while i < v.len()
        invariant
            i <= v.len(),
            forall|j: int| 0 <= j < i ==> v@[j] != x,
        decreases v.len() - i,
    {
        if v[i] == x {
            return true;
        }
        i = i + 1;
    }
    false
}

/// A directed graph over the node ids `0..n`, with a set of successors for
/// each node.
#[derive(Debug, Clone)]
pub struct Graph {
    /// Which ids are registered as nodes.
    pub nodes: Vec<bool>,
    /// Successors of each node, without repeats.
    pub succ: Vec<Vec<usize>>,
}

impl Graph {
    /// The number of ids this graph ranges over.
    pub open spec fn n(&self) -> int {
        self.nodes@.len() as int
    }

    pub open spec fn has_node(&self, u: usize) -> bool {
        u < self.n() && self.nodes@[u as int]
    }

    pub open spec fn has_edge(&self, u: usize, v: usize) -> bool {
        u < self.n() && self.succ@[u as int]@.contains(v)
    }

    /// Edges join registered nodes, and successor lists hold no repeats.
    pub open spec fn wf(&self) -> bool {
        &&& self.succ@.len() == self.nodes@.len()
        &&& forall|u: int| 0 <= u < self.n() ==> #[trigger] self.succ@[u]@.no_duplicates()
        &&& forall|u: int, i: int|
            0 <= u < self.n() && 0 <= i < self.succ@[u]@.len() ==> {
                let v = #[trigger] self.succ@[u]@[i];
                &&& v < self.n()
                &&& self.nodes@[v as int]
                &&& self.nodes@[u]
            }
    }

    /// An empty graph over the ids `0..n`.
    pub fn new(n: usize) -> (r: Graph)
        ensures
            r.wf(),
            r.n() == n,
            forall|u: usize| !r.has_node(u),
            forall|u: usize, v: usize| !r.has_edge(u, v),
    {
        let mut nodes: Vec<bool> = Vec::new();
        let mut succ: Vec<Vec<usize>> = Vec::new();
        let mut i: usize = 0;
        while i < n
            invariant
                i <= n,
                nodes@.len() == i,
                succ@.len() == i,
                forall|u: int| 0 <= u < i ==> !nodes@[u],
                forall|u: int| 0 <= u < i ==> (#[trigger] succ@[u])@.len() == 0,
            decreases n - i,
        {
            nodes.push(false);
            succ.push(Vec::new());
            i = i + 1;
        }
        Graph { nodes, succ }
    }

    /// Registers `id` as a node, with no new edges.
    pub fn ensure_node(&mut self, id: usize)
        requires
            old(self).wf(),
            id < old(self).n(),
        ensures
            final(self).wf(),
            final(self).n() == old(self).n(),
            forall|u: usize| final(self).has_node(u) == (old(self).has_node(u) || u == id),
            forall|u: usize, v: usize| final(self).has_edge(u, v) == old(self).has_edge(u, v),
    {
        self.nodes.set(id, true);
    }

    /// Registers both ends as nodes and adds the edge `from -> to`; an edge
    /// that is already there is not repeated.
    pub fn add_edge(&mut self, from: usize, to: usize)
        requires
            old(self).wf(),
            from < old(self).n(),
            to < old(self).n(),
        ensures
            final(self).wf(),
            final(self).n() == old(self).n(),
            forall|u: usize| final(self).has_node(u) == (old(self).has_node(u) || u == from || u == to),
            forall|u: usize, v: usize|
                final(self).has_edge(u, v) == (old(self).has_edge(u, v) || (u == from && v == to)),
    {
        self.nodes.set(from, true);
        self.nodes.set(to, true);
        if !contains(&self.succ[from], to) {
            let mut row: Vec<usize> = Vec::new();
            self.succ.set_and_swap(from, &mut row);
            let ghost old_row = row@;
            row.push(to);
            self.succ.set_and_swap(from, &mut row);
            proof {
                assert forall|v: usize| self.succ@[from as int]@.contains(v) == (old_row.contains(v) || v == to) by {
                    if old_row.contains(v) {
                        let k = choose|k: int| 0 <= k < old_row.len() && old_row[k] == v;
                        assert(self.succ@[from as int]@[k] == v);
                    }
                    if v == to {
                        assert(self.succ@[from as int]@[old_row.len() as int] == to);
                    }
                }
                assert(self.succ@[from as int]@ =~= old_row.push(to));
                assert(old_row == old(self).succ@[from as int]@);
                assert(old_row.no_duplicates());
                assert(!old_row.contains(to));
                assert(self.succ@[from as int]@.no_duplicates()) by {
                    assert forall|i: int, j: int|
                        0 <= i < j < old_row.len() + 1 implies old_row.push(to)[i] != old_row.push(to)[j] by {
                        if j == old_row.len() {
                            assert(old_row.push(to)[i] == old_row[i]);
                            assert(old_row.contains(old_row[i]));
                        } else {
                            assert(old_row.push(to)[i] == old_row[i]);
                            assert(old_row.push(to)[j] == old_row[j]);
                        }
                    }
                }
            }
        }
        proof {
            assert forall|u: int, i: int|
                0 <= u < self.n() && 0 <= i < self.succ@[u]@.len() implies {
                    let v = #[trigger] self.succ@[u]@[i];
                    &&& v < self.n()
                    &&& self.nodes@[v as int]
                    &&& self.nodes@[u]
                } by {
                if u != from as int || i < old(self).succ@[u]@.len() {
                    assert(self.succ@[u]@[i] == old(self).succ@[u]@[i]);
                }
            }
        }
    }

    /// Whether `id` is a registered node.
    pub fn contains_node(&self, id: usize) -> (r: bool)
        requires
            self.wf(),
        ensures
            r == self.has_node(id),
    {
        id < self.nodes.len() && self.nodes[id]
    }

    /// The successors of `node`: empty for an id that has none.
    pub fn edges(&self, node: usize) -> (r: &Vec<usize>)
        requires
            self.wf(),
            node < self.n(),
        ensures
            r@ == self.succ@[node as int]@,
            forall|v: usize| r@.contains(v) ==> self.has_edge(node, v),
    {
        &self.succ[node]
    }

    /// The registered nodes, in ascending order.
    pub fn nodes(&self) -> (r: Vec<usize>)
        requires
            self.wf(),
        ensures
            forall|u: usize| self.has_node(u) <==> r@.contains(u),
            forall|i: int| 0 <= i < r@.len() ==> self.has_node(#[trigger] r@[i]),
            r@.no_duplicates(),
    {
        let mut r: Vec<usize> = Vec::new();
        let mut i: usize = 0;
        while i < self.nodes.len()
            invariant
                i <= self.nodes@.len(),
                forall|u: usize| u < i ==> (self.has_node(u) <==> r@.contains(u)),
                forall|j: int| 0 <= j < r@.len() ==> self.has_node(#[trigger] r@[j]) && r@[j] < i,
                r@.no_duplicates(),
            decreases self.nodes@.len() - i,
        {
            let ghost r0 = r@;
            if self.nodes[i] {
                r.push(i);
                proof {
                    assert forall|u: usize| u < i + 1 implies (self.has_node(u) <==> r@.contains(u)) by {
                        if r0.contains(u) {
                            let k = choose|k: int| 0 <= k < r0.len() && r0[k] == u;
                            assert(r@[k] == u);
                        }
                        if u == i {
                            assert(r@[r0.len() as int] == u);
                        }
                    }
                }
            }
            i = i + 1;
        }
        r
    }
}

} // verus!
