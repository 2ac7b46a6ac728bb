use vstd::prelude::*;
use crate::graph::{lemma_room, Graph};

verus! {

/// The strongly connected components of a graph, numbered in the order in
/// which the search closed them.
#[derive(Debug)]
pub struct TarjanScc {
    /// The component of each id; `None` for an id that is no node.
    pub scc: Vec<Option<usize>>,
    /// The members of each component.
    pub sccs: Vec<Vec<usize>>,
}

/// `scc` and `sccs` agree: an id names a component exactly when the
/// component lists it.
pub open spec fn partition_wf(scc: Seq<Option<usize>>, sccs: Seq<Vec<usize>>) -> bool {
    &&& forall|u: int| 0 <= u < scc.len() && (#[trigger] scc[u]).is_some() ==> {
        let c = scc[u].unwrap() as int;
        &&& c < sccs.len()
        &&& sccs[c]@.contains(u as usize)
    }
    &&& forall|c: int, k: int| 0 <= c < sccs.len() && 0 <= k < sccs[c]@.len() ==> {
        let m = #[trigger] sccs[c]@[k];
        &&& m < scc.len()
        &&& scc[m as int] == Some(c as usize)
    }
}

impl TarjanScc {
    /// Every node of `graph` lies in exactly one component, and only nodes do.
    pub open spec fn wf_for(&self, graph: &Graph) -> bool {
        &&& self.scc@.len() == graph.n()
        &&& partition_wf(self.scc@, self.sccs@)
        &&& forall|u: usize| u < graph.n() ==> (graph.has_node(u) <==> (#[trigger] self.scc@[u as int]).is_some())
    }
}

/// The state of the depth-first search.
struct Search {
    index: usize,
    stack: Vec<usize>,
    in_stack: Vec<bool>,
    indices: Vec<Option<usize>>,
    lowlinks: Vec<usize>,
    scc: Vec<Option<usize>>,
    sccs: Vec<Vec<usize>>,
    /// The ids that the search has reached.
    seen: Ghost<Set<int>>,
}

impl Search {
    spec fn inv(&self, graph: &Graph) -> bool {
        let n = graph.n();
        &&& graph.wf()
        &&& n <= usize::MAX
        &&& self.in_stack@.len() == n
        &&& self.indices@.len() == n
        &&& self.lowlinks@.len() == n
        &&& self.scc@.len() == n
        &&& self.seen@.finite()
        &&& self.index == self.seen@.len()
        &&& forall|i: int| #[trigger] self.seen@.contains(i) ==> 0 <= i < n
        &&& forall|i: int| 0 <= i < n ==> (self.seen@.contains(i) <==> (#[trigger] self.indices@[i]).is_some())
        &&& forall|i: int| 0 <= i < n && #[trigger] self.indices@[i] is Some ==> graph.has_node(i as usize)
        &&& forall|j: int| 0 <= j < self.stack@.len() ==> #[trigger] self.stack@[j] < n
        &&& forall|j: int| 0 <= j < self.stack@.len() ==>
            self.indices@[#[trigger] self.stack@[j] as int].is_some() && self.scc@[self.stack@[j] as int].is_none()
        &&& self.stack@.no_duplicates()
        &&& forall|i: usize| i < n && #[trigger] self.in_stack@[i as int] ==> self.stack@.contains(i)
        &&& forall|i: int| 0 <= i < n && (#[trigger] self.scc@[i]).is_some() ==> self.indices@[i].is_some()
        &&& forall|i: int| 0 <= i < n && (#[trigger] self.indices@[i]).is_some() ==>
            (self.scc@[i].is_some() || self.in_stack@[i])
        &&& partition_wf(self.scc@, self.sccs@)
    }

    proof fn lemma_room(&self, graph: &Graph, v: int)
        requires
            self.inv(graph),
            0 <= v < graph.n(),
            self.indices@[v].is_none(),
        ensures
            self.index < graph.n(),
    {
        lemma_room(self.seen@, graph.n(), v);
    }

    /// Pops the stack down to `u`, and makes what was popped a new
    /// component.
    fn close_component(&mut self, graph: &Graph, u: usize)
        requires
            old(self).inv(graph),
            old(self).stack@.len() > 0,
        ensures
            final(self).inv(graph),
            final(self).index == old(self).index,
            final(self).seen@ == old(self).seen@,
            final(self).indices@ == old(self).indices@,
            final(self).stack@.len() < old(self).stack@.len(),
    {
        let mut members: Vec<usize> = Vec::new();
        let idx = self.sccs.len();
        let ghost n = graph.n();
        loop
            invariant
                graph.wf(),
                n == graph.n(),
                self.in_stack@.len() == n,
                self.indices@.len() == n,
                self.lowlinks@.len() == n,
                self.scc@.len() == n,
                self.seen@ == old(self).seen@,
                self.index == old(self).index,
                self.indices@ == old(self).indices@,
                self.sccs@ == old(self).sccs@,
                idx == self.sccs@.len(),
                old(self).stack@.len() > 0,
                members@.len() > 0 ==> self.stack@.len() < old(self).stack@.len(),
                members@.len() == 0 ==> self.stack@ == old(self).stack@,
                forall|j: int| 0 <= j < self.stack@.len() ==> #[trigger] self.stack@[j] < n,
                forall|j: int| 0 <= j < self.stack@.len() ==>
                    self.indices@[#[trigger] self.stack@[j] as int].is_some() && self.scc@[self.stack@[j] as int].is_none(),
                self.stack@.no_duplicates(),
                forall|i: usize| i < n && #[trigger] self.in_stack@[i as int] ==> self.stack@.contains(i),
                forall|i: int| 0 <= i < n && (#[trigger] self.scc@[i]).is_some() ==> self.indices@[i].is_some(),
                forall|i: int| 0 <= i < n && (#[trigger] self.indices@[i]).is_some() ==>
                    (self.scc@[i].is_some() || self.in_stack@[i]),
                forall|i: int| 0 <= i < n && (#[trigger] self.scc@[i]).is_some() ==> {
                    let c = self.scc@[i].unwrap() as int;
                    ||| (c < idx && self.sccs@[c]@.contains(i as usize))
                    ||| (c == idx && members@.contains(i as usize))
                },
                forall|c: int, k: int| 0 <= c < self.sccs@.len() && 0 <= k < self.sccs@[c]@.len() ==> {
                    let m = #[trigger] self.sccs@[c]@[k];
                    &&& m < n
                    &&& self.scc@[m as int] == Some(c as usize)
                },
                forall|k: int| 0 <= k < members@.len() ==> {
                    let m = #[trigger] members@[k];
                    &&& m < n
                    &&& self.scc@[m as int] == Some(idx)
                },
            ensures
                self.stack@.len() < old(self).stack@.len(),
            decreases self.stack@.len(),
        {
            let ghost st0 = self.stack@;
            match self.stack.pop() {
                None => {
                    assert(members@.len() > 0);
                    break;
                },
                Some(w) => {
                    let ghost m0 = members@;
                    assert(st0 == self.stack@.push(w));
                    assert(st0[st0.len() - 1] == w);
                    assert(!self.stack@.contains(w)) by {
                        if self.stack@.contains(w) {
                            let k = choose|k: int| 0 <= k < self.stack@.len() && self.stack@[k] == w;
                            assert(st0[k] == w);
                        }
                    }
                    assert forall|j: int| 0 <= j < self.stack@.len() implies
                        self.indices@[#[trigger] self.stack@[j] as int].is_some() && self.scc@[self.stack@[j] as int].is_none() by {
                        assert(st0[j] == self.stack@[j]);
                    }
                    self.in_stack.set(w, false);
                    self.scc.set(w, Some(idx));
                    members.push(w);
                    proof {
                        assert forall|j: int| 0 <= j < self.stack@.len() implies
                            self.indices@[#[trigger] self.stack@[j] as int].is_some() && self.scc@[self.stack@[j] as int].is_none() by {
                            assert(self.stack@[j] != w);
                        }
                        assert forall|i: usize| i < n && #[trigger] self.in_stack@[i as int] implies self.stack@.contains(i) by {
                            assert(st0.contains(i));
                            let k = choose|k: int| 0 <= k < st0.len() && st0[k] == i;
                            if k < self.stack@.len() {
                                assert(self.stack@[k] == i);
                            }
                        }
                        assert forall|i: int| 0 <= i < n && (#[trigger] self.scc@[i]).is_some() implies {
                            let c = self.scc@[i].unwrap() as int;
                            ||| (c < idx && self.sccs@[c]@.contains(i as usize))
                            ||| (c == idx && members@.contains(i as usize))
                        } by {
                            if i == w as int {
                                assert(members@[m0.len() as int] == w);
                            } else if self.scc@[i].unwrap() == idx {
                                let k = choose|k: int| 0 <= k < m0.len() && m0[k] == i as usize;
                                assert(members@[k] == i as usize);
                            }
                        }
                        assert forall|c: int, k: int| 0 <= c < self.sccs@.len() && 0 <= k < self.sccs@[c]@.len() implies {
                            let m = #[trigger] self.sccs@[c]@[k];
                            &&& m < n
                            &&& self.scc@[m as int] == Some(c as usize)
                        } by {
                            let m = self.sccs@[c]@[k];
                            if m == w {
                                assert(false);
                            }
                        }
                    }
                    if w == u {
                        break;
                    }
                },
            }
        }
        let ghost s0 = self.sccs@;
        self.sccs.push(members);
        proof {
            assert forall|i: int| 0 <= i < n && (#[trigger] self.scc@[i]).is_some() implies {
                let c = self.scc@[i].unwrap() as int;
                &&& c < self.sccs@.len()
                &&& self.sccs@[c]@.contains(i as usize)
            } by {
                let c = self.scc@[i].unwrap() as int;
                if c < idx {
                    assert(self.sccs@[c] == s0[c]);
                }
            }
            assert forall|c: int, k: int| 0 <= c < self.sccs@.len() && 0 <= k < self.sccs@[c]@.len() implies {
                let m = #[trigger] self.sccs@[c]@[k];
                &&& m < self.scc@.len()
                &&& self.scc@[m as int] == Some(c as usize)
            } by {
                if c < idx {
                    assert(self.sccs@[c] == s0[c]);
                }
            }
        }
    }

    fn strong_connect(&mut self, graph: &Graph, u: usize)
        requires
            old(self).inv(graph),
            u < graph.n(),
            graph.has_node(u),
            old(self).indices@[u as int].is_none(),
        ensures
            final(self).inv(graph),
            final(self).index > old(self).index,
            old(self).seen@.subset_of(final(self).seen@),
            final(self).indices@[u as int].is_some(),
        decreases graph.n() - old(self).index,
    {
        proof {
            self.lemma_room(graph, u as int);
        }
        let ghost n = graph.n();
        self.indices.set(u, Some(self.index));
        self.lowlinks.set(u, self.index);
        self.index = self.index + 1;
        self.stack.push(u);
        self.in_stack.set(u, true);
        proof {
            self.seen@ = self.seen@.insert(u as int);
            assert(self.stack@.last() == u);
            assert(!old(self).stack@.contains(u)) by {
                if old(self).stack@.contains(u) {
                    let k = choose|k: int| 0 <= k < old(self).stack@.len() && old(self).stack@[k] == u;
                    assert(old(self).indices@[old(self).stack@[k] as int].is_some());
                }
            }
            assert forall|j: int| 0 <= j < self.stack@.len() implies
                self.indices@[#[trigger] self.stack@[j] as int].is_some() && self.scc@[self.stack@[j] as int].is_none() by {
                if j < old(self).stack@.len() {
                    assert(old(self).stack@[j] == self.stack@[j]);
                    assert(old(self).indices@[old(self).stack@[j] as int].is_some());
                }
            }
            assert forall|i: usize| i < n && #[trigger] self.in_stack@[i as int] implies self.stack@.contains(i) by {
                if i == u {
                    assert(self.stack@[self.stack@.len() - 1] == u);
                } else {
                    assert(old(self).in_stack@[i as int]);
                    let k = choose|k: int| 0 <= k < old(self).stack@.len() && old(self).stack@[k] == i;
                    assert(self.stack@[k] == i);
                }
            }
        }
        let ghost seen_in = self.seen@;
        let succ = graph.edges(u);
        let mut k: usize = 0;
        while k < succ.len()
            invariant
                self.inv(graph),
                n == graph.n(),
                u < n,
                self.index > old(self).index,
                old(self).seen@.subset_of(self.seen@),
                self.indices@[u as int].is_some(),
                succ@ == graph.succ@[u as int]@,
                k <= succ@.len(),
            decreases succ@.len() - k,
        {
            let v = succ[k];
            assert(graph.succ@[u as int]@[k as int] == v);
            match self.indices[v] {
                None => {
                    proof {
                        self.lemma_room(graph, v as int);
                    }
                    self.strong_connect(graph, v);
                    let low = if self.lowlinks[u] < self.lowlinks[v] { self.lowlinks[u] } else { self.lowlinks[v] };
                    self.lowlinks.set(u, low);
                },
                Some(iv) => {
                    if self.in_stack[v] {
                        let low = if self.lowlinks[u] < iv { self.lowlinks[u] } else { iv };
                        self.lowlinks.set(u, low);
                    }
                },
            }
            k = k + 1;
        }
        let iu = self.indices[u];
        if iu == Some(self.lowlinks[u]) && self.stack.len() > 0 {
            self.close_component(graph, u);
        }
    }
}

impl TarjanScc {
    /// Runs the search from every node of `graph` in turn.
    pub fn new(graph: &Graph) -> (r: TarjanScc)
        requires
            graph.wf(),
        ensures
            r.wf_for(graph),
    {
        let n = graph.nodes.len();
        let mut s = Search {
            index: 0,
            stack: Vec::new(),
            in_stack: Vec::new(),
            indices: Vec::new(),
            lowlinks: Vec::new(),
            scc: Vec::new(),
            sccs: Vec::new(),
            seen: Ghost(Set::empty()),
        };
        let mut i: usize = 0;
        while i < n
            invariant
                i <= n,
                n == graph.n(),
                s.index == 0,
                s.seen@ == Set::<int>::empty(),
                s.stack@.len() == 0,
                s.sccs@.len() == 0,
                s.in_stack@.len() == i,
                s.indices@.len() == i,
                s.lowlinks@.len() == i,
                s.scc@.len() == i,
                forall|j: int| 0 <= j < i ==> !(#[trigger] s.in_stack@[j]),
                forall|j: int| 0 <= j < i ==> (#[trigger] s.indices@[j]).is_none(),
                forall|j: int| 0 <= j < i ==> (#[trigger] s.scc@[j]).is_none(),
            decreases n - i,
        {
            s.in_stack.push(false);
            s.indices.push(None);
            s.lowlinks.push(0);
            s.scc.push(None);
            i = i + 1;
        }
        let nodes = graph.nodes();
        let mut j: usize = 0;
        while j < nodes.len()
            invariant
                s.inv(graph),
                s.stack@.len() == 0,
                j <= nodes@.len(),
                forall|u: usize| graph.has_node(u) <==> nodes@.contains(u),
                forall|q: int| 0 <= q < nodes@.len() ==> graph.has_node(#[trigger] nodes@[q]),
                forall|q: int| 0 <= q < j ==> (#[trigger] s.indices@[nodes@[q] as int]).is_some(),
            decreases nodes@.len() - j,
        {
            let u = nodes[j];
            if s.indices[u].is_none() {
                let ghost seen0 = s.seen@;
                assert forall|q: int| 0 <= q < j implies seen0.contains(#[trigger] nodes@[q] as int) by {
                    assert(graph.has_node(nodes@[q]));
                    assert(s.indices@[nodes@[q] as int].is_some());
                }
                s.strong_connect(graph, u);
                proof {
                    assert forall|q: int| 0 <= q <= j implies (#[trigger] s.indices@[nodes@[q] as int]).is_some() by {
                        if q < j {
                            assert(graph.has_node(nodes@[q]));
                            assert(seen0.contains(nodes@[q] as int));
                            assert(s.seen@.contains(nodes@[q] as int));
                        }
                    }
                }
                while s.stack.len() > 0
                    invariant
                        s.inv(graph),
                        j < nodes@.len(),
                        forall|q: int| 0 <= q <= j ==> (#[trigger] s.indices@[nodes@[q] as int]).is_some(),
                    decreases s.stack@.len(),
                {
                    let bottom = s.stack[0];
                    s.close_component(graph, bottom);
                }
            }
            j = j + 1;
        }
        proof {
            assert forall|u: usize| u < graph.n() implies (graph.has_node(u) <==> (#[trigger] s.scc@[u as int]).is_some()) by {
                if graph.has_node(u) {
                    let q = choose|q: int| 0 <= q < nodes@.len() && nodes@[q] == u;
                    assert(s.indices@[nodes@[q] as int].is_some());
                    if s.in_stack@[u as int] {
                        assert(s.stack@.contains(u));
                        assert(false);
                    }
                }
            }
        }
        TarjanScc { scc: s.scc, sccs: s.sccs }
    }

    /// The components, each with its members.
    pub fn sccs(&self) -> (r: &Vec<Vec<usize>>)
        ensures
            r@ == self.sccs@,
    {
        &self.sccs
    }

    /// The component of `node`, or `None` for an id that is no node.
    pub fn scc_for_node(&self, node: usize) -> (r: Option<usize>)
        ensures
            r == (if node < self.scc@.len() { self.scc@[node as int] } else { None }),
    {
        if node < self.scc.len() {
            self.scc[node]
        } else {
            None
        }
    }
}

} // verus!
