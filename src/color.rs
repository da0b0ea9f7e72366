use vstd::prelude::*;
use crate::bitset::{VertexSet, bits_of};
use vstd::seq_lib::lemma_seq_contains_after_push;

verus! {

/// Vertex Id
pub type VertexId = usize;

/// Errors met while building an instance.
#[derive(Debug, Clone, Copy, PartialEq, Eq, Structural)]
pub enum InstanceError {
    /// an edge names a vertex that is not in the graph
    EndpointOutOfRange(usize, usize),
    /// an edge joins a vertex to itself
    SelfLoop(usize),
    /// the header is missing or cannot be read
    MissingHeader,
    /// a line cannot be read
    MalformedLine(usize),
    /// the number of edges read is neither m nor 2m
    EdgeCountMismatch(usize, usize),
}

/// A simple undirected graph on the vertices `0..n`, with an adjacency list
/// for enumeration and one bitset per vertex for adjacency tests.
pub struct DimacsInstance {
    /// nb vertices
    pub n: usize,
    /// adj_list[i]: list of vertices adjacent to i
    pub adj_list: Vec<Vec<VertexId>>,
    /// adj_matrix[i]: bitset of the neighbors of i
    pub adj_matrix: Vec<VertexSet>,
}

/// the vertices below n
pub open spec fn below(n: nat) -> Set<usize> {
    Set::new(|x: usize| x < n)
}

pub proof fn lemma_below(n: nat)
    requires
        n <= usize::MAX,
    ensures
        below(n).finite(),
        below(n).len() == n,
    decreases n,
{
    if n == 0 {
        assert(below(0) =~= Set::<usize>::empty());
    } else {
        lemma_below((n - 1) as nat);
        assert(below(n) =~= below((n - 1) as nat).insert((n - 1) as usize));
    }
}

impl DimacsInstance {
    /// the neighbor lists
    pub open spec fn nbrs(&self) -> Seq<Seq<usize>> {
        self.adj_list@.map_values(|l: Vec<usize>| l@)
    }

    /// u and v are adjacent
    pub open spec fn adj(&self, u: int, v: int) -> bool {
        0 <= u < self.n && 0 <= v < self.n && self.nbrs()[u].contains(v as usize)
    }

    /// no self-loop, no duplicate edge, symmetric lists, and bitsets that agree with them
    pub open spec fn wf(&self) -> bool {
        &&& self.adj_list@.len() == self.n
        &&& self.adj_matrix@.len() == self.n
        &&& self.n < usize::MAX
        &&& forall|u: int| 0 <= u < self.n ==> #[trigger] self.nbrs()[u].no_duplicates()
        &&& forall|u: int| 0 <= u < self.n ==> #[trigger] self.nbrs()[u].len() < self.n
        &&& forall|u: int, i: int|
            0 <= u < self.n && 0 <= i < self.nbrs()[u].len() ==> #[trigger] self.nbrs()[u][i]
                < self.n && self.nbrs()[u][i] != u
        &&& forall|u: int, v: int| #[trigger] self.adj(u, v) ==> self.adj(v, u)
        &&& forall|u: int|
            0 <= u < self.n ==> #[trigger] bits_of(self.adj_matrix@[u])
                == self.nbrs()[u].to_set()
    }

    /// builds a graph on `n` vertices from a list of edges; an edge listed
    /// twice, in either direction, is kept once
    pub fn from_edges(n: usize, edges: &Vec<(usize, usize)>) -> (r: Result<
        DimacsInstance,
        InstanceError,
    >)
        requires
            n < usize::MAX,
        ensures
            match r {
                Ok(g) => {
                    &&& g.wf()
                    &&& g.n == n
                    &&& forall|i: int|
                        0 <= i < edges@.len() ==> edges@[i].0 < n && edges@[i].1 < n && edges@[i].0
                            != edges@[i].1
                    &&& forall|u: int, v: int|
                        g.adj(u, v) <==> exists|i: int|
                            0 <= i < edges@.len() && ((edges@[i].0 == u && edges@[i].1 == v) || (
                            edges@[i].0 == v && edges@[i].1 == u))
                },
                Err(InstanceError::EndpointOutOfRange(u, v)) => exists|i: int|
                    0 <= i < edges@.len() && edges@[i] == (u, v) && (u >= n || v >= n),
                Err(InstanceError::SelfLoop(u)) => exists|i: int|
                    0 <= i < edges@.len() && edges@[i] == (u, u) && u < n,
                Err(_) => false,
            },
    {
        let mut adj_list: Vec<Vec<VertexId>> = Vec::new();
        let mut adj_matrix: Vec<VertexSet> = Vec::new();
        let mut k: usize = 0;
        while k < n
            invariant
                k <= n,
                adj_list@.len() == k,
                adj_matrix@.len() == k,
                forall|u: int| 0 <= u < k ==> #[trigger] adj_list@[u]@ == Seq::<usize>::empty(),
                forall|u: int|
                    0 <= u < k ==> #[trigger] bits_of(adj_matrix@[u]) == Set::<usize>::empty(),
            decreases n - k,
        {
            adj_list.push(Vec::new());
            adj_matrix.push(VertexSet::with_capacity(n));
            k += 1;
        }
        let mut g = DimacsInstance { n, adj_list, adj_matrix };
        assert(g.wf()) by {
            assert forall|u: int| 0 <= u < n implies #[trigger] g.nbrs()[u] == Seq::<usize>::empty()
            by {}
            assert forall|u: int| 0 <= u < n implies #[trigger] bits_of(g.adj_matrix@[u])
                == g.nbrs()[u].to_set() by {
                assert(g.nbrs()[u].to_set() =~= Set::<usize>::empty());
            }
        }
        let mut i: usize = 0;
        while i < edges.len()
            invariant
                g.wf(),
                g.n == n,
                i <= edges@.len(),
                forall|j: int|
                    0 <= j < i ==> edges@[j].0 < n && edges@[j].1 < n && edges@[j].0
                        != edges@[j].1,
                forall|u: int, v: int|
                    g.adj(u, v) <==> exists|j: int|
                        0 <= j < i && ((edges@[j].0 == u && edges@[j].1 == v) || (edges@[j].0 == v
                            && edges@[j].1 == u)),
            decreases edges@.len() - i,
        {
            let (u, v) = edges[i];
            if u >= n || v >= n {
                return Err(InstanceError::EndpointOutOfRange(u, v));
            }
            if u == v {
                return Err(InstanceError::SelfLoop(u));
            }
            let ghost old_g = g;
            if !g.adj_matrix[u].contains(v) {
                g.add_edge(u, v);
            }
            proof {
                assert forall|a: int, b: int|
                    (exists|j: int|
                        0 <= j < i + 1 && ((edges@[j].0 == a && edges@[j].1 == b) || (edges@[j].0
                            == b && edges@[j].1 == a))) implies g.adj(a, b) by {
                    let j = choose|j: int|
                        0 <= j < i + 1 && ((edges@[j].0 == a && edges@[j].1 == b) || (edges@[j].0
                            == b && edges@[j].1 == a));
                    if j < i {
                        assert(old_g.adj(a, b));
                    } else {
                        assert(g.adj(u as int, v as int));
                    }
                }
                assert forall|a: int, b: int|
                    g.adj(a, b) implies exists|j: int|
                        0 <= j < i + 1 && ((edges@[j].0 == a && edges@[j].1 == b) || (edges@[j].0
                            == b && edges@[j].1 == a)) by {
                    if !old_g.adj(a, b) {
                        assert((a == u && b == v) || (a == v && b == u));
                        assert(edges@[i as int] == (u, v));
                    } else {
                        let j = choose|j: int|
                            0 <= j < i && ((edges@[j].0 == a && edges@[j].1 == b) || (edges@[j].0
                                == b && edges@[j].1 == a));
                        assert(0 <= j < i + 1);
                    }
                }
            }
            i += 1;
        }
        Ok(g)
    }

    /// adds the edge u-v, absent so far
    fn add_edge(&mut self, u: usize, v: usize)
        requires
            old(self).wf(),
            u < old(self).n,
            v < old(self).n,
            u != v,
            !old(self).adj(u as int, v as int),
        ensures
            final(self).wf(),
            final(self).n == old(self).n,
            forall|a: int, b: int|
                final(self).adj(a, b) <==> (old(self).adj(a, b) || (a == u && b == v) || (a == v
                    && b == u)),
    {
        let ghost old_nbrs = self.nbrs();
        proof {
            lemma_below(self.n as nat);
            assert forall|x: int| 0 <= x < self.n && (x == u || x == v) implies old_nbrs[x].len() + 2
                <= self.n by {
                let w = if x == u { v } else { u };
                assert(!old(self).adj(x, w as int));
                let big = below(self.n as nat).remove(x as usize).remove(w);
                assert(old_nbrs[x].to_set().subset_of(big)) by {
                    assert forall|y: usize| old_nbrs[x].to_set().contains(y) implies big.contains(y) by {
                        let i = choose|i: int| 0 <= i < old_nbrs[x].len() && old_nbrs[x][i] == y;
                        assert(old_nbrs[x][i] < self.n && old_nbrs[x][i] != x);
                    }
                }
                old_nbrs[x].unique_seq_to_set();
                vstd::set_lib::lemma_len_subset(old_nbrs[x].to_set(), big);
            }
        }
        self.adj_list[u].push(v);
        self.adj_list[v].push(u);
        self.adj_matrix[u].insert(v);
        self.adj_matrix[v].insert(u);
        proof {
            let nb = self.nbrs();
            assert(nb[u as int] == old_nbrs[u as int].push(v));
            assert(nb[v as int] == old_nbrs[v as int].push(u));
            assert forall|x: int| 0 <= x < self.n && x != u && x != v implies #[trigger] nb[x]
                == old_nbrs[x] by {}
            assert forall|x: int| 0 <= x < self.n implies #[trigger] bits_of(self.adj_matrix@[x])
                == nb[x].to_set() by {
                if x == u {
                    old_nbrs[x].lemma_push_to_set_commute(v);
                } else if x == v {
                    old_nbrs[x].lemma_push_to_set_commute(u);
                }
            }
            assert forall|a: int, b: int|
                self.adj(a, b) <==> (old(self).adj(a, b) || (a == u && b == v) || (a == v && b
                    == u)) by {
                if 0 <= a < self.n && 0 <= b < self.n && (a == u || a == v) {
                    let w = if a == u { v } else { u };
                    assert(nb[a] == old_nbrs[a].push(w));
                    lemma_seq_contains_after_push(old_nbrs[a], w, b as usize);
                }
            }
            assert forall|x: int, i: int|
                0 <= x < self.n && 0 <= i < nb[x].len() implies #[trigger] nb[x][i] < self.n
                && nb[x][i] != x by {
                if x == u || x == v {
                    if i < nb[x].len() - 1 {
                        assert(nb[x][i] == old_nbrs[x][i]);
                    }
                }
            }
            assert forall|x: int| 0 <= x < self.n implies #[trigger] nb[x].no_duplicates() by {
                if x == u || x == v {
                    let w = if x == u { v } else { u };
                    assert(!old(self).adj(x, w as int));
                    assert(forall|i: int|
                        0 <= i < old_nbrs[x].len() ==> nb[x][i] == old_nbrs[x][i]);
                    assert(!old_nbrs[x].contains(w));
                    assert(old_nbrs[x].no_duplicates());
                    assert(nb[x] == old_nbrs[x].push(w));
                    let last = old_nbrs[x].len() as int;
                    assert forall|i: int, j: int|
                        0 <= i < nb[x].len() && 0 <= j < nb[x].len() && i != j implies nb[x][i]
                        != nb[x][j] by {
                        if i == last {
                            assert(old_nbrs[x][j] == nb[x][j]);
                        } else if j == last {
                            assert(old_nbrs[x][i] == nb[x][i]);
                        }
                    }
                }
            }
        }
    }

    /// returns all edges (u, v) of the graph with u < v, by increasing u
    pub fn edges(&self) -> (r: Vec<(VertexId, VertexId)>)
        requires
            self.wf(),
        ensures
            forall|t: int| 0 <= t < r@.len() ==> (#[trigger] r@[t]).0 < r@[t].1 && self.adj(r@[t].0 as int, r@[t].1 as int),
            forall|u: usize, v: usize| u < v && self.adj(u as int, v as int) ==> #[trigger] r@.contains((u, v)),
            r@.no_duplicates(),
    {
        let mut res: Vec<(VertexId, VertexId)> = Vec::new();
        let mut u: usize = 0;
        while u < self.n
            invariant
                self.wf(),
                u <= self.n,
                forall|t: int| 0 <= t < res@.len() ==> (#[trigger] res@[t]).0 < res@[t].1 && res@[t].0 < u && self.adj(res@[t].0 as int, res@[t].1 as int),
                forall|a: usize, b: usize| a < u && a < b && self.adj(a as int, b as int) ==> #[trigger] res@.contains((a, b)),
                res@.no_duplicates(),
            decreases self.n - u,
        {
            let l = &self.adj_list[u];
            let ghost nb = self.nbrs()[u as int];
            assert(l@ == nb);
            let ghost res0 = res@;
            let mut i: usize = 0;
            while i < l.len()
                invariant
                    self.wf(),
                    u < self.n,
                    l@ == nb,
                    nb == self.nbrs()[u as int],
                    i <= nb.len(),
                    forall|t: int| 0 <= t < res@.len() ==> (#[trigger] res@[t]).0 < res@[t].1 && res@[t].0 <= u && self.adj(res@[t].0 as int, res@[t].1 as int),
                    forall|t: int| 0 <= t < res0.len() ==> #[trigger] res@[t] == res0[t],
                    res0.len() <= res@.len(),
                    forall|t: int| res0.len() <= t < res@.len() ==> (#[trigger] res@[t]).0 == u,
                    forall|a: usize, b: usize| a < u && a < b && self.adj(a as int, b as int) ==> #[trigger] res@.contains((a, b)),
                    forall|j: int| 0 <= j < i && u < nb[j] ==> #[trigger] res@.contains((u, nb[j])),
                    forall|t: int| res0.len() <= t < res@.len() ==> nb.take(i as int).contains((#[trigger] res@[t]).1),
                    forall|t: int| 0 <= t < res0.len() ==> (#[trigger] res0[t]).0 < u,
                    res@.no_duplicates(),
                decreases nb.len() - i,
            {
                let v = l[i];
                let ghost before = res@;
                if u < v {
                    proof {
                        assert(nb.contains(v));
                        assert(!before.contains((u, v))) by {
                            if before.contains((u, v)) {
                                let t = choose|t: int| 0 <= t < before.len() && before[t] == (u, v);
                                assert(nb.no_duplicates());
                                if t >= res0.len() {
                                    assert(nb.take(i as int).contains(before[t].1));
                                    let q = choose|q: int| 0 <= q < i && nb.take(i as int)[q] == v;
                                    assert(nb[q] == nb[i as int]);
                                } else {
                                    assert(before[t] == res0[t]);
                                    assert(res0[t].0 < u);
                                }
                            }
                        }
                    }
                    res.push((u, v));
                    proof {
                        crate::coloring_conflict_weighting::lemma_push_pair_no_dup(before, (u, v));
                    }
                }
                proof {
                    assert(nb.take(i + 1) == nb.take(i as int).push(v));
                    assert forall|t: int| res0.len() <= t < res@.len() implies nb.take(i + 1).contains((#[trigger] res@[t]).1) by {
                        if t < before.len() {
                            assert(res@[t] == before[t]);
                            let q = choose|q: int| 0 <= q < i && nb.take(i as int)[q] == res@[t].1;
                            assert(nb.take(i + 1)[q] == res@[t].1);
                        } else {
                            assert(nb.take(i + 1)[i as int] == v);
                        }
                    }
                    assert forall|a: usize, b: usize| a < u && a < b && self.adj(a as int, b as int) implies #[trigger] res@.contains((a, b)) by {
                        assert(before.contains((a, b)));
                        let t = choose|t: int| 0 <= t < before.len() && before[t] == (a, b);
                        assert(res@[t] == before[t]);
                    }
                    assert forall|j: int| 0 <= j < i + 1 && u < nb[j] implies #[trigger] res@.contains((u, nb[j])) by {
                        if j < i {
                            assert(before.contains((u, nb[j])));
                            let t = choose|t: int| 0 <= t < before.len() && before[t] == (u, nb[j]);
                            assert(res@[t] == before[t]);
                        } else {
                            assert(res@[res@.len() - 1] == (u, v));
                        }
                    }
                }
                i += 1;
            }
            proof {
                assert(nb.take(nb.len() as int) =~= nb);
                assert forall|a: usize, b: usize| a < u + 1 && a < b && self.adj(a as int, b as int) implies #[trigger] res@.contains((a, b)) by {
                    if a == u {
                        let j = choose|j: int| 0 <= j < nb.len() && nb[j] == b;
                    }
                }
            }
            u += 1;
        }
        res
    }

    /// returns the number of edges in the graph
    pub fn nb_edges(&self) -> (r: usize)
        requires
            self.wf(),
        ensures
            exists|e: Seq<(VertexId, VertexId)>|
                e.no_duplicates() && r == e.len() && forall|u: usize, v: usize| #[trigger] e.contains((u, v)) <==> (u < v && self.adj(u as int, v as int)),
    {
        let e = self.edges();
        proof {
            assert forall|u: usize, v: usize| #[trigger] e@.contains((u, v)) <==> (u < v && self.adj(u as int, v as int)) by {
                if e@.contains((u, v)) {
                    let t = choose|t: int| 0 <= t < e@.len() && e@[t] == (u, v);
                }
            }
        }
        e.len()
    }

    /// returns the number of vertices in the graph
    pub fn nb_vertices(&self) -> (r: usize)
        ensures
            r == self.n,
    {
        self.n
    }

    /// number of neighbors of vertex u
    pub fn degree(&self, u: VertexId) -> (r: usize)
        requires
            self.wf(),
            u < self.n,
        ensures
            r == self.nbrs()[u as int].len(),
    {
        self.adj_list[u].len()
    }

    /// returns the neighbors of vertex u
    pub fn neighbors(&self, u: VertexId) -> (r: &Vec<VertexId>)
        requires
            self.wf(),
            u < self.n,
        ensures
            r@ == self.nbrs()[u as int],
    {
        &self.adj_list[u]
    }

    /// returns true iff u and v are adjacent
    pub fn are_adjacent(&self, u: VertexId, v: VertexId) -> (r: bool)
        requires
            self.wf(),
            u < self.n,
            v < self.n,
        ensures
            r == self.adj(u as int, v as int),
    {
        self.adj_matrix[u].contains(v)
    }
}

/// Solution of a graph coloring problem (represented as a partition).
pub type Solution = Vec<Vec<VertexId>>;

/// the classes of a partition, as sequences
pub open spec fn classes(sol: Seq<Vec<VertexId>>) -> Seq<Seq<VertexId>> {
    sol.map_values(|c: Vec<VertexId>| c@)
}

/// (c, i) is a position of the partition
pub open spec fn is_pos(s: Seq<Seq<VertexId>>, c: int, i: int) -> bool {
    0 <= c < s.len() && 0 <= i < s[c].len()
}

/// v stands in the partition
pub open spec fn occurs(s: Seq<Seq<VertexId>>, v: VertexId) -> bool {
    exists|c: int, i: int| is_pos(s, c, i) && #[trigger] s[c][i] == v
}

/// v stands at two positions of the partition
pub open spec fn occurs_twice(s: Seq<Seq<VertexId>>, v: VertexId) -> bool {
    exists|c1: int, i1: int, c2: int, i2: int|
        is_pos(s, c1, i1) && is_pos(s, c2, i2) && (c1 != c2 || i1 != i2) && #[trigger] s[c1][i1]
            == v && #[trigger] s[c2][i2] == v
}

/// no vertex stands twice in the partition
pub open spec fn no_vertex_twice(s: Seq<Seq<VertexId>>) -> bool {
    forall|c1: int, i1: int, c2: int, i2: int|
        is_pos(s, c1, i1) && is_pos(s, c2, i2) && (c1 != c2 || i1 != i2) ==> #[trigger] s[c1][i1]
            != #[trigger] s[c2][i2]
}

/// every vertex of the graph stands in the partition
pub open spec fn covers(s: Seq<Seq<VertexId>>, n: nat) -> bool {
    forall|v: VertexId| v < n ==> occurs(s, v)
}

/// every vertex of the partition is a vertex of the graph
pub open spec fn within(s: Seq<Seq<VertexId>>, n: nat) -> bool {
    forall|c: int, i: int| is_pos(s, c, i) ==> #[trigger] s[c][i] < n
}

/// no class holds two adjacent vertices
pub open spec fn no_conflict(g: DimacsInstance, s: Seq<Seq<VertexId>>) -> bool {
    forall|c: int, i: int, j: int|
        is_pos(s, c, i) && is_pos(s, c, j) ==> !g.adj(#[trigger] s[c][i] as int, #[trigger] s[c][j] as int)
}

/// the partition is a proper coloring of the graph: each vertex once, every
/// vertex colored, no conflicting edge
pub open spec fn is_proper_coloring(g: DimacsInstance, s: Seq<Seq<VertexId>>) -> bool {
    no_vertex_twice(s) && covers(s, g.n as nat) && no_conflict(g, s)
}

/// checker result.
/// Returns the solution value if correct,
/// otherwise, provide an explanation on why the solution is incorrect.
#[derive(Clone, Copy, Debug, PartialEq, Eq, Structural)]
pub enum CheckerResult {
    /// solution is correct and provide its cost
    Feasible(usize),
    /// a vertex is added twice in the solution
    VertexAddedTwice(usize),
    /// some vertex is not colored
    VertexNotColored(usize),
    /// conflicting edge
    ConflictingEdge(usize, usize),
}

/// checks a partition against the graph: returns its number of classes if it
/// is a proper coloring, otherwise a witness of the first fault met: a vertex
/// listed twice, else the smallest vertex not listed, else an edge inside a class
pub fn checker(inst: &DimacsInstance, sol: &Vec<Vec<VertexId>>) -> (r: CheckerResult)
    requires
        inst.wf(),
        within(classes(sol@), inst.n as nat),
    ensures
        match r {
            CheckerResult::Feasible(k) => k == sol@.len() && is_proper_coloring(*inst, classes(sol@)),
            CheckerResult::VertexAddedTwice(v) => occurs_twice(classes(sol@), v),
            CheckerResult::VertexNotColored(v) => no_vertex_twice(classes(sol@)) && v < inst.n
                && !occurs(classes(sol@), v) && forall|x: VertexId| x < v ==> occurs(classes(sol@), x),
            CheckerResult::ConflictingEdge(u, v) => no_vertex_twice(classes(sol@)) && covers(
                classes(sol@),
                inst.n as nat,
            ) && inst.adj(u as int, v as int) && exists|c: int, i: int, j: int|
                is_pos(classes(sol@), c, i) && is_pos(classes(sol@), c, j) && classes(sol@)[c][i]
                    == u && classes(sol@)[c][j] == v,
        },
{
    let ghost s = classes(sol@);
    let mut visited = VertexSet::with_capacity(inst.n);
    let mut c: usize = 0;
    while c < sol.len()
        invariant
            inst.wf(),
            s == classes(sol@),
            within(s, inst.n as nat),
            c <= sol@.len(),
            forall|v: VertexId|
                bits_of(visited).contains(v) <==> exists|c2: int, i2: int|
                    is_pos(s, c2, i2) && c2 < c && #[trigger] s[c2][i2] == v,
            forall|c1: int, i1: int, c2: int, i2: int|
                is_pos(s, c1, i1) && is_pos(s, c2, i2) && c1 < c && c2 < c && (c1 != c2 || i1 != i2)
                    ==> #[trigger] s[c1][i1] != #[trigger] s[c2][i2],
        decreases sol@.len() - c,
    {
        let class = &sol[c];
        assert(class@ == s[c as int]);
        let mut i: usize = 0;
        while i < class.len()
            invariant
                inst.wf(),
                s == classes(sol@),
                within(s, inst.n as nat),
                c < sol@.len(),
                class@ == s[c as int],
                i <= class@.len(),
                forall|v: VertexId|
                    bits_of(visited).contains(v) <==> exists|c2: int, i2: int|
                        is_pos(s, c2, i2) && (c2 < c || (c2 == c && i2 < i)) && #[trigger] s[c2][i2]
                            == v,
                forall|c1: int, i1: int, c2: int, i2: int|
                    is_pos(s, c1, i1) && is_pos(s, c2, i2) && (c1 < c || (c1 == c && i1 < i)) && (
                    c2 < c || (c2 == c && i2 < i)) && (c1 != c2 || i1 != i2) ==> #[trigger] s[c1][i1]
                        != #[trigger] s[c2][i2],
            decreases class@.len() - i,
        {
            let v = class[i];
            assert(s[c as int][i as int] == v);
            assert(v < inst.n);
            if visited.contains(v) {
                proof {
                    let (c2, i2) = choose|c2: int, i2: int|
                        is_pos(s, c2, i2) && (c2 < c || (c2 == c && i2 < i)) && #[trigger] s[c2][i2]
                            == v;
                    assert(is_pos(s, c as int, i as int));
                    assert(occurs_twice(s, v));
                }
                return CheckerResult::VertexAddedTwice(v);
            }
            visited.insert(v);
            proof {
                assert forall|x: VertexId|
                    bits_of(visited).contains(x) implies exists|c2: int, i2: int|
                        is_pos(s, c2, i2) && (c2 < c || (c2 == c && i2 < i + 1)) && #[trigger] s[c2][i2]
                            == x by {
                    if x == v {
                        assert(is_pos(s, c as int, i as int) && s[c as int][i as int] == x);
                    }
                }
                assert forall|x: VertexId|
                    (exists|c2: int, i2: int|
                        is_pos(s, c2, i2) && (c2 < c || (c2 == c && i2 < i + 1)) && #[trigger] s[c2][i2]
                            == x) implies bits_of(visited).contains(x) by {
                    let (c2, i2) = choose|c2: int, i2: int|
                        is_pos(s, c2, i2) && (c2 < c || (c2 == c && i2 < i + 1)) && #[trigger] s[c2][i2]
                            == x;
                    if c2 == c && i2 == i {
                    } else {
                        assert(is_pos(s, c2, i2) && (c2 < c || (c2 == c && i2 < i)) && s[c2][i2] == x);
                    }
                }
            }
            i += 1;
        }
        c += 1;
    }
    assert(no_vertex_twice(s));
    let mut v: usize = 0;
    while v < inst.n
        invariant
            inst.wf(),
            s == classes(sol@),
            no_vertex_twice(s),
            v <= inst.n,
            forall|x: VertexId|
                bits_of(visited).contains(x) <==> exists|c2: int, i2: int|
                    is_pos(s, c2, i2) && #[trigger] s[c2][i2] == x,
            forall|x: VertexId| x < v ==> occurs(s, x),
        decreases inst.n - v,
    {
        if !visited.contains(v) {
            return CheckerResult::VertexNotColored(v);
        }
        v += 1;
    }
    assert(covers(s, inst.n as nat));
    let mut c: usize = 0;
    while c < sol.len()
        invariant
            inst.wf(),
            s == classes(sol@),
            within(s, inst.n as nat),
            no_vertex_twice(s),
            covers(s, inst.n as nat),
            c <= sol@.len(),
            forall|c1: int, i: int, j: int|
                0 <= c1 < c && is_pos(s, c1, i) && is_pos(s, c1, j) ==> !inst.adj(
                    #[trigger] s[c1][i] as int,
                    #[trigger] s[c1][j] as int,
                ),
        decreases sol@.len() - c,
    {
        let class = &sol[c];
        assert(class@ == s[c as int]);
        let mut i: usize = 0;
        while i < class.len()
            invariant
                inst.wf(),
                s == classes(sol@),
                within(s, inst.n as nat),
                no_vertex_twice(s),
                covers(s, inst.n as nat),
                c < sol@.len(),
                class@ == s[c as int],
                i <= class@.len(),
                forall|c1: int, i1: int, j: int|
                    0 <= c1 < c && is_pos(s, c1, i1) && is_pos(s, c1, j) ==> !inst.adj(
                        #[trigger] s[c1][i1] as int,
                        #[trigger] s[c1][j] as int,
                    ),
                forall|i1: int, j: int|
                    0 <= i1 < i && 0 <= j < class@.len() ==> !inst.adj(
                        #[trigger] s[c as int][i1] as int,
                        #[trigger] s[c as int][j] as int,
                    ),
            decreases class@.len() - i,
        {
            let v1 = class[i];
            assert(s[c as int][i as int] == v1 && v1 < inst.n);
            let mut j: usize = 0;
            while j < class.len()
                invariant
                    inst.wf(),
                    s == classes(sol@),
                    within(s, inst.n as nat),
                    no_vertex_twice(s),
                    covers(s, inst.n as nat),
                    c < sol@.len(),
                    class@ == s[c as int],
                    i < class@.len(),
                    j <= class@.len(),
                    v1 == s[c as int][i as int],
                    v1 < inst.n,
                    forall|j1: int| 0 <= j1 < j ==> !inst.adj(v1 as int, #[trigger] s[c as int][j1] as int),
                decreases class@.len() - j,
            {
                let v2 = class[j];
                assert(s[c as int][j as int] == v2 && v2 < inst.n);
                if inst.are_adjacent(v1, v2) {
                    assert(is_pos(s, c as int, i as int) && is_pos(s, c as int, j as int));
                    assert(exists|c1: int, i1: int, j1: int|
                        is_pos(classes(sol@), c1, i1) && is_pos(classes(sol@), c1, j1)
                            && classes(sol@)[c1][i1] == v1 && classes(sol@)[c1][j1] == v2) by {
                        assert(is_pos(classes(sol@), c as int, i as int) && is_pos(
                            classes(sol@),
                            c as int,
                            j as int,
                        ) && classes(sol@)[c as int][i as int] == v1
                            && classes(sol@)[c as int][j as int] == v2);
                    }
                    return CheckerResult::ConflictingEdge(v1, v2);
                }
                j += 1;
            }
            i += 1;
        }
        c += 1;
    }
    CheckerResult::Feasible(sol.len())
}

/// the partition has one class per color, and vertex x stands in class colors[x]
pub open spec fn is_partition_of(s: Seq<Seq<VertexId>>, colors: Seq<usize>, k: nat) -> bool {
    &&& s.len() == k
    &&& forall|c: int, i: int|
        is_pos(s, c, i) ==> #[trigger] s[c][i] < colors.len() && colors[s[c][i] as int] == c
    &&& forall|c: int, i: int, j: int|
        is_pos(s, c, i) && is_pos(s, c, j) && i < j ==> #[trigger] s[c][i] < #[trigger] s[c][j]
    &&& covers(s, colors.len())
    &&& no_vertex_twice(s)
}

/// builds the partition of the vertices by their colors (colors below k)
pub fn colors_to_partition(colors: &Vec<usize>, k: usize) -> (r: Vec<Vec<VertexId>>)
    requires
        forall|x: int| 0 <= x < colors@.len() ==> #[trigger] colors@[x] < k,
    ensures
        is_partition_of(classes(r@), colors@, k as nat),
        within(classes(r@), colors@.len()),
{
    let mut res: Vec<Vec<VertexId>> = Vec::new();
    let mut c: usize = 0;
    while c < k
        invariant
            c <= k,
            res@.len() == c,
            forall|i: int| 0 <= i < c ==> #[trigger] res@[i]@.len() == 0,
        decreases k - c,
    {
        res.push(Vec::new());
        c += 1;
    }
    let n = colors.len();
    let mut v: usize = 0;
    while v < n
        invariant
            n == colors@.len(),
            v <= n,
            res@.len() == k,
            forall|x: int| 0 <= x < colors@.len() ==> #[trigger] colors@[x] < k,
            forall|c: int, i: int|
                is_pos(classes(res@), c, i) ==> #[trigger] classes(res@)[c][i] < v && colors@[classes(
                    res@,
                )[c][i] as int] == c,
            forall|c: int, i: int, j: int|
                is_pos(classes(res@), c, i) && is_pos(classes(res@), c, j) && i < j ==> #[trigger] classes(
                    res@,
                )[c][i] < #[trigger] classes(res@)[c][j],
            forall|x: VertexId| x < v ==> occurs(classes(res@), x),
        decreases n - v,
    {
        let ghost old_s = classes(res@);
        assert(forall|x: VertexId| x < v ==> occurs(old_s, x));
        let cv = colors[v];
        res[cv].push(v);
        proof {
            let s = classes(res@);
            assert(s[cv as int] == old_s[cv as int].push(v));
            assert forall|c: int| 0 <= c < k && c != cv implies #[trigger] s[c] == old_s[c] by {}
            assert forall|x: VertexId| x < v + 1 implies occurs(s, x) by {
                if x == v {
                    assert(s[cv as int][s[cv as int].len() - 1] == v);
                } else {
                    assert(occurs(old_s, x));
                    let (c, i) = choose|c: int, i: int| is_pos(old_s, c, i) && #[trigger] old_s[c][i] == x;
                    if c == cv {
                        assert(s[c][i] == old_s[c][i]);
                    }
                    assert(is_pos(s, c, i) && s[c][i] == x);
                }
            }
        }
        v += 1;
    }
    proof {
        let s = classes(res@);
        assert forall|c1: int, i1: int, c2: int, i2: int|
            is_pos(s, c1, i1) && is_pos(s, c2, i2) && (c1 != c2 || i1 != i2) implies #[trigger] s[c1][i1]
                != #[trigger] s[c2][i2] by {
            if c1 == c2 {
                if i1 < i2 {
                    assert(s[c1][i1] < s[c1][i2]);
                } else {
                    assert(s[c1][i2] < s[c1][i1]);
                }
            }
        }
    }
    res
}

/// Represents an instance of graph coloring, as an implicit graph on the
/// vertices 0..n.
pub trait ColoringInstance {
    /// number of vertices
    spec fn spec_n(&self) -> nat;

    /// u and v are adjacent
    spec fn spec_adj(&self, u: int, v: int) -> bool;

    /// the instance is well formed
    spec fn spec_wf(&self) -> bool;

    /// returns the number of vertices in the graph
    fn nb_vertices(&self) -> (r: usize)
        ensures
            r == self.spec_n(),
    ;

    /// returns the neighbors of vertex u, each once
    fn neighbors(&self, u: VertexId) -> (r: Vec<VertexId>)
        requires
            self.spec_wf(),
            u < self.spec_n(),
        ensures
            r@.no_duplicates(),
            forall|v: VertexId| r@.contains(v) <==> self.spec_adj(u as int, v as int),
    ;

    /// number of neighbors of vertex u
    fn degree(&self, u: VertexId) -> (r: usize)
        requires
            self.spec_wf(),
            u < self.spec_n(),
        ensures
            r == Set::new(|v: VertexId| self.spec_adj(u as int, v as int)).len(),
    ;

    /// returns true iff u and v are adjacent
    fn are_adjacent(&self, u: VertexId, v: VertexId) -> (r: bool)
        requires
            self.spec_wf(),
            u < self.spec_n(),
            v < self.spec_n(),
        ensures
            r == self.spec_adj(u as int, v as int),
    ;
}

impl ColoringInstance for DimacsInstance {
    open spec fn spec_n(&self) -> nat {
        self.n as nat
    }

    open spec fn spec_adj(&self, u: int, v: int) -> bool {
        self.adj(u, v)
    }

    open spec fn spec_wf(&self) -> bool {
        self.wf()
    }

    fn nb_vertices(&self) -> (r: usize) {
        self.n
    }

    fn neighbors(&self, u: VertexId) -> (r: Vec<VertexId>) {
        let l = &self.adj_list[u];
        let mut res: Vec<VertexId> = Vec::new();
        let mut i: usize = 0;
        while i < l.len()
            invariant
                i <= l@.len(),
                res@ == l@.take(i as int),
            decreases l@.len() - i,
        {
            res.push(l[i]);
            i += 1;
            proof {
                assert(res@ =~= l@.take(i as int));
            }
        }
        proof {
            assert(l@.take(l@.len() as int) =~= l@);
            let nb = self.nbrs()[u as int];
            assert(l@ == nb);
            assert(nb.no_duplicates());
            assert forall|v: VertexId| res@.contains(v) <==> self.spec_adj(u as int, v as int) by {
                if res@.contains(v) {
                    let i = choose|i: int| 0 <= i < nb.len() && nb[i] == v;
                    assert(nb[i] < self.n);
                }
            }
        }
        res
    }

    fn degree(&self, u: VertexId) -> (r: usize) {
        proof {
            let nb = self.nbrs()[u as int];
            assert(nb.no_duplicates());
            nb.unique_seq_to_set();
            assert(Set::new(|v: VertexId| self.spec_adj(u as int, v as int)) =~= nb.to_set()) by {
                assert forall|v: VertexId| #[trigger] nb.to_set().contains(v) implies self.spec_adj(
                    u as int,
                    v as int,
                ) by {
                    let i = choose|i: int| 0 <= i < nb.len() && nb[i] == v;
                    assert(nb[i] < self.n);
                }
            }
            assert(self.adj_list@[u as int]@ == nb);
        }
        self.adj_list[u].len()
    }

    fn are_adjacent(&self, u: VertexId, v: VertexId) -> (r: bool) {
        self.adj_matrix[u].contains(v)
    }
}

/// in the partition by colors, the class of a color that some vertex has is not empty
pub proof fn lemma_used_class_nonempty(s: Seq<Seq<VertexId>>, colors: Seq<usize>, k: nat, x: int)
    requires
        is_partition_of(s, colors, k),
        0 <= x < colors.len(),
        colors.len() <= usize::MAX,
    ensures
        s[colors[x] as int].len() > 0,
{
    assert(occurs(s, x as usize));
    let (c, i) = choose|c: int, i: int| is_pos(s, c, i) && #[trigger] s[c][i] == x as usize;
    assert(colors[s[c][i] as int] == c);
}

} // verus!
