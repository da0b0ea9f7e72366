use vstd::prelude::*;
use crate::bitset::{VertexSet, bits_of};
use crate::clique::is_clique;
use crate::color::{DimacsInstance, VertexId, below, lemma_below};
use crate::coloring_conflict_weighting::{Weight, wt};
use crate::sums::{
    seq_sum,
    range_sum,
    lemma_seq_sum_take,
    lemma_range_sum_point,
    lemma_range_sum_bounds,
    lemma_range_sum_ext,
    lemma_range_sum_nonneg,
};
use crate::tabu::{Decision, TabuColTenure};

verus! {

/// weight that x, if in the candidate set s and not adjacent to w, adds to w
pub open spec fn miss_term(
    g: &DimacsInstance,
    s: Set<usize>,
    ws: Seq<Vec<Weight>>,
    w: usize,
) -> spec_fn(nat) -> int {
    |x: nat|
        if x != w && s.contains(x as usize) && !g.adj(x as int, w as int) {
            wt(ws, x as usize, w)
        } else {
            0
        }
}

/// conflict weighting local search for the maximum clique problem: the
/// candidate set may hold non-adjacent pairs, whose learned weights it pays
pub struct CliqueConflictWeighting {
    /// number of vertices
    pub n: usize,
    /// weights[u][v] (v < u): weight learned for the non-edge (u,v)
    pub weights: Vec<Vec<Weight>>,
    /// best clique found so far
    pub current_sol: Vec<VertexId>,
    /// vertices of the candidate clique
    pub inside_clique: VertexSet,
    /// weight_adj_clique[v]: total weight of the non-neighbors of v in the candidate
    pub weight_adj_clique: Vec<u64>,
    /// total weight of the non-adjacent pairs of the candidate
    pub total_weight: i128,
    /// tabu tenure, keyed by vertex (color 0)
    pub tabu: TabuColTenure,
    /// number of iterations
    pub nb_iter: u64,
}

impl CliqueConflictWeighting {
    /// the candidate clique
    pub open spec fn cand(&self) -> Set<usize> {
        bits_of(self.inside_clique)
    }

    /// the weight that the candidate pays, counted at each of its vertices
    pub open spec fn paid(&self) -> spec_fn(nat) -> int {
        |x: nat|
            if self.cand().contains(x as usize) {
                self.weight_adj_clique@[x as int] as int
            } else {
                0
            }
    }

    /// shapes and bounds
    pub open spec fn shape(&self, g: &DimacsInstance) -> bool {
        let n = self.n as int;
        &&& g.wf()
        &&& self.n == g.n
        &&& 1 <= self.n <= u32::MAX
        &&& self.weights@.len() == n
        &&& forall|x: int| 0 <= x < n ==> #[trigger] self.weights@[x]@.len() == x
        &&& forall|x: int, y: int| 0 <= y < x < n ==> #[trigger] self.weights@[x]@[y] >= 1
        &&& self.weight_adj_clique@.len() == n
        &&& self.cand().subset_of(below(self.n as nat))
        &&& is_clique(g, self.current_sol@)
        &&& self.tabu.wf(n as nat, 1)
        &&& self.tabu.nb_iter == self.nb_iter
    }

    /// the aggregates agree with the candidate and the weights
    pub open spec fn wf(&self, g: &DimacsInstance) -> bool {
        &&& self.shape(g)
        &&& forall|w: int|
            0 <= w < self.n ==> #[trigger] self.weight_adj_clique@[w] == range_sum(
                self.n as nat,
                miss_term(g, self.cand(), self.weights@, w as usize),
            )
        &&& 2 * self.total_weight == range_sum(self.n as nat, self.paid())
    }
}

/// a sum of missing weights is at most n times the largest weight
proof fn lemma_miss_bound(g: &DimacsInstance, s: Set<usize>, ws: Seq<Vec<Weight>>, w: usize, n: nat)
    requires
        n <= u32::MAX,
    ensures
        0 <= range_sum(n, miss_term(g, s, ws, w)) <= n * (u32::MAX as int),
{
    assert forall|x: nat| x < n implies 0 <= #[trigger] miss_term(g, s, ws, w)(x) <= u32::MAX by {}
    lemma_range_sum_bounds(n, miss_term(g, s, ws, w), u32::MAX as int);
}

/// the weight of a non-edge read either way
proof fn lemma_wt_sym(ws: Seq<Vec<Weight>>, a: usize, b: usize)
    requires
        a != b,
    ensures
        wt(ws, a, b) == wt(ws, b, a),
{
}

impl CliqueConflictWeighting {
    /// get the learned weight of a non-edge
    fn get_weight(&self, g: &DimacsInstance, u: VertexId, v: VertexId) -> (r: Weight)
        requires
            self.shape(g),
            u < self.n,
            v < self.n,
            u != v,
        ensures
            r == wt(self.weights@, u, v),
    {
        if u < v {
            self.weights[v][u]
        } else {
            self.weights[u][v]
        }
    }

    /// adds the vertex v to the candidate clique
    pub fn add_vertex(&mut self, g: &DimacsInstance, v: VertexId)
        requires
            old(self).wf(g),
            v < old(self).n,
            !old(self).cand().contains(v),
        ensures
            final(self).wf(g),
            final(self).cand() == old(self).cand().insert(v),
            final(self).weights == old(self).weights,
            final(self).current_sol == old(self).current_sol,
            final(self).tabu == old(self).tabu,
            final(self).nb_iter == old(self).nb_iter,
            final(self).n == old(self).n,
            final(self).total_weight == old(self).total_weight + old(self).weight_adj_clique@[v as int],
            forall|w: int|
                0 <= w < old(self).n ==> #[trigger] final(self).weight_adj_clique@[w] == old(
                    self,
                ).weight_adj_clique@[w] + if w != v && !g.adj(v as int, w) {
                    wt(old(self).weights@, v, w as usize)
                } else {
                    0
                },
    {
        let ghost s0 = *self;
        let ghost n = self.n as int;
        let ghost S0 = self.cand();
        let ghost ws = self.weights@;
        let ghost m0v = range_sum(n as nat, miss_term(g, S0, ws, v));
        self.inside_clique.insert(v);
        let ghost S1 = self.cand();
        proof {
            assert(S1 == S0.insert(v));
            lemma_range_sum_point(n as nat, s0.paid(), self.paid(), v as nat);
            assert(self.weight_adj_clique@[v as int] == m0v);
            assert forall|x: nat| x < n implies 0 <= #[trigger] self.paid()(x) <= u64::MAX by {}
            lemma_range_sum_bounds(n as nat, self.paid(), u64::MAX as int);
            lemma_miss_bound(g, S0, ws, v, n as nat);
            assert(n * (u64::MAX as int) <= 0x1_0000_0000_0000_0000_0000_0000) by (nonlinear_arith)
                requires
                    0 <= n <= u32::MAX,
            ;
        }
        let mut j: usize = 0;
        while j < self.n
            invariant
                self.shape(g),
                self.n == s0.n,
                n == self.n,
                v < n,
                S1 == S0.insert(v),
                !S0.contains(v),
                self.cand() == S1,
                ws == self.weights@,
                self.weights == s0.weights,
                self.current_sol == s0.current_sol,
                self.tabu == s0.tabu,
                self.nb_iter == s0.nb_iter,
                m0v == range_sum(n as nat, miss_term(g, S0, ws, v)),
                0 <= m0v <= n * (u32::MAX as int),
                j <= n,
                forall|w: int|
                    0 <= w < j ==> #[trigger] self.weight_adj_clique@[w] == range_sum(
                        n as nat,
                        miss_term(g, S1, ws, w as usize),
                    ),
                forall|w: int|
                    j <= w < n ==> #[trigger] self.weight_adj_clique@[w] == range_sum(
                        n as nat,
                        miss_term(g, S0, ws, w as usize),
                    ),
                self.total_weight == s0.total_weight + range_sum(j as nat, miss_term(g, S0, ws, v)),
                m0v == s0.weight_adj_clique@[v as int],
                forall|w: int|
                    0 <= w < n ==> #[trigger] s0.weight_adj_clique@[w] == range_sum(
                        n as nat,
                        miss_term(g, S0, ws, w as usize),
                    ),
                2 * self.total_weight == range_sum(n as nat, self.paid()) - m0v + range_sum(
                    j as nat,
                    miss_term(g, S0, ws, v),
                ),
                -0x1_0000_0000_0000_0000 <= self.total_weight <= 0x1_0000_0000_0000_0000_0000_0000,
            decreases n - j,
        {
            let w = j;
            let ghost before = *self;
            proof {
                assert forall|x: nat| x < j implies 0 <= #[trigger] miss_term(g, S0, ws, v)(x) by {}
                lemma_range_sum_nonneg(j as nat, miss_term(g, S0, ws, v));
            }
            if w != v && !g.are_adjacent(v, w) {
                let weight = self.get_weight(g, v, w);
                proof {
                    assert(S1.contains(v) && !S0.contains(v));
                    assert(miss_term(g, S0, ws, w)(v as nat) == 0);
                    assert(miss_term(g, S1, ws, w)(v as nat) == weight);
                    assert(self.weight_adj_clique@[w as int] == range_sum(n as nat, miss_term(g, S0, ws, w)));
                    lemma_range_sum_point(
                        n as nat,
                        miss_term(g, S0, ws, w),
                        miss_term(g, S1, ws, w),
                        v as nat,
                    );
                    lemma_miss_bound(g, S1, ws, w, n as nat);
                    assert(n * (u32::MAX as int) <= u64::MAX) by (nonlinear_arith)
                        requires
                            0 <= n <= u32::MAX,
                    ;
                }
                self.weight_adj_clique[w] = self.weight_adj_clique[w] + weight as u64;
                if self.inside_clique.contains(w) {
                    self.total_weight = self.total_weight + weight as i128;
                }
            } else {
                proof {
                    lemma_range_sum_ext(n as nat, miss_term(g, S0, ws, w), miss_term(g, S1, ws, w));
                }
            }
            proof {
                assert(self.weight_adj_clique@[w as int] == range_sum(n as nat, miss_term(g, S1, ws, w)));
                assert forall|w2: int|
                    0 <= w2 < j + 1 implies #[trigger] self.weight_adj_clique@[w2] == range_sum(
                        n as nat,
                        miss_term(g, S1, ws, w2 as usize),
                    ) by {
                    if w2 < j {
                        assert(self.weight_adj_clique@[w2] == before.weight_adj_clique@[w2]);
                    }
                }
                let p0 = before.paid();
                let p1 = self.paid();
                lemma_range_sum_point(n as nat, p0, p1, w as nat);
                assert(range_sum((j + 1) as nat, miss_term(g, S0, ws, v)) == range_sum(
                    j as nat,
                    miss_term(g, S0, ws, v),
                ) + miss_term(g, S0, ws, v)(j as nat));
                if w != v && !g.adj(v as int, w as int) {
                    assert(!g.adj(w as int, v as int));
                    lemma_wt_sym(ws, v, w);
                } else if w != v {
                    assert(g.adj(w as int, v as int));
                }
                assert forall|x: nat| x < n implies 0 <= #[trigger] self.paid()(x) <= u64::MAX by {}
                lemma_range_sum_bounds(n as nat, self.paid(), u64::MAX as int);
                assert forall|x: nat| x < j + 1 implies 0 <= #[trigger] miss_term(g, S0, ws, v)(x) <= u32::MAX by {}
                lemma_range_sum_bounds((j + 1) as nat, miss_term(g, S0, ws, v), u32::MAX as int);
                assert((j + 1) * (u32::MAX as int) <= n * (u32::MAX as int)) by (nonlinear_arith)
                    requires
                        j + 1 <= n,
                ;
                assert(n * (u64::MAX as int) <= 0x1_0000_0000_0000_0000_0000_0000) by (nonlinear_arith)
                    requires
                        0 <= n <= u32::MAX,
                ;
                assert(n * (u32::MAX as int) <= 0x1_0000_0000_0000_0000) by (nonlinear_arith)
                    requires
                        0 <= n <= u32::MAX,
                ;
            }
            j += 1;
        }
        proof {
            assert forall|w: int|
                0 <= w < n implies #[trigger] self.weight_adj_clique@[w] == range_sum(
                    n as nat,
                    miss_term(g, self.cand(), self.weights@, w as usize),
                ) by {}
            assert forall|w: int| 0 <= w < n implies #[trigger] self.weight_adj_clique@[w] == s0.weight_adj_clique@[w]
                + if w != v && !g.adj(v as int, w) {
                wt(ws, v, w as usize)
            } else {
                0
            } by {
                lemma_range_sum_point(n as nat, miss_term(g, S0, ws, w as usize), miss_term(g, S1, ws, w as usize), v as nat);
                if w != v && !g.adj(v as int, w) {
                    assert(!g.adj(w, v as int)) by {
                        if g.adj(w, v as int) {
                            assert(g.adj(v as int, w));
                        }
                    }
                    lemma_wt_sym(ws, v, w as usize);
                } else if w != v {
                    assert(g.adj(w, v as int));
                }
            }
        }
    }

    /// removes the vertex v from the candidate clique
    pub fn remove_vertex(&mut self, g: &DimacsInstance, v: VertexId)
        requires
            old(self).wf(g),
            v < old(self).n,
            old(self).cand().contains(v),
        ensures
            final(self).wf(g),
            final(self).cand() == old(self).cand().remove(v),
            final(self).current_sol == old(self).current_sol,
            final(self).tabu == old(self).tabu,
            final(self).nb_iter == old(self).nb_iter,
            final(self).n == old(self).n,
            final(self).total_weight == old(self).total_weight - old(self).weight_adj_clique@[v as int],
            forall|w: int|
                0 <= w < old(self).n && w != v ==> #[trigger] final(self).weight_adj_clique@[w] == old(
                    self,
                ).weight_adj_clique@[w] - if !g.adj(v as int, w) {
                    wt(old(self).weights@, v, w as usize)
                } else {
                    0
                },
            final(self).weights == old(self).weights,
            forall|x: int, y: int|
                0 <= y < x < old(self).n ==> #[trigger] final(self).weights@[x]@[y] >= old(
                    self,
                ).weights@[x]@[y],
    {
        let ghost s0 = *self;
        let ghost n = self.n as int;
        let ghost S0 = self.cand();
        let ghost ws0 = self.weights@;
        let ghost m0 = range_sum(n as nat, miss_term(g, S0, ws0, v));
        self.inside_clique.remove(v);
        let ghost S1 = self.cand();
        proof {
            assert(S1 == S0.remove(v));
            lemma_range_sum_point(n as nat, s0.paid(), self.paid(), v as nat);
            assert(self.weight_adj_clique@[v as int] == m0);
            lemma_range_sum_ext(n as nat, miss_term(g, S0, ws0, v), miss_term(g, S1, ws0, v));
            lemma_miss_bound(g, S0, ws0, v, n as nat);
            assert forall|x: nat| x < n implies 0 <= #[trigger] self.paid()(x) <= u64::MAX by {}
            lemma_range_sum_bounds(n as nat, self.paid(), u64::MAX as int);
            assert(n * (u64::MAX as int) <= 0x1_0000_0000_0000_0000_0000_0000) by (nonlinear_arith)
                requires
                    0 <= n <= u32::MAX,
            ;
        }
        let mut j: usize = 0;
        while j < self.n
            invariant
                self.shape(g),
                self.n == s0.n,
                n == self.n,
                v < n,
                S1 == S0.remove(v),
                S0.contains(v),
                self.cand() == S1,
                ws0.len() == n,
                forall|x: int| 0 <= x < n ==> #[trigger] ws0[x]@.len() == x,
                self.current_sol == s0.current_sol,
                self.tabu == s0.tabu,
                self.nb_iter == s0.nb_iter,
                m0 == range_sum(n as nat, miss_term(g, S1, ws0, v)),
                0 <= m0 <= n * (u32::MAX as int),
                j <= n,
                forall|x: int, y: int| 0 <= y < x < n ==> #[trigger] self.weights@[x]@[y] >= ws0[x]@[y],
                self.weights == s0.weights,
                forall|a: usize, b: usize|
                    a < n && b < n && a != b && a != v && b != v ==> #[trigger] wt(self.weights@, a, b)
                        == wt(ws0, a, b),
                forall|a: usize| j <= a < n && a != v ==> #[trigger] wt(self.weights@, v, a) == wt(ws0, v, a),
                forall|w: int|
                    0 <= w < j && w != v ==> #[trigger] self.weight_adj_clique@[w] == range_sum(
                        n as nat,
                        miss_term(g, S1, self.weights@, w as usize),
                    ),
                forall|w: int|
                    j <= w < n && w != v ==> #[trigger] self.weight_adj_clique@[w] == range_sum(
                        n as nat,
                        miss_term(g, S0, self.weights@, w as usize),
                    ),
                self.weight_adj_clique@[v as int] == range_sum(n as nat, miss_term(g, S1, self.weights@, v)),
                self.total_weight == s0.total_weight - range_sum(j as nat, miss_term(g, S1, ws0, v)),
                m0 == s0.weight_adj_clique@[v as int],
                ws0 == s0.weights@,
                forall|w: int|
                    0 <= w < n ==> #[trigger] s0.weight_adj_clique@[w] == range_sum(
                        n as nat,
                        miss_term(g, S0, ws0, w as usize),
                    ),
                2 * self.total_weight == range_sum(n as nat, self.paid()) + m0 - range_sum(
                    j as nat,
                    miss_term(g, S1, ws0, v),
                ),
                -0x1_0000_0000_0000_0000 <= self.total_weight <= 0x1_0000_0000_0000_0000_0000_0000,
            decreases n - j,
        {
            let w = j;
            let ghost before = *self;
            let ghost wsb = self.weights@;
            proof {
                assert forall|x: nat| x < j implies 0 <= #[trigger] miss_term(g, S1, ws0, v)(x) by {}
                lemma_range_sum_nonneg(j as nat, miss_term(g, S1, ws0, v));
            }
            if w != v && !g.are_adjacent(v, w) {
                let weight = self.get_weight(g, v, w);
                proof {
                    assert(wt(wsb, v, w) == wt(ws0, v, w));
                    assert(miss_term(g, S0, wsb, w)(v as nat) == weight);
                    assert(miss_term(g, S1, wsb, w)(v as nat) == 0);
                    assert(self.weight_adj_clique@[w as int] == range_sum(n as nat, miss_term(g, S0, wsb, w)));
                    lemma_range_sum_point(n as nat, miss_term(g, S0, wsb, w), miss_term(g, S1, wsb, w), v as nat);
                    assert forall|x: nat| x < n implies 0 <= #[trigger] miss_term(g, S1, wsb, w)(x) by {}
                    lemma_range_sum_nonneg(n as nat, miss_term(g, S1, wsb, w));
                }
                self.weight_adj_clique[w] = self.weight_adj_clique[w] - weight as u64;
                let in_w = self.inside_clique.contains(w);
                if in_w {
                    self.total_weight = self.total_weight - weight as i128;
                }
            }
            proof {
                let ws1 = self.weights@;
                assert forall|a: usize, b: usize|
                    a < n && b < n && a != b && !((a == v && b == w) || (a == w && b == v)) implies #[trigger] wt(
                    ws1,
                    a,
                    b,
                ) == wt(wsb, a, b) by {}
                assert forall|w2: int|
                    0 <= w2 < j + 1 && w2 != v implies #[trigger] self.weight_adj_clique@[w2] == range_sum(
                        n as nat,
                        miss_term(g, S1, ws1, w2 as usize),
                    ) by {
                    assert forall|x: nat| x < n implies #[trigger] miss_term(g, S1, wsb, w2 as usize)(x)
                        == miss_term(g, S1, ws1, w2 as usize)(x) by {
                        if x != w2 && S1.contains(x as usize) {
                            assert(x as usize != v);
                        }
                    }
                    lemma_range_sum_ext(n as nat, miss_term(g, S1, wsb, w2 as usize), miss_term(g, S1, ws1, w2 as usize));
                    if w2 < j {
                        assert(self.weight_adj_clique@[w2] == before.weight_adj_clique@[w2]);
                    } else if !(w2 != v && !g.adj(v as int, w2)) {
                        assert(g.adj(v as int, w2) && g.adj(w2, v as int));
                        assert forall|x: nat| x < n implies #[trigger] miss_term(g, S0, wsb, w2 as usize)(x)
                            == miss_term(g, S1, wsb, w2 as usize)(x) by {}
                        lemma_range_sum_ext(n as nat, miss_term(g, S0, wsb, w2 as usize), miss_term(g, S1, wsb, w2 as usize));
                    }
                }
                assert forall|w2: int|
                    j + 1 <= w2 < n && w2 != v implies #[trigger] self.weight_adj_clique@[w2] == range_sum(
                        n as nat,
                        miss_term(g, S0, ws1, w2 as usize),
                    ) by {
                    assert(self.weight_adj_clique@[w2] == before.weight_adj_clique@[w2]);
                    assert forall|x: nat| x < n implies #[trigger] miss_term(g, S0, wsb, w2 as usize)(x)
                        == miss_term(g, S0, ws1, w2 as usize)(x) by {}
                    lemma_range_sum_ext(n as nat, miss_term(g, S0, wsb, w2 as usize), miss_term(g, S0, ws1, w2 as usize));
                }
                if !(w != v && !g.adj(v as int, w as int) && S1.contains(w) && wt(wsb, v, w) < u32::MAX) {
                    assert forall|x: nat| x < n implies #[trigger] miss_term(g, S1, wsb, v)(x)
                        == miss_term(g, S1, ws1, v)(x) by {}
                    lemma_range_sum_ext(n as nat, miss_term(g, S1, wsb, v), miss_term(g, S1, ws1, v));
                }
                // total weight
                lemma_range_sum_point(n as nat, before.paid(), self.paid(), w as nat);
                assert(range_sum((j + 1) as nat, miss_term(g, S1, ws0, v)) == range_sum(
                    j as nat,
                    miss_term(g, S1, ws0, v),
                ) + miss_term(g, S1, ws0, v)(j as nat));
                if w != v {
                    lemma_wt_sym(ws0, v, w);
                    if g.adj(v as int, w as int) {
                        assert(g.adj(w as int, v as int));
                    } else {
                        assert(!g.adj(w as int, v as int));
                    }
                }
                assert forall|x: nat| x < n implies 0 <= #[trigger] self.paid()(x) <= u64::MAX by {}
                lemma_range_sum_bounds(n as nat, self.paid(), u64::MAX as int);
                assert forall|x: nat| x < j + 1 implies 0 <= #[trigger] miss_term(g, S1, ws0, v)(x) <= u32::MAX by {}
                lemma_range_sum_bounds((j + 1) as nat, miss_term(g, S1, ws0, v), u32::MAX as int);
                assert(n * (u64::MAX as int) <= 0x1_0000_0000_0000_0000_0000_0000) by (nonlinear_arith)
                    requires
                        0 <= n <= u32::MAX,
                ;
                assert(n * (u32::MAX as int) <= 0x1_0000_0000_0000_0000) by (nonlinear_arith)
                    requires
                        0 <= n <= u32::MAX,
                ;
                assert((j + 1) * (u32::MAX as int) <= n * (u32::MAX as int)) by (nonlinear_arith)
                    requires
                        j + 1 <= n,
                ;
            }
            j += 1;
        }
        proof {
            assert forall|w: int|
                0 <= w < n implies #[trigger] self.weight_adj_clique@[w] == range_sum(
                    n as nat,
                    miss_term(g, self.cand(), self.weights@, w as usize),
                ) by {}
            assert forall|w: int| 0 <= w < n && w != v implies #[trigger] self.weight_adj_clique@[w]
                == s0.weight_adj_clique@[w] - if !g.adj(v as int, w) {
                wt(ws0, v, w as usize)
            } else {
                0
            } by {
                lemma_range_sum_point(n as nat, miss_term(g, S0, ws0, w as usize), miss_term(g, S1, ws0, w as usize), v as nat);
                if !g.adj(v as int, w) {
                    assert(!g.adj(w, v as int)) by {
                        if g.adj(w, v as int) {
                            assert(g.adj(v as int, w));
                        }
                    }
                    lemma_wt_sym(ws0, v, w as usize);
                } else {
                    assert(g.adj(w, v as int));
                }
            }
        }
    }
}

/// one for a vertex of s
pub open spec fn inside_term(s: Set<usize>) -> spec_fn(usize) -> int {
    |y: usize|
        if s.contains(y) {
            1
        } else {
            0
        }
}

/// the vertices of s are pairwise adjacent
pub open spec fn pairwise_adjacent(g: &DimacsInstance, s: Set<usize>) -> bool {
    forall|a: usize, b: usize| s.contains(a) && s.contains(b) && a != b ==> #[trigger] g.adj(a as int, b as int)
}

impl CliqueConflictWeighting {
    /// The total weight is zero exactly when the candidate is a true clique.
    pub proof fn lemma_zero_weight_iff_clique(&self, g: &DimacsInstance)
        requires
            self.wf(g),
        ensures
            (self.total_weight == 0) <==> pairwise_adjacent(g, self.cand()),
    {
        let n = self.n as nat;
        let S = self.cand();
        let ws = self.weights@;
        assert forall|x: nat| x < n implies 0 <= #[trigger] self.paid()(x) by {}
        if self.total_weight == 0 {
            crate::sums::lemma_range_sum_zero(n, self.paid());
            assert forall|a: usize, b: usize| S.contains(a) && S.contains(b) && a != b implies #[trigger] g.adj(
                a as int,
                b as int,
            ) by {
                assert(below(n).contains(a) && below(n).contains(b));
                assert(self.paid()(b as nat) == 0);
                let f = miss_term(g, S, ws, b);
                assert forall|x: nat| x < n implies 0 <= #[trigger] f(x) by {}
                crate::sums::lemma_range_sum_zero(n, f);
                assert(f(a as nat) == 0);
                if !g.adj(a as int, b as int) {
                    assert(wt(ws, a, b) >= 1) by {
                        if a > b {
                            assert(ws[a as int]@[b as int] >= 1);
                        } else {
                            assert(ws[b as int]@[a as int] >= 1);
                        }
                    }
                }
            }
        }
        if pairwise_adjacent(g, S) {
            assert forall|x: nat| x < n implies 0 <= #[trigger] self.paid()(x) <= 0 by {
                if S.contains(x as usize) {
                    let f = miss_term(g, S, ws, x as usize);
                    assert forall|y: nat| y < n implies 0 <= #[trigger] f(y) <= 0 by {
                        if y != x && S.contains(y as usize) {
                            assert(g.adj(y as int, x as int));
                        }
                    }
                    lemma_range_sum_bounds(n, f, 0);
                }
            }
            lemma_range_sum_bounds(n, self.paid(), 0);
        }
    }

    /// the best clique is no larger than the candidate
    pub open spec fn sizes_ok(&self) -> bool {
        &&& self.cand().finite()
        &&& self.current_sol@.len() <= self.cand().len()
    }

    /// initializes the search from a clique: every non-edge weighs one
    pub fn initialize(g: &DimacsInstance, sol: &Vec<VertexId>) -> (r: Self)
        requires
            g.wf(),
            1 <= g.n <= u32::MAX,
            is_clique(g, sol@),
        ensures
            r.wf(g),
            r.sizes_ok(),
            r.current_sol@ == sol@,
            r.cand() == sol@.to_set(),
            r.total_weight == 0,
    {
        let n = g.n;
        let mut weights: Vec<Vec<Weight>> = Vec::new();
        let mut x: usize = 0;
        while x < n
            invariant
                x <= n,
                weights@.len() == x,
                forall|y: int| 0 <= y < x ==> #[trigger] weights@[y]@.len() == y,
                forall|y: int, z: int| 0 <= z < y < x ==> #[trigger] weights@[y]@[z] == 1,
            decreases n - x,
        {
            weights.push(vec![1; x]);
            x += 1;
        }
        let mut current_sol: Vec<VertexId> = Vec::new();
        let mut i: usize = 0;
        while i < sol.len()
            invariant
                i <= sol@.len(),
                current_sol@ == sol@.take(i as int),
            decreases sol@.len() - i,
        {
            current_sol.push(sol[i]);
            i += 1;
            proof {
                assert(current_sol@ =~= sol@.take(i as int));
            }
        }
        proof {
            assert(sol@.take(sol@.len() as int) =~= sol@);
            lemma_below(n as nat);
        }
        let mut r = CliqueConflictWeighting {
            n,
            weights,
            current_sol,
            inside_clique: VertexSet::with_capacity(n),
            weight_adj_clique: vec![0; n],
            total_weight: 0,
            tabu: TabuColTenure::new(10, 3, 5, n, 1),
            nb_iter: 0,
        };
        proof {
            assert forall|w: int| 0 <= w < n implies #[trigger] r.weight_adj_clique@[w] == range_sum(
                n as nat,
                miss_term(g, r.cand(), r.weights@, w as usize),
            ) by {
                assert forall|x: nat| x < n implies 0 <= #[trigger] miss_term(g, r.cand(), r.weights@, w as usize)(x)
                    <= 0 by {}
                lemma_range_sum_bounds(n as nat, miss_term(g, r.cand(), r.weights@, w as usize), 0);
            }
            assert forall|x: nat| x < n implies 0 <= #[trigger] r.paid()(x) <= 0 by {}
            lemma_range_sum_bounds(n as nat, r.paid(), 0);
            assert forall|y: int, z: int| 0 <= z < y < n implies #[trigger] r.weights@[y]@[z] >= 1 by {}
        }
        let mut i: usize = 0;
        while i < sol.len()
            invariant
                r.wf(g),
                r.n == n,
                n == g.n,
                r.current_sol@ == sol@,
                is_clique(g, sol@),
                i <= sol@.len(),
                r.cand() == sol@.take(i as int).to_set(),
                pairwise_adjacent(g, r.cand()),
                below(n as nat).finite(),
            decreases sol@.len() - i,
        {
            let v = sol[i];
            proof {
                assert(!sol@.take(i as int).contains(v)) by {
                    if sol@.take(i as int).contains(v) {
                        let q = choose|q: int| 0 <= q < i && sol@.take(i as int)[q] == v;
                        assert(sol@[q] == sol@[i as int]);
                    }
                }
                assert(sol@.take(i + 1) == sol@.take(i as int).push(v));
                sol@.take(i as int).lemma_push_to_set_commute(v);
                assert(v < n);
            }
            r.add_vertex(g, v);
            proof {
                assert forall|a: usize, b: usize| r.cand().contains(a) && r.cand().contains(b) && a != b implies #[trigger] g.adj(
                    a as int,
                    b as int,
                ) by {
                    let t = sol@.take(i + 1);
                    assert(t.to_set().contains(a) && t.to_set().contains(b));
                    let qa = choose|q: int| 0 <= q < t.len() && #[trigger] t[q] == a;
                    let qb = choose|q: int| 0 <= q < t.len() && #[trigger] t[q] == b;
                    assert(sol@[qa] == a && sol@[qb] == b);
                }
            }
            i += 1;
        }
        proof {
            assert(sol@.take(sol@.len() as int) =~= sol@);
            r.lemma_zero_weight_iff_clique(g);
            vstd::set_lib::lemma_len_subset(r.cand(), below(n as nat));
            sol@.unique_seq_to_set();
        }
        r
    }
}

/// a sequence without repeats of pairwise adjacent vertices of the graph is a clique
proof fn lemma_seq_clique(g: &DimacsInstance, s: Seq<VertexId>, c: Set<usize>)
    requires
        s.no_duplicates(),
        s.to_set() == c,
        pairwise_adjacent(g, c),
        c.subset_of(below(g.n as nat)),
    ensures
        is_clique(g, s),
{
    assert forall|i: int| 0 <= i < s.len() implies #[trigger] s[i] < g.n by {
        assert(s.to_set().contains(s[i]));
    }
    assert forall|i: int, j: int| 0 <= i < s.len() && 0 <= j < s.len() && i != j implies g.adj(
        #[trigger] s[i] as int,
        #[trigger] s[j] as int,
    ) by {
        assert(s.to_set().contains(s[i]) && s.to_set().contains(s[j]));
    }
}

impl CliqueConflictWeighting {
    /// the best clique holds c0 and is a clique; the candidate is either the
    /// whole vertex set, or the best clique plus one vertex with the most
    /// neighbors in it, which breaks it
    pub open spec fn grew(&self, g: &DimacsInstance, c0: Set<usize>) -> bool {
        let cl = self.current_sol@.to_set();
        &&& c0.subset_of(cl)
        &&& pairwise_adjacent(g, cl)
        &&& self.current_sol@.no_duplicates()
        &&& (self.cand() == cl && self.cand() == below(self.n as nat)) || exists|v: usize|
            v < self.n && !cl.contains(v) && self.cand() == cl.insert(v) && !pairwise_adjacent(
                g,
                self.cand(),
            ) && forall|y: usize|
                y < self.n && !cl.contains(y) ==> #[trigger] seq_sum(g.nbrs()[y as int], inside_term(cl))
                    <= seq_sum(g.nbrs()[v as int], inside_term(cl))
    }

    /// records the candidate, a true clique, as the best clique, then adds the
    /// outside vertex with the most neighbors in the candidate (the last one
    /// among equals) while the candidate stays a clique
    pub fn insert_new_vertex(&mut self, g: &DimacsInstance)
        requires
            old(self).wf(g),
            old(self).sizes_ok(),
            old(self).total_weight == 0,
        ensures
            final(self).wf(g),
            final(self).sizes_ok(),
            final(self).current_sol@.len() >= old(self).current_sol@.len(),
            final(self).tabu == old(self).tabu,
            final(self).nb_iter == old(self).nb_iter,
            final(self).n == old(self).n,
            final(self).weights == old(self).weights,
            final(self).grew(g, old(self).cand()),
    {
        let ghost s0 = *self;
        proof {
            self.lemma_zero_weight_iff_clique(g);
            lemma_below(self.n as nat);
        }
        let elems = self.inside_clique.elements();
        proof {
            lemma_seq_clique(g, elems@, self.cand());
            elems@.unique_seq_to_set();
        }
        self.current_sol = elems;
        proof {
            vstd::set_lib::lemma_len_subset(self.cand(), below(self.n as nat));
        }
        loop
            invariant
                s0 == *old(self),
                s0.cand().subset_of(self.cand()),
                pairwise_adjacent(g, self.cand()),
                self.weights == s0.weights,
                self.cand().len() <= self.n,
                below(self.n as nat).len() == self.n,
                self.wf(g),
                self.n == s0.n,
                self.tabu == s0.tabu,
                self.nb_iter == s0.nb_iter,
                self.total_weight == 0,
                below(self.n as nat).finite(),
                self.current_sol@.no_duplicates(),
                self.current_sol@.to_set() == self.cand(),
                self.current_sol@.len() == self.cand().len(),
                self.current_sol@.len() >= s0.current_sol@.len(),
            decreases self.n - self.cand().len(),
        {
            let mut best: Option<usize> = None;
            let mut best_degree: usize = 0;
            let mut x: usize = 0;
            while x < self.n
                invariant
                    self.wf(g),
                    x <= self.n,
                    match best {
                        Some(b) => b < self.n && !self.cand().contains(b) && best_degree == seq_sum(
                            g.nbrs()[b as int],
                            inside_term(self.cand()),
                        ) && forall|y: usize|
                            y < x && !self.cand().contains(y) ==> #[trigger] seq_sum(
                                g.nbrs()[y as int],
                                inside_term(self.cand()),
                            ) <= best_degree,
                        None => forall|y: usize| y < x ==> #[trigger] self.cand().contains(y),
                    },
                decreases self.n - x,
            {
                if !self.inside_clique.contains(x) {
                    let d = self.degree_inside(g, x);
                    let better = match best {
                        Some(_) => d >= best_degree,
                        None => true,
                    };
                    if better {
                        best = Some(x);
                        best_degree = d;
                    }
                }
                x += 1;
            }
            match best {
                None => {
                    proof {
                        assert(self.cand() =~= below(self.n as nat));
                    }
                    return ;
                },
                Some(v) => {
                    let ghost c0 = self.cand();
                    let ghost cs0 = self.current_sol@;
                    self.add_vertex(g, v);
                    proof {
                        vstd::set_lib::lemma_len_subset(self.cand(), below(self.n as nat));
                        assert(self.cand() == c0.insert(v));
                        assert(!c0.contains(v));
                        assert(self.cand().len() == c0.len() + 1);
                        self.lemma_zero_weight_iff_clique(g);
                    }
                    if self.total_weight != 0 {
                        return ;
                    }
                    proof {
                        self.lemma_zero_weight_iff_clique(g);
                    }
                    self.current_sol.push(v);
                    proof {
                        assert(!cs0.contains(v)) by {
                            assert(cs0.to_set() == c0);
                        }
                        crate::coloring_conflict_weighting::lemma_push_no_dup(cs0, v);
                        cs0.lemma_push_to_set_commute(v);
                        lemma_seq_clique(g, self.current_sol@, self.cand());
                    }
                },
            }
        }
    }

    /// number of neighbors of x in the candidate
    pub fn degree_inside(&self, g: &DimacsInstance, x: VertexId) -> (r: usize)
        requires
            self.wf(g),
            x < self.n,
        ensures
            r == seq_sum(g.nbrs()[x as int], inside_term(self.cand())),
    {
        let nb = g.neighbors(x);
        let mut cnt: usize = 0;
        let mut i: usize = 0;
        while i < nb.len()
            invariant
                self.wf(g),
                x < self.n,
                nb@ == g.nbrs()[x as int],
                i <= nb@.len(),
                cnt == seq_sum(nb@.take(i as int), inside_term(self.cand())),
                cnt <= i,
            decreases nb@.len() - i,
        {
            proof {
                lemma_seq_sum_take(nb@, inside_term(self.cand()), i as int);
            }
            if self.inside_clique.contains(nb[i]) {
                cnt += 1;
            }
            i += 1;
        }
        proof {
            assert(nb@.take(nb@.len() as int) =~= nb@);
        }
        cnt
    }

    /// increases by one the weight of the non-edge u-v, u outside the
    /// candidate and v inside, unless it is at its cap
    pub fn increase_weight(&mut self, g: &DimacsInstance, u: VertexId, v: VertexId)
        requires
            old(self).wf(g),
            u < old(self).n,
            v < old(self).n,
            u != v,
            !old(self).cand().contains(u),
            old(self).cand().contains(v),
            !g.adj(u as int, v as int),
        ensures
            final(self).wf(g),
            final(self).cand() == old(self).cand(),
            final(self).current_sol == old(self).current_sol,
            final(self).tabu == old(self).tabu,
            final(self).nb_iter == old(self).nb_iter,
            final(self).n == old(self).n,
            final(self).total_weight == old(self).total_weight,
            forall|x: int, y: int|
                0 <= y < x < old(self).n ==> #[trigger] final(self).weights@[x]@[y] >= old(
                    self,
                ).weights@[x]@[y],
            forall|a: usize, b: usize|
                a < old(self).n && b < old(self).n && a != b && !((a == u && b == v) || (a == v && b == u))
                    ==> #[trigger] wt(final(self).weights@, a, b) == wt(old(self).weights@, a, b),
            forall|w: int| 0 <= w < old(self).n && w != u ==> #[trigger] final(self).weight_adj_clique@[w]
                == old(self).weight_adj_clique@[w],
            wt(final(self).weights@, u, v) == if wt(old(self).weights@, u, v) < u32::MAX {
                wt(old(self).weights@, u, v) + 1
            } else {
                wt(old(self).weights@, u, v)
            },
    {
        let weight = self.get_weight(g, u, v);
        if weight < u32::MAX {
            let ghost s0 = *self;
            let ghost n = self.n as int;
            let ghost S = self.cand();
            let ghost ws0 = self.weights@;
            if u < v {
                self.weights[v][u] = self.weights[v][u] + 1;
            } else {
                self.weights[u][v] = self.weights[u][v] + 1;
            }
            proof {
                let ws1 = self.weights@;
                assert forall|a: usize, b: usize|
                    a < n && b < n && a != b implies #[trigger] wt(ws1, a, b) == wt(ws0, a, b)
                        + if (a == u && b == v) || (a == v && b == u) {
                        1int
                    } else {
                        0int
                    } by {}
                assert(!g.adj(v as int, u as int));
                lemma_range_sum_point(n as nat, miss_term(g, S, ws0, u), miss_term(g, S, ws1, u), v as nat);
                lemma_miss_bound(g, S, ws1, u, n as nat);
                assert(n * (u32::MAX as int) <= u64::MAX) by (nonlinear_arith)
                    requires
                        0 <= n <= u32::MAX,
                ;
            }
            self.weight_adj_clique[u] = self.weight_adj_clique[u] + 1;
            proof {
                let ws1 = self.weights@;
                assert forall|w: int| 0 <= w < n implies #[trigger] self.weight_adj_clique@[w] == range_sum(
                    n as nat,
                    miss_term(g, S, ws1, w as usize),
                ) by {
                    if w != u {
                        assert forall|x: nat| x < n implies #[trigger] miss_term(g, S, ws0, w as usize)(x)
                            == miss_term(g, S, ws1, w as usize)(x) by {}
                        lemma_range_sum_ext(n as nat, miss_term(g, S, ws0, w as usize), miss_term(g, S, ws1, w as usize));
                    }
                }
                lemma_range_sum_ext(n as nat, s0.paid(), self.paid());
                assert forall|x: int, y: int| 0 <= y < x < n implies #[trigger] self.weights@[x]@[y] >= 1 by {
                    assert(ws0[x]@[y] >= 1);
                }
            }
        }
    }

    /// the swap that takes out the member u of largest missing weight and puts
    /// in the non-tabu outside vertex v of least missing weight
    pub fn select_swap(&self, g: &DimacsInstance) -> (r: Option<(usize, usize)>)
        requires
            self.wf(g),
        ensures
            match r {
                Some((u, v)) => {
                    &&& u < self.n
                    &&& v < self.n
                    &&& self.cand().contains(u)
                    &&& !self.cand().contains(v)
                    &&& !self.tabu.is_tabu(v as int, 0)
                    &&& forall|x: int| 0 <= x < self.n && #[trigger] self.cand().contains(x as usize)
                        ==> self.weight_adj_clique@[x] <= self.weight_adj_clique@[u as int]
                    &&& forall|y: int|
                        0 <= y < self.n && !#[trigger] self.cand().contains(y as usize) && !self.tabu.is_tabu(y, 0)
                            ==> self.weight_adj_clique@[v as int] <= self.weight_adj_clique@[y]
                },
                None => (forall|x: int| 0 <= x < self.n ==> !#[trigger] self.cand().contains(x as usize))
                    || (forall|y: int|
                    0 <= y < self.n ==> #[trigger] self.cand().contains(y as usize) || self.tabu.is_tabu(y, 0)),
            },
    {
        let mut out: Option<usize> = None;
        let mut inn: Option<usize> = None;
        let mut x: usize = 0;
        while x < self.n
            invariant
                self.wf(g),
                x <= self.n,
                match out {
                    Some(u) => u < self.n && self.cand().contains(u) && forall|y: int|
                        0 <= y < x && #[trigger] self.cand().contains(y as usize) ==> self.weight_adj_clique@[y]
                            <= self.weight_adj_clique@[u as int],
                    None => forall|y: int| 0 <= y < x ==> !#[trigger] self.cand().contains(y as usize),
                },
                match inn {
                    Some(v) => v < self.n && !self.cand().contains(v) && !self.tabu.is_tabu(v as int, 0)
                        && forall|y: int|
                        0 <= y < x && !#[trigger] self.cand().contains(y as usize) && !self.tabu.is_tabu(y, 0)
                            ==> self.weight_adj_clique@[v as int] <= self.weight_adj_clique@[y],
                    None => forall|y: int|
                        0 <= y < x ==> #[trigger] self.cand().contains(y as usize) || self.tabu.is_tabu(y, 0),
                },
            decreases self.n - x,
        {
            if self.inside_clique.contains(x) {
                let better = match out {
                    Some(u) => self.weight_adj_clique[x] >= self.weight_adj_clique[u],
                    None => true,
                };
                if better {
                    out = Some(x);
                }
            } else if !self.tabu.contains(&Decision { v: x, c: 0 }) {
                let better = match inn {
                    Some(v) => self.weight_adj_clique[x] < self.weight_adj_clique[v],
                    None => true,
                };
                if better {
                    inn = Some(x);
                }
            }
            x += 1;
        }
        match (out, inn) {
            (Some(u), Some(v)) => Some((u, v)),
            _ => None,
        }
    }

    /// one iteration of the search: when the candidate is a clique, records it
    /// and grows it; otherwise swaps a member for an outside vertex, and the
    /// weight of the pair grows when the two are not adjacent; returns true
    /// iff a swap was made
    pub fn step(&mut self, g: &DimacsInstance) -> (moved: bool)
        requires
            old(self).wf(g),
            old(self).sizes_ok(),
        ensures
            final(self).wf(g),
            final(self).sizes_ok(),
            final(self).n == old(self).n,
            final(self).current_sol@.len() >= old(self).current_sol@.len(),
            forall|x: int, y: int|
                0 <= y < x < old(self).n ==> #[trigger] final(self).weights@[x]@[y] >= old(
                    self,
                ).weights@[x]@[y],
            old(self).total_weight == 0 ==> !moved && final(self).grew(g, old(self).cand()),
            old(self).total_weight != 0 && old(self).nb_iter < i64::MAX ==> {
                &&& moved ==> exists|u: usize, v: usize|
                    {
                        &&& #[trigger] old(self).cand().contains(u)
                        &&& !#[trigger] old(self).cand().contains(v)
                        &&& !old(self).tabu.is_tabu(v as int, 0)
                        &&& (forall|x: int|
                            0 <= x < old(self).n && #[trigger] old(self).cand().contains(x as usize)
                                ==> old(self).weight_adj_clique@[x] <= old(self).weight_adj_clique@[u as int])
                        &&& (forall|y: int|
                            0 <= y < old(self).n && !#[trigger] old(self).cand().contains(y as usize)
                                && !old(self).tabu.is_tabu(y, 0) ==> old(self).weight_adj_clique@[v as int]
                                <= old(self).weight_adj_clique@[y])
                        &&& final(self).cand() == old(self).cand().remove(u).insert(v)
                        &&& final(self).total_weight == old(self).total_weight - old(self).weight_adj_clique@[
                            u as int] + old(self).weight_adj_clique@[v as int] - if !g.adj(u as int, v as int) {
                            wt(old(self).weights@, u, v)
                        } else {
                            0
                        }
                        &&& (forall|a: usize, b: usize|
                            a < old(self).n && b < old(self).n && a != b && !((a == u && b == v) || (a == v
                                && b == u)) ==> #[trigger] wt(final(self).weights@, a, b) == wt(
                                old(self).weights@,
                                a,
                                b,
                            ))
                        &&& !g.adj(u as int, v as int) ==> wt(final(self).weights@, u, v) == if wt(
                            old(self).weights@,
                            u,
                            v,
                        ) < u32::MAX {
                            wt(old(self).weights@, u, v) + 1
                        } else {
                            wt(old(self).weights@, u, v)
                        }
                    }
                &&& !moved ==> (forall|x: int| 0 <= x < old(self).n ==> !#[trigger] old(self).cand().contains(x as usize))
                    || (forall|y: int|
                    0 <= y < old(self).n ==> #[trigger] old(self).cand().contains(y as usize)
                        || old(self).tabu.is_tabu(y, 0))
            },
    {
        if self.total_weight == 0 {
            self.insert_new_vertex(g);
            return false;
        }
        if self.nb_iter >= i64::MAX as u64 {
            return false;
        }
        let found = self.select_swap(g);
        let moved = match found {
            Some((u, v)) => {
                let ghost c0 = self.cand();
                let ghost w0 = self.weights@;
                self.remove_vertex(g, u);
                self.add_vertex(g, v);
                if !g.are_adjacent(u, v) {
                    self.increase_weight(g, u, v);
                }
                proof {
                    lemma_below(self.n as nat);
                    vstd::set_lib::lemma_len_subset(self.cand(), below(self.n as nat));
                    assert(self.cand() == c0.remove(u).insert(v));
                }
                let f: u64 = if self.total_weight > u64::MAX as i128 {
                    u64::MAX
                } else if self.total_weight < 0 {
                    0
                } else {
                    self.total_weight as u64
                };
                self.tabu.insert(&Decision { v: u, c: 0 }, f);
                true
            },
            None => false,
        };
        self.tabu.increment_iter();
        self.nb_iter += 1;
        moved
    }
}

/// runs the conflict weighting local search for the maximum clique from a
/// clique for at most max_iter iterations, and returns the best clique found,
/// extended into a maximal clique: a clique at least as large as the seed
pub fn clique_conflict_weighting(g: &DimacsInstance, sol: &Vec<VertexId>, max_iter: u64) -> (r: Vec<
    VertexId,
>)
    requires
        g.wf(),
        g.n <= u32::MAX,
        is_clique(g, sol@),
    ensures
        is_clique(g, r@),
        r@.len() >= sol@.len(),
        crate::clique::is_maximal(g, r@),
        max_iter >= 1 && (exists|x: usize|
            x < g.n && !sol@.contains(x) && forall|w: usize| #[trigger] sol@.contains(w) ==> g.adj(
                x as int,
                w as int,
            )) ==> r@.len() > sol@.len(),
{
    if g.n == 0 {
        proof {
            if sol@.len() > 0 {
                assert(sol@[0] < g.n);
            }
        }
        return Vec::new();
    }
    let mut ls = CliqueConflictWeighting::initialize(g, sol);
    let ghost grows = max_iter >= 1 && (exists|x: usize|
        x < g.n && !sol@.contains(x) && forall|w: usize| #[trigger] sol@.contains(w) ==> g.adj(
            x as int,
            w as int,
        ));
    let mut it: u64 = 0;
    if max_iter >= 1 {
        ls.step(g);
        proof {
            if grows {
                lemma_growth(g, sol@, ls);
            }
        }
        it = 1;
    }
    while it < max_iter
        invariant
            ls.wf(g),
            ls.sizes_ok(),
            ls.current_sol@.len() >= sol@.len(),
            grows ==> ls.current_sol@.len() > sol@.len(),
        decreases max_iter - it,
    {
        ls.step(g);
        it += 1;
    }
    let mut res: Vec<VertexId> = Vec::new();
    let mut i: usize = 0;
    while i < ls.current_sol.len()
        invariant
            i <= ls.current_sol@.len(),
            res@ == ls.current_sol@.take(i as int),
        decreases ls.current_sol@.len() - i,
    {
        res.push(ls.current_sol[i]);
        i += 1;
        proof {
            assert(res@ =~= ls.current_sol@.take(i as int));
        }
    }
    proof {
        assert(ls.current_sol@.take(ls.current_sol@.len() as int) =~= ls.current_sol@);
    }
    proof {
        assert(is_clique(g, res@));
    }
    crate::clique::extend_to_maximal(g, &res)
}

/// the neighbors of a vertex inside s are counted once each
proof fn lemma_inside_count(nb: Seq<usize>, s: Set<usize>)
    requires
        nb.no_duplicates(),
        s.finite(),
    ensures
        seq_sum(nb, inside_term(s)) == nb.to_set().intersect(s).len(),
        nb.to_set().intersect(s).finite(),
    decreases nb.len(),
{
    if nb.len() == 0 {
        assert(nb.to_set().intersect(s) =~= Set::<usize>::empty());
    } else {
        let t = nb.drop_last();
        let e = nb.last();
        assert(t.no_duplicates()) by {
            assert forall|i: int, j: int| 0 <= i < t.len() && 0 <= j < t.len() && i != j implies t[i] != t[j] by {
                assert(t[i] == nb[i] && t[j] == nb[j]);
            }
        }
        lemma_inside_count(t, s);
        assert(nb == t.push(e));
        t.lemma_push_to_set_commute(e);
        assert(!t.contains(e)) by {
            if t.contains(e) {
                let i = choose|i: int| 0 <= i < t.len() && t[i] == e;
                assert(nb[i] == nb[nb.len() - 1]);
            }
        }
        if s.contains(e) {
            assert(nb.to_set().intersect(s) =~= t.to_set().intersect(s).insert(e));
        } else {
            assert(nb.to_set().intersect(s) =~= t.to_set().intersect(s));
        }
    }
}

/// a finite set strictly inside another has fewer elements
proof fn lemma_strict_subset_len(a: Set<usize>, b: Set<usize>, e: usize)
    requires
        b.finite(),
        a.subset_of(b),
        b.contains(e),
        !a.contains(e),
    ensures
        a.len() < b.len(),
{
    vstd::set_lib::lemma_len_subset(a, b.remove(e));
}

/// from a clique that some vertex extends, the grow phase ends with a larger
/// best clique
proof fn lemma_growth(g: &DimacsInstance, sol: Seq<VertexId>, l1: CliqueConflictWeighting)
    requires
        g.wf(),
        l1.wf(g),
        is_clique(g, sol),
        l1.grew(g, sol.to_set()),
        exists|x: usize|
            x < g.n && !sol.contains(x) && forall|w: usize| #[trigger] sol.contains(w) ==> g.adj(x as int, w as int),
    ensures
        l1.current_sol@.len() > sol.len(),
{
    let x = choose|x: usize|
        x < g.n && !sol.contains(x) && forall|w: usize| #[trigger] sol.contains(w) ==> g.adj(x as int, w as int);
    let cl = l1.current_sol@.to_set();
    let ss = sol.to_set();
    sol.unique_seq_to_set();
    l1.current_sol@.unique_seq_to_set();
    lemma_below(g.n as nat);
    if cl == ss {
        if l1.cand() == cl && l1.cand() == below(g.n as nat) {
            assert(below(g.n as nat).contains(x));
        } else {
            let v = choose|v: usize|
                v < l1.n && !cl.contains(v) && l1.cand() == cl.insert(v) && !pairwise_adjacent(g, l1.cand())
                    && forall|y: usize|
                    y < l1.n && !cl.contains(y) ==> #[trigger] seq_sum(g.nbrs()[y as int], inside_term(cl))
                        <= seq_sum(g.nbrs()[v as int], inside_term(cl));
            let nbx = g.nbrs()[x as int];
            let nbv = g.nbrs()[v as int];
            assert(nbx.no_duplicates() && nbv.no_duplicates());
            lemma_inside_count(nbx, cl);
            lemma_inside_count(nbv, cl);
            assert(nbx.to_set().intersect(cl) =~= cl) by {
                assert forall|w: usize| cl.contains(w) implies nbx.to_set().contains(w) by {
                    assert(sol.contains(w));
                    assert(g.adj(x as int, w as int));
                }
            }
            assert(!cl.contains(x));
            assert(seq_sum(nbx, inside_term(cl)) <= seq_sum(nbv, inside_term(cl)));
            // v is adjacent to every member of cl
            assert forall|w: usize| cl.contains(w) implies g.adj(v as int, w as int) by {
                if !nbv.to_set().contains(w) {
                    lemma_strict_subset_len(nbv.to_set().intersect(cl), cl, w);
                }
            }
            assert(pairwise_adjacent(g, l1.cand())) by {
                assert forall|a: usize, b: usize| l1.cand().contains(a) && l1.cand().contains(b) && a != b implies #[trigger] g.adj(
                    a as int,
                    b as int,
                ) by {
                    if a == v {
                    } else if b == v {
                        assert(g.adj(v as int, a as int));
                    }
                }
            }
        }
    } else {
        assert(ss.subset_of(cl));
        assert(exists|e: usize| cl.contains(e) && !ss.contains(e)) by {
            if !(exists|e: usize| cl.contains(e) && !ss.contains(e)) {
                assert(cl =~= ss);
            }
        }
        let e = choose|e: usize| cl.contains(e) && !ss.contains(e);
        lemma_strict_subset_len(ss, cl, e);
    }
}

} // verus!
