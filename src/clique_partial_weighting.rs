use vstd::prelude::*;
use crate::bitset::{VertexSet, bits_of};
use crate::clique::is_clique;
use crate::clique_conflict_weighting::pairwise_adjacent;
use crate::color::{DimacsInstance, VertexId, below, lemma_below};
use crate::sums::{range_sum, lemma_range_sum_point, lemma_range_sum_bounds, lemma_range_sum_ext};
use crate::tabu::{Decision, TabuColTenure};

verus! {

/// weight that x, if in s and not adjacent to w, costs the insertion of w
pub open spec fn insert_term(g: &DimacsInstance, s: Set<usize>, ws: Seq<u64>, w: usize) -> spec_fn(
    nat,
) -> int {
    |x: nat|
        if x != w && s.contains(x as usize) && !g.adj(x as int, w as int) {
            ws[x as int] as int
        } else {
            0
        }
}

/// weight of x if in s
pub open spec fn member_weight(s: Set<usize>, ws: Seq<u64>) -> spec_fn(nat) -> int {
    |x: nat|
        if s.contains(x as usize) {
            ws[x as int] as int
        } else {
            0
        }
}

/// partial weighting local search for the maximum clique problem: the
/// candidate is always a clique; inserting a vertex removes its non-neighbors
pub struct CliquePartialWeighting {
    /// number of vertices
    pub n: usize,
    /// weights[v]: weight of vertex v
    pub weights: Vec<u64>,
    /// best clique found so far
    pub current_sol: Vec<VertexId>,
    /// vertices of the candidate clique
    pub inside_clique: VertexSet,
    /// total weight of the candidate
    pub total_weight: u64,
    /// weight_cost_inserting[v]: weight of the members not adjacent to v
    pub weight_cost_inserting: Vec<u64>,
    /// vertices that the next insertion may take: the neighbors of the last inserted vertex
    pub configuration: VertexSet,
    /// tabu tenure, keyed by vertex (color 0)
    pub tabu: TabuColTenure,
    /// number of iterations
    pub nb_iter: u64,
}

impl CliquePartialWeighting {
    /// the candidate clique
    pub open spec fn cand(&self) -> Set<usize> {
        bits_of(self.inside_clique)
    }

    /// the aggregates agree with the candidate
    pub open spec fn wf(&self, g: &DimacsInstance) -> bool {
        let n = self.n as int;
        &&& g.wf()
        &&& self.n == g.n
        &&& 1 <= self.n <= u32::MAX
        &&& self.weights@.len() == n
        &&& forall|x: int| 0 <= x < n ==> 1 <= #[trigger] self.weights@[x] <= u32::MAX
        &&& self.weight_cost_inserting@.len() == n
        &&& self.cand().subset_of(below(self.n as nat))
        &&& self.cand().finite()
        &&& pairwise_adjacent(g, self.cand())
        &&& is_clique(g, self.current_sol@)
        &&& self.current_sol@.len() >= self.cand().len()
        &&& self.tabu.wf(n as nat, 1)
        &&& self.tabu.nb_iter == self.nb_iter
        &&& forall|w: int|
            0 <= w < n ==> #[trigger] self.weight_cost_inserting@[w] == range_sum(
                self.n as nat,
                insert_term(g, self.cand(), self.weights@, w as usize),
            )
        &&& self.total_weight == range_sum(self.n as nat, member_weight(self.cand(), self.weights@))
    }
}

proof fn lemma_insert_bound(g: &DimacsInstance, s: Set<usize>, ws: Seq<u64>, w: usize, n: nat)
    requires
        n <= u32::MAX,
        ws.len() == n,
        forall|x: int| 0 <= x < n ==> 1 <= #[trigger] ws[x] <= u32::MAX,
    ensures
        0 <= range_sum(n, insert_term(g, s, ws, w)) <= n * (u32::MAX as int),
        0 <= range_sum(n, member_weight(s, ws)) <= n * (u32::MAX as int),
        n * (u32::MAX as int) <= u64::MAX,
{
    assert forall|x: nat| x < n implies 0 <= #[trigger] insert_term(g, s, ws, w)(x) <= u32::MAX by {}
    lemma_range_sum_bounds(n, insert_term(g, s, ws, w), u32::MAX as int);
    assert forall|x: nat| x < n implies 0 <= #[trigger] member_weight(s, ws)(x) <= u32::MAX by {}
    lemma_range_sum_bounds(n, member_weight(s, ws), u32::MAX as int);
    assert(n * (u32::MAX as int) <= u64::MAX) by (nonlinear_arith)
        requires
            n <= u32::MAX,
    ;
}

impl CliquePartialWeighting {
    /// moves v into (inserting) or out of the candidate and updates the costs;
    /// the candidate need not stay a clique in between
    fn shift(&mut self, g: &DimacsInstance, v: VertexId, inserting: bool)
        requires
            old(self).n == g.n,
            g.wf(),
            1 <= old(self).n <= u32::MAX,
            v < old(self).n,
            old(self).weights@.len() == old(self).n,
            forall|x: int| 0 <= x < old(self).n ==> 1 <= #[trigger] old(self).weights@[x] <= u32::MAX,
            old(self).weight_cost_inserting@.len() == old(self).n,
            old(self).cand().subset_of(below(old(self).n as nat)),
            inserting == !old(self).cand().contains(v),
            forall|w: int|
                0 <= w < old(self).n ==> #[trigger] old(self).weight_cost_inserting@[w] == range_sum(
                    old(self).n as nat,
                    insert_term(g, old(self).cand(), old(self).weights@, w as usize),
                ),
            old(self).total_weight == range_sum(
                old(self).n as nat,
                member_weight(old(self).cand(), old(self).weights@),
            ),
        ensures
            final(self).cand() == if inserting {
                old(self).cand().insert(v)
            } else {
                old(self).cand().remove(v)
            },
            final(self).weights == old(self).weights,
            final(self).weight_cost_inserting@.len() == final(self).n,
            forall|w: int|
                0 <= w < final(self).n ==> #[trigger] final(self).weight_cost_inserting@[w] == range_sum(
                    final(self).n as nat,
                    insert_term(g, final(self).cand(), final(self).weights@, w as usize),
                ),
            final(self).total_weight == range_sum(
                final(self).n as nat,
                member_weight(final(self).cand(), final(self).weights@),
            ),
            final(self).n == old(self).n,
            final(self).current_sol == old(self).current_sol,
            final(self).configuration == old(self).configuration,
            final(self).tabu == old(self).tabu,
            final(self).nb_iter == old(self).nb_iter,
    {
        let ghost n = self.n as int;
        let ghost S0 = self.cand();
        let ghost ws = self.weights@;
        let wv = self.weights[v];
        proof {
            lemma_insert_bound(g, S0, ws, v, n as nat);
        }
        if inserting {
            self.inside_clique.insert(v);
            proof {
                lemma_range_sum_point(n as nat, member_weight(S0, ws), member_weight(self.cand(), ws), v as nat);
                lemma_insert_bound(g, self.cand(), ws, v, n as nat);
            }
            self.total_weight = self.total_weight + wv;
        } else {
            self.inside_clique.remove(v);
            proof {
                lemma_range_sum_point(n as nat, member_weight(S0, ws), member_weight(self.cand(), ws), v as nat);
                assert forall|x: nat| x < n implies 0 <= #[trigger] member_weight(self.cand(), ws)(x) by {}
                crate::sums::lemma_range_sum_nonneg(n as nat, member_weight(self.cand(), ws));
            }
            self.total_weight = self.total_weight - wv;
        }
        let ghost S1 = self.cand();
        let mut j: usize = 0;
        while j < self.n
            invariant
                self.n == n,
                g.wf(),
                n == g.n,
                1 <= n <= u32::MAX,
                v < n,
                ws == self.weights@,
                ws.len() == n,
                forall|x: int| 0 <= x < n ==> 1 <= #[trigger] ws[x] <= u32::MAX,
                wv == ws[v as int],
                self.cand() == S1,
                S1 == if inserting { S0.insert(v) } else { S0.remove(v) },
                inserting == !S0.contains(v),
                self.weight_cost_inserting@.len() == n,
                j <= n,
                forall|w: int|
                    0 <= w < j ==> #[trigger] self.weight_cost_inserting@[w] == range_sum(
                        n as nat,
                        insert_term(g, S1, ws, w as usize),
                    ),
                forall|w: int|
                    j <= w < n ==> #[trigger] self.weight_cost_inserting@[w] == range_sum(
                        n as nat,
                        insert_term(g, S0, ws, w as usize),
                    ),
                self.total_weight == range_sum(n as nat, member_weight(S1, ws)),
                self.current_sol == old(self).current_sol,
                self.configuration == old(self).configuration,
                self.tabu == old(self).tabu,
                self.nb_iter == old(self).nb_iter,
                self.weights == old(self).weights,
            decreases n - j,
        {
            let w = j;
            let ghost before = self.weight_cost_inserting@;
            if w != v && !g.are_adjacent(v, w) {
                proof {
                    assert(!g.adj(w as int, v as int)) by {
                        if g.adj(w as int, v as int) {
                            assert(g.adj(v as int, w as int));
                        }
                    }
                    lemma_range_sum_point(n as nat, insert_term(g, S0, ws, w), insert_term(g, S1, ws, w), v as nat);
                    lemma_insert_bound(g, S1, ws, w, n as nat);
                    lemma_insert_bound(g, S0, ws, w, n as nat);
                }
                if inserting {
                    self.weight_cost_inserting[w] = self.weight_cost_inserting[w] + wv;
                } else {
                    self.weight_cost_inserting[w] = self.weight_cost_inserting[w] - wv;
                }
            } else {
                proof {
                    if w != v {
                        assert(g.adj(v as int, w as int) && g.adj(w as int, v as int));
                    }
                    assert forall|x: nat| x < n implies #[trigger] insert_term(g, S0, ws, w)(x)
                        == insert_term(g, S1, ws, w)(x) by {}
                    lemma_range_sum_ext(n as nat, insert_term(g, S0, ws, w), insert_term(g, S1, ws, w));
                }
            }
            proof {
                assert forall|w2: int|
                    0 <= w2 < j + 1 implies #[trigger] self.weight_cost_inserting@[w2] == range_sum(
                        n as nat,
                        insert_term(g, S1, ws, w2 as usize),
                    ) by {
                    if w2 < j {
                        assert(self.weight_cost_inserting@[w2] == before[w2]);
                    }
                }
            }
            j += 1;
        }
    }
}

impl CliquePartialWeighting {
    /// inserts the outside vertex u into the candidate after removing the
    /// members not adjacent to u; the neighbors of u become the configuration;
    /// a candidate larger than the best clique is recorded
    pub fn add_vertex(&mut self, g: &DimacsInstance, u: VertexId)
        requires
            old(self).wf(g),
            u < old(self).n,
            !old(self).cand().contains(u),
        ensures
            final(self).wf(g),
            final(self).cand() == old(self).cand().filter(|x: usize| g.adj(x as int, u as int)).insert(u),
            bits_of(final(self).configuration) == g.nbrs()[u as int].to_set(),
            final(self).current_sol@.len() >= old(self).current_sol@.len(),
            final(self).cand().len() > old(self).current_sol@.len() ==> final(self).current_sol@.to_set()
                == final(self).cand(),
            final(self).cand().len() <= old(self).current_sol@.len() ==> final(self).current_sol
                == old(self).current_sol,
            final(self).n == old(self).n,
            final(self).tabu == old(self).tabu,
            final(self).nb_iter == old(self).nb_iter,
            final(self).weights == old(self).weights,
    {
        let ghost s0 = *self;
        let ghost n = self.n as int;
        let mut config = VertexSet::with_capacity(self.n);
        let nb = g.neighbors(u);
        let mut i: usize = 0;
        while i < nb.len()
            invariant
                nb@ == g.nbrs()[u as int],
                i <= nb@.len(),
                bits_of(config) == nb@.take(i as int).to_set(),
                g.wf(),
                u < g.n,
            decreases nb@.len() - i,
        {
            proof {
                assert(nb@.take(i + 1) == nb@.take(i as int).push(nb@[i as int]));
                nb@.take(i as int).lemma_push_to_set_commute(nb@[i as int]);
                assert(nb@[i as int] < g.n);
            }
            config.insert(nb[i]);
            i += 1;
        }
        proof {
            assert(nb@.take(nb@.len() as int) =~= nb@);
        }
        self.configuration = config;
        let members = self.inside_clique.elements();
        let ghost target = s0.cand().filter(|x: usize| g.adj(x as int, u as int));
        proof {
            assert(members@.subrange(0, members@.len() as int) =~= members@);
            assert forall|x: usize| #[trigger] self.cand().contains(x) <==> (s0.cand().contains(x) && (g.adj(
                x as int,
                u as int,
            ) || members@.subrange(0, members@.len() as int).contains(x))) by {
                assert(members@.contains(x) == members@.to_set().contains(x));
            }
        }
        let mut t: usize = 0;
        while t < members.len()
            invariant
                self.wf(g),
                self.n == s0.n,
                n == self.n,
                u < n,
                !self.cand().contains(u),
                members@.no_duplicates(),
                members@.to_set() == s0.cand(),
                s0.cand().subset_of(below(n as nat)),
                pairwise_adjacent(g, s0.cand()),
                t <= members@.len(),
                forall|x: usize|
                    #[trigger] self.cand().contains(x) <==> (s0.cand().contains(x) && (g.adj(x as int, u as int)
                        || members@.subrange(t as int, members@.len() as int).contains(x))),
                bits_of(self.configuration) == g.nbrs()[u as int].to_set(),
                self.current_sol == s0.current_sol,
                self.tabu == s0.tabu,
                self.nb_iter == s0.nb_iter,
                self.weights == s0.weights,
            decreases members@.len() - t,
        {
            let v = members[t];
            proof {
                assert(members@.to_set().contains(v));
                assert(below(n as nat).contains(v));
            }
            let ghost c0 = self.cand();
            if !g.are_adjacent(v, u) {
                proof {
                    assert(members@.subrange(t as int, members@.len() as int)[0] == v);
                }
                self.shift(g, v, false);
                proof {
                    lemma_below(n as nat);
                    vstd::set_lib::lemma_len_subset(self.cand(), c0);
                    assert forall|a: usize, b: usize| self.cand().contains(a) && self.cand().contains(b) && a
                        != b implies #[trigger] g.adj(a as int, b as int) by {
                        assert(c0.contains(a) && c0.contains(b));
                    }
                }
            }
            proof {
                let rest = members@.subrange(t as int, members@.len() as int);
                let rest1 = members@.subrange(t + 1, members@.len() as int);
                assert forall|x: usize|
                    #[trigger] self.cand().contains(x) <==> (s0.cand().contains(x) && (g.adj(x as int, u as int)
                        || rest1.contains(x))) by {
                    if rest.contains(x) && x != v {
                        let q = choose|q: int| 0 <= q < rest.len() && rest[q] == x;
                        assert(q != 0);
                        assert(rest1[q - 1] == x);
                    }
                    if rest1.contains(x) {
                        let q = choose|q: int| 0 <= q < rest1.len() && rest1[q] == x;
                        assert(rest[q + 1] == x);
                        assert(x != v) by {
                            assert(members@[t + 1 + q] == x && members@[t as int] == v);
                        }
                    }
                    if x == v {
                        assert(rest.contains(v)) by {
                            assert(rest[0] == v);
                        }
                        if rest1.contains(v) {
                            let q = choose|q: int| 0 <= q < rest1.len() && rest1[q] == v;
                            assert(members@[t + 1 + q] == members@[t as int]);
                        }
                    }
                }
            }
            t += 1;
        }
        proof {
            assert(self.cand() =~= target) by {
                assert forall|x: usize| self.cand().contains(x) <==> target.contains(x) by {
                    assert(members@.subrange(members@.len() as int, members@.len() as int).len() == 0);
                }
            }
        }
        let ghost c1 = self.cand();
        self.shift(g, u, true);
        proof {
            lemma_below(n as nat);
            vstd::set_lib::lemma_len_subset(self.cand(), below(n as nat));
            assert forall|a: usize, b: usize| self.cand().contains(a) && self.cand().contains(b) && a != b implies #[trigger] g.adj(
                a as int,
                b as int,
            ) by {
                if a == u {
                    assert(c1.contains(b) && g.adj(b as int, u as int));
                } else if b == u {
                    assert(c1.contains(a));
                } else {
                    assert(s0.cand().contains(a) && s0.cand().contains(b));
                }
            }
            vstd::set_lib::lemma_len_subset(c1, s0.cand());
        }
        let elems = self.inside_clique.elements();
        proof {
            elems@.unique_seq_to_set();
        }
        if elems.len() > self.current_sol.len() {
            proof {
                assert forall|i: int| 0 <= i < elems@.len() implies #[trigger] elems@[i] < g.n by {
                    assert(elems@.to_set().contains(elems@[i]));
                }
                assert forall|i: int, j: int| 0 <= i < elems@.len() && 0 <= j < elems@.len() && i != j implies g.adj(
                    #[trigger] elems@[i] as int,
                    #[trigger] elems@[j] as int,
                ) by {
                    assert(elems@.to_set().contains(elems@[i]) && elems@.to_set().contains(elems@[j]));
                }
                elems@.unique_seq_to_set();
            }
            self.current_sol = elems;
        } else {
            proof {
                elems@.unique_seq_to_set();
            }
        }
    }
}

impl CliquePartialWeighting {
    /// initializes the search from a clique: every weight is one and every
    /// vertex is in the configuration
    pub fn initialize(g: &DimacsInstance, sol: &Vec<VertexId>) -> (r: Self)
        requires
            g.wf(),
            1 <= g.n <= u32::MAX,
            is_clique(g, sol@),
        ensures
            r.wf(g),
            r.current_sol@ == sol@,
            r.cand() == sol@.to_set(),
            r.nb_iter == 0,
            forall|x: int| 0 <= x < g.n ==> #[trigger] r.weights@[x] == 1,
            forall|x: int| 0 <= x < g.n ==> !#[trigger] r.tabu.is_tabu(x, 0),
            bits_of(r.configuration) == below(g.n as nat),
    {
        let n = g.n;
        let mut current_sol: Vec<VertexId> = Vec::new();
        let mut i: usize = 0;
        while i < sol.len()
            invariant
                i <= sol@.len(),
                current_sol@ == sol@.take(i as int),
            decreases sol@.len() - i,
        {
            current_sol.push(sol[i]);
            i += 1;
            proof {
                assert(current_sol@ =~= sol@.take(i as int));
            }
        }
        proof {
            assert(sol@.take(sol@.len() as int) =~= sol@);
            lemma_below(n as nat);
        }
        let mut configuration = VertexSet::with_capacity(n);
        let mut x: usize = 0;
        while x < n
            invariant
                x <= n,
                n == g.n,
                n <= u32::MAX,
                bits_of(configuration) == below(x as nat),
            decreases n - x,
        {
            configuration.insert(x);
            proof {
                assert(bits_of(configuration) =~= below((x + 1) as nat));
            }
            x += 1;
        }
        let l = if n / 5 > 0 { n / 5 } else { 1 };
        let mut r = CliquePartialWeighting {
            n,
            weights: vec![1; n],
            current_sol,
            inside_clique: VertexSet::with_capacity(n),
            total_weight: 0,
            weight_cost_inserting: vec![0; n],
            configuration,
            tabu: TabuColTenure::new(l, 0, 1, n, 1),
            nb_iter: 0,
        };
        proof {
            assert forall|w: int| 0 <= w < n implies #[trigger] r.weight_cost_inserting@[w] == range_sum(
                n as nat,
                insert_term(g, r.cand(), r.weights@, w as usize),
            ) by {
                assert forall|y: nat| y < n implies 0 <= #[trigger] insert_term(g, r.cand(), r.weights@, w as usize)(y)
                    <= 0 by {}
                lemma_range_sum_bounds(n as nat, insert_term(g, r.cand(), r.weights@, w as usize), 0);
            }
            assert forall|y: nat| y < n implies 0 <= #[trigger] member_weight(r.cand(), r.weights@)(y) <= 0 by {}
            lemma_range_sum_bounds(n as nat, member_weight(r.cand(), r.weights@), 0);
            assert forall|x: int| 0 <= x < n implies !#[trigger] r.tabu.is_tabu(x, 0) by {
                assert(r.tabu.decisions@[x]@[0] == i64::MIN);
            }
            assert(r.cand() =~= Set::<usize>::empty());
        }
        let mut i: usize = 0;
        while i < sol.len()
            invariant
                r.wf(g),
                r.n == n,
                n == g.n,
                r.current_sol@ == sol@,
                r.nb_iter == 0,
                forall|x: int| 0 <= x < n ==> #[trigger] r.weights@[x] == 1,
                forall|x: int| 0 <= x < n ==> !#[trigger] r.tabu.is_tabu(x, 0),
                bits_of(r.configuration) == below(n as nat),
                is_clique(g, sol@),
                i <= sol@.len(),
                r.cand() == sol@.take(i as int).to_set(),
                below(n as nat).finite(),
            decreases sol@.len() - i,
        {
            let v = sol[i];
            let ghost c0 = r.cand();
            proof {
                assert(!sol@.take(i as int).contains(v)) by {
                    if sol@.take(i as int).contains(v) {
                        let q = choose|q: int| 0 <= q < i && sol@.take(i as int)[q] == v;
                        assert(sol@[q] == sol@[i as int]);
                    }
                }
                assert(sol@.take(i + 1) == sol@.take(i as int).push(v));
                sol@.take(i as int).lemma_push_to_set_commute(v);
                assert(v < n);
            }
            r.shift(g, v, true);
            proof {
                let t = sol@.take(i + 1);
                assert forall|a: usize, b: usize| r.cand().contains(a) && r.cand().contains(b) && a != b implies #[trigger] g.adj(
                    a as int,
                    b as int,
                ) by {
                    assert(t.to_set().contains(a) && t.to_set().contains(b));
                    let qa = choose|q: int| 0 <= q < t.len() && #[trigger] t[q] == a;
                    let qb = choose|q: int| 0 <= q < t.len() && #[trigger] t[q] == b;
                    assert(sol@[qa] == a && sol@[qb] == b);
                }
                vstd::set_lib::lemma_len_subset(r.cand(), below(n as nat));
                assert(t.no_duplicates()) by {
                    assert forall|p: int, q: int| 0 <= p < t.len() && 0 <= q < t.len() && p != q implies t[p] != t[q] by {
                        assert(t[p] == sol@[p] && t[q] == sol@[q]);
                    }
                }
                t.unique_seq_to_set();
                assert(sol@.len() >= t.len());
            }
            i += 1;
        }
        proof {
            assert(sol@.take(sol@.len() as int) =~= sol@);
        }
        r
    }

    /// the vertex may be inserted: outside the candidate, in the configuration,
    /// of degree at least the best clique size, and not tabu
    pub open spec fn admissible(&self, g: &DimacsInstance, u: int) -> bool {
        &&& 0 <= u < self.n
        &&& !self.cand().contains(u as usize)
        &&& bits_of(self.configuration).contains(u as usize)
        &&& g.nbrs()[u].len() >= self.current_sol@.len()
        &&& !self.tabu.is_tabu(u, 0)
    }

    /// weight of the candidate after inserting u
    pub open spec fn score(&self, u: int) -> int {
        self.total_weight + self.weights@[u] - self.weight_cost_inserting@[u]
    }

    /// the admissible vertex that maximizes the weight after its insertion,
    /// the first one met among equals
    pub fn select_vertex(&self, g: &DimacsInstance) -> (r: Option<usize>)
        requires
            self.wf(g),
        ensures
            match r {
                Some(u) => self.admissible(g, u as int) && forall|x: int| #[trigger] self.admissible(g, x)
                    ==> self.score(x) <= self.score(u as int),
                None => forall|x: int| !#[trigger] self.admissible(g, x),
            },
    {
        let elems = self.configuration.elements();
        let mut best: Option<usize> = None;
        let mut best_score: i128 = 0;
        let mut i: usize = 0;
        while i < elems.len()
            invariant
                self.wf(g),
                i <= elems@.len(),
                elems@.to_set() == bits_of(self.configuration),
                match best {
                    Some(u) => self.admissible(g, u as int) && best_score == self.score(u as int),
                    None => true,
                },
                forall|t: int| 0 <= t < i && #[trigger] self.admissible(g, elems@[t] as int) ==> match best {
                    Some(u) => self.score(elems@[t] as int) <= self.score(u as int),
                    None => false,
                },
            decreases elems@.len() - i,
        {
            let u = elems[i];
            proof {
                assert(elems@.to_set().contains(u));
            }
            if u < self.n && !self.inside_clique.contains(u) && g.degree(u) >= self.current_sol.len()
                && !self.tabu.contains(&Decision { v: u, c: 0 }) {
                let score: i128 = (self.total_weight as i128) + (self.weights[u] as i128)
                    - (self.weight_cost_inserting[u] as i128);
                let better = match best {
                    None => true,
                    Some(_) => score > best_score,
                };
                if better {
                    best = Some(u);
                    best_score = score;
                }
            }
            i += 1;
        }
        proof {
            assert forall|x: int| #[trigger] self.admissible(g, x) implies match best {
                Some(u) => self.score(x) <= self.score(u as int),
                None => false,
            } by {
                assert(elems@.to_set().contains(x as usize));
                let t = choose|t: int| 0 <= t < elems@.len() && elems@[t] == x as usize;
                assert(self.admissible(g, elems@[t] as int));
            }
        }
        best
    }

    /// one iteration: inserts the selected vertex and makes it tabu; with no
    /// admissible vertex, every vertex goes back into the configuration
    pub fn step(&mut self, g: &DimacsInstance) -> (moved: bool)
        requires
            old(self).wf(g),
        ensures
            final(self).wf(g),
            final(self).n == old(self).n,
            final(self).current_sol@.len() >= old(self).current_sol@.len(),
            old(self).nb_iter < i64::MAX ==> {
                &&& moved == exists|x: int| #[trigger] old(self).admissible(g, x)
                &&& moved ==> exists|u: usize|
                    {
                        &&& #[trigger] old(self).admissible(g, u as int)
                        &&& (forall|x: int| #[trigger] old(self).admissible(g, x) ==> old(self).score(x)
                            <= old(self).score(u as int))
                        &&& final(self).cand() == old(self).cand().filter(
                            |x: usize| g.adj(x as int, u as int),
                        ).insert(u)
                        &&& final(self).cand().len() > old(self).current_sol@.len()
                            ==> final(self).current_sol@.to_set() == final(self).cand()
                    }
            },
    {
        if self.nb_iter >= i64::MAX as u64 {
            return false;
        }
        match self.select_vertex(g) {
            Some(u) => {
                self.add_vertex(g, u);
                self.tabu.insert(&Decision { v: u, c: 0 }, self.total_weight);
                self.tabu.increment_iter();
                self.nb_iter += 1;
                true
            },
            None => {
                let mut configuration = VertexSet::with_capacity(self.n);
                let mut x: usize = 0;
                while x < self.n
                    invariant
                        x <= self.n,
                        self.n <= u32::MAX,
                    decreases self.n - x,
                {
                    configuration.insert(x);
                    x += 1;
                }
                self.configuration = configuration;
                self.tabu.increment_iter();
                self.nb_iter += 1;
                false
            },
        }
    }
}

/// runs the partial weighting local search for the maximum clique from a
/// clique for at most max_iter iterations, and returns the best clique found,
/// extended into a maximal clique at least as large as the seed, followed by
/// the other vertices in increasing order
pub fn clique_partial_weighting(g: &DimacsInstance, sol: &Vec<VertexId>, max_iter: u64) -> (r: Vec<
    Vec<VertexId>,
>)
    requires
        g.wf(),
        g.n <= u32::MAX,
        is_clique(g, sol@),
    ensures
        r@.len() == 2,
        is_clique(g, r@[0]@),
        crate::clique::is_maximal(g, r@[0]@),
        r@[0]@.len() >= sol@.len(),
        forall|x: VertexId| #[trigger] r@[1]@.contains(x) <==> (x < g.n && !r@[0]@.contains(x)),
        forall|i: int, j: int| 0 <= i < j < r@[1]@.len() ==> r@[1]@[i] < r@[1]@[j],
        max_iter >= 1 && (exists|x: usize|
            x < g.n && !sol@.contains(x) && forall|w: usize| #[trigger] sol@.contains(w) ==> g.adj(
                x as int,
                w as int,
            )) ==> r@[0]@.len() > sol@.len(),
{
    if g.n == 0 {
        proof {
            if sol@.len() > 0 {
                assert(sol@[0] < g.n);
            }
        }
        return crate::clique::clique_vec_to_vecvec(sol, 0);
    }
    let mut ls = CliquePartialWeighting::initialize(g, sol);
    let ghost grows = max_iter >= 1 && (exists|x: usize|
        x < g.n && !sol@.contains(x) && forall|w: usize| #[trigger] sol@.contains(w) ==> g.adj(
            x as int,
            w as int,
        ));
    let mut it: u64 = 0;
    if max_iter >= 1 {
        let ghost l0 = ls;
        let moved = ls.step(g);
        proof {
            if grows {
                lemma_first_insertion(g, sol@, l0, ls, moved);
            }
        }
        it = 1;
    }
    while it < max_iter
        invariant
            ls.wf(g),
            ls.current_sol@.len() >= sol@.len(),
            grows ==> ls.current_sol@.len() > sol@.len(),
            max_iter >= 1 ==> it >= 1,
        decreases max_iter - it,
    {
        ls.step(g);
        it += 1;
    }
    let mut res: Vec<VertexId> = Vec::new();
    let mut i: usize = 0;
    while i < ls.current_sol.len()
        invariant
            i <= ls.current_sol@.len(),
            res@ == ls.current_sol@.take(i as int),
        decreases ls.current_sol@.len() - i,
    {
        res.push(ls.current_sol[i]);
        i += 1;
        proof {
            assert(res@ =~= ls.current_sol@.take(i as int));
        }
    }
    proof {
        assert(ls.current_sol@.take(ls.current_sol@.len() as int) =~= ls.current_sol@);
        assert forall|k: int| 0 <= k < res@.len() implies #[trigger] res@[k] < usize::MAX by {
            assert(res@[k] < g.n);
        }
    }
    let best = crate::clique::extend_to_maximal(g, &res);
    proof {
        assert forall|k: int| 0 <= k < best@.len() implies #[trigger] best@[k] < usize::MAX by {
            assert(best@[k] < g.n);
        }
    }
    crate::clique::clique_vec_to_vecvec(&best, g.n)
}

/// from the initial state on a clique that some vertex extends, the first
/// step inserts such a vertex and records a larger clique
proof fn lemma_first_insertion(
    g: &DimacsInstance,
    sol: Seq<VertexId>,
    l0: CliquePartialWeighting,
    l1: CliquePartialWeighting,
    moved: bool,
)
    requires
        l0.wf(g),
        l1.wf(g),
        is_clique(g, sol),
        l0.current_sol@ == sol,
        l0.cand() == sol.to_set(),
        l0.nb_iter == 0,
        forall|x: int| 0 <= x < g.n ==> #[trigger] l0.weights@[x] == 1,
        forall|x: int| 0 <= x < g.n ==> !#[trigger] l0.tabu.is_tabu(x, 0),
        bits_of(l0.configuration) == below(g.n as nat),
        l0.nb_iter < i64::MAX ==> {
            &&& moved == exists|x: int| #[trigger] l0.admissible(g, x)
            &&& moved ==> exists|u: usize|
                {
                    &&& #[trigger] l0.admissible(g, u as int)
                    &&& (forall|x: int| #[trigger] l0.admissible(g, x) ==> l0.score(x) <= l0.score(u as int))
                    &&& l1.cand() == l0.cand().filter(|x: usize| g.adj(x as int, u as int)).insert(u)
                    &&& l1.cand().len() > l0.current_sol@.len() ==> l1.current_sol@.to_set() == l1.cand()
                }
        },
        exists|x: usize|
            x < g.n && !sol.contains(x) && forall|w: usize| #[trigger] sol.contains(w) ==> g.adj(x as int, w as int),
    ensures
        l1.current_sol@.len() > sol.len(),
{
    let n = g.n as int;
    let x = choose|x: usize|
        x < g.n && !sol.contains(x) && forall|w: usize| #[trigger] sol.contains(w) ==> g.adj(x as int, w as int);
    let c0 = l0.cand();
    let ws = l0.weights@;
    sol.unique_seq_to_set();
    // x may be inserted
    let nbx = g.nbrs()[x as int];
    assert(sol.to_set().subset_of(nbx.to_set())) by {
        assert forall|w: usize| sol.to_set().contains(w) implies nbx.to_set().contains(w) by {
            assert(g.adj(x as int, w as int));
        }
    }
    nbx.lemma_cardinality_of_set();
    lemma_below(g.n as nat);
    vstd::set_lib::lemma_len_subset(sol.to_set(), nbx.to_set());
    assert(below(g.n as nat).contains(x));
    assert(l0.admissible(g, x as int));
    let u = choose|u: usize|
        {
            &&& #[trigger] l0.admissible(g, u as int)
            &&& (forall|y: int| #[trigger] l0.admissible(g, y) ==> l0.score(y) <= l0.score(u as int))
            &&& l1.cand() == l0.cand().filter(|y: usize| g.adj(y as int, u as int)).insert(u)
            &&& l1.cand().len() > l0.current_sol@.len() ==> l1.current_sol@.to_set() == l1.cand()
        };
    // inserting x costs nothing
    assert forall|y: nat| y < n implies 0 <= #[trigger] insert_term(g, c0, ws, x)(y) <= 0 by {
        if y != x && c0.contains(y as usize) {
            assert(sol.contains(y as usize));
            assert(g.adj(x as int, y as int));
            assert(g.adj(y as int, x as int));
        }
    }
    lemma_range_sum_bounds(n as nat, insert_term(g, c0, ws, x), 0);
    assert(l0.weight_cost_inserting@[x as int] == 0);
    assert(l0.score(x as int) <= l0.score(u as int));
    // so neither does u: u is adjacent to every member
    assert forall|y: nat| y < n implies 0 <= #[trigger] insert_term(g, c0, ws, u)(y) by {}
    crate::sums::lemma_range_sum_zero(n as nat, insert_term(g, c0, ws, u));
    assert(l1.cand() =~= c0.insert(u)) by {
        assert forall|y: usize| c0.contains(y) implies g.adj(y as int, u as int) by {
            assert(below(g.n as nat).contains(y));
            assert(insert_term(g, c0, ws, u)(y as nat) == 0);
            assert(ws[y as int] == 1);
            assert(y != u);
        }
    }
    assert(l1.cand().len() == c0.len() + 1);
    assert(is_clique(g, l1.current_sol@));
    l1.current_sol@.unique_seq_to_set();
}

} // verus!
