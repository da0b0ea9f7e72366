use vstd::prelude::*;
use dogs::data_structures::sparse_set::SparseSet;
use crate::bitset::{VertexSet, bits_of};
use crate::color::{
    DimacsInstance,
    VertexId,
    classes,
    colors_to_partition,
    is_partition_of,
    is_pos,
    is_proper_coloring,
    no_conflict,
    occurs,
    within,
};
use crate::sparse_set::{sparse_members, sparse_capacity};
use crate::sums::{
    seq_sum,
    range_sum,
    lemma_seq_sum_ext,
    lemma_seq_sum_sub,
    lemma_seq_sum_point,
    lemma_seq_sum_take,
    lemma_seq_sum_bounds,
    lemma_seq_sum_nonneg,
    lemma_seq_sum_prefix,
    lemma_range_sum_point,
    lemma_range_sum_bounds,
    lemma_range_sum_term,
};
use crate::tabu::{Decision, TabuColTenure};

verus! {

/// learned weight of an edge
pub type Weight = u32;

/// weight of the edge x-y, read in the lower triangular weight matrix
pub open spec fn wt(ws: Seq<Vec<Weight>>, x: usize, y: usize) -> int {
    if x > y {
        ws[x as int]@[y as int] as int
    } else {
        ws[y as int]@[x as int] as int
    }
}

/// contribution of neighbor y to nbw[x][c]
pub open spec fn nbw_term(col: Seq<usize>, ws: Seq<Vec<Weight>>, x: usize, c: usize) -> spec_fn(
    usize,
) -> int {
    |y: usize|
        if col[y as int] == c {
            wt(ws, x, y)
        } else {
            0
        }
}

/// sum of the weights of the edges from x to its neighbors nb colored c
pub open spec fn nbw_of(
    nb: Seq<usize>,
    col: Seq<usize>,
    ws: Seq<Vec<Weight>>,
    x: usize,
    c: usize,
) -> int {
    seq_sum(nb, nbw_term(col, ws, x, c))
}

/// one for a neighbor colored c
pub open spec fn same_term(col: Seq<usize>, c: usize) -> spec_fn(usize) -> int {
    |y: usize|
        if col[y as int] == c {
            1
        } else {
            0
        }
}

/// number of the neighbors nb colored c
pub open spec fn count_in(nb: Seq<usize>, col: Seq<usize>, c: usize) -> int {
    seq_sum(nb, same_term(col, c))
}

/// number of vertices colored c
pub open spec fn count_color(col: Seq<usize>, c: usize) -> nat
    decreases col.len(),
{
    if col.len() == 0 {
        0
    } else {
        count_color(col.drop_last(), c) + if col.last() == c {
            1nat
        } else {
            0nat
        }
    }
}

/// the vertices below n colored c
pub open spec fn class_of(col: Seq<usize>, n: nat, c: usize) -> Set<usize> {
    Set::new(|x: usize| x < n && col[x as int] == c)
}

/// change of nbw[v][next] - nbw[v][prev] brought by neighbor y
pub open spec fn delta_term(
    col: Seq<usize>,
    ws: Seq<Vec<Weight>>,
    v: usize,
    prev: usize,
    next: usize,
) -> spec_fn(usize) -> int {
    |y: usize|
        (if col[y as int] == next {
            wt(ws, v, y)
        } else {
            0
        }) - (if col[y as int] == prev {
            wt(ws, v, y)
        } else {
            0
        })
}

/// growth of the edge v-a when v takes color next: one for a neighbor colored
/// next whose edge is below the cap
pub open spec fn growth(
    g: &DimacsInstance,
    col: Seq<usize>,
    ws: Seq<Vec<Weight>>,
    v: usize,
    next: usize,
    a: usize,
) -> int {
    if g.nbrs()[v as int].contains(a) && col[a as int] == next && wt(ws, v, a) < u32::MAX {
        1
    } else {
        0
    }
}

/// models a decision within the local search: vertex takes next_color
#[derive(Debug, Clone, Copy, PartialEq, Eq, Structural)]
pub struct Node {
    /// vertex to change
    pub vertex: VertexId,
    /// previous color of the vertex
    pub previous_color: usize,
    /// next color of the vertex
    pub next_color: usize,
    /// total weight after the decision
    pub total_penalties: i128,
    /// number of conflicting edges when the decision is taken
    pub nb_conflicts: u64,
}

/// conflict weighting local search for the vertex coloring problem
pub struct ConflictWeightingLocalSearch {
    /// number of vertices
    pub n: usize,
    /// weights[u][v] (v < u): weight learned for the edge (u,v)
    pub weights: Vec<Vec<Weight>>,
    /// current best feasible solution
    pub current_sol: Vec<Vec<VertexId>>,
    /// colors[v]: color of vertex v
    pub colors: Vec<usize>,
    /// colors_bitsets[c]: color c vertices
    pub colors_bitsets: Vec<VertexSet>,
    /// colors_vertex_number[c]: number of vertices colored with c
    pub colors_vertex_number: Vec<usize>,
    /// weights_neigh_colors[v][c]: weights of neighbors of v that are assigned color c
    pub weights_neigh_colors: Vec<Vec<u64>>,
    /// vertices that have (or recently had) some conflict
    pub conflicting_vertices: SparseSet,
    /// vertex_nb_conflicts[v]: number of conflicts for the vertex v
    pub vertex_nb_conflicts: Vec<u64>,
    /// number of conflicting edges
    pub nb_conflicting_edges: u64,
    /// total weight of the conflicting edges
    pub total_weight: i128,
    /// tabu list
    pub tabu: TabuColTenure,
    /// threshold on the number of conflicts to disable the tabu tenure
    pub aspiration_criterion: u64,
    /// number of iterations
    pub nb_iter: u64,
    /// number of colors at the beginning of the search
    pub nb_colors: usize,
    /// number of colors of the best-so-far coloring
    pub best_so_far_colors: usize,
}

/// the largest total weight that the bookkeeping may reach
pub open spec fn weight_bound() -> int {
    0x1_0000_0000_0000_0000_0000_0000
}

impl ConflictWeightingLocalSearch {
    /// nbw[x][c] as a function of x, read at the color of x
    pub open spec fn penalty(&self) -> spec_fn(nat) -> int {
        |x: nat| self.weights_neigh_colors@[x as int]@[self.colors@[x as int] as int] as int
    }

    /// conflict counts as a function of the vertex
    pub open spec fn conflict_fn(&self) -> spec_fn(nat) -> int {
        |x: nat| self.vertex_nb_conflicts@[x as int] as int
    }

    /// shapes of the arrays and bounds on the entries
    pub open spec fn shape(&self, g: &DimacsInstance) -> bool {
        let n = self.n as int;
        let k = self.nb_colors as int;
        &&& g.wf()
        &&& self.n == g.n
        &&& self.n <= u32::MAX
        &&& k >= 1
        &&& self.colors@.len() == n
        &&& forall|x: int| 0 <= x < n ==> #[trigger] self.colors@[x] < k
        &&& self.weights@.len() == n
        &&& forall|x: int| 0 <= x < n ==> #[trigger] self.weights@[x]@.len() == x
        &&& forall|x: int, y: int|
            0 <= y < x < n ==> #[trigger] self.weights@[x]@[y] >= 1
        &&& self.weights_neigh_colors@.len() == n
        &&& forall|x: int| 0 <= x < n ==> #[trigger] self.weights_neigh_colors@[x]@.len() == k
        &&& self.vertex_nb_conflicts@.len() == n
        &&& self.colors_vertex_number@.len() == k
        &&& self.colors_bitsets@.len() == k
        &&& sparse_capacity(self.conflicting_vertices) == n
        &&& sparse_members(self.conflicting_vertices).no_duplicates()
        &&& forall|i: int|
            0 <= i < sparse_members(self.conflicting_vertices).len() ==> #[trigger] sparse_members(
                self.conflicting_vertices,
            )[i] < n
        &&& self.tabu.wf(n as nat, k as nat)
        &&& self.tabu.nb_iter == self.nb_iter
        &&& within(classes(self.current_sol@), n as nat)
        &&& is_proper_coloring(*g, classes(self.current_sol@))
        &&& self.current_sol@.len() == k
        &&& self.best_so_far_colors == nb_nonempty(classes(self.current_sol@))
    }

    /// the color classes agree with the colors
    pub open spec fn classes_ok(&self) -> bool {
        &&& forall|c: int|
            0 <= c < self.nb_colors ==> #[trigger] self.colors_vertex_number@[c] == count_color(
                self.colors@,
                c as usize,
            )
        &&& forall|c: int|
            0 <= c < self.nb_colors ==> #[trigger] bits_of(self.colors_bitsets@[c]) == class_of(
                self.colors@,
                self.n as nat,
                c as usize,
            )
    }

    /// the conflict set holds every vertex in conflict
    pub open spec fn conflict_set_ok(&self) -> bool {
        forall|x: int|
            0 <= x < self.n && #[trigger] self.vertex_nb_conflicts@[x] > 0 ==> sparse_members(
                self.conflicting_vertices,
            ).contains(x as usize)
    }

    /// the incremental aggregates agree with the coloring and the weights
    pub open spec fn wf(&self, g: &DimacsInstance) -> bool {
        &&& self.shape(g)
        &&& self.classes_ok()
        &&& self.conflict_set_ok()
        &&& forall|x: int, c: int|
            0 <= x < self.n && 0 <= c < self.nb_colors ==> #[trigger] self.weights_neigh_colors@[x]@[c]
                == nbw_of(g.nbrs()[x], self.colors@, self.weights@, x as usize, c as usize)
        &&& forall|x: int|
            0 <= x < self.n ==> #[trigger] self.vertex_nb_conflicts@[x] == count_in(
                g.nbrs()[x],
                self.colors@,
                self.colors@[x],
            )
        &&& 2 * self.nb_conflicting_edges == range_sum(self.n as nat, self.conflict_fn())
        &&& 2 * self.total_weight == range_sum(self.n as nat, self.penalty())
        &&& 0 <= self.total_weight < weight_bound()
    }

    /// x is a neighbor of v not yet visited after j steps of a recolor of v
    pub open spec fn pending(g: &DimacsInstance, v: usize, j: int, x: usize) -> bool {
        g.nbrs()[v as int].subrange(j, g.nbrs()[v as int].len() as int).contains(x)
    }

    /// the coloring that the aggregates of x follow after j steps of a recolor of v
    pub open spec fn seen_colors(
        &self,
        g: &DimacsInstance,
        v: usize,
        j: int,
        col0: Seq<usize>,
        x: usize,
    ) -> Seq<usize> {
        if Self::pending(g, v, j, x) {
            col0
        } else {
            self.colors@
        }
    }

    /// the state after j steps of the recolor of v from prev to next, starting
    /// from colors col0 and weights ws0
    pub open spec fn mid_recolor(
        &self,
        g: &DimacsInstance,
        v: usize,
        prev: usize,
        next: usize,
        j: int,
        col0: Seq<usize>,
        ws0: Seq<Vec<Weight>>,
    ) -> bool {
        let n = self.n as int;
        let nb = g.nbrs()[v as int];
        &&& self.shape(g)
        &&& self.classes_ok()
        &&& self.conflict_set_ok()
        &&& v < n
        &&& prev < self.nb_colors
        &&& next < self.nb_colors
        &&& prev != next
        &&& 0 <= j <= nb.len()
        &&& col0.len() == n
        &&& col0[v as int] == prev
        &&& self.colors@ == col0.update(v as int, next)
        &&& ws0.len() == n
        &&& forall|x: int| 0 <= x < n ==> #[trigger] ws0[x]@.len() == x
        &&& forall|x: int, y: int|
            0 <= y < x < n ==> #[trigger] self.weights@[x]@[y] >= ws0[x]@[y]
        &&& forall|a: usize, b: usize|
            a < n && b < n && a != b && a != v && b != v ==> #[trigger] wt(self.weights@, a, b) == wt(
                ws0,
                a,
                b,
            )
        &&& forall|a: usize|
            a < n && a != v && (Self::pending(g, v, j, a) || !nb.contains(a)) ==> #[trigger] wt(
                self.weights@,
                v,
                a,
            ) == wt(ws0, v, a)
        &&& forall|a: usize|
            a < n && a != v && #[trigger] nb.take(j).contains(a) ==> wt(self.weights@, v, a) == wt(
                ws0,
                v,
                a,
            ) + growth(g, col0, ws0, v, next, a)
        &&& forall|x: int, c: int|
            0 <= x < n && 0 <= c < self.nb_colors ==> #[trigger] self.weights_neigh_colors@[x]@[c]
                == nbw_of(
                g.nbrs()[x],
                self.seen_colors(g, v, j, col0, x as usize),
                self.weights@,
                x as usize,
                c as usize,
            )
        &&& forall|x: int|
            0 <= x < n && x != v ==> #[trigger] self.vertex_nb_conflicts@[x] == count_in(
                g.nbrs()[x],
                self.seen_colors(g, v, j, col0, x as usize),
                self.colors@[x],
            )
        &&& self.vertex_nb_conflicts@[v as int] == count_in(nb, col0, prev) - count_in(
            nb.take(j),
            col0,
            prev,
        ) + count_in(nb.take(j), col0, next)
        &&& 2 * self.nb_conflicting_edges == range_sum(self.n as nat, self.conflict_fn())
        &&& -0x1_0000_0000_0000_0000 <= self.total_weight <= weight_bound() + 0x1_0000_0000_0000_0000
            + j
        &&& 2 * self.total_weight == range_sum(self.n as nat, self.penalty()) + seq_sum(
            nb,
            delta_term(col0, ws0, v, prev, next),
        ) - seq_sum(nb.take(j), delta_term(col0, ws0, v, prev, next))
    }

    /// get the learned weight of an edge
    fn get_weight(&self, g: &DimacsInstance, u: VertexId, v: VertexId) -> (r: Weight)
        requires
            self.shape(g),
            u < self.n,
            v < self.n,
            u != v,
        ensures
            r == wt(self.weights@, u, v),
    {
        if u < v {
            self.weights[v][u]
        } else {
            self.weights[u][v]
        }
    }

    /// the fields that a step of a recolor leaves alone are unchanged
    pub open spec fn same_frame(&self, other: &Self) -> bool {
        &&& self.n == other.n
        &&& self.nb_colors == other.nb_colors
        &&& self.current_sol == other.current_sol
        &&& self.tabu == other.tabu
        &&& self.nb_iter == other.nb_iter
        &&& self.aspiration_criterion == other.aspiration_criterion
        &&& self.best_so_far_colors == other.best_so_far_colors
    }

    /// visits the j-th neighbor of v during the recolor of v from prev to next
    #[verifier::rlimit(60)]
    fn recolor_neighbor(
        &mut self,
        g: &DimacsInstance,
        v: usize,
        prev: usize,
        next: usize,
        j: usize,
        Ghost(col0): Ghost<Seq<usize>>,
        Ghost(ws0): Ghost<Seq<Vec<Weight>>>,
    )
        requires
            old(self).mid_recolor(g, v, prev, next, j as int, col0, ws0),
            j < g.nbrs()[v as int].len(),
        ensures
            final(self).mid_recolor(g, v, prev, next, j + 1, col0, ws0),
            final(self).same_frame(old(self)),
            final(self).colors == old(self).colors,
            final(self).colors_vertex_number == old(self).colors_vertex_number,
            final(self).colors_bitsets == old(self).colors_bitsets,
            forall|x: int, y: int|
                0 <= y < x < old(self).n ==> #[trigger] final(self).weights@[x]@[y] >= old(
                    self,
                ).weights@[x]@[y],
    {
        let ghost s0 = *self;
        let ghost n = self.n as int;
        let ghost nb = g.nbrs()[v as int];
        let neigh = g.adj_list[v][j];
        let ghost u = neigh;
        proof {
            assert(nb[j as int] == neigh);
            assert(neigh < n && neigh != v);
            assert(g.adj(v as int, neigh as int)) by {
                assert(nb.contains(neigh));
            }
            assert(g.adj(neigh as int, v as int));
            assert(g.nbrs()[u as int].contains(v));
            assert(g.nbrs()[u as int].no_duplicates());
            assert(nb.no_duplicates());
            assert(Self::pending(g, v, j as int, u)) by {
                assert(nb.subrange(j as int, nb.len() as int)[0] == u);
            }
            assert forall|x: usize| #![trigger Self::pending(g, v, j + 1, x)]
                x != u ==> (Self::pending(g, v, j + 1, x) == Self::pending(g, v, j as int, x)) by {
                let sj = nb.subrange(j as int, nb.len() as int);
                let sj1 = nb.subrange(j + 1, nb.len() as int);
                if x != u {
                    if sj.contains(x) {
                        let i = choose|i: int| 0 <= i < sj.len() && sj[i] == x;
                        assert(i != 0);
                        assert(sj1[i - 1] == sj[i]);
                    }
                    if sj1.contains(x) {
                        let i = choose|i: int| 0 <= i < sj1.len() && sj1[i] == x;
                        assert(sj[i + 1] == sj1[i]);
                    }
                }
            }
            assert(!Self::pending(g, v, j + 1, u)) by {
                let sj1 = nb.subrange(j + 1, nb.len() as int);
                if sj1.contains(u) {
                    let i = choose|i: int| 0 <= i < sj1.len() && sj1[i] == u;
                    assert(nb[j + 1 + i] == nb[j as int]);
                }
            }
            assert(!Self::pending(g, v, j as int, v)) by {
                let sj = nb.subrange(j as int, nb.len() as int);
                if sj.contains(v) {
                    let i = choose|i: int| 0 <= i < sj.len() && sj[i] == v;
                    assert(nb[j + i] == v);
                }
            }
            assert(!Self::pending(g, v, j + 1, v)) by {
                let sj = nb.subrange(j + 1, nb.len() as int);
                if sj.contains(v) {
                    let i = choose|i: int| 0 <= i < sj.len() && sj[i] == v;
                    assert(nb[j + 1 + i] == v);
                }
            }
        }
        let weight = self.get_weight(g, neigh, v);
        let cn = self.colors[neigh];
        let ghost nbu = g.nbrs()[u as int];
        let ghost w0 = weight as int;
        proof {
            assert(cn == col0[u as int]);
            assert(wt(s0.weights@, v, u) == w0);
            // aggregates of neigh before the step follow col0
            assert(s0.seen_colors(g, v, j as int, col0, u) == col0);
            lemma_seq_sum_point(
                nbu,
                nbw_term(col0, s0.weights@, u, prev),
                nbw_term(s0.colors@, s0.weights@, u, prev),
                v,
            );
            lemma_seq_sum_point(
                nbu,
                nbw_term(col0, s0.weights@, u, next),
                nbw_term(s0.colors@, s0.weights@, u, next),
                v,
            );
            assert forall|i: int| 0 <= i < nbu.len() implies 0 <= #[trigger] nbw_term(
                s0.colors@,
                s0.weights@,
                u,
                prev,
            )(nbu[i]) by {}
            lemma_seq_sum_nonneg(nbu, nbw_term(s0.colors@, s0.weights@, u, prev));
            assert forall|i: int| 0 <= i < nbu.len() implies 0 <= #[trigger] nbw_term(
                s0.colors@,
                s0.weights@,
                u,
                next,
            )(nbu[i]) <= u32::MAX by {}
            lemma_seq_sum_bounds(nbu, nbw_term(s0.colors@, s0.weights@, u, next), u32::MAX as int);
            assert(nbu.len() * (u32::MAX as int) <= u64::MAX) by (nonlinear_arith)
                requires
                    nbu.len() < n,
                    n <= u32::MAX,
            ;
        }
        self.weights_neigh_colors[neigh][prev] -= weight as u64;
        self.weights_neigh_colors[neigh][next] += weight as u64;
        let ghost s1 = *self;
        if cn == prev {
            proof {
                lemma_seq_sum_point(nbu, same_term(col0, prev), same_term(s0.colors@, prev), v);
                assert(s0.seen_colors(g, v, j as int, col0, u) == col0);
                lemma_seq_sum_prefix(nb, same_term(col0, prev), j as int);
                assert forall|i: int| 0 <= i < nb.len() implies 0 <= #[trigger] same_term(col0, prev)(
                    nb[i],
                ) by {}
                assert forall|i: int| 0 <= i < nbu.len() implies 0 <= #[trigger] same_term(
                    s0.colors@,
                    prev,
                )(nbu[i]) by {}
                lemma_seq_sum_nonneg(nbu, same_term(s0.colors@, prev));
                assert(s0.vertex_nb_conflicts@[u as int] == count_in(nbu, col0, prev));
                let pre = nb.take(j as int);
                assert forall|i: int| 0 <= i < pre.len() implies 0 <= #[trigger] same_term(col0, next)(
                    pre[i],
                ) by {}
                lemma_seq_sum_nonneg(pre, same_term(col0, next));
                assert(same_term(col0, prev)(nb[j as int]) == 1);
                assert forall|x: nat| x < n implies 0 <= #[trigger] s0.conflict_fn()(x) by {}
                lemma_range_sum_term(n as nat, s0.conflict_fn(), u as nat);
            }
            self.vertex_nb_conflicts[neigh] -= 1;
            self.vertex_nb_conflicts[v] -= 1;
            self.nb_conflicting_edges -= 1;
        }
        let ghost s2 = *self;
        if cn == next {
            proof {
                assert forall|i: int| 0 <= i < nbu.len() implies 0 <= #[trigger] same_term(
                    s0.colors@,
                    next,
                )(nbu[i]) <= 1 by {}
                lemma_seq_sum_bounds(nbu, same_term(s0.colors@, next), 1);
                assert forall|i: int| 0 <= i < nb.len() implies 0 <= #[trigger] same_term(col0, prev)(
                    nb[i],
                ) <= 1 by {}
                assert forall|i: int| 0 <= i < nb.len() implies 0 <= #[trigger] same_term(col0, next)(
                    nb[i],
                ) <= 1 by {}
                lemma_seq_sum_bounds(nb, same_term(col0, prev), 1);
                lemma_seq_sum_bounds(nb.take(j as int), same_term(col0, next), 1);
                assert forall|x: nat| x < n implies 0 <= #[trigger] s2.conflict_fn()(x) <= 2 * n by {
                    if x != v && x != u {
                        assert(s2.vertex_nb_conflicts@[x as int] == s0.vertex_nb_conflicts@[x as int]);
                        let sc = s0.seen_colors(g, v, j as int, col0, x as usize);
                        assert forall|i: int| 0 <= i < g.nbrs()[x as int].len() implies 0
                            <= #[trigger] same_term(sc, s0.colors@[x as int])(g.nbrs()[x as int][i])
                            <= 1 by {}
                        lemma_seq_sum_bounds(g.nbrs()[x as int], same_term(sc, s0.colors@[x as int]), 1);
                    } else if x == u {
                        assert(s2.vertex_nb_conflicts@[x as int] == s0.vertex_nb_conflicts@[x as int]);
                        assert(s0.vertex_nb_conflicts@[u as int] == count_in(nbu, col0, next));
                        assert forall|i: int| 0 <= i < nbu.len() implies 0 <= #[trigger] same_term(
                            col0,
                            next,
                        )(nbu[i]) <= 1 by {}
                        lemma_seq_sum_bounds(nbu, same_term(col0, next), 1);
                    } else {
                        assert(s2.vertex_nb_conflicts@[x as int] == s0.vertex_nb_conflicts@[x as int]);
                        let pre = nb.take(j as int);
                        assert forall|i: int| 0 <= i < pre.len() implies 0 <= #[trigger] same_term(
                            col0,
                            prev,
                        )(pre[i]) by {}
                        lemma_seq_sum_nonneg(pre, same_term(col0, prev));
                    }
                }
                lemma_range_sum_bounds(n as nat, s2.conflict_fn(), 2 * n);
                assert(s2.conflict_fn()(v as nat) <= 2 * n);
                assert(s2.conflict_fn()(u as nat) <= 2 * n);
                assert(n * (2 * n) <= 2 * (u32::MAX as int) * (u32::MAX as int)) by (
                nonlinear_arith)
                    requires
                        0 <= n <= u32::MAX,
                ;
            }
            self.vertex_nb_conflicts[neigh] += 1;
            self.vertex_nb_conflicts[v] += 1;
            self.nb_conflicting_edges += 1;
            if weight < u32::MAX {
                if neigh < v {
                    self.weights[v][neigh] += 1;
                } else {
                    self.weights[neigh][v] += 1;
                }
                proof {
                    let ws3 = self.weights@;
                    assert forall|a: usize, b: usize|
                        a < n && b < n && a != b implies #[trigger] wt(ws3, a, b) == wt(s0.weights@, a, b)
                            + if (a == u && b == v) || (a == v && b == u) {
                            1int
                        } else {
                            0int
                        } by {}
                    lemma_seq_sum_point(
                        nbu,
                        nbw_term(s0.colors@, s0.weights@, u, next),
                        nbw_term(s0.colors@, ws3, u, next),
                        v,
                    );
                    lemma_seq_sum_point(
                        nb,
                        nbw_term(s0.colors@, s0.weights@, v, next),
                        nbw_term(s0.colors@, ws3, v, next),
                        u,
                    );
                    assert(nb.contains(u)) by {
                        assert(nb[j as int] == u);
                    }
                    assert forall|i: int| 0 <= i < nbu.len() implies 0 <= #[trigger] nbw_term(
                        s0.colors@,
                        ws3,
                        u,
                        next,
                    )(nbu[i]) <= u32::MAX by {}
                    lemma_seq_sum_bounds(nbu, nbw_term(s0.colors@, ws3, u, next), u32::MAX as int);
                    assert forall|i: int| 0 <= i < nb.len() implies 0 <= #[trigger] nbw_term(
                        s0.colors@,
                        ws3,
                        v,
                        next,
                    )(nb[i]) <= u32::MAX by {}
                    lemma_seq_sum_bounds(nb, nbw_term(s0.colors@, ws3, v, next), u32::MAX as int);
                    assert(nb.len() * (u32::MAX as int) <= u64::MAX) by (nonlinear_arith)
                        requires
                            nb.len() < n,
                            n <= u32::MAX,
                    ;
                    assert(s0.weights_neigh_colors@[v as int]@[next as int] == nbw_of(
                        nb,
                        s0.colors@,
                        s0.weights@,
                        v,
                        next,
                    ));
                }
                self.weights_neigh_colors[neigh][next] += 1;
                self.weights_neigh_colors[v][next] += 1;
                self.total_weight += 1;
            }
            if !self.conflicting_vertices.contains(neigh) {
                self.conflicting_vertices.insert(neigh);
                proof {
                    let m = sparse_members(self.conflicting_vertices);
                    assert(m[m.len() - 1] == neigh);
                    lemma_push_no_dup(sparse_members(s2.conflicting_vertices), neigh);
                }
            }
            assert(sparse_members(self.conflicting_vertices).contains(neigh));
            if !self.conflicting_vertices.contains(v) {
                let ghost m1 = sparse_members(self.conflicting_vertices);
                self.conflicting_vertices.insert(v);
                proof {
                    lemma_push_no_dup(m1, v);
                    let i = choose|i: int| 0 <= i < m1.len() && m1[i] == neigh;
                    let m = sparse_members(self.conflicting_vertices);
                    assert(m[i] == neigh);
                    assert(m[m.len() - 1] == v);
                }
            }
            assert(sparse_members(self.conflicting_vertices).contains(v));
        }
        proof {
            let s3 = *self;
            let inc: int = if cn == next && w0 < u32::MAX {
                1
            } else {
                0
            };
            assert forall|a: usize, b: usize|
                a < n && b < n && a != b implies #[trigger] wt(s3.weights@, a, b) == wt(s0.weights@, a, b)
                    + if (a == u && b == v) || (a == v && b == u) {
                    inc
                } else {
                    0int
                } by {}
            assert forall|x: usize|
                sparse_members(s0.conflicting_vertices).contains(x) implies sparse_members(
                    s3.conflicting_vertices,
                ).contains(x) by {
                let i = choose|i: int|
                    0 <= i < sparse_members(s0.conflicting_vertices).len() && sparse_members(
                        s0.conflicting_vertices,
                    )[i] == x;
                if cn == next {
                    assert(sparse_members(s3.conflicting_vertices)[i] == x);
                }
            }
            assert forall|i: int|
                0 <= i < sparse_members(s3.conflicting_vertices).len() implies #[trigger] sparse_members(
                    s3.conflicting_vertices,
                )[i] < n by {
                if cn == next {
                    let m0 = sparse_members(s0.conflicting_vertices);
                    let m3 = sparse_members(s3.conflicting_vertices);
                    if i < m0.len() {
                        assert(m3[i] == m0[i]);
                    }
                }
            }
            Self::lemma_recolor_step(s0, s3, g, v, prev, next, j as int, col0, ws0, u, cn, w0, inc);
        }
    }

    /// one step of a recolor: the exec updates of the j-th neighbor u of v
    /// take the state from j to j + 1 visited neighbors
    #[verifier::rlimit(80)]
    proof fn lemma_recolor_step(
        s0: Self,
        s3: Self,
        g: &DimacsInstance,
        v: usize,
        prev: usize,
        next: usize,
        j: int,
        col0: Seq<usize>,
        ws0: Seq<Vec<Weight>>,
        u: usize,
        cn: usize,
        w0: int,
        inc: int,
    )
        requires
            s0.mid_recolor(g, v, prev, next, j, col0, ws0),
            0 <= j < g.nbrs()[v as int].len(),
            u == g.nbrs()[v as int][j],
            cn == col0[u as int],
            w0 == wt(s0.weights@, v, u),
            inc == if cn == next && w0 < u32::MAX {
                1int
            } else {
                0int
            },
            s3.same_frame(&s0),
            s3.colors == s0.colors,
            s3.colors_vertex_number == s0.colors_vertex_number,
            s3.colors_bitsets == s0.colors_bitsets,
            s3.weights@.len() == s0.n,
            forall|x: int| 0 <= x < s0.n ==> #[trigger] s3.weights@[x]@.len() == x,
            forall|x: int, y: int|
                0 <= y < x < s0.n ==> #[trigger] s3.weights@[x]@[y] >= s0.weights@[x]@[y],
            forall|a: usize, b: usize|
                a < s0.n && b < s0.n && a != b ==> #[trigger] wt(s3.weights@, a, b) == wt(
                    s0.weights@,
                    a,
                    b,
                ) + if (a == u && b == v) || (a == v && b == u) {
                    inc
                } else {
                    0int
                },
            s3.weights_neigh_colors@.len() == s0.n,
            forall|x: int|
                0 <= x < s0.n ==> #[trigger] s3.weights_neigh_colors@[x]@.len() == s0.nb_colors,
            forall|x: int, c: int|
                0 <= x < s0.n && 0 <= c < s0.nb_colors ==> #[trigger] s3.weights_neigh_colors@[x]@[c]
                    == s0.weights_neigh_colors@[x]@[c] + (if x == u && c == prev {
                    -w0
                } else {
                    0int
                }) + (if x == u && c == next {
                    w0 + inc
                } else {
                    0
                }) + (if x == v && c == next {
                    inc
                } else {
                    0int
                }),
            s3.vertex_nb_conflicts@.len() == s0.n,
            forall|x: int|
                0 <= x < s0.n ==> #[trigger] s3.vertex_nb_conflicts@[x] == s0.vertex_nb_conflicts@[x]
                    + (if (x == u || x == v) && cn == prev {
                    -1int
                } else {
                    0int
                }) + (if (x == u || x == v) && cn == next {
                    1int
                } else {
                    0int
                }),
            s3.nb_conflicting_edges == s0.nb_conflicting_edges + (if cn == prev {
                -1int
            } else {
                0int
            }) + (if cn == next {
                1int
            } else {
                0int
            }),
            s3.total_weight == s0.total_weight + inc,
            sparse_capacity(s3.conflicting_vertices) == s0.n,
            forall|i: int|
                0 <= i < sparse_members(s3.conflicting_vertices).len() ==> #[trigger] sparse_members(
                    s3.conflicting_vertices,
                )[i] < s0.n,
            forall|x: usize|
                sparse_members(s0.conflicting_vertices).contains(x) ==> sparse_members(
                    s3.conflicting_vertices,
                ).contains(x),
            sparse_members(s3.conflicting_vertices).no_duplicates(),
            cn == next ==> sparse_members(s3.conflicting_vertices).contains(u),
            cn == next ==> sparse_members(s3.conflicting_vertices).contains(v),
        ensures
            s3.mid_recolor(g, v, prev, next, j + 1, col0, ws0),
    {
        let ws3 = s3.weights@;
        let n = s0.n as int;
        let nb = g.nbrs()[v as int];
        let nbu = g.nbrs()[u as int];
            assert(nb[j] == u);
            assert(u < n && u != v);
            assert(g.adj(v as int, u as int)) by {
                assert(nb.contains(u));
            }
            assert(g.adj(u as int, v as int));
            assert(g.nbrs()[u as int].contains(v));
            assert(g.nbrs()[u as int].no_duplicates());
            assert(nb.no_duplicates());
            assert(Self::pending(g, v, j, u)) by {
                assert(nb.subrange(j, nb.len() as int)[0] == u);
            }
            assert forall|x: usize| #![trigger Self::pending(g, v, j + 1, x)]
                x != u ==> (Self::pending(g, v, j + 1, x) == Self::pending(g, v, j, x)) by {
                let sj = nb.subrange(j, nb.len() as int);
                let sj1 = nb.subrange(j + 1, nb.len() as int);
                if x != u {
                    if sj.contains(x) {
                        let i = choose|i: int| 0 <= i < sj.len() && sj[i] == x;
                        assert(i != 0);
                        assert(sj1[i - 1] == sj[i]);
                    }
                    if sj1.contains(x) {
                        let i = choose|i: int| 0 <= i < sj1.len() && sj1[i] == x;
                        assert(sj[i + 1] == sj1[i]);
                    }
                }
            }
            assert(!Self::pending(g, v, j + 1, u)) by {
                let sj1 = nb.subrange(j + 1, nb.len() as int);
                if sj1.contains(u) {
                    let i = choose|i: int| 0 <= i < sj1.len() && sj1[i] == u;
                    assert(nb[j + 1 + i] == nb[j]);
                }
            }
            assert(!Self::pending(g, v, j, v)) by {
                let sj = nb.subrange(j, nb.len() as int);
                if sj.contains(v) {
                    let i = choose|i: int| 0 <= i < sj.len() && sj[i] == v;
                    assert(nb[j + i] == v);
                }
            }
            assert(!Self::pending(g, v, j + 1, v)) by {
                let sj = nb.subrange(j + 1, nb.len() as int);
                if sj.contains(v) {
                    let i = choose|i: int| 0 <= i < sj.len() && sj[i] == v;
                    assert(nb[j + 1 + i] == v);
                }
            }
        
            let dp: int = if cn == prev {
                1
            } else {
                0
            };
            let dn: int = if cn == next {
                1
            } else {
                0
            };
            assert(s3.colors@ == s0.colors@);
            assert forall|a: usize, b: usize|
                a < n && b < n && a != b && a != v && b != v implies #[trigger] wt(s3.weights@, a, b)
                    == wt(ws0, a, b) by {
                assert(wt(s3.weights@, a, b) == wt(s0.weights@, a, b));
            }
            assert forall|a: usize, b: usize|
                a < n && b < n && a != b implies #[trigger] wt(ws3, a, b) == wt(s0.weights@, a, b)
                    + if (a == u && b == v) || (a == v && b == u) {
                    inc
                } else {
                    0int
                } by {}
            assert forall|x: int, y: int| 0 <= y < x < n implies #[trigger] ws3[x]@[y] >= s0.weights@[x]@[
                y] by {}
            assert(s3.vertex_nb_conflicts@[u as int] == s0.vertex_nb_conflicts@[u as int] - dp + dn);
            assert(s3.vertex_nb_conflicts@[v as int] == s0.vertex_nb_conflicts@[v as int] - dp + dn);
            assert(s3.nb_conflicting_edges == s0.nb_conflicting_edges - dp + dn);
            assert(s3.total_weight == s0.total_weight + inc);
            // aggregates of every vertex
            assert forall|x: int, c: int|
                0 <= x < n && 0 <= c < s3.nb_colors implies #[trigger] s3.weights_neigh_colors@[x]@[c]
                    == nbw_of(
                    g.nbrs()[x],
                    s3.seen_colors(g, v, j + 1, col0, x as usize),
                    s3.weights@,
                    x as usize,
                    c as usize,
                ) by {
                let xu = x as usize;
                let cu = c as usize;
                if xu == u {
                    assert(s3.seen_colors(g, v, j + 1, col0, xu) == s3.colors@);
                    assert(s0.weights_neigh_colors@[x]@[c] == nbw_of(nbu, col0, s0.weights@, u, cu));
                    lemma_seq_sum_point(
                        nbu,
                        nbw_term(col0, s0.weights@, u, cu),
                        nbw_term(s3.colors@, ws3, u, cu),
                        v,
                    );
                } else if xu == v {
                    assert(s0.seen_colors(g, v, j, col0, xu) == s0.colors@);
                    assert(s3.seen_colors(g, v, j + 1, col0, xu) == s3.colors@);
                    lemma_seq_sum_point(
                        nb,
                        nbw_term(s0.colors@, s0.weights@, v, cu),
                        nbw_term(s3.colors@, ws3, v, cu),
                        u,
                    );
                    assert(nb.contains(u)) by {
                        assert(nb[j] == u);
                    }
                } else {
                    let sc = s0.seen_colors(g, v, j, col0, xu);
                    assert(s3.seen_colors(g, v, j + 1, col0, xu) == sc);
                    let nbx = g.nbrs()[x];
                    assert forall|i: int| 0 <= i < nbx.len() implies #[trigger] nbw_term(
                        sc,
                        s0.weights@,
                        xu,
                        cu,
                    )(nbx[i]) == nbw_term(sc, ws3, xu, cu)(nbx[i]) by {
                        assert(nbx[i] < n && nbx[i] != xu);
                    }
                    lemma_seq_sum_ext(nbx, nbw_term(sc, s0.weights@, xu, cu), nbw_term(sc, ws3, xu, cu));
                }
            }
            // conflict counts of every vertex but v
            assert forall|x: int|
                0 <= x < n && x != v implies #[trigger] s3.vertex_nb_conflicts@[x] == count_in(
                    g.nbrs()[x],
                    s3.seen_colors(g, v, j + 1, col0, x as usize),
                    s3.colors@[x],
                ) by {
                let xu = x as usize;
                if xu == u {
                    assert(s0.vertex_nb_conflicts@[x] == count_in(nbu, col0, cn));
                    lemma_seq_sum_point(nbu, same_term(col0, cn), same_term(s3.colors@, cn), v);
                } else {
                    assert(s3.seen_colors(g, v, j + 1, col0, xu) == s0.seen_colors(
                        g,
                        v,
                        j,
                        col0,
                        xu,
                    ));
                }
            }
            // conflict count of v
            lemma_seq_sum_take(nb, same_term(col0, prev), j);
            lemma_seq_sum_take(nb, same_term(col0, next), j);
            // total number of conflicting edges
            let f0 = s0.conflict_fn();
            let f1 = |x: nat|
                if x == u {
                    s3.vertex_nb_conflicts@[u as int] as int
                } else {
                    f0(x)
                };
            let f2 = s3.conflict_fn();
            lemma_range_sum_point(n as nat, f0, f1, u as nat);
            assert forall|x: nat| x < n && x != v implies #[trigger] f1(x) == f2(x) by {}
            lemma_range_sum_point(n as nat, f1, f2, v as nat);
            // total weight
            let p0 = s0.penalty();
            let p1 = |x: nat|
                if x == u {
                    s3.weights_neigh_colors@[u as int]@[cn as int] as int
                } else {
                    p0(x)
                };
            let p2 = s3.penalty();
            lemma_range_sum_point(n as nat, p0, p1, u as nat);
            assert forall|x: nat| x < n && x != v implies #[trigger] p1(x) == p2(x) by {}
            lemma_range_sum_point(n as nat, p1, p2, v as nat);
            assert(wt(ws0, v, u) == w0);
            lemma_seq_sum_take(nb, delta_term(col0, ws0, v, prev, next), j);
            assert(s3.weights_neigh_colors@[v as int]@[next as int] == s0.weights_neigh_colors@[
                v as int]@[next as int] + inc);
            // weights frame
            assert forall|a: usize|
                a < n && a != v && (Self::pending(g, v, j + 1, a) || !nb.contains(a)) implies #[trigger] wt(
                s3.weights@,
                v,
                a,
            ) == wt(ws0, v, a) by {
                if a == u {
                    assert(nb.contains(u)) by {
                        assert(nb[j] == u);
                    }
                }
            }
            assert forall|a: usize|
                a < n && a != v && #[trigger] nb.take(j + 1).contains(a) implies wt(s3.weights@, v, a)
                    == wt(ws0, v, a) + growth(g, col0, ws0, v, next, a) by {
                assert(nb.take(j + 1) == nb.take(j).push(u));
                vstd::seq_lib::lemma_seq_contains_after_push(nb.take(j), u, a);
                assert(nb.contains(u)) by {
                    assert(nb[j] == u);
                }
                if a == u {
                    assert(Self::pending(g, v, j, u));
                    assert(wt(s0.weights@, v, u) == wt(ws0, v, u));
                } else {
                    assert(nb.take(j).contains(a));
                }
            }
            // conflict set
            assert forall|x: int|
                0 <= x < s3.n && #[trigger] s3.vertex_nb_conflicts@[x] > 0 implies sparse_members(
                    s3.conflicting_vertices,
                ).contains(x as usize) by {
                if x != u && x != v {
                    assert(s0.vertex_nb_conflicts@[x] > 0);
                } else if cn != next {
                    assert(s0.vertex_nb_conflicts@[x] > 0);
                }
            }
    }

    /// change the color of vertex v, to color next_color
    pub fn change_vertex_color(&mut self, g: &DimacsInstance, v: VertexId, next_color: usize)
        requires
            old(self).wf(g),
            v < old(self).n,
            next_color < old(self).nb_colors,
            old(self).colors@[v as int] != next_color,
        ensures
            final(self).wf(g),
            final(self).colors@ == old(self).colors@.update(v as int, next_color),
            final(self).n == old(self).n,
            final(self).nb_colors == old(self).nb_colors,
            final(self).tabu == old(self).tabu,
            final(self).nb_iter == old(self).nb_iter,
            final(self).best_so_far_colors == old(self).best_so_far_colors,
            forall|a: usize, b: usize|
                a < old(self).n && b < old(self).n && a != b ==> #[trigger] wt(final(self).weights@, a, b)
                    == wt(old(self).weights@, a, b) + if a == v {
                    growth(g, old(self).colors@, old(self).weights@, v, next_color, b)
                } else if b == v {
                    growth(g, old(self).colors@, old(self).weights@, v, next_color, a)
                } else {
                    0
                },
            final(self).current_sol == old(self).current_sol,
            final(self).aspiration_criterion == if final(self).nb_conflicting_edges < old(
                self,
            ).aspiration_criterion {
                final(self).nb_conflicting_edges
            } else {
                old(self).aspiration_criterion
            },
            forall|x: int, y: int|
                0 <= y < x < old(self).n ==> #[trigger] final(self).weights@[x]@[y] >= old(
                    self,
                ).weights@[x]@[y],
    {
        let prev = self.colors[v];
        let ghost s0 = *self;
        let ghost col0 = self.colors@;
        let ghost ws0 = self.weights@;
        let ghost n = self.n as int;
        let ghost nb = g.nbrs()[v as int];
        self.colors[v] = next_color;
        self.colors_bitsets[prev].remove(v);
        self.colors_bitsets[next_color].insert(v);
        proof {
            lemma_count_color_update(col0, v as int, next_color, prev);
            lemma_count_color_update(col0, v as int, next_color, next_color);
            lemma_count_color_le(self.colors@, next_color);
        }
        self.colors_vertex_number[prev] -= 1;
        self.colors_vertex_number[next_color] += 1;
        let gain: i128 = self.weights_neigh_colors[v][next_color] as i128;
        let loss: i128 = self.weights_neigh_colors[v][prev] as i128;
        self.total_weight = self.total_weight + gain - loss;
        proof {
            let s1 = *self;
            let col1 = self.colors@;
            assert(!nb.contains(v)) by {
                if nb.contains(v) {
                    let i = choose|i: int| 0 <= i < nb.len() && nb[i] == v;
                }
            }
            // classes
            assert forall|c: int| 0 <= c < s1.nb_colors implies #[trigger] s1.colors_vertex_number@[c]
                == count_color(col1, c as usize) by {
                lemma_count_color_update(col0, v as int, next_color, c as usize);
            }
            assert forall|c: int| 0 <= c < s1.nb_colors implies #[trigger] bits_of(
                s1.colors_bitsets@[c],
            ) == class_of(col1, n as nat, c as usize) by {
                assert(bits_of(s0.colors_bitsets@[c]) == class_of(col0, n as nat, c as usize));
                assert(bits_of(s1.colors_bitsets@[c]) =~= class_of(col1, n as nat, c as usize));
            }
            // pending neighbors
            assert forall|x: usize| #[trigger] Self::pending(g, v, 0, x) == nb.contains(x) by {
                assert(nb.subrange(0, nb.len() as int) =~= nb);
            }
            assert forall|x: int, c: int|
                0 <= x < n && 0 <= c < s1.nb_colors implies #[trigger] s1.weights_neigh_colors@[x]@[c]
                    == nbw_of(
                    g.nbrs()[x],
                    s1.seen_colors(g, v, 0, col0, x as usize),
                    s1.weights@,
                    x as usize,
                    c as usize,
                ) by {
                assert(s0.weights_neigh_colors@[x]@[c] == nbw_of(
                    g.nbrs()[x],
                    col0,
                    ws0,
                    x as usize,
                    c as usize,
                ));
                if !nb.contains(x as usize) {
                    let nbx = g.nbrs()[x];
                    assert(!nbx.contains(v)) by {
                        if nbx.contains(v) {
                            assert(g.adj(x, v as int));
                            assert(g.adj(v as int, x));
                        }
                    }
                    assert forall|i: int| 0 <= i < nbx.len() implies #[trigger] nbw_term(
                        col0,
                        ws0,
                        x as usize,
                        c as usize,
                    )(nbx[i]) == nbw_term(col1, ws0, x as usize, c as usize)(nbx[i]) by {
                        assert(nbx[i] != v);
                    }
                    lemma_seq_sum_ext(
                        nbx,
                        nbw_term(col0, ws0, x as usize, c as usize),
                        nbw_term(col1, ws0, x as usize, c as usize),
                    );
                }
            }
            assert forall|x: int|
                0 <= x < n && x != v implies #[trigger] s1.vertex_nb_conflicts@[x] == count_in(
                    g.nbrs()[x],
                    s1.seen_colors(g, v, 0, col0, x as usize),
                    s1.colors@[x],
                ) by {
                assert(s0.vertex_nb_conflicts@[x] == count_in(g.nbrs()[x], col0, col0[x]));
                if !nb.contains(x as usize) {
                    let nbx = g.nbrs()[x];
                    assert(!nbx.contains(v)) by {
                        if nbx.contains(v) {
                            assert(g.adj(x, v as int));
                            assert(g.adj(v as int, x));
                        }
                    }
                    assert forall|i: int| 0 <= i < nbx.len() implies #[trigger] same_term(
                        col0,
                        col0[x],
                    )(nbx[i]) == same_term(col1, col0[x])(nbx[i]) by {
                        assert(nbx[i] != v);
                    }
                    lemma_seq_sum_ext(nbx, same_term(col0, col0[x]), same_term(col1, col0[x]));
                }
            }
            assert(nb.take(0) =~= Seq::<usize>::empty());
            assert(s1.vertex_nb_conflicts@[v as int] == count_in(nb, col0, prev));
            assert(s1.conflict_fn() == s0.conflict_fn());
            // total weight
            let p0 = s0.penalty();
            let p1 = s1.penalty();
            lemma_range_sum_point(n as nat, p0, p1, v as nat);
            lemma_seq_sum_sub(
                nb,
                nbw_term(col0, ws0, v, next_color),
                nbw_term(col0, ws0, v, prev),
                delta_term(col0, ws0, v, prev, next_color),
            );
            assert(s0.weights_neigh_colors@[v as int]@[next_color as int] == nbw_of(
                nb,
                col0,
                ws0,
                v,
                next_color,
            ));
            assert(s0.weights_neigh_colors@[v as int]@[prev as int] == nbw_of(nb, col0, ws0, v, prev));
            assert(s1.mid_recolor(g, v, prev, next_color, 0, col0, ws0));
        }
        let deg = g.adj_list[v].len();
        let mut j: usize = 0;
        while j < deg
            invariant
                self.mid_recolor(g, v, prev, next_color, j as int, col0, ws0),
                nb == g.nbrs()[v as int],
                n == s0.n,
                ws0 == s0.weights@,
                deg == nb.len(),
                j <= deg,
                self.same_frame(&s0),
                self.colors@ == col0.update(v as int, next_color),
                forall|x: int, y: int| 0 <= y < x < n ==> #[trigger] self.weights@[x]@[y] >= ws0[x]@[y],
            decreases deg - j,
        {
            self.recolor_neighbor(g, v, prev, next_color, j, Ghost(col0), Ghost(ws0));
            j += 1;
        }
        proof {
            let s2 = *self;
            let col1 = s2.colors@;
            assert(nb.take(deg as int) =~= nb);
            assert forall|a: usize, b: usize|
                a < n && b < n && a != b implies #[trigger] wt(self.weights@, a, b) == wt(ws0, a, b) + if a == v {
                    growth(g, col0, ws0, v, next_color, b)
                } else if b == v {
                    growth(g, col0, ws0, v, next_color, a)
                } else {
                    0
                } by {
                if a == v {
                    if nb.take(deg as int).contains(b) {
                    } else {
                        assert(!Self::pending(g, v, deg as int, b));
                    }
                } else if b == v {
                    assert(wt(self.weights@, a, b) == wt(self.weights@, v, a));
                    assert(wt(ws0, a, b) == wt(ws0, v, a));
                    if nb.take(deg as int).contains(a) {
                    } else {
                        assert(!Self::pending(g, v, deg as int, a));
                    }
                }
            }
            assert forall|x: usize| !#[trigger] Self::pending(g, v, deg as int, x) by {}
            assert(!nb.contains(v)) by {
                if nb.contains(v) {
                    let i = choose|i: int| 0 <= i < nb.len() && nb[i] == v;
                }
            }
            assert forall|i: int| 0 <= i < nb.len() implies #[trigger] same_term(col0, next_color)(nb[i])
                == same_term(col1, next_color)(nb[i]) by {
                assert(nb[i] != v);
            }
            lemma_seq_sum_ext(nb, same_term(col0, next_color), same_term(col1, next_color));
            assert forall|x: int|
                0 <= x < n implies #[trigger] s2.vertex_nb_conflicts@[x] == count_in(
                    g.nbrs()[x],
                    s2.colors@,
                    s2.colors@[x],
                ) by {
                if x != v {
                    assert(s2.seen_colors(g, v, deg as int, col0, x as usize) == col1);
                }
            }
            assert forall|x: int, c: int|
                0 <= x < n && 0 <= c < s2.nb_colors implies #[trigger] s2.weights_neigh_colors@[x]@[c]
                    == nbw_of(g.nbrs()[x], s2.colors@, s2.weights@, x as usize, c as usize) by {
                assert(s2.seen_colors(g, v, deg as int, col0, x as usize) == col1);
            }
            assert forall|x: nat| x < n implies 0 <= #[trigger] s2.penalty()(x) <= u64::MAX by {}
            lemma_range_sum_bounds(n as nat, s2.penalty(), u64::MAX as int);
            assert(n * (u64::MAX as int) < 2 * weight_bound()) by (nonlinear_arith)
                requires
                    0 <= n <= u32::MAX,
            ;
        }
        if self.nb_conflicting_edges < self.aspiration_criterion {
            self.aspiration_criterion = self.nb_conflicting_edges;
        }
    }
}

/// recoloring one vertex changes the number of vertices of color c by the
/// color it leaves and the color it takes
pub proof fn lemma_count_color_update(col: Seq<usize>, i: int, a: usize, c: usize)
    requires
        0 <= i < col.len(),
    ensures
        count_color(col.update(i, a), c) + (if col[i] == c {
            1int
        } else {
            0int
        }) == count_color(col, c) + (if a == c {
            1int
        } else {
            0int
        }),
    decreases col.len(),
{
    let u = col.update(i, a);
    if i == col.len() - 1 {
        assert(u.drop_last() =~= col.drop_last());
    } else {
        assert(u.drop_last() =~= col.drop_last().update(i, a));
        lemma_count_color_update(col.drop_last(), i, a, c);
    }
}

/// at most every vertex has color c
pub proof fn lemma_count_color_le(col: Seq<usize>, c: usize)
    ensures
        count_color(col, c) <= col.len(),
    decreases col.len(),
{
    if col.len() > 0 {
        lemma_count_color_le(col.drop_last(), c);
    }
}

/// no edge joins two vertices of the same color
pub open spec fn coloring_proper(g: &DimacsInstance, col: Seq<usize>) -> bool {
    forall|x: int, i: int|
        0 <= x < g.n && 0 <= i < g.nbrs()[x].len() ==> col[#[trigger] g.nbrs()[x][i] as int]
            != col[x]
}

/// number of non-empty classes
pub open spec fn nb_nonempty(s: Seq<Seq<VertexId>>) -> nat
    decreases s.len(),
{
    if s.len() == 0 {
        0
    } else {
        nb_nonempty(s.drop_last()) + if s.last().len() > 0 {
            1nat
        } else {
            0nat
        }
    }
}

/// The total weight is zero exactly when no edge is in conflict: the
/// conflict weighting state is feasible iff its coloring is proper.
pub proof fn lemma_zero_weight_iff_proper(s: &ConflictWeightingLocalSearch, g: &DimacsInstance)
    requires
        s.wf(g),
    ensures
        (s.total_weight == 0) <==> coloring_proper(g, s.colors@),
{
    let n = s.n as int;
    let col = s.colors@;
    let ws = s.weights@;
    assert forall|x: nat| x < n implies 0 <= #[trigger] s.penalty()(x) by {}
    if s.total_weight == 0 {
        crate::sums::lemma_range_sum_zero(n as nat, s.penalty());
        assert forall|x: int, i: int|
            0 <= x < g.n && 0 <= i < g.nbrs()[x].len() implies col[#[trigger] g.nbrs()[x][i] as int]
            != col[x] by {
            let nbx = g.nbrs()[x];
            let f = nbw_term(col, ws, x as usize, col[x]);
            assert(s.penalty()(x as nat) == 0);
            assert(s.weights_neigh_colors@[x]@[col[x] as int] == nbw_of(nbx, col, ws, x as usize, col[x]));
            assert forall|k: int| 0 <= k < nbx.len() implies 0 <= #[trigger] f(nbx[k]) by {}
            crate::sums::lemma_seq_sum_zero(nbx, f);
            let y = nbx[i];
            assert(y < n && y != x);
            assert(wt(ws, x as usize, y) >= 1) by {
                if x > y {
                    assert(ws[x]@[y as int] >= 1);
                } else {
                    assert(ws[y as int]@[x] >= 1);
                }
            }
            assert(f(nbx[i]) == 0);
        }
    }
    if coloring_proper(g, col) {
        assert forall|x: nat| x < n implies 0 <= #[trigger] s.penalty()(x) <= 0 by {
            let nbx = g.nbrs()[x as int];
            let f = nbw_term(col, ws, x as usize, col[x as int]);
            assert forall|k: int| 0 <= k < nbx.len() implies 0 <= #[trigger] f(nbx[k]) <= 0 by {
                assert(col[nbx[k] as int] != col[x as int]);
            }
            lemma_seq_sum_bounds(nbx, f, 0);
            assert(s.weights_neigh_colors@[x as int]@[col[x as int] as int] == nbw_of(
                nbx,
                col,
                ws,
                x as usize,
                col[x as int],
            ));
        }
        lemma_range_sum_bounds(n as nat, s.penalty(), 0);
    }
}

/// the partition of a proper coloring is a proper coloring of the graph
pub proof fn lemma_partition_proper(g: &DimacsInstance, sol: Seq<Seq<VertexId>>, col: Seq<usize>, k: nat)
    requires
        g.wf(),
        col.len() == g.n,
        is_partition_of(sol, col, k),
        coloring_proper(g, col),
    ensures
        is_proper_coloring(*g, sol),
{
    assert forall|c: int, i: int, j: int|
        is_pos(sol, c, i) && is_pos(sol, c, j) implies !g.adj(
        #[trigger] sol[c][i] as int,
        #[trigger] sol[c][j] as int,
    ) by {
        let a = sol[c][i];
        let b = sol[c][j];
        if g.adj(a as int, b as int) {
            let t = choose|t: int| 0 <= t < g.nbrs()[a as int].len() && g.nbrs()[a as int][t] == b;
            assert(col[g.nbrs()[a as int][t] as int] != col[a as int]);
        }
    }
}

/// counts the non-empty classes of a partition
pub fn count_nonempty(sol: &Vec<Vec<VertexId>>) -> (r: usize)
    ensures
        r == nb_nonempty(classes(sol@)),
{
    let mut cnt: usize = 0;
    let mut c: usize = 0;
    while c < sol.len()
        invariant
            c <= sol@.len(),
            cnt <= c,
            cnt == nb_nonempty(classes(sol@).take(c as int)),
        decreases sol@.len() - c,
    {
        proof {
            assert(classes(sol@).take(c + 1).drop_last() =~= classes(sol@).take(c as int));
        }
        if sol[c].len() > 0 {
            cnt += 1;
        }
        c += 1;
    }
    proof {
        assert(classes(sol@).take(c as int) =~= classes(sol@));
    }
    cnt
}

impl ConflictWeightingLocalSearch {
    /// records the current coloring, proper, as the best so far
    fn update_current_solution(&mut self, g: &DimacsInstance)
        requires
            old(self).wf(g),
            old(self).total_weight == 0,
        ensures
            final(self).wf(g),
            is_partition_of(
                classes(final(self).current_sol@),
                final(self).colors@,
                final(self).nb_colors as nat,
            ),
            final(self).best_so_far_colors == nb_nonempty(classes(final(self).current_sol@)),
            final(self).best_so_far_colors == final(self).nb_used(),
            final(self).colors == old(self).colors,
            final(self).weights_neigh_colors == old(self).weights_neigh_colors,
            final(self).colors_vertex_number == old(self).colors_vertex_number,
            final(self).weights == old(self).weights,
            final(self).total_weight == old(self).total_weight,
            final(self).n == old(self).n,
            final(self).nb_colors == old(self).nb_colors,
            final(self).tabu == old(self).tabu,
            final(self).nb_iter == old(self).nb_iter,
    {
        proof {
            lemma_zero_weight_iff_proper(self, g);
        }
        let new_solution = colors_to_partition(&self.colors, self.nb_colors);
        proof {
            lemma_partition_proper(g, classes(new_solution@), self.colors@, self.nb_colors as nat);
        }
        self.best_so_far_colors = count_nonempty(&new_solution);
        self.current_sol = new_solution;
        proof {
            let cs = classes(self.current_sol@);
            lemma_nb_nonempty_sum(cs);
            lemma_partition_used(cs, self.colors@, self.nb_colors as nat);
            crate::sums::lemma_range_sum_ext(self.nb_colors as nat, nonempty_term(cs), self.used_term());
        }
    }
}

/// the colors read off a partition: vertex x has the index of its class
pub open spec fn colors_match(col: Seq<usize>, sol: Seq<Seq<VertexId>>) -> bool {
    forall|c: int, i: int| is_pos(sol, c, i) ==> col[#[trigger] sol[c][i] as int] == c
}

/// the colors of a proper coloring given as a partition make a proper coloring
proof fn lemma_colors_proper(g: &DimacsInstance, sol: Seq<Seq<VertexId>>, col: Seq<usize>)
    requires
        g.wf(),
        col.len() == g.n,
        colors_match(col, sol),
        is_proper_coloring(*g, sol),
    ensures
        coloring_proper(g, col),
{
    assert forall|x: int, i: int|
        0 <= x < g.n && 0 <= i < g.nbrs()[x].len() implies col[#[trigger] g.nbrs()[x][i] as int]
        != col[x] by {
        let y = g.nbrs()[x][i];
        assert(occurs(sol, x as usize));
        assert(occurs(sol, y));
        let (c1, i1) = choose|c: int, j: int| is_pos(sol, c, j) && #[trigger] sol[c][j] == x as usize;
        let (c2, i2) = choose|c: int, j: int| is_pos(sol, c, j) && #[trigger] sol[c][j] == y;
        assert(g.adj(x, y as int)) by {
            assert(g.nbrs()[x].contains(y));
        }
        if col[y as int] == col[x] {
            assert(c1 == c2);
            assert(no_conflict(*g, sol));
            assert(!g.adj(sol[c1][i1] as int, sol[c1][i2] as int));
        }
    }
}

impl ConflictWeightingLocalSearch {
    /// initializes the data-structure from an initial proper coloring given as a partition
    pub fn initialize(g: &DimacsInstance, sol: &Vec<Vec<VertexId>>) -> (r: Self)
        requires
            g.wf(),
            g.n <= u32::MAX,
            sol@.len() >= 1,
            within(classes(sol@), g.n as nat),
            is_proper_coloring(*g, classes(sol@)),
        ensures
            r.wf(g),
            r.nb_colors == sol@.len(),
            r.total_weight == 0,
            r.nb_iter == 0,
            r.best_so_far_colors == r.nb_used(),
            colors_match(r.colors@, classes(sol@)),
    {
        let n = g.n;
        let nb_colors = sol.len();
        let ghost s = classes(sol@);
        let colors = partition_to_colors(g, sol);
        let ghost col = colors@;
        // class sizes and members
        let mut colors_vertex_number: Vec<usize> = vec![0; nb_colors];
        let mut colors_bitsets: Vec<VertexSet> = Vec::new();
        let mut c: usize = 0;
        while c < nb_colors
            invariant
                c <= nb_colors,
                colors_bitsets@.len() == c,
                forall|c2: int| 0 <= c2 < c ==> bits_of(#[trigger] colors_bitsets@[c2]) == Set::<usize>::empty(),
            decreases nb_colors - c,
        {
            colors_bitsets.push(VertexSet::with_capacity(n));
            c += 1;
        }
        let mut x: usize = 0;
        while x < n
            invariant
                n == g.n,
                n <= u32::MAX,
                col == colors@,
                col.len() == n,
                forall|y: int| 0 <= y < n ==> #[trigger] col[y] < nb_colors,
                x <= n,
                colors_vertex_number@.len() == nb_colors,
                colors_bitsets@.len() == nb_colors,
                forall|c2: int|
                    0 <= c2 < nb_colors ==> #[trigger] colors_vertex_number@[c2] == count_color(
                        col.take(x as int),
                        c2 as usize,
                    ),
                forall|c2: int|
                    0 <= c2 < nb_colors ==> #[trigger] bits_of(colors_bitsets@[c2]) == class_of(
                        col,
                        x as nat,
                        c2 as usize,
                    ),
            decreases n - x,
        {
            let cx = colors[x];
            proof {
                assert(col.take(x + 1).drop_last() =~= col.take(x as int));
                lemma_count_color_le(col.take(x as int), cx);
                assert forall|c2: int| 0 <= c2 < nb_colors implies #[trigger] count_color(
                    col.take(x + 1),
                    c2 as usize,
                ) == count_color(col.take(x as int), c2 as usize) + if c2 == cx {
                    1nat
                } else {
                    0nat
                } by {}
            }
            colors_vertex_number[cx] += 1;
            colors_bitsets[cx].insert(x);
            proof {
                assert forall|c2: int| 0 <= c2 < nb_colors implies #[trigger] bits_of(colors_bitsets@[c2])
                    == class_of(col, (x + 1) as nat, c2 as usize) by {
                    assert(bits_of(colors_bitsets@[c2]) =~= class_of(col, (x + 1) as nat, c2 as usize));
                }
            }
            x += 1;
        }
        proof {
            assert(col.take(n as int) =~= col);
        }
        // weights
        let mut weights: Vec<Vec<Weight>> = Vec::new();
        let mut x: usize = 0;
        while x < n
            invariant
                x <= n,
                weights@.len() == x,
                forall|y: int| 0 <= y < x ==> #[trigger] weights@[y]@.len() == y,
                forall|y: int, z: int| 0 <= z < y < x ==> #[trigger] weights@[y]@[z] == 1,
            decreases n - x,
        {
            weights.push(vec![1; x]);
            x += 1;
        }
        let ghost ws = weights@;
        // weights of the neighbors of each color
        let mut weights_neigh_colors: Vec<Vec<u64>> = Vec::new();
        let mut x: usize = 0;
        while x < n
            invariant
                x <= n,
                weights_neigh_colors@.len() == x,
                forall|y: int| 0 <= y < x ==> #[trigger] weights_neigh_colors@[y]@.len() == nb_colors,
                forall|y: int, c2: int|
                    0 <= y < x && 0 <= c2 < nb_colors ==> #[trigger] weights_neigh_colors@[y]@[c2] == 0,
            decreases n - x,
        {
            weights_neigh_colors.push(vec![0; nb_colors]);
            x += 1;
        }
        let mut u: usize = 0;
        while u < n
            invariant
                g.wf(),
                n == g.n,
                n <= u32::MAX,
                col == colors@,
                col.len() == n,
                forall|y: int| 0 <= y < n ==> #[trigger] col[y] < nb_colors,
                ws.len() == n,
                forall|y: int| 0 <= y < n ==> #[trigger] ws[y]@.len() == y,
                forall|y: int, z: int| 0 <= z < y < n ==> #[trigger] ws[y]@[z] == 1,
                u <= n,
                weights_neigh_colors@.len() == n,
                forall|y: int| 0 <= y < n ==> #[trigger] weights_neigh_colors@[y]@.len() == nb_colors,
                forall|y: int, c2: int|
                    0 <= y < u && 0 <= c2 < nb_colors ==> #[trigger] weights_neigh_colors@[y]@[c2]
                        == nbw_of(g.nbrs()[y], col, ws, y as usize, c2 as usize),
                forall|y: int, c2: int|
                    u <= y < n && 0 <= c2 < nb_colors ==> #[trigger] weights_neigh_colors@[y]@[c2] == 0,
            decreases n - u,
        {
            let nbu = &g.adj_list[u];
            let ghost nb = g.nbrs()[u as int];
            assert(nbu@ == nb);
            let mut t: usize = 0;
            while t < nbu.len()
                invariant
                    g.wf(),
                    n == g.n,
                    n <= u32::MAX,
                    col == colors@,
                    col.len() == n,
                    forall|y: int| 0 <= y < n ==> #[trigger] col[y] < nb_colors,
                    ws.len() == n,
                    forall|y: int| 0 <= y < n ==> #[trigger] ws[y]@.len() == y,
                    forall|y: int, z: int| 0 <= z < y < n ==> #[trigger] ws[y]@[z] == 1,
                    u < n,
                    nbu@ == nb,
                    nb == g.nbrs()[u as int],
                    t <= nb.len(),
                    weights_neigh_colors@.len() == n,
                    forall|y: int| 0 <= y < n ==> #[trigger] weights_neigh_colors@[y]@.len() == nb_colors,
                    forall|y: int, c2: int|
                        0 <= y < u && 0 <= c2 < nb_colors ==> #[trigger] weights_neigh_colors@[y]@[c2]
                            == nbw_of(g.nbrs()[y], col, ws, y as usize, c2 as usize),
                    forall|y: int, c2: int|
                        u < y < n && 0 <= c2 < nb_colors ==> #[trigger] weights_neigh_colors@[y]@[c2] == 0,
                    forall|c2: int|
                        0 <= c2 < nb_colors ==> #[trigger] weights_neigh_colors@[u as int]@[c2] == seq_sum(
                            nb.take(t as int),
                            nbw_term(col, ws, u, c2 as usize),
                        ),
                decreases nb.len() - t,
            {
                let v = nbu[t];
                let cv = colors[v];
                proof {
                    assert(v < n && v != u);
                    assert(wt(ws, u, v) == 1);
                    assert forall|c2: int| 0 <= c2 < nb_colors implies #[trigger] seq_sum(
                        nb.take(t + 1),
                        nbw_term(col, ws, u, c2 as usize),
                    ) == seq_sum(nb.take(t as int), nbw_term(col, ws, u, c2 as usize)) + if c2 == cv {
                        1int
                    } else {
                        0int
                    } by {
                        lemma_seq_sum_take(nb, nbw_term(col, ws, u, c2 as usize), t as int);
                    }
                    assert forall|i2: int| 0 <= i2 < nb.take(t as int).len() implies 0 <= #[trigger] nbw_term(
                        col,
                        ws,
                        u,
                        cv,
                    )(nb.take(t as int)[i2]) <= 1 by {
                        assert(nb.take(t as int)[i2] == nb[i2]);
                        assert(nb[i2] < n && nb[i2] != u);
                    }
                    lemma_seq_sum_bounds(nb.take(t as int), nbw_term(col, ws, u, cv), 1);
                }
                weights_neigh_colors[u][cv] += 1;
                t += 1;
            }
            proof {
                assert(nb.take(nb.len() as int) =~= nb);
            }
            u += 1;
        }
        let ghost wnc = weights_neigh_colors@;
        let vertex_nb_conflicts: Vec<u64> = vec![0; n];
        let current_sol = colors_to_partition(&colors, nb_colors);
        let best_so_far_colors = count_nonempty(&current_sol);
        let r = ConflictWeightingLocalSearch {
            n,
            weights,
            current_sol,
            colors,
            colors_bitsets,
            colors_vertex_number,
            weights_neigh_colors,
            conflicting_vertices: SparseSet::new(n),
            vertex_nb_conflicts,
            nb_conflicting_edges: 0,
            total_weight: 0,
            tabu: TabuColTenure::new(10, 3, 5, n, nb_colors),
            aspiration_criterion: u64::MAX,
            nb_iter: 0,
            nb_colors,
            best_so_far_colors,
        };
        proof {
            lemma_partition_proper(g, classes(r.current_sol@), col, nb_colors as nat);
            lemma_nb_nonempty_sum(classes(r.current_sol@));
            lemma_partition_used(classes(r.current_sol@), col, nb_colors as nat);
            crate::sums::lemma_range_sum_ext(
                nb_colors as nat,
                nonempty_term(classes(r.current_sol@)),
                r.used_term(),
            );
            assert forall|y: int| 0 <= y < n implies #[trigger] r.vertex_nb_conflicts@[y] == count_in(
                g.nbrs()[y],
                col,
                col[y],
            ) by {
                let nby = g.nbrs()[y];
                assert forall|i2: int| 0 <= i2 < nby.len() implies 0 <= #[trigger] same_term(col, col[y])(
                    nby[i2],
                ) <= 0 by {
                    assert(col[nby[i2] as int] != col[y]);
                }
                lemma_seq_sum_bounds(nby, same_term(col, col[y]), 0);
            }
            assert forall|y: nat| y < n implies 0 <= #[trigger] r.conflict_fn()(y) <= 0 by {}
            lemma_range_sum_bounds(n as nat, r.conflict_fn(), 0);
            assert forall|y: nat| y < n implies 0 <= #[trigger] r.penalty()(y) <= 0 by {
                let nby = g.nbrs()[y as int];
                let f = nbw_term(col, ws, y as usize, col[y as int]);
                assert forall|i2: int| 0 <= i2 < nby.len() implies 0 <= #[trigger] f(nby[i2]) <= 0 by {
                    assert(col[nby[i2] as int] != col[y as int]);
                }
                lemma_seq_sum_bounds(nby, f, 0);
                assert(wnc[y as int]@[col[y as int] as int] == nbw_of(nby, col, ws, y as usize, col[y as int]));
            }
            lemma_range_sum_bounds(n as nat, r.penalty(), 0);
            assert forall|y: int, z: int| 0 <= z < y < n implies #[trigger] r.weights@[y]@[z] >= 1 by {
                assert(ws[y]@[z] == 1);
            }
        }
        r
    }
}

/// pushing an element that is not there keeps a sequence free of duplicates
pub proof fn lemma_push_no_dup(s: Seq<usize>, e: usize)
    requires
        s.no_duplicates(),
        !s.contains(e),
    ensures
        s.push(e).no_duplicates(),
{
    let t = s.push(e);
    assert forall|i: int, j: int| 0 <= i < t.len() && 0 <= j < t.len() && i != j implies t[i] != t[j] by {
        if i == s.len() {
            assert(s[j] == t[j]);
        } else if j == s.len() {
            assert(s[i] == t[i]);
        }
    }
}

impl ConflictWeightingLocalSearch {
    /// the move giving color c to vertex u may be taken: u is in conflict, c is
    /// another color in use, and the move is not tabu unless the aspiration
    /// criterion lifts the tabu
    pub open spec fn candidate(&self, g: &DimacsInstance, u: int, c: int) -> bool {
        &&& 0 <= u < self.n
        &&& self.vertex_nb_conflicts@[u] > 0
        &&& 0 <= c < self.nb_colors
        &&& c != self.colors@[u]
        &&& self.colors_vertex_number@[c] > 0
        &&& (!self.tabu.is_tabu(u, c) || self.post_conflicts(g, u, c) < self.aspiration_criterion)
    }

    /// number of conflicting edges after giving color c to vertex u
    pub open spec fn post_conflicts(&self, g: &DimacsInstance, u: int, c: int) -> int {
        self.nb_conflicting_edges - self.vertex_nb_conflicts@[u] + count_in(
            g.nbrs()[u],
            self.colors@,
            c as usize,
        )
    }

    /// total weight after giving color c to vertex u
    pub open spec fn move_penalty(&self, u: int, c: int) -> int {
        self.total_weight + self.weights_neigh_colors@[u]@[c] - self.weights_neigh_colors@[u]@[
            self.colors@[u] as int]
    }

    /// the node describes the move giving its next color to its vertex, taken now
    pub open spec fn describes(&self, g: &DimacsInstance, nd: Node) -> bool {
        &&& self.candidate(g, nd.vertex as int, nd.next_color as int)
        &&& nd.previous_color == self.colors@[nd.vertex as int]
        &&& nd.total_penalties == self.move_penalty(nd.vertex as int, nd.next_color as int)
        &&& nd.nb_conflicts == self.nb_conflicting_edges
    }

    /// the same search state, but for the conflict set
    pub open spec fn same_but_conflict_set(&self, other: &Self) -> bool {
        &&& self.same_frame(other)
        &&& self.weights == other.weights
        &&& self.colors == other.colors
        &&& self.colors_bitsets == other.colors_bitsets
        &&& self.colors_vertex_number == other.colors_vertex_number
        &&& self.weights_neigh_colors == other.weights_neigh_colors
        &&& self.vertex_nb_conflicts == other.vertex_nb_conflicts
        &&& self.nb_conflicting_edges == other.nb_conflicting_edges
        &&& self.total_weight == other.total_weight
    }

    /// number of neighbors of u colored c
    pub fn count_neighbors_colored(&self, g: &DimacsInstance, u: VertexId, c: usize) -> (r: u64)
        requires
            self.wf(g),
            u < self.n,
        ensures
            r == count_in(g.nbrs()[u as int], self.colors@, c),
    {
        let nb = g.neighbors(u);
        let mut cnt: u64 = 0;
        let mut i: usize = 0;
        while i < nb.len()
            invariant
                self.wf(g),
                u < self.n,
                nb@ == g.nbrs()[u as int],
                i <= nb@.len(),
                cnt == count_in(nb@.take(i as int), self.colors@, c),
                cnt <= i,
            decreases nb@.len() - i,
        {
            proof {
                lemma_seq_sum_take(nb@, same_term(self.colors@, c), i as int);
                assert(nb@[i as int] < self.n);
            }
            if self.colors[nb[i]] == c {
                cnt += 1;
            }
            i += 1;
        }
        proof {
            assert(nb@.take(nb@.len() as int) =~= nb@);
        }
        cnt
    }

    /// finds the allowed move of least total weight, the first one met among
    /// equals; drops from the conflict set the vertices without conflict
    pub fn find_best_move(&mut self, g: &DimacsInstance) -> (r: Option<Node>)
        requires
            old(self).wf(g),
        ensures
            final(self).wf(g),
            final(self).same_but_conflict_set(old(self)),
            match r {
                Some(nd) => {
                    &&& final(self).describes(g, nd)
                    &&& forall|u: int, c: int|
                        #[trigger] final(self).candidate(g, u, c) ==> nd.total_penalties
                            <= final(self).move_penalty(u, c)
                },
                None => forall|u: int, c: int| !#[trigger] final(self).candidate(g, u, c),
            },
    {
        let ghost s0 = *self;
        let mut best: Option<Node> = None;
        let mut i: usize = 0;
        while i < self.conflicting_vertices.len()
            invariant
                self.wf(g),
                self.same_but_conflict_set(&s0),
                i <= sparse_members(self.conflicting_vertices).len(),
                match best {
                    Some(nd) => self.describes(g, nd),
                    None => true,
                },
                forall|t: int, c: int|
                    0 <= t < i && #[trigger] self.candidate(g, 
                        sparse_members(self.conflicting_vertices)[t] as int,
                        c,
                    ) ==> match best {
                        Some(nd) => nd.total_penalties <= self.move_penalty(
                            sparse_members(self.conflicting_vertices)[t] as int,
                            c,
                        ),
                        None => false,
                    },
            decreases sparse_members(self.conflicting_vertices).len() - i,
        {
            let u = self.conflicting_vertices.nth(i);
            assert(u < self.n);
            if self.vertex_nb_conflicts[u] > 0 {
                let cu = self.colors[u];
                let mut c: usize = 0;
                while c < self.nb_colors
                    invariant
                        self.wf(g),
                        self.same_but_conflict_set(&s0),
                        i < sparse_members(self.conflicting_vertices).len(),
                        u == sparse_members(self.conflicting_vertices)[i as int],
                        u < self.n,
                        self.vertex_nb_conflicts@[u as int] > 0,
                        cu == self.colors@[u as int],
                        c <= self.nb_colors,
                        match best {
                            Some(nd) => self.describes(g, nd),
                            None => true,
                        },
                        forall|t: int, c2: int|
                            0 <= t < i && #[trigger] self.candidate(g, 
                                sparse_members(self.conflicting_vertices)[t] as int,
                                c2,
                            ) ==> match best {
                                Some(nd) => nd.total_penalties <= self.move_penalty(
                                    sparse_members(self.conflicting_vertices)[t] as int,
                                    c2,
                                ),
                                None => false,
                            },
                        forall|c2: int|
                            0 <= c2 < c && #[trigger] self.candidate(g, u as int, c2) ==> match best {
                                Some(nd) => nd.total_penalties <= self.move_penalty(u as int, c2),
                                None => false,
                            },
                    decreases self.nb_colors - c,
                {
                    if c != cu && self.colors_vertex_number[c] > 0 {
                        let penalty: i128 = self.total_weight + (self.weights_neigh_colors[u][c] as i128)
                            - (self.weights_neigh_colors[u][cu] as i128);
                        let better = match best {
                            Some(nd) => penalty < nd.total_penalties,
                            None => true,
                        };
                        if better {
                            let is_tabu = self.tabu.contains(&Decision { v: u, c });
                            let aspired = if is_tabu {
                                let cnt = self.count_neighbors_colored(g, u, c);
                                (self.nb_conflicting_edges as i128) - (self.vertex_nb_conflicts[u] as i128)
                                    + (cnt as i128) < self.aspiration_criterion as i128
                            } else {
                                false
                            };
                            if !is_tabu || aspired {
                                best = Some(
                                    Node {
                                        vertex: u,
                                        previous_color: cu,
                                        next_color: c,
                                        total_penalties: penalty,
                                        nb_conflicts: self.nb_conflicting_edges,
                                    },
                                );
                            }
                        }
                    }
                    c += 1;
                }
                i += 1;
            } else {
                let ghost m0 = sparse_members(self.conflicting_vertices);
                let ghost before = *self;
                self.conflicting_vertices.remove(u);
                proof {
                    let m1 = sparse_members(self.conflicting_vertices);
                    let p = choose|p: int|
                        0 <= p < m0.len() && m0[p] == u && m1 == m0.update(p, m0.last()).drop_last();
                    assert(p == i) by {
                        assert(m0.no_duplicates());
                    }
                    assert forall|t: int| 0 <= t < i implies #[trigger] m1[t] == m0[t] by {}
                    assert forall|t: int| 0 <= t < m1.len() implies #[trigger] m1[t] < self.n by {
                        if t == i {
                            assert(m1[t] == m0[m0.len() - 1]);
                        } else {
                            assert(m1[t] == m0[t]);
                        }
                    }
                    assert(m1.no_duplicates()) by {
                        assert forall|a: int, b: int|
                            0 <= a < m1.len() && 0 <= b < m1.len() && a != b implies m1[a] != m1[b] by {
                            let la = if a == i { m0.len() - 1 } else { a };
                            let lb = if b == i { m0.len() - 1 } else { b };
                            assert(m1[a] == m0[la] && m1[b] == m0[lb]);
                        }
                    }
                    assert forall|x: int|
                        0 <= x < self.n && #[trigger] self.vertex_nb_conflicts@[x] > 0 implies m1.contains(
                            x as usize,
                        ) by {
                        assert(m0.contains(x as usize));
                        let q = choose|q: int| 0 <= q < m0.len() && m0[q] == x as usize;
                        assert(q != i);
                        if q == m0.len() - 1 {
                            assert(m1[i as int] == x as usize);
                        } else {
                            assert(m1[q] == x as usize);
                        }
                    }
                    assert forall|t: int, c: int|
                        0 <= t < i && #[trigger] self.candidate(g, m1[t] as int, c) implies match best {
                            Some(nd) => nd.total_penalties <= self.move_penalty(m1[t] as int, c),
                            None => false,
                        } by {
                        assert(m1[t] == m0[t]);
                        assert(before.candidate(g, m0[t] as int, c));
                    }
                }
            }
        }
        proof {
            let m = sparse_members(self.conflicting_vertices);
            assert forall|u: int, c: int| #[trigger] self.candidate(g, u, c) implies match best {
                Some(nd) => nd.total_penalties <= self.move_penalty(u, c),
                None => false,
            } by {
                assert(m.contains(u as usize));
                let t = choose|t: int| 0 <= t < m.len() && m[t] == u as usize;
                assert(self.candidate(g, m[t] as int, c));
            }
        }
        best
    }

    /// applies a move: marks it tabu, counts the iteration and recolors its vertex
    pub fn commit(&mut self, g: &DimacsInstance, node: &Node)
        requires
            old(self).wf(g),
            node.vertex < old(self).n,
            node.next_color < old(self).nb_colors,
            node.previous_color == old(self).colors@[node.vertex as int],
            node.next_color != node.previous_color,
            old(self).nb_iter < i64::MAX,
        ensures
            final(self).wf(g),
            final(self).colors@ == old(self).colors@.update(node.vertex as int, node.next_color),
            final(self).nb_iter == old(self).nb_iter + 1,
            final(self).n == old(self).n,
            final(self).nb_colors == old(self).nb_colors,
            final(self).best_so_far_colors == old(self).best_so_far_colors,
            forall|a: usize, b: usize|
                a < old(self).n && b < old(self).n && a != b ==> #[trigger] wt(final(self).weights@, a, b)
                    == wt(old(self).weights@, a, b) + if a == node.vertex {
                    growth(g, old(self).colors@, old(self).weights@, node.vertex, node.next_color, b)
                } else if b == node.vertex {
                    growth(g, old(self).colors@, old(self).weights@, node.vertex, node.next_color, a)
                } else {
                    0
                },
            final(self).tabu.decisions@[node.vertex as int]@[node.previous_color as int]
                == old(self).nb_iter,
            forall|x: int, y: int|
                0 <= y < x < old(self).n ==> #[trigger] final(self).weights@[x]@[y] >= old(
                    self,
                ).weights@[x]@[y],
    {
        self.tabu.insert(&Decision { v: node.vertex, c: node.previous_color }, node.nb_conflicts);
        self.tabu.increment_iter();
        self.nb_iter += 1;
        self.change_vertex_color(g, node.vertex, node.next_color);
    }
}

/// no vertex has color c
proof fn lemma_count_color_zero(col: Seq<usize>, c: usize)
    requires
        forall|x: int| 0 <= x < col.len() ==> #[trigger] col[x] != c,
    ensures
        count_color(col, c) == 0,
    decreases col.len(),
{
    if col.len() > 0 {
        let t = col.drop_last();
        assert forall|x: int| 0 <= x < t.len() implies #[trigger] t[x] != c by {
            assert(t[x] == col[x]);
        }
        lemma_count_color_zero(t, c);
    }
}

impl ConflictWeightingLocalSearch {
    /// contribution of vertex x to the cost of merging c1 into c2
    pub open spec fn merge_term(&self, c1: usize, c2: usize) -> spec_fn(nat) -> int {
        |x: nat|
            if self.colors@[x as int] == c1 {
                self.weights_neigh_colors@[x as int]@[c2 as int] as int
            } else {
                0
            }
    }

    /// weight that would become conflicting by moving every vertex of c1 to c2
    pub open spec fn merge_cost(&self, c1: usize, c2: usize) -> int {
        range_sum(self.n as nat, self.merge_term(c1, c2))
    }

    /// one for each non-empty color class
    pub open spec fn used_term(&self) -> spec_fn(nat) -> int {
        |c: nat|
            if self.colors_vertex_number@[c as int] > 0 {
                1int
            } else {
                0int
            }
    }

    /// number of non-empty color classes
    pub open spec fn nb_used(&self) -> int {
        range_sum(self.nb_colors as nat, self.used_term())
    }

    /// two distinct classes are non-empty
    pub open spec fn can_merge(&self) -> bool {
        exists|c1: int, c2: int|
            0 <= c1 < self.nb_colors && 0 <= c2 < self.nb_colors && c1 != c2
                && #[trigger] self.colors_vertex_number@[c1] > 0
                && #[trigger] self.colors_vertex_number@[c2] > 0
    }

    /// a and b are distinct non-empty classes, and merging a into b costs
    /// least among such pairs
    pub open spec fn least_pair(&self, a: usize, b: usize) -> bool {
        &&& a < self.nb_colors
        &&& b < self.nb_colors
        &&& a != b
        &&& self.colors_vertex_number@[a as int] > 0
        &&& self.colors_vertex_number@[b as int] > 0
        &&& forall|c1: int, c2: int|
            0 <= c1 < self.nb_colors && 0 <= c2 < self.nb_colors && c1 != c2
                && #[trigger] self.colors_vertex_number@[c1] > 0
                && #[trigger] self.colors_vertex_number@[c2] > 0 ==> self.merge_cost(a, b)
                <= self.merge_cost(c1 as usize, c2 as usize)
    }

    /// the matrix of merge costs
    pub fn merge_costs(&self, g: &DimacsInstance) -> (r: Vec<Vec<u128>>)
        requires
            self.wf(g),
        ensures
            r@.len() == self.nb_colors,
            forall|c1: int| 0 <= c1 < self.nb_colors ==> #[trigger] r@[c1]@.len() == self.nb_colors,
            forall|c1: int, c2: int|
                0 <= c1 < self.nb_colors && 0 <= c2 < self.nb_colors ==> #[trigger] r@[c1]@[c2]
                    == self.merge_cost(c1 as usize, c2 as usize),
    {
        let k = self.nb_colors;
        let n = self.n;
        let mut costs: Vec<Vec<u128>> = Vec::new();
        let mut c: usize = 0;
        while c < k
            invariant
                c <= k,
                costs@.len() == c,
                forall|c1: int| 0 <= c1 < c ==> #[trigger] costs@[c1]@.len() == k,
                forall|c1: int, c2: int| 0 <= c1 < c && 0 <= c2 < k ==> #[trigger] costs@[c1]@[c2] == 0,
            decreases k - c,
        {
            costs.push(vec![0; k]);
            c += 1;
        }
        let mut x: usize = 0;
        while x < n
            invariant
                self.wf(g),
                k == self.nb_colors,
                n == self.n,
                x <= n,
                costs@.len() == k,
                forall|c1: int| 0 <= c1 < k ==> #[trigger] costs@[c1]@.len() == k,
                forall|c1: int, c2: int|
                    0 <= c1 < k && 0 <= c2 < k ==> #[trigger] costs@[c1]@[c2] == range_sum(
                        x as nat,
                        self.merge_term(c1 as usize, c2 as usize),
                    ),
                forall|c1: int, c2: int| 0 <= c1 < k && 0 <= c2 < k ==> #[trigger] costs@[c1]@[c2] <= x
                    * (u64::MAX as int),
            decreases n - x,
        {
            let cx = self.colors[x];
            let mut c2: usize = 0;
            while c2 < k
                invariant
                    self.wf(g),
                    k == self.nb_colors,
                    n == self.n,
                    x < n,
                    cx == self.colors@[x as int],
                    c2 <= k,
                    costs@.len() == k,
                    forall|c1: int| 0 <= c1 < k ==> #[trigger] costs@[c1]@.len() == k,
                    forall|c1: int, c3: int|
                        0 <= c1 < k && 0 <= c3 < k && (c1 != cx || c3 >= c2) ==> #[trigger] costs@[c1]@[c3]
                            == range_sum(x as nat, self.merge_term(c1 as usize, c3 as usize)),
                    forall|c3: int|
                        0 <= c3 < c2 ==> #[trigger] costs@[cx as int]@[c3] == range_sum(
                            (x + 1) as nat,
                            self.merge_term(cx, c3 as usize),
                        ),
                    forall|c1: int, c3: int|
                        0 <= c1 < k && 0 <= c3 < k && (c1 != cx || c3 >= c2) ==> #[trigger] costs@[c1]@[c3]
                            <= x * (u64::MAX as int),
                    forall|c3: int|
                        0 <= c3 < c2 ==> #[trigger] costs@[cx as int]@[c3] <= (x + 1) * (u64::MAX as int),
                decreases k - c2,
            {
                proof {
                    assert((x + 1) * (u64::MAX as int) == x * (u64::MAX as int) + u64::MAX) by (
                    nonlinear_arith);
                    assert((x + 1) * (u64::MAX as int) <= u128::MAX) by (nonlinear_arith)
                        requires
                            x < n,
                            n <= u32::MAX,
                    ;
                }
                let add = self.weights_neigh_colors[x][c2] as u128;
                costs[cx][c2] = costs[cx][c2] + add;
                c2 += 1;
            }
            proof {
                assert forall|c1: int, c3: int|
                    0 <= c1 < k && 0 <= c3 < k implies #[trigger] costs@[c1]@[c3] == range_sum(
                        (x + 1) as nat,
                        self.merge_term(c1 as usize, c3 as usize),
                    ) && costs@[c1]@[c3] <= (x + 1) * (u64::MAX as int) by {
                    assert((x + 1) * (u64::MAX as int) == x * (u64::MAX as int) + u64::MAX) by (
                    nonlinear_arith);
                }
            }
            x += 1;
        }
        costs
    }

    /// the pair of distinct non-empty classes of least merge cost, the first
    /// met in the order of (c1, c2); None when no two classes are non-empty
    pub fn best_merge(&self, g: &DimacsInstance, costs: &Vec<Vec<u128>>) -> (r: Option<(usize, usize)>)
        requires
            self.wf(g),
            costs@.len() == self.nb_colors,
            forall|c1: int| 0 <= c1 < self.nb_colors ==> #[trigger] costs@[c1]@.len() == self.nb_colors,
            forall|c1: int, c2: int|
                0 <= c1 < self.nb_colors && 0 <= c2 < self.nb_colors ==> #[trigger] costs@[c1]@[c2]
                    == self.merge_cost(c1 as usize, c2 as usize),
        ensures
            match r {
                Some((a, b)) => {
                    &&& a < self.nb_colors
                    &&& b < self.nb_colors
                    &&& a != b
                    &&& self.colors_vertex_number@[a as int] > 0
                    &&& self.colors_vertex_number@[b as int] > 0
                    &&& forall|c1: int, c2: int|
                        0 <= c1 < self.nb_colors && 0 <= c2 < self.nb_colors && c1 != c2
                            && #[trigger] self.colors_vertex_number@[c1] > 0
                            && #[trigger] self.colors_vertex_number@[c2] > 0 ==> self.merge_cost(a, b)
                            <= self.merge_cost(c1 as usize, c2 as usize)
                },
                None => !self.can_merge(),
            },
    {
        let k = self.nb_colors;
        let mut best: Option<(usize, usize)> = None;
        let mut c1: usize = 0;
        while c1 < k
            invariant
                k == self.nb_colors,
                c1 <= k,
                costs@.len() == k,
                forall|c: int| 0 <= c < k ==> #[trigger] costs@[c]@.len() == k,
                self.colors_vertex_number@.len() == k,
                match best {
                    Some((a, b)) => a < k && b < k && a != b && self.colors_vertex_number@[a as int] > 0
                        && self.colors_vertex_number@[b as int] > 0,
                    None => true,
                },
                forall|d1: int, d2: int|
                    0 <= d1 < c1 && 0 <= d2 < k && d1 != d2 && #[trigger] self.colors_vertex_number@[d1] > 0
                        && #[trigger] self.colors_vertex_number@[d2] > 0 ==> match best {
                        Some((a, b)) => costs@[a as int]@[b as int] <= costs@[d1]@[d2],
                        None => false,
                    },
            decreases k - c1,
        {
            let mut c2: usize = 0;
            while c2 < k
                invariant
                    k == self.nb_colors,
                    c1 < k,
                    c2 <= k,
                    costs@.len() == k,
                    forall|c: int| 0 <= c < k ==> #[trigger] costs@[c]@.len() == k,
                    self.colors_vertex_number@.len() == k,
                    match best {
                        Some((a, b)) => a < k && b < k && a != b && self.colors_vertex_number@[a as int] > 0
                            && self.colors_vertex_number@[b as int] > 0,
                        None => true,
                    },
                    forall|d1: int, d2: int|
                        0 <= d1 < k && 0 <= d2 < k && (d1 < c1 || (d1 == c1 && d2 < c2)) && d1 != d2
                            && #[trigger] self.colors_vertex_number@[d1] > 0
                            && #[trigger] self.colors_vertex_number@[d2] > 0 ==> match best {
                            Some((a, b)) => costs@[a as int]@[b as int] <= costs@[d1]@[d2],
                            None => false,
                        },
                decreases k - c2,
            {
                if c1 != c2 && self.colors_vertex_number[c1] > 0 && self.colors_vertex_number[c2] > 0 {
                    let better = match best {
                        Some((a, b)) => costs[c1][c2] < costs[a][b],
                        None => true,
                    };
                    if better {
                        best = Some((c1, c2));
                    }
                }
                c2 += 1;
            }
            c1 += 1;
        }
        best
    }
}

/// a color that some vertex has is counted
proof fn lemma_count_color_pos(col: Seq<usize>, x: int)
    requires
        0 <= x < col.len(),
    ensures
        count_color(col, col[x]) >= 1,
    decreases col.len(),
{
    if x < col.len() - 1 {
        assert(col.drop_last()[x] == col[x]);
        lemma_count_color_pos(col.drop_last(), x);
    }
}

/// two colorings that agree on which vertices have color c count them alike
proof fn lemma_count_color_same(col: Seq<usize>, col2: Seq<usize>, c: usize)
    requires
        col.len() == col2.len(),
        forall|x: int| 0 <= x < col.len() ==> (#[trigger] col[x] == c) == (col2[x] == c),
    ensures
        count_color(col, c) == count_color(col2, c),
    decreases col.len(),
{
    if col.len() > 0 {
        let t = col.drop_last();
        let t2 = col2.drop_last();
        assert forall|x: int| 0 <= x < t.len() implies (#[trigger] t[x] == c) == (t2[x] == c) by {
            assert(t[x] == col[x] && t2[x] == col2[x]);
        }
        lemma_count_color_same(t, t2, c);
        assert((col[col.len() - 1] == c) == (col2[col.len() - 1] == c));
    }
}

impl ConflictWeightingLocalSearch {
    /// moves every vertex of class a to class b
    fn move_class(&mut self, g: &DimacsInstance, a: usize, b: usize)
        requires
            old(self).wf(g),
            a < old(self).nb_colors,
            b < old(self).nb_colors,
            a != b,
            old(self).colors_vertex_number@[b as int] > 0,
            old(self).colors_vertex_number@[a as int] > 0,
        ensures
            final(self).wf(g),
            forall|x: int|
                0 <= x < old(self).n ==> #[trigger] final(self).colors@[x] == if old(self).colors@[x]
                    == a {
                    b
                } else {
                    old(self).colors@[x]
                },
            final(self).nb_used() == old(self).nb_used() - 1,
            final(self).n == old(self).n,
            final(self).nb_colors == old(self).nb_colors,
            final(self).tabu == old(self).tabu,
            final(self).nb_iter == old(self).nb_iter,
            final(self).best_so_far_colors == old(self).best_so_far_colors,
            forall|x: int, y: int|
                0 <= y < x < old(self).n ==> #[trigger] final(self).weights@[x]@[y] >= old(
                    self,
                ).weights@[x]@[y],
    {
        let ghost s0 = *self;
        let ghost col0 = self.colors@;
        let members = self.colors_bitsets[a].elements();
        let ghost ms = members@;
        assert(ms.to_set() == class_of(col0, self.n as nat, a));
        let mut t: usize = 0;
        while t < members.len()
            invariant
                s0 == *old(self),
                self.wf(g),
                self.n == s0.n,
                self.nb_colors == s0.nb_colors,
                self.tabu == s0.tabu,
                self.best_so_far_colors == s0.best_so_far_colors,
                self.nb_iter == s0.nb_iter,
                a < self.nb_colors,
                b < self.nb_colors,
                a != b,
                ms == members@,
                ms.no_duplicates(),
                ms.to_set() == class_of(col0, s0.n as nat, a),
                t <= ms.len(),
                forall|x: int|
                    0 <= x < s0.n ==> #[trigger] self.colors@[x] == if ms.take(t as int).contains(x as usize) {
                        b
                    } else {
                        col0[x]
                    },
                forall|x: int, y: int|
                    0 <= y < x < s0.n ==> #[trigger] self.weights@[x]@[y] >= s0.weights@[x]@[y],
            decreases ms.len() - t,
        {
            let v = members[t];
            proof {
                assert(ms.to_set().contains(v));
                assert(v < self.n && col0[v as int] == a);
                assert(!ms.take(t as int).contains(v)) by {
                    if ms.take(t as int).contains(v) {
                        let q = choose|q: int| 0 <= q < t && ms.take(t as int)[q] == v;
                        assert(ms[q] == ms[t as int]);
                    }
                }
            }
            let ghost before = self.colors@;
            self.change_vertex_color(g, v, b);
            proof {
                assert forall|x: int|
                    0 <= x < s0.n implies #[trigger] self.colors@[x] == if ms.take(t + 1).contains(x as usize) {
                        b
                    } else {
                        col0[x]
                    } by {
                    assert(ms.take(t + 1) == ms.take(t as int).push(v));
                    vstd::seq_lib::lemma_seq_contains_after_push(ms.take(t as int), v, x as usize);
                    assert(self.colors@[x] == before.update(v as int, b)[x]);
                }
            }
            t += 1;
        }
        proof {
            let col1 = self.colors@;
            let n = s0.n as int;
            assert(ms.take(ms.len() as int) =~= ms);
            assert forall|x: int| 0 <= x < n implies #[trigger] col1[x] == if col0[x] == a {
                b
            } else {
                col0[x]
            } by {
                assert(ms.contains(x as usize) == ms.to_set().contains(x as usize));
            }
            // class sizes
            assert forall|x: int| 0 <= x < col1.len() implies #[trigger] col1[x] != a by {}
            lemma_count_color_zero(col1, a);
            assert(self.colors_vertex_number@[a as int] == 0);
            assert(s0.colors_vertex_number@[b as int] == count_color(col0, b));
            if !(exists|x: int| 0 <= x < n && #[trigger] col0[x] == b) {
                lemma_count_color_zero(col0, b);
            }
            let xb = choose|x: int| 0 <= x < n && #[trigger] col0[x] == b;
            assert(col1[xb] == b);
            lemma_count_color_pos(col1, xb);
            assert forall|c: int| 0 <= c < s0.nb_colors && c != a && c != b implies #[trigger] self.colors_vertex_number@[c]
                == s0.colors_vertex_number@[c] by {
                assert forall|x: int| 0 <= x < col0.len() implies (#[trigger] col0[x] == c as usize) == (
                col1[x] == c as usize) by {}
                lemma_count_color_same(col0, col1, c as usize);
            }
            lemma_range_sum_point(s0.nb_colors as nat, s0.used_term(), self.used_term(), a as nat);
        }
    }
}

impl ConflictWeightingLocalSearch {
    /// merges color classes while the state stays feasible: each round moves
    /// every vertex of the cheapest pair's first class into its second class and
    /// records the coloring when no conflict appeared; stops on the first
    /// conflict, or when fewer than two classes are in use
    pub fn merge_colors(&mut self, g: &DimacsInstance)
        requires
            old(self).wf(g),
            old(self).total_weight == 0,
            old(self).best_so_far_colors == old(self).nb_used(),
        ensures
            final(self).wf(g),
            final(self).total_weight > 0 || !final(self).can_merge(),
            final(self).nb_used() <= old(self).nb_used(),
            old(self).can_merge() ==> final(self).nb_used() < old(self).nb_used(),
            final(self).best_so_far_colors <= old(self).best_so_far_colors,
            final(self).total_weight > 0 ==> final(self).nb_used() == final(self).best_so_far_colors - 1,
            final(self).total_weight == 0 ==> final(self).nb_used() == final(self).best_so_far_colors,
            old(self).can_merge() ==> exists|a: usize, b: usize|
                #[trigger] old(self).least_pair(a, b) && ((final(self).total_weight > 0
                    && final(self).colors@ == merged(old(self).colors@, a, b))
                    || final(self).best_so_far_colors < old(self).best_so_far_colors),
            final(self).n == old(self).n,
            final(self).nb_colors == old(self).nb_colors,
            final(self).tabu == old(self).tabu,
            final(self).nb_iter == old(self).nb_iter,
            forall|x: int, y: int|
                0 <= y < x < old(self).n ==> #[trigger] final(self).weights@[x]@[y] >= old(
                    self,
                ).weights@[x]@[y],
    {
        let ghost s0 = *self;
        let ghost mut first_done = false;
        let ghost mut fa: usize = 0;
        let ghost mut fb: usize = 0;
        loop
            invariant
                s0 == *old(self),
                self.wf(g),
                self.n == s0.n,
                self.nb_colors == s0.nb_colors,
                self.tabu == s0.tabu,
                self.nb_iter == s0.nb_iter,
                self.total_weight == 0,
                self.best_so_far_colors == self.nb_used(),
                self.best_so_far_colors <= s0.best_so_far_colors,
                s0.best_so_far_colors == s0.nb_used(),
                !first_done ==> *self == s0,
                first_done ==> s0.least_pair(fa, fb) && self.best_so_far_colors < s0.best_so_far_colors,
                self.nb_used() <= s0.nb_used(),
                forall|x: int, y: int|
                    0 <= y < x < s0.n ==> #[trigger] self.weights@[x]@[y] >= s0.weights@[x]@[y],
            decreases self.nb_used(),
        {
            proof {
                assert forall|c: nat| c < self.nb_colors implies 0 <= #[trigger] self.used_term()(c) by {}
                crate::sums::lemma_range_sum_nonneg(self.nb_colors as nat, self.used_term());
            }
            let costs = self.merge_costs(g);
            match self.best_merge(g, &costs) {
                None => {
                    return ;
                },
                Some((a, b)) => {
                    proof {
                        if !first_done {
                            assert(s0.least_pair(a, b));
                        }
                    }
                    self.move_class(g, a, b);
                    if self.total_weight != 0 {
                        proof {
                            if !first_done {
                                assert(self.colors@ =~= merged(s0.colors@, a, b));
                                assert(s0.least_pair(a, b));
                            } else {
                                assert(s0.least_pair(fa, fb));
                            }
                        }
                        return ;
                    }
                    self.update_current_solution(g);
                    proof {
                        if !first_done {
                            fa = a;
                            fb = b;
                        }
                        first_done = true;
                        assert forall|c: nat| c < self.nb_colors implies 0 <= #[trigger] self.used_term()(
                            c,
                        ) by {}
                        crate::sums::lemma_range_sum_nonneg(self.nb_colors as nat, self.used_term());
                    }
                },
            }
        }
    }

    /// one iteration of the search: when the state is feasible, records it as
    /// the best coloring, merges classes while it stays feasible and starts a
    /// new repair phase; otherwise takes the best allowed move; returns true iff a move was
    /// taken (when every move is tabu, only the iteration counter advances)
    pub fn step(&mut self, g: &DimacsInstance) -> (moved: bool)
        requires
            old(self).wf(g),
        ensures
            final(self).wf(g),
            final(self).n == old(self).n,
            final(self).nb_colors == old(self).nb_colors,
            final(self).nb_iter >= old(self).nb_iter,
            moved ==> final(self).nb_iter == old(self).nb_iter + 1,
            old(self).nb_used() <= old(self).best_so_far_colors ==> final(self).nb_used()
                <= final(self).best_so_far_colors && final(self).best_so_far_colors
                <= old(self).best_so_far_colors,
            old(self).total_weight == 0 ==> {
                &&& !moved
                &&& final(self).total_weight > 0 || !final(self).can_merge()
                &&& old(self).can_merge() ==> final(self).nb_used() < old(self).nb_used()
                &&& final(self).aspiration_criterion == u64::MAX
                &&& final(self).best_so_far_colors <= old(self).nb_used()
                &&& final(self).total_weight > 0 ==> final(self).nb_used() == final(self).best_so_far_colors - 1
                &&& final(self).total_weight == 0 ==> final(self).nb_used() == final(self).best_so_far_colors
                &&& old(self).can_merge() ==> exists|a: usize, b: usize|
                    #[trigger] old(self).least_pair(a, b) && ((final(self).total_weight > 0
                        && final(self).colors@ == merged(old(self).colors@, a, b))
                        || final(self).best_so_far_colors < old(self).nb_used())
            },
            old(self).total_weight != 0 && old(self).nb_iter < i64::MAX ==> {
                &&& moved == exists|u: int, c: int| #[trigger] old(self).candidate(g, u, c)
                &&& moved ==> exists|nd: Node|
                    {
                        &&& #[trigger] old(self).describes(g, nd)
                        &&& (forall|u: int, c: int|
                            #[trigger] old(self).candidate(g, u, c) ==> nd.total_penalties
                                <= old(self).move_penalty(u, c))
                        &&& final(self).colors@ == old(self).colors@.update(
                            nd.vertex as int,
                            nd.next_color,
                        )
                    }
            },
            forall|x: int, y: int|
                0 <= y < x < old(self).n ==> #[trigger] final(self).weights@[x]@[y] >= old(
                    self,
                ).weights@[x]@[y],
    {
        if self.total_weight == 0 {
            let ghost s0 = *self;
            self.update_current_solution(g);
            let ghost s1 = *self;
            proof {
                crate::sums::lemma_range_sum_ext(self.nb_colors as nat, s0.used_term(), s1.used_term());
                assert(s1.can_merge() == s0.can_merge());
                assert forall|a: usize, b: usize| #[trigger] s1.least_pair(a, b) implies s0.least_pair(a, b) by {
                    assert forall|c1: usize, c2: usize| #[trigger] s1.merge_cost(c1, c2) == s0.merge_cost(c1, c2) by {
                        crate::sums::lemma_range_sum_ext(s0.n as nat, s1.merge_term(c1, c2), s0.merge_term(c1, c2));
                    }
                }
            }
            self.merge_colors(g);
            self.aspiration_criterion = u64::MAX;
            return false;
        }
        if self.nb_iter >= i64::MAX as u64 {
            return false;
        }
        let ghost s0 = *self;
        let found = self.find_best_move(g);
        let ghost s1 = *self;
        proof {
            assert forall|u: int, c: int| #[trigger] s0.candidate(g, u, c) == s1.candidate(g, u, c) by {}
        }
        match found {
            Some(node) => {
                proof {
                    assert(s0.describes(g, node));
                    assert forall|u: int, c: int| #[trigger] s0.candidate(g, u, c) implies node.total_penalties
                        <= s0.move_penalty(u, c) by {
                        assert(s1.candidate(g, u, c));
                    }
                    assert(s0.candidate(g, node.vertex as int, node.next_color as int));
                }
                self.commit(g, &node);
                proof {
                    let v = node.vertex;
                    let p = node.previous_color;
                    let q = node.next_color;
                    let k = self.nb_colors as nat;
                    let f0 = s0.used_term();
                    let f2 = self.used_term();
                    let f1 = |c: nat| if c == p as nat { f2(c) } else { f0(c) };
                    assert forall|c: nat| c < k implies #[trigger] f1(c) == f2(c) by {
                        lemma_count_color_update(s0.colors@, v as int, q, c as usize);
                    }
                    lemma_range_sum_point(k, f0, f1, p as nat);
                    crate::sums::lemma_range_sum_ext(k, f1, f2);
                    lemma_count_color_update(s0.colors@, v as int, q, p);
                }
                true
            },
            None => {
                self.tabu.increment_iter();
                self.nb_iter += 1;
                false
            },
        }
    }

    /// true iff the current coloring has no conflict
    pub fn is_goal(&self) -> (r: bool)
        ensures
            r == (self.total_weight == 0),
    {
        self.total_weight == 0
    }

    /// the best coloring found so far, without its empty classes
    pub fn get_solution(&self, g: &DimacsInstance) -> (r: Vec<Vec<VertexId>>)
        requires
            self.wf(g),
        ensures
            is_proper_coloring(*g, classes(r@)),
            within(classes(r@), self.n as nat),
            r@.len() == self.best_so_far_colors,
            r@.len() <= self.nb_colors,
            forall|t: int| 0 <= t < r@.len() ==> #[trigger] r@[t]@.len() > 0,
    {
        proof {
            lemma_nb_nonempty_le(classes(self.current_sol@));
        }
        nonempty_classes(g, &self.current_sol)
    }
}

/// nbw of x, as a function of the color
pub open spec fn nbw_by_color(
    nb: Seq<usize>,
    col: Seq<usize>,
    ws: Seq<Vec<Weight>>,
    x: usize,
) -> spec_fn(nat) -> int {
    |c: nat| nbw_of(nb, col, ws, x, c as usize)
}

/// weight of the edge from x to y
pub open spec fn edge_weight(ws: Seq<Vec<Weight>>, x: usize) -> spec_fn(usize) -> int {
    |y: usize| wt(ws, x, y)
}

proof fn lemma_nbw_sum_over_colors(
    nb: Seq<usize>,
    col: Seq<usize>,
    ws: Seq<Vec<Weight>>,
    x: usize,
    k: nat,
)
    requires
        k <= usize::MAX,
        forall|i: int| 0 <= i < nb.len() ==> 0 <= #[trigger] nb[i] < col.len() && col[nb[i] as int] < k,
    ensures
        range_sum(k, nbw_by_color(nb, col, ws, x)) == seq_sum(nb, edge_weight(ws, x)),
    decreases nb.len(),
{
    if nb.len() == 0 {
        assert forall|c: nat| c < k implies 0 <= #[trigger] nbw_by_color(nb, col, ws, x)(c) <= 0 by {}
        lemma_range_sum_bounds(k, nbw_by_color(nb, col, ws, x), 0);
    } else {
        let t = nb.drop_last();
        assert forall|i: int| 0 <= i < t.len() implies 0 <= #[trigger] t[i] < col.len() && col[t[i] as int]
            < k by {
            assert(t[i] == nb[i]);
        }
        lemma_nbw_sum_over_colors(t, col, ws, x, k);
        let y = nb.last();
        assert(col[y as int] < k);
        assert forall|c: nat| c < k && c != col[y as int] as nat implies #[trigger] nbw_by_color(
            t,
            col,
            ws,
            x,
        )(c) == nbw_by_color(nb, col, ws, x)(c) by {}
        lemma_range_sum_point(
            k,
            nbw_by_color(t, col, ws, x),
            nbw_by_color(nb, col, ws, x),
            col[y as int] as nat,
        );
    }
}

proof fn lemma_class_len(col: Seq<usize>, m: nat, c: usize)
    requires
        m <= col.len(),
        col.len() <= usize::MAX,
    ensures
        class_of(col, m, c).finite(),
        class_of(col, m, c).len() == count_color(col.take(m as int), c),
    decreases m,
{
    if m == 0 {
        assert(class_of(col, 0, c) =~= Set::<usize>::empty());
        assert(col.take(0) =~= Seq::<usize>::empty());
    } else {
        let j = (m - 1) as nat;
        lemma_class_len(col, j, c);
        assert(col.take(m as int).drop_last() =~= col.take(j as int));
        if col[j as int] == c {
            assert(class_of(col, m, c) =~= class_of(col, j, c).insert(j as usize));
            assert(!class_of(col, j, c).contains(j as usize));
        } else {
            assert(class_of(col, m, c) =~= class_of(col, j, c));
        }
    }
}

/// number of vertices of each color
pub open spec fn color_counts(col: Seq<usize>) -> spec_fn(nat) -> int {
    |c: nat| count_color(col, c as usize) as int
}

proof fn lemma_count_colors_total(col: Seq<usize>, k: nat)
    requires
        k <= usize::MAX,
        forall|x: int| 0 <= x < col.len() ==> #[trigger] col[x] < k,
    ensures
        range_sum(k, color_counts(col)) == col.len(),
    decreases col.len(),
{
    if col.len() == 0 {
        assert forall|c: nat| c < k implies 0 <= #[trigger] color_counts(col)(c)
            <= 0 by {}
        lemma_range_sum_bounds(k, color_counts(col), 0);
    } else {
        let t = col.drop_last();
        assert forall|x: int| 0 <= x < t.len() implies #[trigger] t[x] < k by {
            assert(t[x] == col[x]);
        }
        lemma_count_colors_total(t, k);
        assert forall|c: nat| c < k && c != col.last() as nat implies #[trigger] color_counts(t)(c)
            == color_counts(col)(c) by {}
        lemma_range_sum_point(
            k,
            color_counts(t),
            color_counts(col),
            col.last() as nat,
        );
    }
}

impl ConflictWeightingLocalSearch {
    /// For every vertex v, the weights of its neighbors summed over all colors
    /// add up to the weight of all the edges at v: every neighbor is colored.
    pub proof fn lemma_nbw_total(&self, g: &DimacsInstance, v: usize)
        requires
            self.wf(g),
            v < self.n,
        ensures
            range_sum(
                self.nb_colors as nat,
                |c: nat| self.weights_neigh_colors@[v as int]@[c as int] as int,
            ) == seq_sum(g.nbrs()[v as int], edge_weight(self.weights@, v)),
    {
        let nb = g.nbrs()[v as int];
        assert forall|i: int| 0 <= i < nb.len() implies 0 <= #[trigger] nb[i] < self.colors@.len()
            && self.colors@[nb[i] as int] < self.nb_colors by {}
        lemma_nbw_sum_over_colors(nb, self.colors@, self.weights@, v, self.nb_colors as nat);
        crate::sums::lemma_range_sum_ext(
            self.nb_colors as nat,
            |c: nat| self.weights_neigh_colors@[v as int]@[c as int] as int,
            nbw_by_color(nb, self.colors@, self.weights@, v),
        );
    }

    /// The conflict counts of all vertices add up to twice the number of
    /// conflicting edges, each of which counts once at each of its ends.
    pub proof fn lemma_conflicts_twice_edges(&self, g: &DimacsInstance)
        requires
            self.wf(g),
        ensures
            range_sum(
                self.n as nat,
                |x: nat| count_in(g.nbrs()[x as int], self.colors@, self.colors@[x as int]),
            ) == 2 * self.nb_conflicting_edges,
    {
        crate::sums::lemma_range_sum_ext(
            self.n as nat,
            self.conflict_fn(),
            |x: nat| count_in(g.nbrs()[x as int], self.colors@, self.colors@[x as int]),
        );
    }

    /// Each class size is the number of members of the class bitset, and the
    /// class sizes add up to the number of vertices.
    pub proof fn lemma_class_sizes(&self, g: &DimacsInstance)
        requires
            self.wf(g),
        ensures
            forall|c: int|
                0 <= c < self.nb_colors ==> bits_of(#[trigger] self.colors_bitsets@[c]).finite() && bits_of(
                    self.colors_bitsets@[c],
                ).len() == self.colors_vertex_number@[c],
            range_sum(self.nb_colors as nat, |c: nat| self.colors_vertex_number@[c as int] as int)
                == self.n,
    {
        let col = self.colors@;
        assert(col.take(self.n as int) =~= col);
        assert forall|c: int| 0 <= c < self.nb_colors implies bits_of(
            #[trigger] self.colors_bitsets@[c],
        ).finite() && bits_of(self.colors_bitsets@[c]).len() == self.colors_vertex_number@[c] by {
            lemma_class_len(col, self.n as nat, c as usize);
        }
        lemma_count_colors_total(col, self.nb_colors as nat);
        crate::sums::lemma_range_sum_ext(
            self.nb_colors as nat,
            |c: nat| self.colors_vertex_number@[c as int] as int,
            color_counts(col),
        );
    }
}

/// runs the conflict weighting local search from a proper coloring for at
/// most max_iter iterations, and returns the best coloring found: a proper
/// coloring with no empty class and at most as many classes as the seed
pub fn coloring_conflict_weighting(
    g: &DimacsInstance,
    sol: &Vec<Vec<VertexId>>,
    max_iter: u64,
) -> (r: Vec<Vec<VertexId>>)
    requires
        g.wf(),
        g.n <= u32::MAX,
        within(classes(sol@), g.n as nat),
        is_proper_coloring(*g, classes(sol@)),
    ensures
        is_proper_coloring(*g, classes(r@)),
        within(classes(r@), g.n as nat),
        r@.len() <= sol@.len(),
        r@.len() <= nb_nonempty(classes(sol@)),
        forall|t: int| 0 <= t < r@.len() ==> #[trigger] r@[t]@.len() > 0,
        max_iter >= 1 && mergeable_classes(g, classes(sol@)) ==> r@.len() < nb_nonempty(classes(sol@)),
{
    if sol.len() == 0 {
        proof {
            if g.n > 0 {
                assert(crate::color::occurs(classes(sol@), 0));
            }
        }
        return Vec::new();
    }
    let mut ls = ConflictWeightingLocalSearch::initialize(g, sol);
    let ghost s = classes(sol@);
    let ghost grows = max_iter >= 1 && mergeable_classes(g, s);
    proof {
        lemma_classes_used(s, ls.colors@, sol@.len() as nat);
        lemma_nb_nonempty_sum(s);
        crate::sums::lemma_range_sum_ext(sol@.len() as nat, nonempty_term(s), ls.used_term());
    }
    let mut it: u64 = 0;
    if max_iter >= 1 {
        let ghost l0 = ls;
        ls.step(g);
        proof {
            if grows {
                lemma_first_merge(g, s, l0, ls);
            }
        }
        it = 1;
    }
    while it < max_iter
        invariant
            ls.wf(g),
            ls.nb_colors == sol@.len(),
            ls.nb_used() <= ls.best_so_far_colors,
            ls.best_so_far_colors <= nb_nonempty(s),
            grows ==> ls.best_so_far_colors < nb_nonempty(s),
            s == classes(sol@),
        decreases max_iter - it,
    {
        ls.step(g);
        it += 1;
    }
    ls.get_solution(g)
}

/// from a feasible initial state whose seed has two non-empty classes without
/// an edge between them, the first step ends with fewer classes in the best
/// coloring than the seed has
proof fn lemma_first_merge(
    g: &DimacsInstance,
    s: Seq<Seq<VertexId>>,
    l0: ConflictWeightingLocalSearch,
    l1: ConflictWeightingLocalSearch,
)
    requires
        l0.wf(g),
        l1.wf(g),
        l0.total_weight == 0,
        s.len() == l0.nb_colors,
        within(s, g.n as nat),
        colors_match(l0.colors@, s),
        crate::color::covers(s, g.n as nat),
        l0.nb_used() == nb_nonempty(s),
        mergeable_classes(g, s),
        l0.can_merge() ==> exists|a: usize, b: usize|
            #[trigger] l0.least_pair(a, b) && ((l1.total_weight > 0 && l1.colors@ == merged(
                l0.colors@,
                a,
                b,
            )) || l1.best_so_far_colors < l0.nb_used()),
    ensures
        l1.best_so_far_colors < nb_nonempty(s),
{
    let col = l0.colors@;
    let (c1, c2) = choose|c1: int, c2: int|
        0 <= c1 < s.len() && 0 <= c2 < s.len() && c1 != c2 && #[trigger] s[c1].len() > 0 && #[trigger] s[c2].len()
            > 0 && no_edge_between(g, s[c1], s[c2]);
    lemma_classes_used(s, col, s.len() as nat);
    assert(l0.colors_vertex_number@[c1] > 0 && l0.colors_vertex_number@[c2] > 0);
    assert(l0.can_merge());
    lemma_zero_weight_iff_proper(&l0, g);
    // no vertex of class c1 has a neighbor in class c2
    assert forall|x: int, i: int|
        0 <= x < l0.n && 0 <= i < g.nbrs()[x].len() && col[x] == c1 as usize implies col[
            #[trigger] g.nbrs()[x][i] as int] != c2 as usize by {
        let y = g.nbrs()[x][i];
        if col[y as int] == c2 as usize {
            assert(y < g.n);
            assert(occurs(s, x as usize));
            assert(occurs(s, y));
            let (cx, ix) = choose|cx: int, ix: int| is_pos(s, cx, ix) && #[trigger] s[cx][ix] == x as usize;
            let (cy, iy) = choose|cy: int, iy: int| is_pos(s, cy, iy) && #[trigger] s[cy][iy] == y;
            assert(col[s[cx][ix] as int] == cx && col[s[cy][iy] as int] == cy);
            assert(cx == c1 && cy == c2);
            assert(!g.adj(s[c1][ix] as int, s[c2][iy] as int));
            assert(g.adj(x, y as int)) by {
                assert(g.nbrs()[x].contains(y));
            }
        }
    }
    l0.lemma_zero_cost(g, c1 as usize, c2 as usize);
    let (a, b) = choose|a: usize, b: usize|
        #[trigger] l0.least_pair(a, b) && ((l1.total_weight > 0 && l1.colors@ == merged(col, a, b))
            || l1.best_so_far_colors < l0.nb_used());
    if l1.total_weight > 0 && l1.colors@ == merged(col, a, b) {
        assert(l0.merge_cost(a, b) <= l0.merge_cost(c1 as usize, c2 as usize));
        l0.lemma_zero_cost_no_edge(g, a, b);
        lemma_merged_proper(g, col, a, b);
        lemma_zero_weight_iff_proper(&l1, g);
    }
}

/// the classes of a proper coloring that are not empty, in their order
pub fn nonempty_classes(g: &DimacsInstance, sol: &Vec<Vec<VertexId>>) -> (r: Vec<Vec<VertexId>>)
    requires
        g.wf(),
        is_proper_coloring(*g, classes(sol@)),
        within(classes(sol@), g.n as nat),
    ensures
        is_proper_coloring(*g, classes(r@)),
        within(classes(r@), g.n as nat),
        r@.len() == nb_nonempty(classes(sol@)),
        forall|t: int| 0 <= t < r@.len() ==> #[trigger] r@[t]@.len() > 0,
{
    let ghost s = classes(sol@);
    let mut res: Vec<Vec<VertexId>> = Vec::new();
    let ghost mut m: Seq<int> = Seq::empty();
    let mut c: usize = 0;
    while c < sol.len()
        invariant
            g.wf(),
            is_proper_coloring(*g, s),
            within(s, g.n as nat),
            s == classes(sol@),
            c <= s.len(),
            m.len() == res@.len(),
            res@.len() == nb_nonempty(s.take(c as int)),
            res@.len() <= c,
            forall|t: int| 0 <= t < m.len() ==> 0 <= #[trigger] m[t] < c,
            forall|t1: int, t2: int| 0 <= t1 < t2 < m.len() ==> #[trigger] m[t1] < #[trigger] m[t2],
            forall|t: int| 0 <= t < m.len() ==> #[trigger] classes(res@)[t] == s[m[t]],
            forall|t: int| 0 <= t < m.len() ==> #[trigger] s[m[t]].len() > 0,
            forall|c2: int| 0 <= c2 < c && #[trigger] s[c2].len() > 0 ==> exists|t: int|
                0 <= t < m.len() && m[t] == c2,
        decreases s.len() - c,
    {
        proof {
            assert(s.take(c + 1).drop_last() =~= s.take(c as int));
        }
        if sol[c].len() > 0 {
            let class = sol[c].clone();
            assert(class@ == s[c as int]);
            let ghost res_old = res@;
            res.push(class);
            proof {
                let m_old = m;
                m = m.push(c as int);
                assert forall|c2: int| 0 <= c2 < c + 1 && #[trigger] s[c2].len() > 0 implies exists|t: int|
                    0 <= t < m.len() && m[t] == c2 by {
                    if c2 == c {
                        assert(m[m.len() - 1] == c2);
                    } else {
                        let t = choose|t: int| 0 <= t < m_old.len() && m_old[t] == c2;
                        assert(m[t] == c2);
                    }
                }
                assert forall|t: int| 0 <= t < m.len() implies #[trigger] classes(res@)[t] == s[m[t]] by {
                    if t < m.len() - 1 {
                        assert(res@[t] == res_old[t]);
                        assert(classes(res_old)[t] == s[m_old[t]]);
                    } else {
                        assert(res@[t] == class);
                    }
                }
            }
        }
        c += 1;
    }
    proof {
        let r = classes(res@);
        assert(s.take(s.len() as int) =~= s);
        assert forall|t: int| 0 <= t < res@.len() implies #[trigger] res@[t]@.len() > 0 by {
            assert(r[t] == res@[t]@);
        }
        assert forall|t: int, i: int| is_pos(r, t, i) implies #[trigger] r[t][i] < g.n by {
            assert(is_pos(s, m[t], i));
        }
        assert forall|t1: int, i1: int, t2: int, i2: int|
            is_pos(r, t1, i1) && is_pos(r, t2, i2) && (t1 != t2 || i1 != i2) implies #[trigger] r[t1][i1]
                != #[trigger] r[t2][i2] by {
            assert(is_pos(s, m[t1], i1) && is_pos(s, m[t2], i2));
            if t1 != t2 {
                if t1 < t2 {
                    assert(m[t1] < m[t2]);
                } else {
                    assert(m[t2] < m[t1]);
                }
            }
            assert(s[m[t1]][i1] == r[t1][i1]);
        }
        assert forall|x: VertexId| x < g.n implies occurs(r, x) by {
            assert(occurs(s, x));
            let (c2, i) = choose|c2: int, i: int| is_pos(s, c2, i) && #[trigger] s[c2][i] == x;
            let t = choose|t: int| 0 <= t < m.len() && m[t] == c2;
            assert(is_pos(r, t, i) && r[t][i] == x);
        }
        assert forall|t: int, i: int, j: int|
            is_pos(r, t, i) && is_pos(r, t, j) implies !g.adj(
            #[trigger] r[t][i] as int,
            #[trigger] r[t][j] as int,
        ) by {
            assert(is_pos(s, m[t], i) && is_pos(s, m[t], j));
            assert(r[t][i] == s[m[t]][i] && r[t][j] == s[m[t]][j]);
        }
    }
    res
}

/// at most every class is non-empty
pub proof fn lemma_nb_nonempty_le(s: Seq<Seq<VertexId>>)
    ensures
        nb_nonempty(s) <= s.len(),
    decreases s.len(),
{
    if s.len() > 0 {
        lemma_nb_nonempty_le(s.drop_last());
    }
}

/// the colors of a proper coloring given as a partition: vertex x gets the
/// index of its class
pub fn partition_to_colors(g: &DimacsInstance, sol: &Vec<Vec<VertexId>>) -> (r: Vec<usize>)
    requires
        g.wf(),
        sol@.len() >= 1,
        within(classes(sol@), g.n as nat),
        is_proper_coloring(*g, classes(sol@)),
    ensures
        r@.len() == g.n,
        forall|x: int| 0 <= x < g.n ==> #[trigger] r@[x] < sol@.len(),
        colors_match(r@, classes(sol@)),
        coloring_proper(g, r@),
{
    let n = g.n;
    let nb_colors = sol.len();
    let ghost s = classes(sol@);
    let mut colors: Vec<usize> = vec![0; n];
    let mut i: usize = 0;
    while i < nb_colors
        invariant
            g.wf(),
            n == g.n,
            nb_colors == sol@.len(),
            s == classes(sol@),
            within(s, n as nat),
            is_proper_coloring(*g, s),
            i <= nb_colors,
            colors@.len() == n,
            forall|x: int| 0 <= x < n ==> #[trigger] colors@[x] < nb_colors,
            forall|c: int, t: int| is_pos(s, c, t) && c < i ==> colors@[#[trigger] s[c][t] as int] == c,
        decreases nb_colors - i,
    {
        let class = &sol[i];
        assert(class@ == s[i as int]);
        let mut t: usize = 0;
        while t < class.len()
            invariant
                g.wf(),
                n == g.n,
                nb_colors == sol@.len(),
                s == classes(sol@),
                within(s, n as nat),
                is_proper_coloring(*g, s),
                i < nb_colors,
                class@ == s[i as int],
                t <= class@.len(),
                colors@.len() == n,
                forall|x: int| 0 <= x < n ==> #[trigger] colors@[x] < nb_colors,
                forall|c: int, t2: int|
                    is_pos(s, c, t2) && (c < i || (c == i && t2 < t)) ==> colors@[#[trigger] s[c][t2] as int]
                        == c,
            decreases class@.len() - t,
        {
            let v = class[t];
            assert(s[i as int][t as int] == v && v < n);
            colors[v] = i;
            proof {
                assert forall|c: int, t2: int|
                    is_pos(s, c, t2) && (c < i || (c == i && t2 < t + 1)) implies colors@[#[trigger] s[
                        c][t2] as int] == c by {
                    if c != i || t2 != t {
                        assert(s[c][t2] != s[i as int][t as int]);
                    }
                }
            }
            t += 1;
        }
        i += 1;
    }
    proof {
        lemma_colors_proper(g, s, colors@);
    }
    colors
}

/// pushing a pair that is not there keeps a sequence free of duplicates
pub proof fn lemma_push_pair_no_dup(s: Seq<(usize, usize)>, e: (usize, usize))
    requires
        s.no_duplicates(),
        !s.contains(e),
    ensures
        s.push(e).no_duplicates(),
{
    let t = s.push(e);
    assert forall|i: int, j: int| 0 <= i < t.len() && 0 <= j < t.len() && i != j implies t[i] != t[j] by {
        if i == s.len() {
            assert(s[j] == t[j]);
        } else if j == s.len() {
            assert(s[i] == t[i]);
        }
    }
}

/// one for each non-empty class of a partition
pub open spec fn nonempty_term(s: Seq<Seq<VertexId>>) -> spec_fn(nat) -> int {
    |c: nat|
        if s[c as int].len() > 0 {
            1int
        } else {
            0int
        }
}

/// the non-empty classes, counted as a sum over the classes
pub proof fn lemma_nb_nonempty_sum(s: Seq<Seq<VertexId>>)
    ensures
        nb_nonempty(s) == range_sum(s.len(), nonempty_term(s)),
    decreases s.len(),
{
    if s.len() > 0 {
        let t = s.drop_last();
        lemma_nb_nonempty_sum(t);
        crate::sums::lemma_range_sum_ext(t.len(), nonempty_term(t), nonempty_term(s));
    }
}

/// in the partition by colors, a class is non-empty exactly when its color is used
pub proof fn lemma_partition_used(s: Seq<Seq<VertexId>>, col: Seq<usize>, k: nat)
    requires
        is_partition_of(s, col, k),
        col.len() <= usize::MAX,
        k <= usize::MAX,
    ensures
        forall|c: int| 0 <= c < k ==> (#[trigger] s[c].len() > 0) == (count_color(col, c as usize) > 0),
{
    assert forall|c: int| 0 <= c < k implies (#[trigger] s[c].len() > 0) == (count_color(col, c as usize) > 0) by {
        if s[c].len() > 0 {
            assert(is_pos(s, c, 0));
            let x = s[c][0];
            assert(col[x as int] == c);
            assert(x < col.len());
            lemma_count_color_pos(col, x as int);
            assert(col[x as int] == c as usize);
        }
        if count_color(col, c as usize) > 0 {
            if !(exists|x: int| 0 <= x < col.len() && #[trigger] col[x] == c as usize) {
                lemma_count_color_zero(col, c as usize);
            }
            let x = choose|x: int| 0 <= x < col.len() && #[trigger] col[x] == c as usize;
            crate::color::lemma_used_class_nonempty(s, col, k, x);
            assert(col[x] as int == c);
        }
    }
}

/// the colors after moving every vertex of class a into class b
pub open spec fn merged(col: Seq<usize>, a: usize, b: usize) -> Seq<usize> {
    Seq::new(col.len(), |x: int| if col[x] == a { b } else { col[x] })
}

/// no vertex of class a is adjacent to a vertex of class b
pub open spec fn no_edge_between(g: &DimacsInstance, a: Seq<VertexId>, b: Seq<VertexId>) -> bool {
    forall|i: int, j: int| 0 <= i < a.len() && 0 <= j < b.len() ==> !g.adj(#[trigger] a[i] as int, #[trigger] b[j] as int)
}

/// two non-empty classes of the partition have no edge between them
pub open spec fn mergeable_classes(g: &DimacsInstance, s: Seq<Seq<VertexId>>) -> bool {
    exists|c1: int, c2: int|
        0 <= c1 < s.len() && 0 <= c2 < s.len() && c1 != c2 && #[trigger] s[c1].len() > 0 && #[trigger] s[c2].len()
            > 0 && no_edge_between(g, s[c1], s[c2])
}

/// a class of a covering partition is non-empty exactly when its color is used
proof fn lemma_classes_used(s: Seq<Seq<VertexId>>, col: Seq<usize>, k: nat)
    requires
        s.len() == k,
        k <= usize::MAX,
        col.len() <= usize::MAX,
        within(s, col.len()),
        colors_match(col, s),
        crate::color::covers(s, col.len()),
    ensures
        forall|c: int| 0 <= c < k ==> (#[trigger] s[c].len() > 0) == (count_color(col, c as usize) > 0),
{
    assert forall|c: int| 0 <= c < k implies (#[trigger] s[c].len() > 0) == (count_color(col, c as usize) > 0) by {
        if s[c].len() > 0 {
            assert(is_pos(s, c, 0));
            let x = s[c][0];
            assert(col[x as int] == c && x < col.len());
            lemma_count_color_pos(col, x as int);
        }
        if count_color(col, c as usize) > 0 {
            if !(exists|x: int| 0 <= x < col.len() && #[trigger] col[x] == c as usize) {
                lemma_count_color_zero(col, c as usize);
            }
            let x = choose|x: int| 0 <= x < col.len() && #[trigger] col[x] == c as usize;
            assert(occurs(s, x as usize));
            let (c3, i3) = choose|c3: int, i3: int| is_pos(s, c3, i3) && #[trigger] s[c3][i3] == x as usize;
            assert(col[s[c3][i3] as int] == c3);
            assert(c3 == c);
        }
    }
}

impl ConflictWeightingLocalSearch {
    /// merging a class into another without any edge between them costs nothing
    proof fn lemma_zero_cost(&self, g: &DimacsInstance, c1: usize, c2: usize)
        requires
            self.wf(g),
            c1 < self.nb_colors,
            c2 < self.nb_colors,
            forall|x: int, i: int|
                0 <= x < self.n && 0 <= i < g.nbrs()[x].len() && self.colors@[x] == c1 ==> self.colors@[
                    #[trigger] g.nbrs()[x][i] as int] != c2,
        ensures
            self.merge_cost(c1, c2) == 0,
    {
        let n = self.n as nat;
        assert forall|x: nat| x < n implies 0 <= #[trigger] self.merge_term(c1, c2)(x) <= 0 by {
            if self.colors@[x as int] == c1 {
                let nb = g.nbrs()[x as int];
                let f = nbw_term(self.colors@, self.weights@, x as usize, c2);
                assert forall|i: int| 0 <= i < nb.len() implies 0 <= #[trigger] f(nb[i]) <= 0 by {
                    assert(self.colors@[nb[i] as int] != c2);
                }
                lemma_seq_sum_bounds(nb, f, 0);
                assert(self.weights_neigh_colors@[x as int]@[c2 as int] == nbw_of(
                    nb,
                    self.colors@,
                    self.weights@,
                    x as usize,
                    c2,
                ));
            }
        }
        lemma_range_sum_bounds(n, self.merge_term(c1, c2), 0);
    }

    /// when merging a into b costs nothing, no vertex of a has a neighbor in b
    proof fn lemma_zero_cost_no_edge(&self, g: &DimacsInstance, a: usize, b: usize)
        requires
            self.wf(g),
            a < self.nb_colors,
            b < self.nb_colors,
            self.merge_cost(a, b) <= 0,
        ensures
            forall|x: int, i: int|
                0 <= x < self.n && 0 <= i < g.nbrs()[x].len() && self.colors@[x] == a ==> self.colors@[
                    #[trigger] g.nbrs()[x][i] as int] != b,
    {
        let n = self.n as nat;
        assert forall|x: nat| x < n implies 0 <= #[trigger] self.merge_term(a, b)(x) by {}
        crate::sums::lemma_range_sum_nonneg(n, self.merge_term(a, b));
        crate::sums::lemma_range_sum_zero(n, self.merge_term(a, b));
        assert forall|x: int, i: int|
            0 <= x < self.n && 0 <= i < g.nbrs()[x].len() && self.colors@[x] == a implies self.colors@[
                #[trigger] g.nbrs()[x][i] as int] != b by {
            let nb = g.nbrs()[x];
            let f = nbw_term(self.colors@, self.weights@, x as usize, b);
            assert(self.merge_term(a, b)(x as nat) == 0);
            assert(self.weights_neigh_colors@[x]@[b as int] == nbw_of(nb, self.colors@, self.weights@, x as usize, b));
            assert forall|k: int| 0 <= k < nb.len() implies 0 <= #[trigger] f(nb[k]) by {}
            crate::sums::lemma_seq_sum_zero(nb, f);
            let y = nb[i];
            assert(y < self.n && y != x);
            assert(wt(self.weights@, x as usize, y) >= 1) by {
                if x > y {
                    assert(self.weights@[x]@[y as int] >= 1);
                } else {
                    assert(self.weights@[y as int]@[x] >= 1);
                }
            }
            assert(f(nb[i]) == 0);
        }
    }
}

/// merging a class into another class with no edge between them keeps a
/// proper coloring proper
proof fn lemma_merged_proper(g: &DimacsInstance, col: Seq<usize>, a: usize, b: usize)
    requires
        g.wf(),
        col.len() == g.n,
        coloring_proper(g, col),
        forall|x: int, i: int|
            0 <= x < g.n && 0 <= i < g.nbrs()[x].len() && col[x] == a ==> col[#[trigger] g.nbrs()[x][i] as int]
                != b,
    ensures
        coloring_proper(g, merged(col, a, b)),
{
    let m = merged(col, a, b);
    assert forall|x: int, i: int| 0 <= x < g.n && 0 <= i < g.nbrs()[x].len() implies m[#[trigger] g.nbrs()[x][i] as int]
        != m[x] by {
        let y = g.nbrs()[x][i];
        assert(y < g.n);
        assert(col[y as int] != col[x]);
        if col[y as int] == a && col[x] == b {
            assert(g.adj(x, y as int)) by {
                assert(g.nbrs()[x].contains(y));
            }
            assert(g.adj(y as int, x));
            let j = choose|j: int| 0 <= j < g.nbrs()[y as int].len() && g.nbrs()[y as int][j] == x as usize;
            assert(col[g.nbrs()[y as int][j] as int] != b);
        }
    }
}

} // verus!
