use vstd::prelude::*;
use dogs::data_structures::sparse_set::SparseSet;
use crate::bitset::{VertexSet, bits_of};
use crate::color::{
    DimacsInstance,
    VertexId,
    classes,
    colors_to_partition,
    is_proper_coloring,
    within,
};
use crate::coloring_conflict_weighting::{
    count_nonempty,
    lemma_nb_nonempty_le,
    lemma_partition_proper,
    lemma_push_no_dup,
    nb_nonempty,
    nonempty_classes,
    partition_to_colors,
};
use crate::sparse_set::{sparse_members, sparse_capacity};
use crate::sums::{
    seq_sum,
    range_sum,
    lemma_seq_sum_ext,
    lemma_seq_sum_point,
    lemma_seq_sum_bounds,
    lemma_range_sum_point,
    lemma_range_sum_bounds,
    lemma_range_sum_ext,
};
use crate::tabu::{Decision, TabuColTenure};

verus! {

/// contribution of neighbor y to the cost of giving color c to a vertex
pub open spec fn cost_term(col: Seq<Option<usize>>, ws: Seq<u64>, c: usize) -> spec_fn(usize) -> int {
    |y: usize|
        if col[y as int] == Some(c) {
            ws[y as int] as int
        } else {
            0
        }
}

/// the weights of the neighbors nb colored c
pub open spec fn cost_of(nb: Seq<usize>, col: Seq<Option<usize>>, ws: Seq<u64>, c: usize) -> int {
    seq_sum(nb, cost_term(col, ws, c))
}

/// weight of vertex x if uncolored
pub open spec fn uncolored_weight(col: Seq<Option<usize>>, ws: Seq<u64>) -> spec_fn(nat) -> int {
    |x: nat|
        if col[x as int] is None {
            ws[x as int] as int
        } else {
            0
        }
}

/// number of vertices colored c
pub open spec fn count_some(col: Seq<Option<usize>>, c: usize) -> nat
    decreases col.len(),
{
    if col.len() == 0 {
        0
    } else {
        count_some(col.drop_last(), c) + if col.last() == Some(c) {
            1nat
        } else {
            0nat
        }
    }
}

/// the vertices below n colored c
pub open spec fn members_of(col: Seq<Option<usize>>, n: nat, c: usize) -> Set<usize> {
    Set::new(|x: usize| x < n && col[x as int] == Some(c))
}

proof fn lemma_count_some_update(col: Seq<Option<usize>>, i: int, a: Option<usize>, c: usize)
    requires
        0 <= i < col.len(),
    ensures
        count_some(col.update(i, a), c) + (if col[i] == Some(c) {
            1int
        } else {
            0int
        }) == count_some(col, c) + (if a == Some(c) {
            1int
        } else {
            0int
        }),
    decreases col.len(),
{
    let u = col.update(i, a);
    if i == col.len() - 1 {
        assert(u.drop_last() =~= col.drop_last());
    } else {
        assert(u.drop_last() =~= col.drop_last().update(i, a));
        lemma_count_some_update(col.drop_last(), i, a, c);
    }
}

proof fn lemma_count_some_le(col: Seq<Option<usize>>, c: usize)
    ensures
        count_some(col, c) <= col.len(),
    decreases col.len(),
{
    if col.len() > 0 {
        lemma_count_some_le(col.drop_last(), c);
    }
}

/// a move: give color `color` to the uncolored `vertex`
#[derive(Debug, Clone, Copy, PartialEq, Eq, Structural)]
pub struct PartialNode {
    /// vertex to color
    pub vertex: VertexId,
    /// color given to it
    pub color: usize,
    /// total weight after the move, before the conflicting neighbors leave
    pub total_weight: i128,
}

/// partial weighting local search for the vertex coloring problem
pub struct PartialWeightingLocalSearch {
    /// number of vertices
    pub n: usize,
    /// weights[v]: weight of vertex v
    pub weights: Vec<u64>,
    /// current best feasible solution
    pub current_sol: Vec<Vec<VertexId>>,
    /// colors[v]: color of vertex v, if colored
    pub colors: Vec<Option<usize>>,
    /// colors_vertices[c]: bitset of vertices using color c
    pub colors_vertices: Vec<VertexSet>,
    /// colors_vertex_number[c]: number of vertices using color c
    pub colors_vertex_number: Vec<usize>,
    /// number of colors used
    pub nb_colors: usize,
    /// number of initial colors
    pub nb_initial_colors: usize,
    /// number of colors of the best-so-far solution
    pub nb_colors_best_so_far: usize,
    /// total weight of the uncolored vertices
    pub total_weight: u64,
    /// set of uncolored vertices
    pub uncolored_vertices: SparseSet,
    /// cost_coloring[u][c]: weights of the neighbors of u colored c
    pub cost_coloring: Vec<Vec<u64>>,
    /// tabu list
    pub tabu: TabuColTenure,
    /// least total weight seen since the last color deletion
    pub aspiration_criterion: u64,
    /// number of iterations
    pub nb_iter: u64,
}

impl PartialWeightingLocalSearch {
    /// shapes of the arrays and bounds on the entries
    pub open spec fn shape(&self, g: &DimacsInstance) -> bool {
        let n = self.n as int;
        let k = self.nb_initial_colors as int;
        &&& g.wf()
        &&& self.n == g.n
        &&& self.n <= u32::MAX
        &&& k >= 1
        &&& self.colors@.len() == n
        &&& forall|x: int| 0 <= x < n && #[trigger] self.colors@[x] is Some ==> self.colors@[x]->0 < k
        &&& self.weights@.len() == n
        &&& forall|x: int| 0 <= x < n ==> 1 <= #[trigger] self.weights@[x] <= u32::MAX
        &&& self.cost_coloring@.len() == n
        &&& forall|x: int| 0 <= x < n ==> #[trigger] self.cost_coloring@[x]@.len() == k
        &&& self.colors_vertex_number@.len() == k
        &&& self.colors_vertices@.len() == k
        &&& sparse_capacity(self.uncolored_vertices) == n
        &&& sparse_members(self.uncolored_vertices).no_duplicates()
        &&& forall|x: usize|
            #[trigger] sparse_members(self.uncolored_vertices).contains(x) <==> (x < n
                && self.colors@[x as int] is None)
        &&& self.tabu.wf(n as nat, k as nat)
        &&& self.tabu.nb_iter == self.nb_iter
        &&& within(classes(self.current_sol@), n as nat)
        &&& is_proper_coloring(*g, classes(self.current_sol@))
        &&& self.current_sol@.len() == k
        &&& self.nb_colors_best_so_far == nb_nonempty(classes(self.current_sol@))
    }

    /// the aggregates agree with the partial coloring and the weights
    pub open spec fn wf(&self, g: &DimacsInstance) -> bool {
        &&& self.shape(g)
        &&& forall|c: int|
            0 <= c < self.nb_initial_colors ==> #[trigger] self.colors_vertex_number@[c]
                == count_some(self.colors@, c as usize)
        &&& forall|c: int|
            0 <= c < self.nb_initial_colors ==> #[trigger] bits_of(self.colors_vertices@[c])
                == members_of(self.colors@, self.n as nat, c as usize)
        &&& forall|x: int, c: int|
            0 <= x < self.n && 0 <= c < self.nb_initial_colors ==> #[trigger] self.cost_coloring@[x]@[c]
                == cost_of(g.nbrs()[x], self.colors@, self.weights@, c as usize)
        &&& self.total_weight == range_sum(self.n as nat, uncolored_weight(self.colors@, self.weights@))
    }

    /// x is a neighbor of u not yet visited after j steps of a color change of u
    pub open spec fn pending(g: &DimacsInstance, u: usize, j: int, x: usize) -> bool {
        g.nbrs()[u as int].subrange(j, g.nbrs()[u as int].len() as int).contains(x)
    }

    /// the costs follow the colors seen after j steps of a color change of u from col0
    pub open spec fn mid_change(
        &self,
        g: &DimacsInstance,
        u: usize,
        j: int,
        col0: Seq<Option<usize>>,
    ) -> bool {
        &&& self.shape(g)
        &&& u < self.n
        &&& 0 <= j <= g.nbrs()[u as int].len()
        &&& col0.len() == self.n
        &&& forall|x: int, c: int|
            0 <= x < self.n && 0 <= c < self.nb_initial_colors ==> #[trigger] self.cost_coloring@[x]@[c]
                == cost_of(
                g.nbrs()[x],
                if Self::pending(g, u, j, x as usize) {
                    col0
                } else {
                    self.colors@
                },
                self.weights@,
                c as usize,
            )
    }

    /// gives u the color a1 (None: uncolors it), keeping every aggregate
    fn set_color(&mut self, g: &DimacsInstance, u: usize, a1: Option<usize>)
        requires
            old(self).wf(g),
            u < old(self).n,
            old(self).colors@[u as int] != a1,
            a1 is Some ==> a1->0 < old(self).nb_initial_colors,
        ensures
            final(self).wf(g),
            final(self).colors@ == old(self).colors@.update(u as int, a1),
            final(self).weights == old(self).weights,
            final(self).n == old(self).n,
            final(self).nb_initial_colors == old(self).nb_initial_colors,
            final(self).nb_colors == old(self).nb_colors,
            final(self).tabu == old(self).tabu,
            final(self).nb_iter == old(self).nb_iter,
            final(self).aspiration_criterion == old(self).aspiration_criterion,
            final(self).current_sol == old(self).current_sol,
            final(self).nb_colors_best_so_far == old(self).nb_colors_best_so_far,
    {
        let ghost s0 = *self;
        let ghost col0 = self.colors@;
        let ghost n = self.n as int;
        let ghost ws = self.weights@;
        let a0 = self.colors[u];
        let wu = self.weights[u];
        let ghost col1 = col0.update(u as int, a1);
        proof {
            let f0 = uncolored_weight(col0, ws);
            let f1 = uncolored_weight(col1, ws);
            lemma_range_sum_point(n as nat, f0, f1, u as nat);
            assert forall|x: nat| x < n implies 0 <= #[trigger] f0(x) <= u32::MAX by {}
            crate::sums::lemma_range_sum_nonneg(n as nat, f0);
            crate::sums::lemma_range_sum_term(n as nat, f0, u as nat);
            assert forall|x: nat| x < n implies 0 <= #[trigger] f1(x) <= u32::MAX by {}
            lemma_range_sum_bounds(n as nat, f1, u32::MAX as int);
            assert(n * (u32::MAX as int) <= u64::MAX) by (nonlinear_arith)
                requires
                    0 <= n <= u32::MAX,
            ;
        }
        match a0 {
            None => {
                self.total_weight = self.total_weight - wu;
                proof {
                    assert(sparse_members(self.uncolored_vertices).contains(u));
                }
                let ghost m0 = sparse_members(self.uncolored_vertices);
                self.uncolored_vertices.remove(u);
                proof {
                    let m1 = sparse_members(self.uncolored_vertices);
                    let p = choose|p: int| 0 <= p < m0.len() && m0[p] == u && m1 == m0.update(p, m0.last()).drop_last();
                    assert(m1.no_duplicates()) by {
                        assert forall|a: int, b: int|
                            0 <= a < m1.len() && 0 <= b < m1.len() && a != b implies m1[a] != m1[b] by {
                            let la = if a == p { m0.len() - 1 } else { a };
                            let lb = if b == p { m0.len() - 1 } else { b };
                            assert(m1[a] == m0[la] && m1[b] == m0[lb]);
                        }
                    }
                    assert forall|x: usize| #[trigger] m1.contains(x) <==> (x < n && col1[x as int] is None) by {
                        if m1.contains(x) {
                            let q = choose|q: int| 0 <= q < m1.len() && m1[q] == x;
                            let lq = if q == p { m0.len() - 1 } else { q };
                            assert(m1[q] == m0[lq]);
                            assert(m0.contains(x));
                            assert(x != u) by {
                                assert(m0[lq] == m0[p] ==> lq == p);
                            }
                        }
                        if x < n && col1[x as int] is None {
                            assert(m0.contains(x));
                            let q = choose|q: int| 0 <= q < m0.len() && m0[q] == x;
                            if q == m0.len() - 1 {
                                assert(m1[p] == x);
                            } else {
                                assert(q != p);
                                assert(m1[q] == x);
                            }
                        }
                    }
                }
            },
            Some(p) => {
                proof {
                    lemma_count_some_update(col0, u as int, a1, p);
                }
                self.colors_vertex_number[p] -= 1;
                self.colors_vertices[p].remove(u);
            },
        }
        match a1 {
            None => {
                self.total_weight = self.total_weight + wu;
                proof {
                    assert(!sparse_members(self.uncolored_vertices).contains(u));
                    lemma_push_no_dup(sparse_members(self.uncolored_vertices), u);
                }
                let ghost m0 = sparse_members(self.uncolored_vertices);
                self.uncolored_vertices.insert(u);
                proof {
                    let m1 = sparse_members(self.uncolored_vertices);
                    assert forall|x: usize| #[trigger] m1.contains(x) <==> (x < n && col1[x as int] is None) by {
                        vstd::seq_lib::lemma_seq_contains_after_push(m0, u, x);
                    }
                }
            },
            Some(c) => {
                proof {
                    lemma_count_some_update(col0, u as int, a1, c);
                    lemma_count_some_le(col1, c);
                }
                self.colors_vertex_number[c] += 1;
                self.colors_vertices[c].insert(u);
            },
        }
        self.colors[u] = a1;
        let ghost nb = g.nbrs()[u as int];
        proof {
            assert(self.colors@ == col1);
            assert forall|c: int| 0 <= c < self.nb_initial_colors implies #[trigger] self.colors_vertex_number@[c]
                == count_some(col1, c as usize) by {
                lemma_count_some_update(col0, u as int, a1, c as usize);
            }
            assert forall|c: int| 0 <= c < self.nb_initial_colors implies #[trigger] bits_of(self.colors_vertices@[c])
                == members_of(col1, n as nat, c as usize) by {
                assert(bits_of(s0.colors_vertices@[c]) == members_of(col0, n as nat, c as usize));
                assert(bits_of(self.colors_vertices@[c]) =~= members_of(col1, n as nat, c as usize));
            }
            assert forall|x: usize| #[trigger] Self::pending(g, u, 0, x) == nb.contains(x) by {
                assert(nb.subrange(0, nb.len() as int) =~= nb);
            }
            assert forall|x: int, c: int|
                0 <= x < n && 0 <= c < self.nb_initial_colors implies #[trigger] self.cost_coloring@[x]@[c]
                    == cost_of(
                    g.nbrs()[x],
                    if Self::pending(g, u, 0, x as usize) {
                        col0
                    } else {
                        self.colors@
                    },
                    ws,
                    c as usize,
                ) by {
                if !nb.contains(x as usize) {
                    let nbx = g.nbrs()[x];
                    assert(!nbx.contains(u)) by {
                        if nbx.contains(u) {
                            assert(g.adj(x, u as int));
                        }
                    }
                    assert forall|i: int| 0 <= i < nbx.len() implies #[trigger] cost_term(col0, ws, c as usize)(
                        nbx[i],
                    ) == cost_term(col1, ws, c as usize)(nbx[i]) by {
                        assert(nbx[i] != u);
                    }
                    lemma_seq_sum_ext(nbx, cost_term(col0, ws, c as usize), cost_term(col1, ws, c as usize));
                }
            }
        }
        let deg = g.adj_list[u].len();
        let mut j: usize = 0;
        while j < deg
            invariant
                self.mid_change(g, u, j as int, col0),
                nb == g.nbrs()[u as int],
                deg == nb.len(),
                self.colors@ == col1,
                col1 == col0.update(u as int, a1),
                col0[u as int] == a0,
                a0 != a1,
                ws == self.weights@,
                self.weights == s0.weights,
                wu == ws[u as int],
                n == self.n,
                a1 is Some ==> a1->0 < self.nb_initial_colors,
                a0 is Some ==> a0->0 < self.nb_initial_colors,
                self.n == s0.n,
                self.nb_initial_colors == s0.nb_initial_colors,
                self.nb_colors == s0.nb_colors,
                self.tabu == s0.tabu,
                self.nb_iter == s0.nb_iter,
                self.aspiration_criterion == s0.aspiration_criterion,
                self.current_sol == s0.current_sol,
                self.nb_colors_best_so_far == s0.nb_colors_best_so_far,
                forall|c: int| 0 <= c < self.nb_initial_colors ==> #[trigger] self.colors_vertex_number@[c]
                    == count_some(col1, c as usize),
                forall|c: int| 0 <= c < self.nb_initial_colors ==> #[trigger] bits_of(self.colors_vertices@[c])
                    == members_of(col1, n as nat, c as usize),
                self.total_weight == range_sum(n as nat, uncolored_weight(col1, ws)),
            decreases deg - j,
        {
            let x = g.adj_list[u][j];
            let ghost xs = x;
            let ghost before = self.cost_coloring@;
            proof {
                assert(nb[j as int] == x);
                assert(x < n && x != u);
                assert(g.adj(u as int, x as int)) by {
                    assert(nb.contains(x));
                }
                assert(g.adj(x as int, u as int));
                let nbx = g.nbrs()[x as int];
                assert(nbx.contains(u));
                assert(nbx.no_duplicates());
                assert(nb.no_duplicates());
                assert(Self::pending(g, u, j as int, x)) by {
                    assert(nb.subrange(j as int, nb.len() as int)[0] == x);
                }
                assert forall|c: int| 0 <= c < self.nb_initial_colors implies #[trigger] cost_of(nbx, col1, ws, c as usize)
                    == cost_of(nbx, col0, ws, c as usize) - (if a0 == Some(c as usize) {
                    wu as int
                } else {
                    0int
                }) + (if a1 == Some(c as usize) {
                    wu as int
                } else {
                    0int
                }) && 0 <= cost_of(nbx, col1, ws, c as usize) <= nbx.len() * (u32::MAX as int) by {
                    lemma_seq_sum_point(nbx, cost_term(col0, ws, c as usize), cost_term(col1, ws, c as usize), u);
                    assert forall|i: int| 0 <= i < nbx.len() implies 0 <= #[trigger] cost_term(
                        col1,
                        ws,
                        c as usize,
                    )(nbx[i]) <= u32::MAX by {}
                    lemma_seq_sum_bounds(nbx, cost_term(col1, ws, c as usize), u32::MAX as int);
                    crate::sums::lemma_seq_sum_nonneg(nbx, cost_term(col1, ws, c as usize));
                }
                assert(nbx.len() * (u32::MAX as int) <= u64::MAX) by (nonlinear_arith)
                    requires
                        nbx.len() < n,
                        n <= u32::MAX,
                ;
            }
            match a0 {
                Some(p) => {
                    proof {
                        let nbx = g.nbrs()[x as int];
                        assert(self.cost_coloring@[x as int]@[p as int] == cost_of(nbx, col0, ws, p));
                        assert(cost_of(nbx, col1, ws, p) == cost_of(nbx, col0, ws, p) - (if a0 == Some(p) {
                            wu as int
                        } else {
                            0int
                        }) + (if a1 == Some(p) {
                            wu as int
                        } else {
                            0int
                        }));
                    }
                    self.cost_coloring[x][p] -= wu;
                },
                None => {},
            }
            match a1 {
                Some(c) => {
                    proof {
                        let nbx = g.nbrs()[x as int];
                        assert(before[x as int]@[c as int] == cost_of(nbx, col0, ws, c));
                        assert(cost_of(nbx, col1, ws, c) == cost_of(nbx, col0, ws, c) - (if a0 == Some(c) {
                            wu as int
                        } else {
                            0int
                        }) + (if a1 == Some(c) {
                            wu as int
                        } else {
                            0int
                        }));
                        assert(cost_of(nbx, col1, ws, c) <= u64::MAX);
                    }
                    self.cost_coloring[x][c] += wu;
                },
                None => {},
            }
            proof {
                assert forall|y: usize| y != x implies #[trigger] Self::pending(g, u, j + 1, y)
                    == Self::pending(g, u, j as int, y) by {
                    let sj = nb.subrange(j as int, nb.len() as int);
                    let sj1 = nb.subrange(j + 1, nb.len() as int);
                    if sj.contains(y) {
                        let i = choose|i: int| 0 <= i < sj.len() && sj[i] == y;
                        assert(i != 0);
                        assert(sj1[i - 1] == sj[i]);
                    }
                    if sj1.contains(y) {
                        let i = choose|i: int| 0 <= i < sj1.len() && sj1[i] == y;
                        assert(sj[i + 1] == sj1[i]);
                    }
                }
                assert(!Self::pending(g, u, j + 1, x)) by {
                    let sj1 = nb.subrange(j + 1, nb.len() as int);
                    if sj1.contains(x) {
                        let i = choose|i: int| 0 <= i < sj1.len() && sj1[i] == x;
                        assert(nb[j + 1 + i] == nb[j as int]);
                    }
                }
                assert forall|y: int, c: int|
                    0 <= y < n && 0 <= c < self.nb_initial_colors implies #[trigger] self.cost_coloring@[y]@[c]
                        == cost_of(
                        g.nbrs()[y],
                        if Self::pending(g, u, j + 1, y as usize) {
                            col0
                        } else {
                            self.colors@
                        },
                        self.weights@,
                        c as usize,
                    ) by {
                    if y != x {
                        assert(self.cost_coloring@[y]@[c] == before[y]@[c]);
                    }
                }
            }
            j += 1;
        }
        proof {
            assert forall|x: usize| !#[trigger] Self::pending(g, u, deg as int, x) by {}
            assert forall|x: int, c: int|
                0 <= x < n && 0 <= c < self.nb_initial_colors implies #[trigger] self.cost_coloring@[x]@[c]
                    == cost_of(g.nbrs()[x], self.colors@, self.weights@, c as usize) by {
                assert(!Self::pending(g, u, deg as int, x as usize));
            }
        }
    }
}

/// no edge joins two vertices colored alike
pub open spec fn partial_proper(g: &DimacsInstance, col: Seq<Option<usize>>) -> bool {
    forall|x: int, i: int|
        0 <= x < g.n && 0 <= i < g.nbrs()[x].len() && #[trigger] col[x] is Some ==> col[
            #[trigger] g.nbrs()[x][i] as int] != col[x]
}

impl PartialWeightingLocalSearch {
    /// the fields that coloring moves leave alone
    pub open spec fn same_params(&self, other: &Self) -> bool {
        &&& self.n == other.n
        &&& self.nb_initial_colors == other.nb_initial_colors
        &&& self.nb_colors == other.nb_colors
        &&& self.nb_iter == other.nb_iter
        &&& self.aspiration_criterion == other.aspiration_criterion
        &&& self.current_sol == other.current_sol
        &&& self.nb_colors_best_so_far == other.nb_colors_best_so_far
    }

    /// uncolors a vertex and makes its return to its color tabu
    pub fn uncolor_vertex(&mut self, g: &DimacsInstance, u: VertexId)
        requires
            old(self).wf(g),
            u < old(self).n,
            old(self).colors@[u as int] is Some,
        ensures
            final(self).wf(g),
            final(self).colors@ == old(self).colors@.update(u as int, None),
            final(self).weights == old(self).weights,
            final(self).same_params(old(self)),
            final(self).total_weight == old(self).total_weight + old(self).weights@[u as int],
            final(self).tabu.nb_iter == old(self).tabu.nb_iter,
            forall|x: int, y: int|
                0 <= x < old(self).n && 0 <= y < old(self).nb_initial_colors
                    ==> #[trigger] final(self).tabu.decisions@[x]@[y] == if x == u && y == old(self).colors@[u as int]->0 {
                    old(self).tabu.nb_iter
                } else {
                    old(self).tabu.decisions@[x]@[y]
                },
    {
        let p = self.colors[u].unwrap();
        let ghost s0 = *self;
        self.set_color(g, u, None);
        proof {
            lemma_range_sum_point(
                s0.n as nat,
                uncolored_weight(s0.colors@, s0.weights@),
                uncolored_weight(self.colors@, self.weights@),
                u as nat,
            );
        }
        let f = self.uncolored_vertices.len() as u64;
        self.tabu.insert(&Decision { v: u, c: p }, f);
    }

    /// increases the weight of the uncolored vertex u, unless it is at its cap
    fn bump_weight(&mut self, g: &DimacsInstance, u: VertexId)
        requires
            old(self).wf(g),
            u < old(self).n,
            old(self).colors@[u as int] is None,
        ensures
            final(self).wf(g),
            final(self).colors == old(self).colors,
            final(self).weights@ == old(self).weights@.update(
                u as int,
                if old(self).weights@[u as int] < u32::MAX {
                    (old(self).weights@[u as int] + 1) as u64
                } else {
                    old(self).weights@[u as int]
                },
            ),
            final(self).same_params(old(self)),
            final(self).tabu == old(self).tabu,
    {
        if self.weights[u] < u32::MAX as u64 {
            let ghost s0 = *self;
            let ghost n = self.n as int;
            let ghost col = self.colors@;
            proof {
                let f0 = uncolored_weight(col, s0.weights@);
                assert forall|x: nat| x < n implies 0 <= #[trigger] f0(x) <= u32::MAX by {}
                lemma_range_sum_bounds(n as nat, f0, u32::MAX as int);
                assert(n * (u32::MAX as int) < u64::MAX) by (nonlinear_arith)
                    requires
                        0 <= n <= u32::MAX,
                ;
            }
            self.weights[u] += 1;
            self.total_weight += 1;
            proof {
                let ws0 = s0.weights@;
                let ws1 = self.weights@;
                lemma_range_sum_point(n as nat, uncolored_weight(col, ws0), uncolored_weight(col, ws1), u as nat);
                assert forall|x: int, c: int|
                    0 <= x < n && 0 <= c < self.nb_initial_colors implies #[trigger] self.cost_coloring@[x]@[c]
                        == cost_of(g.nbrs()[x], col, ws1, c as usize) by {
                    let nbx = g.nbrs()[x];
                    assert(s0.cost_coloring@[x]@[c] == cost_of(nbx, col, ws0, c as usize));
                    assert forall|i: int| 0 <= i < nbx.len() implies #[trigger] cost_term(col, ws0, c as usize)(
                        nbx[i],
                    ) == cost_term(col, ws1, c as usize)(nbx[i]) by {}
                    lemma_seq_sum_ext(nbx, cost_term(col, ws0, c as usize), cost_term(col, ws1, c as usize));
                }
            }
        }
    }

    /// colors the uncolored vertex u with c: its weight grows first, then the
    /// neighbors of u colored c are uncolored
    pub fn color_vertex(&mut self, g: &DimacsInstance, u: VertexId, c: usize)
        requires
            old(self).wf(g),
            partial_proper(g, old(self).colors@),
            u < old(self).n,
            c < old(self).nb_initial_colors,
            old(self).colors@[u as int] is None,
        ensures
            final(self).wf(g),
            partial_proper(g, final(self).colors@),
            final(self).colors@[u as int] == Some(c),
            forall|x: int|
                0 <= x < old(self).n && x != u ==> #[trigger] final(self).colors@[x] == old(self).colors@[x]
                    || (final(self).colors@[x] is None && old(self).colors@[x] == Some(c) && g.adj(
                    u as int,
                    x,
                )),
            final(self).weights@ == old(self).weights@.update(
                u as int,
                if old(self).weights@[u as int] < u32::MAX {
                    (old(self).weights@[u as int] + 1) as u64
                } else {
                    old(self).weights@[u as int]
                },
            ),
            final(self).same_params(old(self)),
            final(self).total_weight == old(self).total_weight - old(self).weights@[u as int]
                + old(self).cost_coloring@[u as int]@[c as int],
            forall|x: int|
                0 <= x < old(self).n && x != u && #[trigger] final(self).colors@[x] is None
                    && old(self).colors@[x] == Some(c) ==> final(self).tabu.is_tabu(x, c as int),
    {
        let ghost s0 = *self;
        let ghost n = self.n as int;
        self.bump_weight(g, u);
        let ghost w1 = self.weights@;
        self.set_color(g, u, Some(c));
        let ghost col1 = self.colors@;
        proof {
            lemma_range_sum_point(
                n as nat,
                uncolored_weight(s0.colors@, s0.weights@),
                uncolored_weight(col1, w1),
                u as nat,
            );
            assert(g.nbrs()[u as int].take(0) =~= Seq::<usize>::empty());
        }
        let nb = g.neighbors(u);
        let mut t: usize = 0;
        while t < nb.len()
            invariant
                self.wf(g),
                self.same_params(&s0),
                n == self.n,
                u < n,
                c < self.nb_initial_colors,
                nb@ == g.nbrs()[u as int],
                t <= nb@.len(),
                self.colors@[u as int] == Some(c),
                self.weights@ == w1,
                col1 == s0.colors@.update(u as int, Some(c)),
                w1.len() == n,
                forall|x: int| 0 <= x < n && x != u ==> #[trigger] w1[x] == s0.weights@[x],
                self.total_weight == s0.total_weight - s0.weights@[u as int] + seq_sum(
                    nb@.take(t as int),
                    cost_term(col1, w1, c),
                ),
                forall|x: usize| x < n && !nb@.take(t as int).contains(x) ==> #[trigger] self.colors@[x as int]
                    == col1[x as int],
                self.tabu.nb_iter == s0.tabu.nb_iter,
                forall|x: int|
                    0 <= x < n && x != u && #[trigger] self.colors@[x] is None && s0.colors@[x] == Some(c)
                        ==> self.tabu.decisions@[x]@[c as int] == s0.tabu.nb_iter,
                forall|x: int|
                    0 <= x < n && x != u ==> #[trigger] self.colors@[x] == s0.colors@[x] || (
                    self.colors@[x] is None && s0.colors@[x] == Some(c) && g.adj(u as int, x)),
                forall|x: int, i: int|
                    0 <= x < g.n && 0 <= i < g.nbrs()[x].len() && #[trigger] self.colors@[x] is Some
                        && self.colors@[#[trigger] g.nbrs()[x][i] as int] == self.colors@[x] ==> (x == u
                        && !nb@.take(t as int).contains(g.nbrs()[x][i])) || (g.nbrs()[x][i] == u
                        && !nb@.take(t as int).contains(x as usize)),
            decreases nb@.len() - t,
        {
            let v = nb[t];
            proof {
                assert(g.nbrs()[u as int][t as int] == v);
                assert(v < n && v != u);
            }
            let ghost before = self.colors@;
            let ghost bs = *self;
            proof {
                assert(nb@.no_duplicates());
                assert(!nb@.take(t as int).contains(v)) by {
                    if nb@.take(t as int).contains(v) {
                        let k = choose|k: int| 0 <= k < t && nb@.take(t as int)[k] == v;
                        assert(nb@[k] == nb@[t as int]);
                    }
                }
                assert(before[v as int] == col1[v as int]);
                crate::sums::lemma_seq_sum_take(nb@, cost_term(col1, w1, c), t as int);
            }
            if self.colors[v] == Some(c) {
                self.uncolor_vertex(g, v);
            }
            proof {
                assert(nb@.take(t + 1) == nb@.take(t as int).push(v));
                assert forall|x: usize| x < n && !nb@.take(t + 1).contains(x) implies #[trigger] self.colors@[x as int]
                    == col1[x as int] by {
                    vstd::seq_lib::lemma_seq_contains_after_push(nb@.take(t as int), v, x);
                }
                assert forall|x: int|
                    0 <= x < n && x != u && #[trigger] self.colors@[x] is None && s0.colors@[x] == Some(c)
                        implies self.tabu.decisions@[x]@[c as int] == s0.tabu.nb_iter by {
                    if x != v {
                        assert(before[x] is None);
                    }
                }
                assert forall|x: int, i: int|
                    0 <= x < g.n && 0 <= i < g.nbrs()[x].len() && #[trigger] self.colors@[x] is Some
                        && self.colors@[#[trigger] g.nbrs()[x][i] as int] == self.colors@[x] implies (x == u
                        && !nb@.take(t + 1).contains(g.nbrs()[x][i])) || (g.nbrs()[x][i] == u
                        && !nb@.take(t + 1).contains(x as usize)) by {
                    let y = g.nbrs()[x][i];
                    vstd::seq_lib::lemma_seq_contains_after_push(nb@.take(t as int), v, y);
                    vstd::seq_lib::lemma_seq_contains_after_push(nb@.take(t as int), v, x as usize);
                    assert(before[x] is Some && before[y as int] == before[x]);
                }
            }
            t += 1;
        }
        proof {
            assert(nb@.take(nb@.len() as int) =~= nb@);
            assert(s0.cost_coloring@[u as int]@[c as int] == cost_of(nb@, s0.colors@, s0.weights@, c));
            assert forall|i: int| 0 <= i < nb@.len() implies #[trigger] cost_term(col1, w1, c)(nb@[i])
                == cost_term(s0.colors@, s0.weights@, c)(nb@[i]) by {
                assert(nb@[i] != u);
            }
            lemma_seq_sum_ext(nb@, cost_term(col1, w1, c), cost_term(s0.colors@, s0.weights@, c));
            assert forall|x: int|
                0 <= x < s0.n && x != u && #[trigger] self.colors@[x] is None && s0.colors@[x] == Some(c)
                    implies self.tabu.is_tabu(x, c as int) by {
                assert(self.tabu.decisions@[x]@[c as int] == self.tabu.nb_iter);
            }
            assert forall|x: int, i: int|
                0 <= x < g.n && 0 <= i < g.nbrs()[x].len() && #[trigger] self.colors@[x] is Some implies self.colors@[
                    #[trigger] g.nbrs()[x][i] as int] != self.colors@[x] by {
                let y = g.nbrs()[x][i];
                if self.colors@[y as int] == self.colors@[x] {
                    if x == u {
                        assert(nb@.contains(y)) by {
                            assert(g.nbrs()[u as int][i] == y);
                        }
                    } else {
                        assert(y == u);
                        assert(g.adj(x, u as int)) by {
                            assert(g.nbrs()[x].contains(y));
                        }
                        assert(g.adj(u as int, x));
                        assert(nb@.contains(x as usize));
                    }
                }
            }
        }
    }
}

impl PartialWeightingLocalSearch {
    /// initializes the search from a proper coloring given as a partition:
    /// every vertex colored, every weight one
    pub fn initialize(g: &DimacsInstance, sol: &Vec<Vec<VertexId>>) -> (r: Self)
        requires
            g.wf(),
            g.n <= u32::MAX,
            sol@.len() >= 1,
            within(classes(sol@), g.n as nat),
            is_proper_coloring(*g, classes(sol@)),
        ensures
            r.wf(g),
            partial_proper(g, r.colors@),
            r.nb_initial_colors == sol@.len(),
            r.total_weight == 0,
            forall|x: int| 0 <= x < g.n ==> #[trigger] r.colors@[x] is Some,
            forall|c: int, i: int|
                crate::color::is_pos(classes(sol@), c, i) ==> r.colors@[#[trigger] classes(sol@)[c][i] as int]
                    == Some(c as usize),
    {
        let n = g.n;
        let k = sol.len();
        let plain = partition_to_colors(g, sol);
        let mut colors: Vec<Option<usize>> = Vec::new();
        let mut x: usize = 0;
        while x < n
            invariant
                x <= n,
                n == plain@.len(),
                colors@.len() == x,
                forall|y: int| 0 <= y < x ==> #[trigger] colors@[y] == Some(plain@[y]),
            decreases n - x,
        {
            colors.push(Some(plain[x]));
            x += 1;
        }
        let ghost col = colors@;
        let ghost pl = plain@;
        proof {
            assert forall|y: int| 0 <= y < n implies #[trigger] pl[y] < k by {}
            assert forall|y: int, i: int|
                0 <= y < g.n && 0 <= i < g.nbrs()[y].len() && #[trigger] col[y] is Some implies col[
                    #[trigger] g.nbrs()[y][i] as int] != col[y] by {
                let z = g.nbrs()[y][i];
                assert(z < g.n);
                assert(pl[z as int] != pl[y]);
            }
        }
        let mut colors_vertex_number: Vec<usize> = vec![0; k];
        let mut colors_vertices: Vec<VertexSet> = Vec::new();
        let mut c: usize = 0;
        while c < k
            invariant
                c <= k,
                colors_vertices@.len() == c,
                forall|c2: int| 0 <= c2 < c ==> bits_of(#[trigger] colors_vertices@[c2]) == Set::<usize>::empty(),
            decreases k - c,
        {
            colors_vertices.push(VertexSet::with_capacity(n));
            c += 1;
        }
        let mut x: usize = 0;
        while x < n
            invariant
                n == g.n,
                n <= u32::MAX,
                col == colors@,
                col.len() == n,
                forall|y: int| 0 <= y < n ==> #[trigger] col[y] == Some(pl[y]),
                forall|y: int| 0 <= y < n ==> #[trigger] pl[y] < k,
                pl == plain@,
                plain@.len() == n,
                x <= n,
                colors_vertex_number@.len() == k,
                colors_vertices@.len() == k,
                forall|c2: int|
                    0 <= c2 < k ==> #[trigger] colors_vertex_number@[c2] == count_some(col.take(x as int), c2 as usize),
                forall|c2: int|
                    0 <= c2 < k ==> #[trigger] bits_of(colors_vertices@[c2]) == members_of(col, x as nat, c2 as usize),
            decreases n - x,
        {
            let cx = plain[x];
            proof {
                assert(col.take(x + 1).drop_last() =~= col.take(x as int));
                assert(col[x as int] == Some(cx));
                lemma_count_some_le(col.take(x as int), cx);
                assert forall|c2: int| 0 <= c2 < k implies #[trigger] count_some(col.take(x + 1), c2 as usize)
                    == count_some(col.take(x as int), c2 as usize) + if c2 == cx {
                    1nat
                } else {
                    0nat
                } by {}
            }
            colors_vertex_number[cx] += 1;
            colors_vertices[cx].insert(x);
            proof {
                assert forall|c2: int| 0 <= c2 < k implies #[trigger] bits_of(colors_vertices@[c2])
                    == members_of(col, (x + 1) as nat, c2 as usize) by {
                    assert(bits_of(colors_vertices@[c2]) =~= members_of(col, (x + 1) as nat, c2 as usize));
                }
            }
            x += 1;
        }
        proof {
            assert(col.take(n as int) =~= col);
        }
        let weights: Vec<u64> = vec![1; n];
        let ghost ws = weights@;
        let mut cost_coloring: Vec<Vec<u64>> = Vec::new();
        let mut x: usize = 0;
        while x < n
            invariant
                x <= n,
                cost_coloring@.len() == x,
                forall|y: int| 0 <= y < x ==> #[trigger] cost_coloring@[y]@.len() == k,
                forall|y: int, c2: int| 0 <= y < x && 0 <= c2 < k ==> #[trigger] cost_coloring@[y]@[c2] == 0,
            decreases n - x,
        {
            cost_coloring.push(vec![0; k]);
            x += 1;
        }
        let mut u: usize = 0;
        while u < n
            invariant
                g.wf(),
                n == g.n,
                n <= u32::MAX,
                col == colors@,
                col.len() == n,
                forall|y: int| 0 <= y < n ==> #[trigger] col[y] == Some(pl[y]),
                forall|y: int| 0 <= y < n ==> #[trigger] pl[y] < k,
                pl == plain@,
                plain@.len() == n,
                ws.len() == n,
                forall|y: int| 0 <= y < n ==> #[trigger] ws[y] == 1,
                u <= n,
                cost_coloring@.len() == n,
                forall|y: int| 0 <= y < n ==> #[trigger] cost_coloring@[y]@.len() == k,
                forall|y: int, c2: int|
                    0 <= y < u && 0 <= c2 < k ==> #[trigger] cost_coloring@[y]@[c2] == cost_of(g.nbrs()[y], col, ws, c2 as usize),
                forall|y: int, c2: int| u <= y < n && 0 <= c2 < k ==> #[trigger] cost_coloring@[y]@[c2] == 0,
            decreases n - u,
        {
            let nbu = &g.adj_list[u];
            let ghost nb = g.nbrs()[u as int];
            assert(nbu@ == nb);
            let mut t: usize = 0;
            while t < nbu.len()
                invariant
                    g.wf(),
                    n == g.n,
                    n <= u32::MAX,
                    col == colors@,
                    col.len() == n,
                    forall|y: int| 0 <= y < n ==> #[trigger] col[y] == Some(pl[y]),
                    forall|y: int| 0 <= y < n ==> #[trigger] pl[y] < k,
                    pl == plain@,
                    plain@.len() == n,
                    ws.len() == n,
                    forall|y: int| 0 <= y < n ==> #[trigger] ws[y] == 1,
                    u < n,
                    nbu@ == nb,
                    nb == g.nbrs()[u as int],
                    t <= nb.len(),
                    cost_coloring@.len() == n,
                    forall|y: int| 0 <= y < n ==> #[trigger] cost_coloring@[y]@.len() == k,
                    forall|y: int, c2: int|
                        0 <= y < u && 0 <= c2 < k ==> #[trigger] cost_coloring@[y]@[c2] == cost_of(g.nbrs()[y], col, ws, c2 as usize),
                    forall|y: int, c2: int| u < y < n && 0 <= c2 < k ==> #[trigger] cost_coloring@[y]@[c2] == 0,
                    forall|c2: int|
                        0 <= c2 < k ==> #[trigger] cost_coloring@[u as int]@[c2] == seq_sum(
                            nb.take(t as int),
                            cost_term(col, ws, c2 as usize),
                        ),
                decreases nb.len() - t,
            {
                let v = nbu[t];
                let cv = plain[v];
                proof {
                    assert(v < n);
                    assert forall|c2: int| 0 <= c2 < k implies #[trigger] seq_sum(
                        nb.take(t + 1),
                        cost_term(col, ws, c2 as usize),
                    ) == seq_sum(nb.take(t as int), cost_term(col, ws, c2 as usize)) + if c2 == cv {
                        1int
                    } else {
                        0int
                    } by {
                        crate::sums::lemma_seq_sum_take(nb, cost_term(col, ws, c2 as usize), t as int);
                    }
                    assert forall|i2: int| 0 <= i2 < nb.take(t as int).len() implies 0 <= #[trigger] cost_term(
                        col,
                        ws,
                        cv,
                    )(nb.take(t as int)[i2]) <= 1 by {
                        assert(nb.take(t as int)[i2] == nb[i2]);
                        assert(nb[i2] < n);
                    }
                    lemma_seq_sum_bounds(nb.take(t as int), cost_term(col, ws, cv), 1);
                }
                cost_coloring[u][cv] += 1;
                t += 1;
            }
            proof {
                assert(nb.take(nb.len() as int) =~= nb);
            }
            u += 1;
        }
        let current_sol = colors_to_partition(&plain, k);
        let nb_colors_best_so_far = count_nonempty(&current_sol);
        let r = PartialWeightingLocalSearch {
            n,
            weights,
            current_sol,
            colors,
            colors_vertices,
            colors_vertex_number,
            nb_colors: k,
            nb_initial_colors: k,
            nb_colors_best_so_far,
            total_weight: 0,
            uncolored_vertices: SparseSet::new(n),
            cost_coloring,
            tabu: TabuColTenure::new(10, 1, 100, n, k),
            aspiration_criterion: u64::MAX,
            nb_iter: 0,
        };
        proof {
            lemma_partition_proper(g, classes(r.current_sol@), pl, k as nat);
            assert forall|y: nat| y < n implies 0 <= #[trigger] uncolored_weight(col, ws)(y) <= 0 by {}
            lemma_range_sum_bounds(n as nat, uncolored_weight(col, ws), 0);
            assert forall|y: usize| #[trigger] sparse_members(r.uncolored_vertices).contains(y) <==> (y < n
                && col[y as int] is None) by {}
            assert forall|y: int| 0 <= y < n && #[trigger] col[y] is Some implies col[y]->0 < k by {}
        }
        r
    }

    /// records the current coloring, complete and proper, as the best so far
    fn update_current_solution(&mut self, g: &DimacsInstance)
        requires
            old(self).wf(g),
            partial_proper(g, old(self).colors@),
            old(self).total_weight == 0,
        ensures
            final(self).wf(g),
            final(self).colors == old(self).colors,
            final(self).weights == old(self).weights,
            final(self).nb_colors == old(self).nb_colors,
            final(self).nb_initial_colors == old(self).nb_initial_colors,
            final(self).nb_iter == old(self).nb_iter,
            final(self).aspiration_criterion == old(self).aspiration_criterion,
            final(self).colors_vertex_number == old(self).colors_vertex_number,
            final(self).tabu == old(self).tabu,
            forall|x: int| 0 <= x < old(self).n ==> #[trigger] old(self).colors@[x] is Some,
            final(self).nb_colors_best_so_far == nb_nonempty(classes(final(self).current_sol@)),
    {
        let ghost n = self.n as int;
        let ghost col = self.colors@;
        proof {
            let f = uncolored_weight(col, self.weights@);
            assert forall|x: nat| x < n implies 0 <= #[trigger] f(x) by {}
            crate::sums::lemma_range_sum_zero(n as nat, f);
            assert forall|x: int| 0 <= x < n implies #[trigger] col[x] is Some by {
                assert(f(x as nat) == 0);
            }
        }
        let mut plain: Vec<usize> = Vec::new();
        let mut x: usize = 0;
        while x < self.n
            invariant
                x <= self.n,
                n == self.n,
                col == self.colors@,
                col.len() == n,
                forall|y: int| 0 <= y < n ==> #[trigger] col[y] is Some,
                plain@.len() == x,
                forall|y: int| 0 <= y < x ==> Some(#[trigger] plain@[y]) == col[y],
            decreases self.n - x,
        {
            plain.push(self.colors[x].unwrap());
            x += 1;
        }
        proof {
            assert forall|y: int| 0 <= y < plain@.len() implies #[trigger] plain@[y] < self.nb_initial_colors by {
                assert(col[y] == Some(plain@[y]));
            }
            assert forall|y: int, i: int|
                0 <= y < g.n && 0 <= i < g.nbrs()[y].len() implies plain@[#[trigger] g.nbrs()[y][i] as int]
                != plain@[y] by {
                let z = g.nbrs()[y][i];
                assert(col[y] is Some);
                assert(col[z as int] != col[y]);
                assert(col[z as int] == Some(plain@[z as int]));
            }
        }
        let new_solution = colors_to_partition(&plain, self.nb_initial_colors);
        proof {
            lemma_partition_proper(g, classes(new_solution@), plain@, self.nb_initial_colors as nat);
        }
        self.nb_colors_best_so_far = count_nonempty(&new_solution);
        self.current_sol = new_solution;
    }

    /// uncolors every vertex of the largest color class; returns that class
    pub fn delete_color(&mut self, g: &DimacsInstance) -> (r: Option<usize>)
        requires
            old(self).wf(g),
            partial_proper(g, old(self).colors@),
        ensures
            final(self).wf(g),
            partial_proper(g, final(self).colors@),
            final(self).weights == old(self).weights,
            final(self).nb_initial_colors == old(self).nb_initial_colors,
            final(self).nb_iter == old(self).nb_iter,
            final(self).nb_colors_best_so_far == old(self).nb_colors_best_so_far,
            final(self).nb_colors == if r is Some && old(self).nb_colors > 0 {
                (old(self).nb_colors - 1) as usize
            } else {
                old(self).nb_colors
            },
            match r {
                Some(c) => {
                    &&& c < old(self).nb_initial_colors
                    &&& old(self).colors_vertex_number@[c as int] > 0
                    &&& forall|c2: int|
                        0 <= c2 < old(self).nb_initial_colors ==> #[trigger] old(self).colors_vertex_number@[c2]
                            <= old(self).colors_vertex_number@[c as int]
                    &&& forall|x: int|
                        0 <= x < old(self).n ==> #[trigger] final(self).colors@[x] == if old(self).colors@[x]
                            == Some(c) {
                            None
                        } else {
                            old(self).colors@[x]
                        }
                },
                None => forall|c2: int|
                    0 <= c2 < old(self).nb_initial_colors ==> #[trigger] old(self).colors_vertex_number@[c2] == 0,
            },
    {
        let ghost s0 = *self;
        let k = self.nb_initial_colors;
        let mut best: Option<usize> = None;
        let mut c: usize = 0;
        while c < k
            invariant
                k == self.nb_initial_colors,
                self.colors_vertex_number@.len() == k,
                c <= k,
                match best {
                    Some(b) => b < k && self.colors_vertex_number@[b as int] > 0 && forall|c2: int|
                        0 <= c2 < c ==> #[trigger] self.colors_vertex_number@[c2] <= self.colors_vertex_number@[b as int],
                    None => forall|c2: int| 0 <= c2 < c ==> #[trigger] self.colors_vertex_number@[c2] == 0,
                },
            decreases k - c,
        {
            if self.colors_vertex_number[c] > 0 {
                let better = match best {
                    Some(b) => self.colors_vertex_number[c] >= self.colors_vertex_number[b],
                    None => true,
                };
                if better {
                    best = Some(c);
                }
            }
            c += 1;
        }
        match best {
            None => None,
            Some(cm) => {
                let mut x: usize = 0;
                while x < self.n
                    invariant
                        self.wf(g),
                        partial_proper(g, self.colors@),
                        self.n == s0.n,
                        self.weights == s0.weights,
                        self.nb_initial_colors == s0.nb_initial_colors,
                        self.nb_iter == s0.nb_iter,
                        self.nb_colors_best_so_far == s0.nb_colors_best_so_far,
                        self.nb_colors == s0.nb_colors,
                        x <= self.n,
                        forall|y: int|
                            0 <= y < s0.n ==> #[trigger] self.colors@[y] == if y < x && s0.colors@[y] == Some(cm) {
                                None
                            } else {
                                s0.colors@[y]
                            },
                    decreases self.n - x,
                {
                    if self.colors[x] == Some(cm) {
                        let ghost before = self.colors@;
                        self.uncolor_vertex(g, x);
                        proof {
                            assert forall|y: int, i: int|
                                0 <= y < g.n && 0 <= i < g.nbrs()[y].len() && #[trigger] self.colors@[y] is Some
                                    implies self.colors@[#[trigger] g.nbrs()[y][i] as int] != self.colors@[y] by {
                                assert(before[y] is Some);
                            }
                        }
                    }
                    x += 1;
                }
                if self.nb_colors > 0 {
                    self.nb_colors = self.nb_colors - 1;
                }
                Some(cm)
            },
        }
    }
}

impl PartialWeightingLocalSearch {
    /// total weight after coloring the uncolored u with c, before its
    /// conflicting neighbors are uncolored
    pub open spec fn score(&self, u: int, c: int) -> int {
        self.total_weight + self.cost_coloring@[u]@[c] - self.weights@[u]
    }

    /// coloring u with c may be chosen: u is uncolored, c is in use, and the
    /// move is not tabu unless its score beats the best seen in this phase
    pub open spec fn candidate(&self, u: int, c: int) -> bool {
        &&& 0 <= u < self.n
        &&& self.colors@[u] is None
        &&& 0 <= c < self.nb_initial_colors
        &&& self.colors_vertex_number@[c] > 0
        &&& (!self.tabu.is_tabu(u, c) || self.score(u, c) < self.aspiration_criterion)
    }

    /// finds the allowed move of least score, the first one met among equals
    pub fn find_best_move(&self, g: &DimacsInstance) -> (r: Option<PartialNode>)
        requires
            self.wf(g),
        ensures
            match r {
                Some(nd) => {
                    &&& self.candidate(nd.vertex as int, nd.color as int)
                    &&& nd.total_weight == self.score(nd.vertex as int, nd.color as int)
                    &&& forall|u: int, c: int|
                        #[trigger] self.candidate(u, c) ==> nd.total_weight <= self.score(u, c)
                },
                None => forall|u: int, c: int| !#[trigger] self.candidate(u, c),
            },
    {
        let ghost m = sparse_members(self.uncolored_vertices);
        let k = self.nb_initial_colors;
        let mut best: Option<PartialNode> = None;
        let mut i: usize = 0;
        while i < self.uncolored_vertices.len()
            invariant
                self.wf(g),
                m == sparse_members(self.uncolored_vertices),
                k == self.nb_initial_colors,
                i <= m.len(),
                match best {
                    Some(nd) => self.candidate(nd.vertex as int, nd.color as int) && nd.total_weight
                        == self.score(nd.vertex as int, nd.color as int),
                    None => true,
                },
                forall|t: int, c: int|
                    0 <= t < i && #[trigger] self.candidate(m[t] as int, c) ==> match best {
                        Some(nd) => nd.total_weight <= self.score(m[t] as int, c),
                        None => false,
                    },
            decreases m.len() - i,
        {
            let u = self.uncolored_vertices.nth(i);
            proof {
                assert(m.contains(u));
            }
            let mut c: usize = 0;
            while c < k
                invariant
                    self.wf(g),
                    m == sparse_members(self.uncolored_vertices),
                    k == self.nb_initial_colors,
                    i < m.len(),
                    u == m[i as int],
                    u < self.n,
                    self.colors@[u as int] is None,
                    c <= k,
                    match best {
                        Some(nd) => self.candidate(nd.vertex as int, nd.color as int) && nd.total_weight
                            == self.score(nd.vertex as int, nd.color as int),
                        None => true,
                    },
                    forall|t: int, c2: int|
                        0 <= t < i && #[trigger] self.candidate(m[t] as int, c2) ==> match best {
                            Some(nd) => nd.total_weight <= self.score(m[t] as int, c2),
                            None => false,
                        },
                    forall|c2: int|
                        0 <= c2 < c && #[trigger] self.candidate(u as int, c2) ==> match best {
                            Some(nd) => nd.total_weight <= self.score(u as int, c2),
                            None => false,
                        },
                decreases k - c,
            {
                if self.colors_vertex_number[c] > 0 {
                    let score: i128 = (self.total_weight as i128) + (self.cost_coloring[u][c] as i128)
                        - (self.weights[u] as i128);
                    let better = match best {
                        Some(nd) => score < nd.total_weight,
                        None => true,
                    };
                    if better {
                        let is_tabu = self.tabu.contains(&Decision { v: u, c });
                        if !is_tabu || score < self.aspiration_criterion as i128 {
                            best = Some(PartialNode { vertex: u, color: c, total_weight: score });
                        }
                    }
                }
                c += 1;
            }
            i += 1;
        }
        proof {
            assert forall|u: int, c: int| #[trigger] self.candidate(u, c) implies match best {
                Some(nd) => nd.total_weight <= self.score(u, c),
                None => false,
            } by {
                assert(m.contains(u as usize));
                let t = choose|t: int| 0 <= t < m.len() && m[t] == u as usize;
                assert(self.candidate(m[t] as int, c));
            }
        }
        best
    }

    /// one iteration of the search: when every vertex is colored, records the
    /// coloring as the best one, deletes the largest class and starts a new
    /// phase; otherwise colors the uncolored vertex of the best allowed move;
    /// returns true iff a vertex was colored
    pub fn step(&mut self, g: &DimacsInstance) -> (moved: bool)
        requires
            old(self).wf(g),
            partial_proper(g, old(self).colors@),
        ensures
            final(self).wf(g),
            partial_proper(g, final(self).colors@),
            final(self).n == old(self).n,
            final(self).nb_initial_colors == old(self).nb_initial_colors,
            forall|x: int| 0 <= x < old(self).n ==> #[trigger] final(self).weights@[x] >= old(self).weights@[x],
            old(self).total_weight == 0 ==> {
                &&& !moved
                &&& final(self).aspiration_criterion == u64::MAX
                &&& (forall|c2: int|
                    0 <= c2 < old(self).nb_initial_colors ==> #[trigger] old(self).colors_vertex_number@[c2]
                        == 0) || exists|c: int|
                    {
                        &&& 0 <= c < old(self).nb_initial_colors
                        &&& old(self).colors_vertex_number@[c] > 0
                        &&& (forall|c2: int|
                            0 <= c2 < old(self).nb_initial_colors ==> #[trigger] old(self).colors_vertex_number@[c2]
                                <= old(self).colors_vertex_number@[c])
                        &&& forall|x: int|
                            0 <= x < old(self).n ==> #[trigger] final(self).colors@[x] == if old(self).colors@[x]
                                == Some(c as usize) {
                                None
                            } else {
                                old(self).colors@[x]
                            }
                    }
            },
            old(self).total_weight != 0 && old(self).nb_iter < i64::MAX ==> {
                &&& moved == exists|u: int, c: int| #[trigger] old(self).candidate(u, c)
                &&& moved ==> exists|nd: PartialNode|
                    {
                        &&& #[trigger] old(self).candidate(nd.vertex as int, nd.color as int)
                        &&& nd.total_weight == old(self).score(nd.vertex as int, nd.color as int)
                        &&& (forall|u: int, c: int|
                            #[trigger] old(self).candidate(u, c) ==> nd.total_weight <= old(self).score(u, c))
                        &&& final(self).colors@[nd.vertex as int] == Some(nd.color)
                    }
            },
    {
        if self.total_weight == 0 {
            self.update_current_solution(g);
            self.delete_color(g);
            self.aspiration_criterion = u64::MAX;
            return false;
        }
        if self.nb_iter >= i64::MAX as u64 {
            return false;
        }
        let found = self.find_best_move(g);
        self.tabu.increment_iter();
        self.nb_iter += 1;
        match found {
            Some(nd) => {
                self.color_vertex(g, nd.vertex, nd.color);
                if self.total_weight < self.aspiration_criterion {
                    self.aspiration_criterion = self.total_weight;
                }
                true
            },
            None => false,
        }
    }

    /// the best coloring found so far, without its empty classes
    pub fn get_solution(&self, g: &DimacsInstance) -> (r: Vec<Vec<VertexId>>)
        requires
            self.wf(g),
        ensures
            is_proper_coloring(*g, classes(r@)),
            within(classes(r@), self.n as nat),
            r@.len() == self.nb_colors_best_so_far,
            r@.len() <= self.nb_initial_colors,
            forall|t: int| 0 <= t < r@.len() ==> #[trigger] r@[t]@.len() > 0,
    {
        proof {
            lemma_nb_nonempty_le(classes(self.current_sol@));
        }
        nonempty_classes(g, &self.current_sol)
    }
}

/// runs the partial weighting local search from a proper coloring for at
/// most max_iter iterations, and returns the best coloring found: a proper
/// coloring with no empty class and at most as many classes as the seed
pub fn coloring_partial_weighting(
    g: &DimacsInstance,
    sol: &Vec<Vec<VertexId>>,
    max_iter: u64,
) -> (r: Vec<Vec<VertexId>>)
    requires
        g.wf(),
        g.n <= u32::MAX,
        within(classes(sol@), g.n as nat),
        is_proper_coloring(*g, classes(sol@)),
    ensures
        is_proper_coloring(*g, classes(r@)),
        within(classes(r@), g.n as nat),
        r@.len() <= sol@.len(),
        forall|t: int| 0 <= t < r@.len() ==> #[trigger] r@[t]@.len() > 0,
{
    if sol.len() == 0 {
        proof {
            if g.n > 0 {
                assert(crate::color::occurs(classes(sol@), 0));
            }
        }
        return Vec::new();
    }
    let mut ls = PartialWeightingLocalSearch::initialize(g, sol);
    let mut it: u64 = 0;
    while it < max_iter
        invariant
            ls.wf(g),
            partial_proper(g, ls.colors@),
            ls.nb_initial_colors == sol@.len(),
        decreases max_iter - it,
    {
        ls.step(g);
        it += 1;
    }
    ls.get_solution(g)
}

/// number of uncolored vertices
pub open spec fn count_none(col: Seq<Option<usize>>) -> nat
    decreases col.len(),
{
    if col.len() == 0 {
        0
    } else {
        count_none(col.drop_last()) + if col.last() is None {
            1nat
        } else {
            0nat
        }
    }
}

/// number of vertices of each color
pub open spec fn some_counts(col: Seq<Option<usize>>) -> spec_fn(nat) -> int {
    |c: nat| count_some(col, c as usize) as int
}

/// cost of x, as a function of the color
pub open spec fn cost_by_color(nb: Seq<usize>, col: Seq<Option<usize>>, ws: Seq<u64>) -> spec_fn(nat) -> int {
    |c: nat| cost_of(nb, col, ws, c as usize)
}

/// weight of neighbor y when colored
pub open spec fn colored_weight(col: Seq<Option<usize>>, ws: Seq<u64>) -> spec_fn(usize) -> int {
    |y: usize|
        if col[y as int] is Some {
            ws[y as int] as int
        } else {
            0
        }
}

proof fn lemma_cost_sum_over_colors(nb: Seq<usize>, col: Seq<Option<usize>>, ws: Seq<u64>, k: nat)
    requires
        k <= usize::MAX,
        forall|i: int|
            0 <= i < nb.len() ==> 0 <= #[trigger] nb[i] < col.len() && (col[nb[i] as int] is Some
                ==> col[nb[i] as int]->0 < k),
    ensures
        range_sum(k, cost_by_color(nb, col, ws)) == seq_sum(nb, colored_weight(col, ws)),
    decreases nb.len(),
{
    if nb.len() == 0 {
        assert forall|c: nat| c < k implies 0 <= #[trigger] cost_by_color(nb, col, ws)(c) <= 0 by {}
        lemma_range_sum_bounds(k, cost_by_color(nb, col, ws), 0);
    } else {
        let t = nb.drop_last();
        assert forall|i: int| 0 <= i < t.len() implies 0 <= #[trigger] t[i] < col.len() && (col[t[i] as int] is Some
            ==> col[t[i] as int]->0 < k) by {
            assert(t[i] == nb[i]);
        }
        lemma_cost_sum_over_colors(t, col, ws, k);
        let y = nb.last();
        match col[y as int] {
            Some(cy) => {
                assert forall|c: nat| c < k && c != cy as nat implies #[trigger] cost_by_color(t, col, ws)(c)
                    == cost_by_color(nb, col, ws)(c) by {}
                lemma_range_sum_point(k, cost_by_color(t, col, ws), cost_by_color(nb, col, ws), cy as nat);
            },
            None => {
                lemma_range_sum_ext(k, cost_by_color(t, col, ws), cost_by_color(nb, col, ws));
            },
        }
    }
}

proof fn lemma_counts_total(col: Seq<Option<usize>>, k: nat)
    requires
        k <= usize::MAX,
        forall|x: int| 0 <= x < col.len() && #[trigger] col[x] is Some ==> col[x]->0 < k,
    ensures
        range_sum(k, some_counts(col)) + count_none(col) == col.len(),
    decreases col.len(),
{
    if col.len() == 0 {
        assert forall|c: nat| c < k implies 0 <= #[trigger] some_counts(col)(c) <= 0 by {}
        lemma_range_sum_bounds(k, some_counts(col), 0);
    } else {
        let t = col.drop_last();
        assert forall|x: int| 0 <= x < t.len() && #[trigger] t[x] is Some implies t[x]->0 < k by {
            assert(t[x] == col[x]);
        }
        lemma_counts_total(t, k);
        match col.last() {
            Some(c0) => {
                assert(col[col.len() - 1] is Some);
                assert forall|c: nat| c < k && c != c0 as nat implies #[trigger] some_counts(t)(c)
                    == some_counts(col)(c) by {}
                lemma_range_sum_point(k, some_counts(t), some_counts(col), c0 as nat);
            },
            None => {
                lemma_range_sum_ext(k, some_counts(t), some_counts(col));
            },
        }
    }
}

proof fn lemma_uncolored_len(col: Seq<Option<usize>>, m: nat)
    requires
        m <= col.len(),
        col.len() <= usize::MAX,
    ensures
        Set::new(|x: usize| x < m && col[x as int] is None).finite(),
        Set::new(|x: usize| x < m && col[x as int] is None).len() == count_none(col.take(m as int)),
    decreases m,
{
    if m == 0 {
        assert(Set::new(|x: usize| x < 0 && col[x as int] is None) =~= Set::<usize>::empty());
        assert(col.take(0) =~= Seq::<Option<usize>>::empty());
    } else {
        let j = (m - 1) as nat;
        lemma_uncolored_len(col, j);
        assert(col.take(m as int).drop_last() =~= col.take(j as int));
        let a = Set::new(|x: usize| x < j && col[x as int] is None);
        let b = Set::new(|x: usize| x < m && col[x as int] is None);
        if col[j as int] is None {
            assert(b =~= a.insert(j as usize));
            assert(!a.contains(j as usize));
        } else {
            assert(b =~= a);
        }
    }
}

impl PartialWeightingLocalSearch {
    /// The total weight is zero exactly when every vertex is colored.
    pub proof fn lemma_zero_weight_iff_total(&self, g: &DimacsInstance)
        requires
            self.wf(g),
        ensures
            (self.total_weight == 0) <==> forall|x: int| 0 <= x < self.n ==> #[trigger] self.colors@[x] is Some,
    {
        let n = self.n as nat;
        let f = uncolored_weight(self.colors@, self.weights@);
        assert forall|x: nat| x < n implies 0 <= #[trigger] f(x) by {}
        if self.total_weight == 0 {
            crate::sums::lemma_range_sum_zero(n, f);
            assert forall|x: int| 0 <= x < self.n implies #[trigger] self.colors@[x] is Some by {
                assert(f(x as nat) == 0);
            }
        }
        if forall|x: int| 0 <= x < self.n ==> #[trigger] self.colors@[x] is Some {
            assert forall|x: nat| x < n implies 0 <= #[trigger] f(x) <= 0 by {
                assert(self.colors@[x as int] is Some);
            }
            lemma_range_sum_bounds(n, f, 0);
        }
    }

    /// For every vertex v, its coloring costs summed over all colors add up to
    /// the weights of its colored neighbors.
    pub proof fn lemma_cost_total(&self, g: &DimacsInstance, v: usize)
        requires
            self.wf(g),
            v < self.n,
        ensures
            range_sum(
                self.nb_initial_colors as nat,
                |c: nat| self.cost_coloring@[v as int]@[c as int] as int,
            ) == seq_sum(g.nbrs()[v as int], colored_weight(self.colors@, self.weights@)),
    {
        let nb = g.nbrs()[v as int];
        assert forall|i: int| 0 <= i < nb.len() implies 0 <= #[trigger] nb[i] < self.colors@.len() && (
        self.colors@[nb[i] as int] is Some ==> self.colors@[nb[i] as int]->0 < self.nb_initial_colors) by {}
        lemma_cost_sum_over_colors(nb, self.colors@, self.weights@, self.nb_initial_colors as nat);
        lemma_range_sum_ext(
            self.nb_initial_colors as nat,
            |c: nat| self.cost_coloring@[v as int]@[c as int] as int,
            cost_by_color(nb, self.colors@, self.weights@),
        );
    }

    /// The class sizes and the number of uncolored vertices add up to the
    /// number of vertices.
    pub proof fn lemma_sizes_and_uncolored(&self, g: &DimacsInstance)
        requires
            self.wf(g),
        ensures
            range_sum(
                self.nb_initial_colors as nat,
                |c: nat| self.colors_vertex_number@[c as int] as int,
            ) + sparse_members(self.uncolored_vertices).len() == self.n,
    {
        let col = self.colors@;
        let n = self.n;
        lemma_counts_total(col, self.nb_initial_colors as nat);
        lemma_range_sum_ext(
            self.nb_initial_colors as nat,
            |c: nat| self.colors_vertex_number@[c as int] as int,
            some_counts(col),
        );
        let m = sparse_members(self.uncolored_vertices);
        lemma_uncolored_len(col, n as nat);
        assert(col.take(n as int) =~= col);
        m.unique_seq_to_set();
        assert(m.to_set() =~= Set::new(|x: usize| x < n && col[x as int] is None)) by {
            assert forall|x: usize| m.to_set().contains(x) <==> (x < n && col[x as int] is None) by {
                assert(m.contains(x) <==> (x < n && col[x as int] is None));
            }
        }
    }
}

} // verus!
