use vstd::prelude::*;
use crate::bitset::{VertexSet, bits_of};
use crate::color::{DimacsInstance, VertexId, below, lemma_below};

verus! {

/// the vertices of s are pairwise adjacent, each listed once, all in the graph
pub open spec fn is_clique(g: &DimacsInstance, s: Seq<VertexId>) -> bool {
    &&& s.no_duplicates()
    &&& forall|i: int| 0 <= i < s.len() ==> #[trigger] s[i] < g.n
    &&& forall|i: int, j: int|
        0 <= i < s.len() && 0 <= j < s.len() && i != j ==> g.adj(#[trigger] s[i] as int, #[trigger] s[j] as int)
}

/// the vertices that may extend the clique s: outside s and adjacent to all of s
pub open spec fn extensions(g: &DimacsInstance, s: Seq<VertexId>) -> Set<VertexId> {
    Set::new(|u: VertexId| u < g.n && !s.contains(u) && forall|w: VertexId| #[trigger] s.contains(w) ==> g.adj(u as int, w as int))
}

/// Implements a CLIQUE search space.
/// root: no vertex is added
/// decisions: add a vertex to the CLIQUE. mark its non-neighbors as non-candidates
pub struct CLIQUESpace {
    /// number of vertices of the instance
    pub n: usize,
}

/// a clique under construction, with the vertices that may extend it
pub struct CliqueNode {
    /// vertices in the CLIQUE
    pub clique: Vec<VertexId>,
    /// candidate vertices
    pub candidates: VertexSet,
}

impl CliqueNode {
    /// the clique is a clique and the candidates are exactly its extensions
    pub open spec fn wf(&self, g: &DimacsInstance) -> bool {
        &&& is_clique(g, self.clique@)
        &&& bits_of(self.candidates) == extensions(g, self.clique@)
    }
}

impl CLIQUESpace {
    /// CLIQUE space constructor
    pub fn new(g: &DimacsInstance) -> (r: Self)
        ensures
            r.n == g.n,
    {
        CLIQUESpace { n: g.n }
    }

    /// the empty clique, which every vertex may extend
    pub fn initial(&self, g: &DimacsInstance) -> (r: CliqueNode)
        requires
            g.wf(),
            self.n == g.n,
        ensures
            r.wf(g),
            r.clique@.len() == 0,
    {
        let mut candidates = VertexSet::with_capacity(self.n);
        let mut i: usize = 0;
        while i < self.n
            invariant
                g.wf(),
                self.n == g.n,
                i <= self.n,
                bits_of(candidates) == below(i as nat),
            decreases self.n - i,
        {
            candidates.insert(i);
            proof {
                assert(bits_of(candidates) =~= below((i + 1) as nat));
            }
            i += 1;
        }
        let r = CliqueNode { clique: Vec::new(), candidates };
        proof {
            assert(bits_of(r.candidates) =~= extensions(g, r.clique@));
        }
        r
    }

    /// adds a candidate vertex v to the clique; its non-neighbors stop being candidates
    pub fn add_vertex(&self, g: &DimacsInstance, node: &CliqueNode, v: VertexId) -> (r: CliqueNode)
        requires
            g.wf(),
            self.n == g.n,
            node.wf(g),
            bits_of(node.candidates).contains(v),
        ensures
            r.wf(g),
            r.clique@ == node.clique@.push(v),
            bits_of(r.candidates) == bits_of(node.candidates).remove(v).filter(
                |u: VertexId| g.adj(u as int, v as int),
            ),
    {
        let ghost s = node.clique@;
        let mut clique: Vec<VertexId> = Vec::new();
        let mut i: usize = 0;
        while i < node.clique.len()
            invariant
                i <= s.len(),
                s == node.clique@,
                clique@ == s.take(i as int),
            decreases s.len() - i,
        {
            clique.push(node.clique[i]);
            i += 1;
            proof {
                assert(clique@ =~= s.take(i as int));
            }
        }
        proof {
            assert(s.take(s.len() as int) =~= s);
        }
        clique.push(v);
        let olds = node.candidates.elements();
        let mut candidates = VertexSet::with_capacity(self.n);
        assert(extensions(g, s).contains(v));
        let ghost target = bits_of(node.candidates).remove(v).filter(|u: VertexId| g.adj(u as int, v as int));
        let mut t: usize = 0;
        while t < olds.len()
            invariant
                g.wf(),
                self.n == g.n,
                t <= olds@.len(),
                olds@.to_set() == bits_of(node.candidates),
                bits_of(node.candidates) == extensions(g, s),
                target == bits_of(node.candidates).remove(v).filter(|u: VertexId| g.adj(u as int, v as int)),
                v < g.n,
                forall|u: VertexId|
                    #[trigger] bits_of(candidates).contains(u) <==> (olds@.take(t as int).contains(u)
                        && target.contains(u)),
            decreases olds@.len() - t,
        {
            let u = olds[t];
            proof {
                assert(olds@.to_set().contains(u));
                assert(u < g.n);
            }
            if u != v && g.are_adjacent(u, v) {
                candidates.insert(u);
            }
            proof {
                assert forall|x: VertexId|
                    #[trigger] bits_of(candidates).contains(x) <==> (olds@.take(t + 1).contains(x)
                        && target.contains(x)) by {
                    assert(olds@.take(t + 1) == olds@.take(t as int).push(u));
                    vstd::seq_lib::lemma_seq_contains_after_push(olds@.take(t as int), u, x);
                }
            }
            t += 1;
        }
        let r = CliqueNode { clique, candidates };
        proof {
            assert(olds@.take(olds@.len() as int) =~= olds@);
            assert(bits_of(r.candidates) =~= target) by {
                assert forall|x: VertexId| target.contains(x) implies bits_of(r.candidates).contains(x) by {
                    assert(olds@.to_set().contains(x));
                }
            }
            let s2 = r.clique@;
            assert(s2 == s.push(v));
            assert(extensions(g, s).contains(v));
            assert forall|x: VertexId| s2.contains(x) <==> (s.contains(x) || x == v) by {
                vstd::seq_lib::lemma_seq_contains_after_push(s, v, x);
            }
            assert(is_clique(g, s2)) by {
                assert forall|i: int, j: int|
                    0 <= i < s2.len() && 0 <= j < s2.len() && i != j implies s2[i] != s2[j] by {
                    if i == s.len() {
                        assert(s.contains(s2[j]));
                    } else if j == s.len() {
                        assert(s.contains(s2[i]));
                    }
                }
                assert forall|i: int| 0 <= i < s2.len() implies #[trigger] s2[i] < g.n by {}
                assert forall|i: int, j: int|
                    0 <= i < s2.len() && 0 <= j < s2.len() && i != j implies g.adj(
                    #[trigger] s2[i] as int,
                    #[trigger] s2[j] as int,
                ) by {
                    if i == s.len() {
                        assert(s.contains(s2[j]));
                    } else if j == s.len() {
                        assert(s.contains(s2[i]));
                        assert(g.adj(v as int, s2[i] as int));
                    }
                }
            }
            assert(bits_of(r.candidates) =~= extensions(g, s2)) by {
                assert forall|x: VertexId| extensions(g, s2).contains(x) implies target.contains(x) by {
                    assert(s2.contains(v));
                    assert(g.adj(x as int, v as int));
                    assert forall|w: VertexId| #[trigger] s.contains(w) implies g.adj(x as int, w as int) by {
                        assert(s2.contains(w));
                    }
                }
                assert forall|x: VertexId| target.contains(x) implies extensions(g, s2).contains(x) by {
                    assert forall|w: VertexId| #[trigger] s2.contains(w) implies g.adj(x as int, w as int) by {}
                }
            }
        }
        r
    }
}

/// implements a greedy algorithm that finds a "large" size clique: it adds the
/// candidate vertex of largest degree (the last one among equals) until no
/// candidate remains; the result is a clique that no vertex can extend
pub fn greedy_clique(g: &DimacsInstance) -> (r: Vec<VertexId>)
    requires
        g.wf(),
    ensures
        is_clique(g, r@),
        forall|u: VertexId| u < g.n && !r@.contains(u) ==> exists|w: VertexId| #[trigger] r@.contains(w) && !g.adj(u as int, w as int),
{
    let space = CLIQUESpace::new(g);
    let mut node = space.initial(g);
    proof {
        lemma_below(g.n as nat);
    }
    loop
        invariant
            g.wf(),
            space.n == g.n,
            node.wf(g),
            bits_of(node.candidates).subset_of(below(g.n as nat)),
            below(g.n as nat).finite(),
        decreases bits_of(node.candidates).len(),
    {
        proof {
            vstd::set_lib::lemma_len_subset(bits_of(node.candidates), below(g.n as nat));
        }
        let cands = node.candidates.elements();
        if cands.len() == 0 {
            proof {
                assert forall|u: VertexId| u < g.n && !node.clique@.contains(u) implies exists|w: VertexId|
                    #[trigger] node.clique@.contains(w) && !g.adj(u as int, w as int) by {
                    if !extensions(g, node.clique@).contains(u) {
                    } else {
                        assert(cands@.to_set().contains(u));
                    }
                }
            }
            return node.clique;
        }
        let mut best = cands[0];
        assert(cands@.to_set().contains(best));
        let mut best_degree = g.degree(best);
        let mut t: usize = 1;
        while t < cands.len()
            invariant
                g.wf(),
                1 <= t <= cands@.len(),
                cands@.to_set().contains(best),
                cands@.to_set() == bits_of(node.candidates),
                bits_of(node.candidates) == extensions(g, node.clique@),
            decreases cands@.len() - t,
        {
            let u = cands[t];
            proof {
                assert(cands@.to_set().contains(u));
                assert(extensions(g, node.clique@).contains(u));
            }
            let d = g.degree(u);
            if d >= best_degree {
                best = u;
                best_degree = d;
            }
            t += 1;
        }
        proof {
            assert(cands@.to_set().contains(cands@[0]));
        }
        let ghost before = bits_of(node.candidates);
        node = space.add_vertex(g, &node, best);
        proof {
            assert(bits_of(node.candidates).subset_of(before.remove(best)));
            vstd::set_lib::lemma_len_subset(bits_of(node.candidates), before.remove(best));
        }
    }
}

/// transforms a clique given as a vector into a partition in two classes:
/// the clique, then the other vertices below n in increasing order
pub fn clique_vec_to_vecvec(sol: &Vec<VertexId>, n: usize) -> (r: Vec<Vec<VertexId>>)
    requires
        n < usize::MAX,
        forall|i: int| 0 <= i < sol@.len() ==> #[trigger] sol@[i] < usize::MAX,
    ensures
        r@.len() == 2,
        r@[0]@ == sol@,
        forall|x: VertexId| #[trigger] r@[1]@.contains(x) <==> (x < n && !sol@.contains(x)),
        forall|i: int, j: int| 0 <= i < j < r@[1]@.len() ==> r@[1]@[i] < r@[1]@[j],
{
    let mut clique: Vec<VertexId> = Vec::new();
    let mut inside = VertexSet::with_capacity(n);
    let mut i: usize = 0;
    while i < sol.len()
        invariant
            i <= sol@.len(),
            clique@ == sol@.take(i as int),
            bits_of(inside) == sol@.take(i as int).to_set(),
            forall|k: int| 0 <= k < sol@.len() ==> #[trigger] sol@[k] < usize::MAX,
        decreases sol@.len() - i,
    {
        proof {
            assert(sol@.take(i + 1) == sol@.take(i as int).push(sol@[i as int]));
            sol@.take(i as int).lemma_push_to_set_commute(sol@[i as int]);
        }
        clique.push(sol[i]);
        inside.insert(sol[i]);
        i += 1;
    }
    proof {
        assert(sol@.take(sol@.len() as int) =~= sol@);
    }
    let mut non_clique: Vec<VertexId> = Vec::new();
    let mut x: usize = 0;
    while x < n
        invariant
            x <= n,
            bits_of(inside) == sol@.to_set(),
            forall|y: VertexId| #[trigger] non_clique@.contains(y) <==> (y < x && !sol@.contains(y)),
            forall|a: int, b: int| 0 <= a < b < non_clique@.len() ==> non_clique@[a] < non_clique@[b],
            forall|a: int| 0 <= a < non_clique@.len() ==> #[trigger] non_clique@[a] < x,
        decreases n - x,
    {
        if !inside.contains(x) {
            let ghost before = non_clique@;
            non_clique.push(x);
            proof {
                assert forall|y: VertexId| #[trigger] non_clique@.contains(y) <==> (y < x + 1 && !sol@.contains(y)) by {
                    vstd::seq_lib::lemma_seq_contains_after_push(before, x, y);
                    assert(sol@.contains(y) == sol@.to_set().contains(y));
                }
            }
        } else {
            proof {
                assert(sol@.to_set().contains(x));
                assert forall|y: VertexId| #[trigger] non_clique@.contains(y) <==> (y < x + 1 && !sol@.contains(y)) by {}
            }
        }
        x += 1;
    }
    let mut r: Vec<Vec<VertexId>> = Vec::new();
    r.push(clique);
    r.push(non_clique);
    r
}

/// no vertex outside the clique s is adjacent to all of s
pub open spec fn is_maximal(g: &DimacsInstance, s: Seq<VertexId>) -> bool {
    forall|y: VertexId| y < g.n && !s.contains(y) ==> exists|w: VertexId| #[trigger] s.contains(w) && !g.adj(y as int, w as int)
}

/// extends a clique, vertex by vertex in increasing order, into a maximal clique
pub fn extend_to_maximal(g: &DimacsInstance, c: &Vec<VertexId>) -> (r: Vec<VertexId>)
    requires
        g.wf(),
        is_clique(g, c@),
    ensures
        is_clique(g, r@),
        is_maximal(g, r@),
        r@.len() >= c@.len(),
        r@.take(c@.len() as int) == c@,
{
    let mut res: Vec<VertexId> = Vec::new();
    let mut i: usize = 0;
    while i < c.len()
        invariant
            i <= c@.len(),
            res@ == c@.take(i as int),
        decreases c@.len() - i,
    {
        res.push(c[i]);
        i += 1;
        proof {
            assert(res@ =~= c@.take(i as int));
        }
    }
    proof {
        assert(c@.take(c@.len() as int) =~= c@);
    }
    let mut x: usize = 0;
    while x < g.n
        invariant
            g.wf(),
            x <= g.n,
            is_clique(g, res@),
            res@.len() >= c@.len(),
            res@.take(c@.len() as int) == c@,
            forall|y: VertexId| y < x && !res@.contains(y) ==> exists|w: VertexId| #[trigger] res@.contains(w) && !g.adj(y as int, w as int),
        decreases g.n - x,
    {
        let mut all = true;
        let mut in_res = false;
        let mut t: usize = 0;
        while t < res.len()
            invariant
                g.wf(),
                x < g.n,
                is_clique(g, res@),
                t <= res@.len(),
                all ==> forall|k: int| 0 <= k < t ==> #[trigger] res@[k] == x || g.adj(x as int, res@[k] as int),
                !all ==> exists|w: VertexId| #[trigger] res@.contains(w) && !g.adj(x as int, w as int),
                in_res == exists|k: int| 0 <= k < t && #[trigger] res@[k] == x,
            decreases res@.len() - t,
        {
            let w = res[t];
            proof {
                assert(res@[t as int] < g.n);
            }
            if w == x {
                in_res = true;
            } else if !g.are_adjacent(x, w) {
                proof {
                    assert(res@.contains(w));
                }
                all = false;
            }
            t += 1;
        }
        let ghost before = res@;
        if !in_res && all {
            res.push(x);
            proof {
                let r2 = res@;
                assert(r2 == before.push(x));
                assert(!before.contains(x));
                crate::coloring_conflict_weighting::lemma_push_no_dup(before, x);
                assert forall|i: int, j: int|
                    0 <= i < r2.len() && 0 <= j < r2.len() && i != j implies g.adj(#[trigger] r2[i] as int, #[trigger] r2[j] as int) by {
                    if i == before.len() {
                        assert(before[j] != x);
                        assert(g.adj(x as int, before[j] as int));
                    } else if j == before.len() {
                        assert(before[i] != x);
                        assert(g.adj(x as int, before[i] as int));
                        assert(g.adj(before[i] as int, x as int));
                    }
                }
                assert forall|i: int| 0 <= i < r2.len() implies #[trigger] r2[i] < g.n by {}
                assert(r2.take(c@.len() as int) =~= before.take(c@.len() as int));
                assert forall|y: VertexId| y < x + 1 && !r2.contains(y) implies exists|w: VertexId| #[trigger] r2.contains(w) && !g.adj(y as int, w as int) by {
                    vstd::seq_lib::lemma_seq_contains_after_push(before, x, y);
                    let w = choose|w: VertexId| #[trigger] before.contains(w) && !g.adj(y as int, w as int);
                    vstd::seq_lib::lemma_seq_contains_after_push(before, x, w);
                }
            }
        } else {
            proof {
                assert forall|y: VertexId| y < x + 1 && !res@.contains(y) implies exists|w: VertexId| #[trigger] res@.contains(w) && !g.adj(y as int, w as int) by {
                    if y == x && all {
                        let k = choose|k: int| 0 <= k < res@.len() && #[trigger] res@[k] == x;
                        assert(res@.contains(x));
                    }
                }
            }
        }
        x += 1;
    }
    res
}

} // verus!
