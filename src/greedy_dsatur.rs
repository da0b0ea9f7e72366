use vstd::prelude::*;
use priority_queue::PriorityQueue;
use crate::bitset::{VertexSet, bits_of};
use crate::color::{
    DimacsInstance,
    VertexId,
    below,
    classes,
    colors_to_partition,
    is_proper_coloring,
    lemma_below,
    within,
};
use crate::coloring_conflict_weighting::lemma_partition_proper;

verus! {

/// Vertices keyed by (saturation, degree). The priority queue of
/// `priority_queue` stays hidden in a private field: its declaration carries a
/// hasher parameter that cannot be declared here.
#[verifier::external_body]
pub struct VertexQueue {
    pq: PriorityQueue<usize, (usize, usize)>,
}

/// The items of a queue with their priorities.
pub uninterp spec fn queue_of(q: VertexQueue) -> Map<usize, (usize, usize)>;

/// p is at most q in the lexicographic order of pairs
pub open spec fn pair_le(p: (usize, usize), q: (usize, usize)) -> bool {
    p.0 < q.0 || (p.0 == q.0 && p.1 <= q.1)
}

impl VertexQueue {
    /// Relies on PriorityQueue::new: an empty queue.
    #[verifier::external_body]
    pub fn new() -> (r: VertexQueue)
        ensures
            queue_of(r).dom() =~= Set::<usize>::empty(),
    {
        VertexQueue { pq: PriorityQueue::new() }
    }

    /// Relies on PriorityQueue::push: an absent item is added with its priority.
    #[verifier::external_body]
    pub fn push(&mut self, item: usize, p: (usize, usize))
        requires
            !queue_of(*old(self)).contains_key(item),
        ensures
            queue_of(*final(self)) == queue_of(*old(self)).insert(item, p),
    {
        self.pq.push(item, p);
    }

    /// Relies on PriorityQueue::pop: an item of greatest priority leaves the
    /// queue; pairs are ordered lexicographically.
    #[verifier::external_body]
    pub fn pop(&mut self) -> (r: Option<(usize, (usize, usize))>)
        ensures
            match r {
                None => queue_of(*old(self)).dom() =~= Set::<usize>::empty() && queue_of(*final(self))
                    == queue_of(*old(self)),
                Some((i, p)) => {
                    &&& queue_of(*old(self)).contains_key(i)
                    &&& queue_of(*old(self))[i] == p
                    &&& queue_of(*final(self)) == queue_of(*old(self)).remove(i)
                    &&& forall|j: usize| #[trigger] queue_of(*old(self)).contains_key(j) ==> pair_le(queue_of(*old(self))[j], p)
                },
            },
    {
        self.pq.pop()
    }

    /// Relies on PriorityQueue::change_priority: the priority of a queued item is replaced.
    #[verifier::external_body]
    pub fn change_priority(&mut self, item: usize, p: (usize, usize))
        requires
            queue_of(*old(self)).contains_key(item),
        ensures
            queue_of(*final(self)) == queue_of(*old(self)).insert(item, p),
    {
        self.pq.change_priority(&item, p);
    }
}

/// the colors of the colored neighbors nb
pub open spec fn seen_colors(nb: Seq<usize>, col: Seq<Option<usize>>) -> Set<usize> {
    Set::new(|c: usize| exists|i: int| 0 <= i < nb.len() && #[trigger] col[nb[i] as int] == Some(c))
}

/// color of a neighbor, or n when uncolored
pub open spec fn color_or(col: Seq<Option<usize>>, n: usize) -> spec_fn(usize) -> usize {
    |y: usize|
        match col[y as int] {
            Some(c) => c,
            None => n,
        }
}

/// greedy DSATUR coloring: repeatedly colors the uncolored vertex that sees
/// the most colors (ties: the largest degree) with the smallest color none of
/// its neighbors has; returns a proper coloring of the graph
#[verifier::loop_isolation(false)]
pub fn greedy_dsatur(g: &DimacsInstance) -> (r: Vec<Vec<VertexId>>)
    requires
        g.wf(),
    ensures
        is_proper_coloring(*g, classes(r@)),
        within(classes(r@), g.n as nat),
        forall|t: int| 0 <= t < r@.len() ==> #[trigger] r@[t]@.len() > 0,
        forall|c: int, i: int, c2: int|
            crate::color::is_pos(classes(r@), c, i) && 0 <= c2 < c ==> #[trigger] neighbor_in_class(
                g,
                classes(r@),
                classes(r@)[c][i],
                c2,
            ),
        r@.len() > 0 ==> exists|v: int| 0 <= v < g.n && r@.len() <= #[trigger] g.nbrs()[v].len() + 1,
{
    let n = g.n;
    let mut queue = VertexQueue::new();
    let mut colors: Vec<Option<usize>> = vec![None; n];
    let mut adj_colors: Vec<VertexSet> = Vec::new();
    let mut nb_seen: Vec<usize> = Vec::new();
    let mut x: usize = 0;
    while x < n
        invariant
            g.wf(),
            n == g.n,
            x <= n,
            colors@.len() == n,
            forall|y: int| 0 <= y < n ==> #[trigger] colors@[y] is None,
            adj_colors@.len() == x,
            nb_seen@.len() == x,
            forall|y: int| 0 <= y < x ==> bits_of(#[trigger] adj_colors@[y]) == Set::<usize>::empty(),
            forall|y: usize| #[trigger] queue_of(queue).contains_key(y) <==> y < x,
        decreases n - x,
    {
        queue.push(x, (0, g.degree(x)));
        adj_colors.push(VertexSet::with_capacity(n));
        nb_seen.push(0);
        x += 1;
    }
    let mut nb_colors: usize = 0;
    proof {
        assert forall|y: int| 0 <= y < n implies bits_of(#[trigger] adj_colors@[y]) == seen_colors(g.nbrs()[y], colors@) by {
            assert(seen_colors(g.nbrs()[y], colors@) =~= Set::<usize>::empty());
        }
    }
    let mut steps: usize = 0;
    proof {
        lemma_below(n as nat);
        assert(Set::new(|y: usize| y < n && colors@[y as int] is None) =~= below(n as nat));
    }
    while steps < n
        invariant
            g.wf(),
            n == g.n,
            steps <= n,
            colors@.len() == n,
            adj_colors@.len() == n,
            nb_seen@.len() == n,
            forall|y: usize| #[trigger] queue_of(queue).contains_key(y) <==> (y < n && colors@[y as int] is None),
            forall|y: int| 0 <= y < n && colors@[y] is None ==> bits_of(#[trigger] adj_colors@[y]) == seen_colors(g.nbrs()[y], colors@),
            forall|y: int| 0 <= y < n && #[trigger] colors@[y] is Some ==> colors@[y]->0 < nb_colors,
            forall|k: usize| k < nb_colors ==> #[trigger] color_used(colors@, n, k),
            forall|y: int, k: usize|
                0 <= y < n && colors@[y] is Some && k < colors@[y]->0 ==> #[trigger] has_neighbor_colored(
                    g,
                    colors@,
                    y,
                    k,
                ),
            forall|y: int| 0 <= y < n && #[trigger] colors@[y] is Some ==> colors@[y]->0 <= g.nbrs()[y].len(),
            nb_colors > 0 ==> exists|y: int| 0 <= y < n && #[trigger] colors@[y] == Some((nb_colors - 1) as usize),
            nb_colors <= n,
            forall|y: int, i: int|
                0 <= y < n && 0 <= i < g.nbrs()[y].len() && #[trigger] colors@[y] is Some && colors@[
                    #[trigger] g.nbrs()[y][i] as int] is Some ==> colors@[g.nbrs()[y][i] as int] != colors@[y],
            n - steps == Set::new(|y: usize| y < n && colors@[y as int] is None).len(),
            Set::new(|y: usize| y < n && colors@[y as int] is None).finite(),
        decreases n - steps,
    {
        let popped = queue.pop();
        let v = match popped {
            None => {
                proof {
                    assert forall|y: usize| y < n implies colors@[y as int] is Some by {
                        assert(!queue_of(queue).contains_key(y));
                    }
                    assert(Set::new(|y: usize| y < n && colors@[y as int] is None) =~= Set::<usize>::empty());
                }
                break;
            },
            Some((v, _)) => v,
        };
        let ghost col0 = colors@;
        let ghost nb = g.nbrs()[v as int];
        proof {
            assert(v < n && col0[v as int] is None);
            // the seen colors number at most the degree
            let img = nb.map_values(color_or(col0, n));
            img.lemma_cardinality_of_set();
            assert(bits_of(adj_colors@[v as int]).subset_of(img.to_set())) by {
                assert forall|c: usize| bits_of(adj_colors@[v as int]).contains(c) implies img.to_set().contains(c) by {
                    let i = choose|i: int| 0 <= i < nb.len() && #[trigger] col0[nb[i] as int] == Some(c);
                    assert(img[i] == c);
                }
            }
            vstd::set_lib::lemma_len_subset(bits_of(adj_colors@[v as int]), img.to_set());
        }
        let mut c: usize = 0;
        while adj_colors[v].contains(c)
            invariant
                v < n,
                n == g.n,
                adj_colors@.len() == n,
                nb == g.nbrs()[v as int],
                nb.len() < n,
                bits_of(adj_colors@[v as int]).finite(),
                bits_of(adj_colors@[v as int]).len() <= nb.len(),
                c <= nb.len(),
                below(c as nat).subset_of(bits_of(adj_colors@[v as int])),
            decreases nb.len() - c,
        {
            proof {
                assert(below((c + 1) as nat).subset_of(bits_of(adj_colors@[v as int])));
                lemma_below((c + 1) as nat);
                vstd::set_lib::lemma_len_subset(below((c + 1) as nat), bits_of(adj_colors@[v as int]));
            }
            c += 1;
        }
        let ghost nb0 = nb_colors;
        colors[v] = Some(c);
        if c + 1 > nb_colors {
            nb_colors = c + 1;
        }
        proof {
            assert forall|k: usize| k < nb_colors implies #[trigger] color_used(colors@, n, k) by {
                if k == c {
                    assert(colors@[v as int] == Some(k));
                } else if k < nb0 {
                    assert(color_used(col0, n, k));
                    let y = choose|y: int| 0 <= y < n && #[trigger] col0[y] == Some(k);
                    assert(colors@[y] == Some(k));
                } else {
                    assert(k < c);
                    assert(below(c as nat).contains(k));
                    assert(seen_colors(nb, col0).contains(k));
                    let i = choose|i: int| 0 <= i < nb.len() && #[trigger] col0[nb[i] as int] == Some(k);
                    assert(nb[i] < n);
                    assert(colors@[nb[i] as int] == Some(k));
                }
            }
            assert forall|y: int, k: usize|
                0 <= y < n && colors@[y] is Some && k < colors@[y]->0 implies #[trigger] has_neighbor_colored(
                    g,
                    colors@,
                    y,
                    k,
                ) by {
                if y == v {
                    assert(below(c as nat).contains(k));
                    assert(seen_colors(nb, col0).contains(k));
                    let i = choose|i: int| 0 <= i < nb.len() && #[trigger] col0[nb[i] as int] == Some(k);
                    assert(nb[i] < n && nb[i] != v);
                    assert(colors@[nb[i] as int] == Some(k));
                } else {
                    assert(col0[y] is Some);
                    assert(has_neighbor_colored(g, col0, y, k));
                    let j = choose|j: int| 0 <= j < g.nbrs()[y].len() && #[trigger] col0[g.nbrs()[y][j] as int] == Some(k);
                    assert(g.nbrs()[y][j] < n);
                    assert(colors@[g.nbrs()[y][j] as int] == Some(k));
                }
            }
            if nb_colors > 0 {
                if c + 1 > nb0 {
                    assert(colors@[v as int] == Some((nb_colors - 1) as usize));
                } else {
                    let y = choose|y: int| 0 <= y < n && #[trigger] col0[y] == Some((nb0 - 1) as usize);
                    assert(colors@[y] == Some((nb_colors - 1) as usize));
                }
            }
        }
        let l = g.neighbors(v);
        let mut t: usize = 0;
        while t < l.len()
            invariant
                g.wf(),
                n == g.n,
                v < n,
                l@ == nb,
                nb == g.nbrs()[v as int],
                t <= nb.len(),
                colors@ == col0.update(v as int, Some(c)),
                col0.len() == n,
                colors@.len() == n,
                adj_colors@.len() == n,
                nb_seen@.len() == n,
                forall|y: usize| #[trigger] queue_of(queue).contains_key(y) <==> (y < n && colors@[y as int] is None),
                forall|y: int|
                    0 <= y < n && colors@[y] is None ==> bits_of(#[trigger] adj_colors@[y]) == if nb.take(t as int).contains(y as usize) {
                        seen_colors(g.nbrs()[y], colors@)
                    } else {
                        seen_colors(g.nbrs()[y], col0)
                    },
            decreases nb.len() - t,
        {
            let u = l[t];
            let ghost adj0 = adj_colors@;
            proof {
                assert(nb[t as int] == u && u < n);
                assert(nb.take(t + 1) == nb.take(t as int).push(u));
            }
            if colors[u].is_none() {
                proof {
                    assert(g.adj(v as int, u as int)) by {
                        assert(nb.contains(u));
                    }
                    assert(g.adj(u as int, v as int));
                    let nbu = g.nbrs()[u as int];
                    assert(nbu.contains(v));
                    let q = choose|q: int| 0 <= q < nbu.len() && nbu[q] == v;
                    assert(nb.no_duplicates());
                    assert(!nb.take(t as int).contains(u)) by {
                        if nb.take(t as int).contains(u) {
                            let k = choose|k: int| 0 <= k < t && nb.take(t as int)[k] == u;
                            assert(nb[k] == nb[t as int]);
                        }
                    }
                    assert(seen_colors(nbu, colors@) =~= seen_colors(nbu, col0).insert(c)) by {
                        assert(colors@[nbu[q] as int] == Some(c));
                        assert forall|c2: usize| seen_colors(nbu, colors@).contains(c2) implies seen_colors(nbu, col0).insert(c).contains(c2) by {
                            let i = choose|i: int| 0 <= i < nbu.len() && #[trigger] colors@[nbu[i] as int] == Some(c2);
                            if nbu[i] != v {
                                assert(col0[nbu[i] as int] == Some(c2));
                            }
                        }
                        assert forall|c2: usize| seen_colors(nbu, col0).contains(c2) implies seen_colors(nbu, colors@).contains(c2) by {
                            let i = choose|i: int| 0 <= i < nbu.len() && #[trigger] col0[nbu[i] as int] == Some(c2);
                            assert(nbu[i] != v);
                            assert(colors@[nbu[i] as int] == Some(c2));
                        }
                    }
                }
                if !adj_colors[u].contains(c) {
                    adj_colors[u].insert(c);
                    let s = nb_seen[u];
                    nb_seen[u] = if s < usize::MAX {
                        s + 1
                    } else {
                        s
                    };
                    queue.change_priority(u, (nb_seen[u], g.degree(u)));
                } else {
                    proof {
                        assert(bits_of(adj_colors@[u as int]) =~= bits_of(adj_colors@[u as int]).insert(c));
                    }
                }
            }
            proof {
                assert forall|y: int|
                    0 <= y < n && colors@[y] is None implies bits_of(#[trigger] adj_colors@[y]) == if nb.take(t + 1).contains(y as usize) {
                        seen_colors(g.nbrs()[y], colors@)
                    } else {
                        seen_colors(g.nbrs()[y], col0)
                    } by {
                    vstd::seq_lib::lemma_seq_contains_after_push(nb.take(t as int), u, y as usize);
                    if y != u {
                        assert(adj_colors@[y] == adj0[y]);
                    }
                }
            }
            t += 1;
        }
        proof {
            assert(nb.take(nb.len() as int) =~= nb);
            let cols = colors@;
            assert forall|y: int| 0 <= y < n && cols[y] is None implies bits_of(#[trigger] adj_colors@[y]) == seen_colors(g.nbrs()[y], cols) by {
                if !nb.contains(y as usize) {
                    let nby = g.nbrs()[y];
                    assert(!nby.contains(v)) by {
                        if nby.contains(v) {
                            assert(g.adj(y, v as int));
                            assert(g.adj(v as int, y));
                        }
                    }
                    assert(seen_colors(nby, cols) =~= seen_colors(nby, col0)) by {
                        assert forall|c2: usize| seen_colors(nby, cols).contains(c2) implies seen_colors(nby, col0).contains(c2) by {
                            let i = choose|i: int| 0 <= i < nby.len() && #[trigger] cols[nby[i] as int] == Some(c2);
                            assert(nby[i] != v);
                        }
                        assert forall|c2: usize| seen_colors(nby, col0).contains(c2) implies seen_colors(nby, cols).contains(c2) by {
                            let i = choose|i: int| 0 <= i < nby.len() && #[trigger] col0[nby[i] as int] == Some(c2);
                            assert(nby[i] != v);
                            assert(cols[nby[i] as int] == Some(c2));
                        }
                    }
                }
            }
            // v got a color that no colored neighbor has
            assert forall|y: int, i: int|
                0 <= y < n && 0 <= i < g.nbrs()[y].len() && #[trigger] cols[y] is Some && cols[
                    #[trigger] g.nbrs()[y][i] as int] is Some implies cols[g.nbrs()[y][i] as int] != cols[y] by {
                let z = g.nbrs()[y][i];
                if y == v {
                    if cols[z as int] == Some(c) {
                        assert(col0[z as int] == Some(c));
                        assert(seen_colors(nb, col0).contains(c)) by {
                            assert(nb[i] == z);
                        }
                    }
                } else if z == v {
                    if cols[y] == Some(c) {
                        assert(col0[y] == Some(c));
                        assert(g.adj(y, v as int)) by {
                            assert(g.nbrs()[y].contains(v));
                        }
                        assert(g.adj(v as int, y));
                        let k = choose|k: int| 0 <= k < nb.len() && nb[k] == y as usize;
                        assert(seen_colors(nb, col0).contains(c)) by {
                            assert(col0[nb[k] as int] == Some(c));
                        }
                    }
                }
            }
            assert(Set::new(|y: usize| y < n && cols[y as int] is None) =~= Set::new(
                |y: usize| y < n && col0[y as int] is None,
            ).remove(v));
        }
        steps += 1;
    }
    proof {
        if steps == n {
            assert forall|y: usize| y < n implies colors@[y as int] is Some by {
                if colors@[y as int] is None {
                    assert(Set::new(|z: usize| z < n && colors@[z as int] is None).contains(y));
                }
            }
        }
    }
    let mut plain: Vec<usize> = Vec::new();
    let mut x: usize = 0;
    while x < n
        invariant
            n == g.n,
            x <= n,
            colors@.len() == n,
            forall|y: int| 0 <= y < n ==> #[trigger] colors@[y] is Some,
            plain@.len() == x,
            forall|y: int| 0 <= y < x ==> Some(#[trigger] plain@[y]) == colors@[y],
        decreases n - x,
    {
        plain.push(colors[x].unwrap());
        x += 1;
    }
    proof {
        assert forall|y: int| 0 <= y < plain@.len() implies #[trigger] plain@[y] < nb_colors by {
            assert(colors@[y] == Some(plain@[y]));
        }
        assert forall|y: int, i: int|
            0 <= y < g.n && 0 <= i < g.nbrs()[y].len() implies plain@[#[trigger] g.nbrs()[y][i] as int]
            != plain@[y] by {
            let z = g.nbrs()[y][i];
            assert(colors@[y] == Some(plain@[y]));
            assert(colors@[z as int] == Some(plain@[z as int]));
        }
    }
    let r = colors_to_partition(&plain, nb_colors);
    proof {
        lemma_partition_proper(g, classes(r@), plain@, nb_colors as nat);
        let rs = classes(r@);
        assert forall|c: int, i: int, c2: int|
            crate::color::is_pos(rs, c, i) && 0 <= c2 < c implies #[trigger] neighbor_in_class(g, rs, rs[c][i], c2) by {
            let y = rs[c][i];
            assert(r@[c]@[i] == y);
            assert(plain@[y as int] == c);
            assert(colors@[y as int] == Some(c as usize));
            assert(has_neighbor_colored(g, colors@, y as int, c2 as usize));
            let j = choose|j: int| 0 <= j < g.nbrs()[y as int].len() && #[trigger] colors@[g.nbrs()[y as int][j] as int] == Some(c2 as usize);
            let z = g.nbrs()[y as int][j];
            assert(z < n);
            assert(plain@[z as int] == c2);
            assert(crate::color::occurs(rs, z));
            let (c3, i3) = choose|c3: int, i3: int| crate::color::is_pos(rs, c3, i3) && #[trigger] rs[c3][i3] == z;
            assert(c3 == c2);
            assert(rs[c2][i3] == z);
            assert(rs[c2].contains(g.nbrs()[y as int][j]));
        }
        if r@.len() > 0 {
            let y = choose|y: int| 0 <= y < n && #[trigger] colors@[y] == Some((nb_colors - 1) as usize);
            assert(g.nbrs()[y].len() + 1 >= r@.len());
        }
        assert forall|t: int| 0 <= t < r@.len() implies #[trigger] r@[t]@.len() > 0 by {
            assert(color_used(colors@, n, t as usize));
            let y = choose|y: int| 0 <= y < n && #[trigger] colors@[y] == Some(t as usize);
            assert(plain@[y] == t);
            crate::color::lemma_used_class_nonempty(classes(r@), plain@, nb_colors as nat, y);
            assert(classes(r@)[t] == r@[t]@);
        }
    }
    r
}

/// some neighbor of v lies in class c of s
pub open spec fn neighbor_in_class(g: &DimacsInstance, s: Seq<Seq<VertexId>>, v: VertexId, c: int) -> bool {
    exists|j: int| 0 <= j < g.nbrs()[v as int].len() && #[trigger] s[c].contains(g.nbrs()[v as int][j])
}

/// some neighbor of y has color k
pub open spec fn has_neighbor_colored(g: &DimacsInstance, col: Seq<Option<usize>>, y: int, k: usize) -> bool {
    exists|j: int| 0 <= j < g.nbrs()[y].len() && #[trigger] col[g.nbrs()[y][j] as int] == Some(k)
}

/// some vertex below n has color k
pub open spec fn color_used(col: Seq<Option<usize>>, n: usize, k: usize) -> bool {
    exists|y: int| 0 <= y < n && #[trigger] col[y] == Some(k)
}

/// a comes before b in the order by decreasing degree, ties by increasing vertex
pub open spec fn ranked_before(g: &DimacsInstance, a: usize, b: usize) -> bool {
    g.nbrs()[a as int].len() > g.nbrs()[b as int].len() || (g.nbrs()[a as int].len()
        == g.nbrs()[b as int].len() && a < b)
}

/// DSATUR search space: the vertices ranked by decreasing degree
pub struct DSATURSpace {
    /// vertex_ranks[v]: rank of vertex v sorted by degree
    pub vertex_ranks: Vec<usize>,
    /// ranked_vertices[i]: vertex ranked at position i sorted by degree
    pub ranked_vertices: Vec<VertexId>,
}

impl DSATURSpace {
    /// creates a DSATUR search space. Sorts the vertices by decreasing degree
    /// (ties by increasing vertex)
    pub fn new(g: &DimacsInstance) -> (r: Self)
        requires
            g.wf(),
        ensures
            r.ranked_vertices@.len() == g.n,
            r.vertex_ranks@.len() == g.n,
            forall|i: int| 0 <= i < g.n ==> #[trigger] r.ranked_vertices@[i] < g.n && r.vertex_ranks@[
                r.ranked_vertices@[i] as int] == i,
            forall|v: int| 0 <= v < g.n ==> #[trigger] r.vertex_ranks@[v] < g.n && r.ranked_vertices@[
                r.vertex_ranks@[v] as int] == v,
            forall|i: int, j: int|
                0 <= i < j < g.n ==> ranked_before(g, #[trigger] r.ranked_vertices@[i], #[trigger] r.ranked_vertices@[j]),
    {
        let n = g.n;
        let mut ranked: Vec<VertexId> = Vec::new();
        let mut v: usize = 0;
        while v < n
            invariant
                g.wf(),
                n == g.n,
                v <= n,
                ranked@.len() == v,
                forall|i: int| 0 <= i < ranked@.len() ==> #[trigger] ranked@[i] < v,
                ranked@.no_duplicates(),
                forall|i: int, j: int|
                    0 <= i < j < ranked@.len() ==> ranked_before(g, #[trigger] ranked@[i], #[trigger] ranked@[j]),
            decreases n - v,
        {
            let dv = g.degree(v);
            let mut pos: usize = 0;
            while pos < ranked.len() && g.degree(ranked[pos]) >= dv
                invariant
                    g.wf(),
                    n == g.n,
                    v < n,
                    dv == g.nbrs()[v as int].len(),
                    pos <= ranked@.len(),
                    forall|i: int| 0 <= i < ranked@.len() ==> #[trigger] ranked@[i] < v,
                    forall|i: int| 0 <= i < pos ==> g.nbrs()[#[trigger] ranked@[i] as int].len() >= dv,
                decreases ranked@.len() - pos,
            {
                pos += 1;
            }
            let ghost old_r = ranked@;
            proof {
                // every vertex from pos on has a smaller degree
                assert forall|i: int| pos <= i < old_r.len() implies g.nbrs()[#[trigger] old_r[i] as int].len() < dv by {
                    if pos < old_r.len() {
                        assert(g.nbrs()[old_r[pos as int] as int].len() < dv);
                        if i > pos {
                            assert(ranked_before(g, old_r[pos as int], old_r[i]));
                        }
                    }
                }
                old_r.insert_ensures(pos as int, v);
            }
            ranked.insert(pos, v);
            proof {
                let r = ranked@;
                assert(r == old_r.insert(pos as int, v));
                assert forall|i: int| 0 <= i < r.len() implies #[trigger] r[i] < v + 1 by {
                    if i < pos {
                    } else if i > pos {
                        assert(r[i] == old_r[i - 1]);
                    }
                }
                assert(r.no_duplicates()) by {
                    assert forall|a: int, b: int| 0 <= a < r.len() && 0 <= b < r.len() && a != b implies r[a] != r[b] by {
                        if a != pos && b != pos {
                            let la = if a < pos { a } else { a - 1 };
                            let lb = if b < pos { b } else { b - 1 };
                            assert(r[a] == old_r[la] && r[b] == old_r[lb]);
                        } else if a == pos {
                            let lb = if b < pos { b } else { b - 1 };
                            assert(r[b] == old_r[lb] && old_r[lb] < v);
                        } else {
                            let la = if a < pos { a } else { a - 1 };
                            assert(r[a] == old_r[la] && old_r[la] < v);
                        }
                    }
                }
                assert forall|a: int, b: int| 0 <= a < b < r.len() implies ranked_before(g, #[trigger] r[a], #[trigger] r[b]) by {
                    if b < pos {
                    } else if a > pos {
                        assert(r[a] == old_r[a - 1] && r[b] == old_r[b - 1]);
                    } else if a == pos {
                        assert(r[b] == old_r[b - 1]);
                        assert(g.nbrs()[old_r[b - 1] as int].len() < dv);
                    } else if b == pos {
                        assert(r[a] == old_r[a]);
                        assert(g.nbrs()[old_r[a] as int].len() >= dv);
                        assert(old_r[a] < v);
                    } else {
                        assert(r[a] == old_r[a] && r[b] == old_r[b - 1]);
                    }
                }
            }
            v += 1;
        }
        let mut vertex_ranks: Vec<usize> = vec![0; n];
        let mut i: usize = 0;
        while i < n
            invariant
                n == g.n,
                i <= n,
                ranked@.len() == n,
                vertex_ranks@.len() == n,
                forall|k: int| 0 <= k < n ==> #[trigger] ranked@[k] < n,
                ranked@.no_duplicates(),
                forall|k: int| 0 <= k < i ==> vertex_ranks@[#[trigger] ranked@[k] as int] == k,
            decreases n - i,
        {
            let ghost before = vertex_ranks@;
            vertex_ranks[ranked[i]] = i;
            proof {
                assert forall|k: int| 0 <= k < i + 1 implies vertex_ranks@[#[trigger] ranked@[k] as int] == k by {
                    if k < i {
                        assert(ranked@[k] != ranked@[i as int]);
                    }
                }
            }
            i += 1;
        }
        proof {
            // ranked is a permutation of 0..n
            ranked@.unique_seq_to_set();
            lemma_below(n as nat);
            assert(ranked@.to_set().subset_of(below(n as nat))) by {
                assert forall|x: usize| ranked@.to_set().contains(x) implies below(n as nat).contains(x) by {
                    let k = choose|k: int| 0 <= k < ranked@.len() && ranked@[k] == x;
                }
            }
            assert forall|x: int| 0 <= x < n implies #[trigger] vertex_ranks@[x] < n && ranked@[vertex_ranks@[x] as int] == x by {
                if !ranked@.to_set().contains(x as usize) {
                    vstd::set_lib::lemma_len_subset(ranked@.to_set(), below(n as nat).remove(x as usize));
                }
                let k = choose|k: int| 0 <= k < ranked@.len() && ranked@[k] == x as usize;
                assert(vertex_ranks@[ranked@[k] as int] == k);
            }
        }
        DSATURSpace { vertex_ranks, ranked_vertices: ranked }
    }
}

} // verus!
