use vstd::prelude::*;
use crate::bitset::{VertexSet, bits_of};
use crate::color::{
    DimacsInstance,
    VertexId,
    below,
    classes,
    colors_to_partition,
    is_proper_coloring,
    lemma_below,
    within,
};
use crate::coloring_conflict_weighting::lemma_partition_proper;
use crate::greedy_dsatur::{color_used, has_neighbor_colored, neighbor_in_class};

verus! {

/// the colored vertices get pairwise distinct colors along every edge
pub open spec fn partial_coloring_ok(g: &DimacsInstance, col: Seq<Option<usize>>) -> bool {
    forall|x: int, i: int|
        0 <= x < g.n && 0 <= i < g.nbrs()[x].len() && #[trigger] col[x] is Some && col[
            #[trigger] g.nbrs()[x][i] as int] is Some ==> col[g.nbrs()[x][i] as int] != col[x]
}

/// greedy RLF coloring: builds the color classes one at a time; each class
/// starts empty and repeatedly takes the uncolored vertex, not adjacent to the
/// class, with the most neighbors already excluded from the class (ties: the
/// most neighbors still available, then the last vertex); returns a proper
/// coloring of the graph
pub fn greedy_rlf(g: &DimacsInstance) -> (r: Vec<Vec<VertexId>>)
    requires
        g.wf(),
    ensures
        is_proper_coloring(*g, classes(r@)),
        within(classes(r@), g.n as nat),
        forall|t: int| 0 <= t < r@.len() ==> #[trigger] r@[t]@.len() > 0,
        forall|c: int, i: int, c2: int|
            crate::color::is_pos(classes(r@), c2, i) && 0 <= c < c2 ==> #[trigger] neighbor_in_class(
                g,
                classes(r@),
                classes(r@)[c2][i],
                c,
            ),
{
    let n = g.n;
    let mut colors: Vec<Option<usize>> = vec![None; n];
    let mut colored = VertexSet::with_capacity(n);
    let mut reachable_degree: Vec<usize> = Vec::new();
    let mut x: usize = 0;
    while x < n
        invariant
            g.wf(),
            n == g.n,
            x <= n,
            reachable_degree@.len() == x,
        decreases n - x,
    {
        reachable_degree.push(g.degree(x));
        x += 1;
    }
    let mut nb_colored: usize = 0;
    let mut current_color: usize = 0;
    proof {
        lemma_below(n as nat);
        assert(bits_of(colored).len() == 0);
    }
    while nb_colored < n
        invariant
            g.wf(),
            n == g.n,
            below(n as nat).finite(),
            colors@.len() == n,
            reachable_degree@.len() == n,
            forall|y: usize| #[trigger] bits_of(colored).contains(y) <==> (y < n && colors@[y as int] is Some),
            bits_of(colored).finite(),
            bits_of(colored).len() == nb_colored,
            nb_colored <= n,
            current_color <= nb_colored,
            forall|y: int| 0 <= y < n && #[trigger] colors@[y] is Some ==> colors@[y]->0 < current_color,
            forall|k: usize| k < current_color ==> #[trigger] color_used(colors@, n, k),
            forall|y: int, k: usize|
                0 <= y < n && k < current_color && (colors@[y] is None || colors@[y]->0 > k)
                    ==> #[trigger] has_neighbor_colored(g, colors@, y, k),
            partial_coloring_ok(g, colors@),
        decreases n - nb_colored,
    {
        let mut unreachable = VertexSet::with_capacity(n);
        let mut removal: Vec<usize> = vec![0; n];
        let ghost start = nb_colored;
        proof {
            // some vertex is still uncolored
            if forall|y: usize| y < n ==> #[trigger] bits_of(colored).contains(y) {
                assert(below(n as nat).subset_of(bits_of(colored)));
                vstd::set_lib::lemma_len_subset(below(n as nat), bits_of(colored));
                lemma_below(n as nat);
            }
        }
        loop
            invariant
                g.wf(),
                n == g.n,
                below(n as nat).finite(),
                colors@.len() == n,
                reachable_degree@.len() == n,
                removal@.len() == n,
                forall|y: usize| #[trigger] bits_of(colored).contains(y) <==> (y < n && colors@[y as int] is Some),
                bits_of(colored).finite(),
                bits_of(colored).len() == nb_colored,
                nb_colored <= n,
                start <= nb_colored,
                current_color <= start,
                start < n,
                start == nb_colored ==> exists|y: usize| y < n && !#[trigger] bits_of(colored).contains(y),
                start == nb_colored ==> bits_of(unreachable) == Set::<usize>::empty(),
                forall|y: int| 0 <= y < n && #[trigger] colors@[y] is Some ==> colors@[y]->0 <= current_color,
                forall|y: int| 0 <= y < n && #[trigger] colors@[y] is Some && colors@[y]->0 == current_color ==> nb_colored > start,
                partial_coloring_ok(g, colors@),
                forall|k: usize| k < current_color ==> #[trigger] color_used(colors@, n, k),
                nb_colored > start ==> color_used(colors@, n, current_color),
                forall|y: int, k: usize|
                    0 <= y < n && k < current_color && (colors@[y] is None || colors@[y]->0 > k)
                        ==> #[trigger] has_neighbor_colored(g, colors@, y, k),
                forall|y: usize| #[trigger] bits_of(unreachable).contains(y) ==> y < n && has_neighbor_colored(
                    g,
                    colors@,
                    y as int,
                    current_color,
                ),
                forall|y: int, i: int|
                    0 <= y < n && 0 <= i < g.nbrs()[y].len() && #[trigger] colors@[y] == Some(current_color)
                        && colors@[#[trigger] g.nbrs()[y][i] as int] is None ==> bits_of(unreachable).contains(
                        g.nbrs()[y][i],
                    ),
            ensures
                nb_colored > start,
                forall|y: int| 0 <= y < n && colors@[y] is None ==> #[trigger] has_neighbor_colored(
                    g,
                    colors@,
                    y,
                    current_color,
                ),
            decreases n - nb_colored,
        {
            let mut best: Option<usize> = None;
            let mut v: usize = 0;
            while v < n
                invariant
                    n == g.n,
                    v <= n,
                    removal@.len() == n,
                    reachable_degree@.len() == n,
                    colors@.len() == n,
                    forall|y: usize| #[trigger] bits_of(colored).contains(y) <==> (y < n && colors@[y as int] is Some),
                    match best {
                        Some(b) => b < n && colors@[b as int] is None && !bits_of(unreachable).contains(b),
                        None => forall|y: usize| y < v ==> #[trigger] bits_of(colored).contains(y) || bits_of(
                            unreachable,
                        ).contains(y),
                    },
                decreases n - v,
            {
                if !colored.contains(v) && !unreachable.contains(v) {
                    let better = match best {
                        None => true,
                        Some(b) => {
                            let ra = reachable_degree[v].saturating_sub(removal[v]);
                            let rb = reachable_degree[b].saturating_sub(removal[b]);
                            removal[v] > removal[b] || (removal[v] == removal[b] && ra >= rb)
                        },
                    };
                    if better {
                        best = Some(v);
                    }
                }
                v += 1;
            }
            match best {
                None => {
                    proof {
                        if start == nb_colored {
                            let y = choose|y: usize| y < n && !#[trigger] bits_of(colored).contains(y);
                            assert(bits_of(colored).contains(y) || bits_of(unreachable).contains(y));
                            assert(bits_of(unreachable) == Set::<usize>::empty());
                        }
                    }
                    proof {
                        assert forall|y: int| 0 <= y < n && colors@[y] is None implies #[trigger] has_neighbor_colored(
                            g,
                            colors@,
                            y,
                            current_color,
                        ) by {
                            assert(bits_of(colored).contains(y as usize) || bits_of(unreachable).contains(y as usize));
                        }
                    }
                    break;
                },
                Some(cv) => {
                    let ghost before = colors@;
                    proof {
                        assert(!bits_of(colored).contains(cv));
                        assert(bits_of(colored).insert(cv).subset_of(below(n as nat)));
                        vstd::set_lib::lemma_len_subset(bits_of(colored).insert(cv), below(n as nat));
                        lemma_below(n as nat);
                        assert(bits_of(colored).insert(cv).len() == bits_of(colored).len() + 1);
                    }
                    let ghost colb = colors@;
                    nb_colored += 1;
                    colored.insert(cv);
                    colors[cv] = Some(current_color);
                    proof {
                        assert(colors@[cv as int] == Some(current_color));
                        assert forall|k: usize| k < current_color implies #[trigger] color_used(colors@, n, k) by {
                            assert(color_used(colb, n, k));
                            let y = choose|y: int| 0 <= y < n && #[trigger] colb[y] == Some(k);
                            assert(colors@[y] == Some(k));
                        }
                    }
                    proof {
                        assert forall|y: int, k: usize|
                            0 <= y < n && k < current_color && (colors@[y] is None || colors@[y]->0 > k)
                                implies #[trigger] has_neighbor_colored(g, colors@, y, k) by {
                            assert(colb[y] is None || colb[y]->0 > k);
                            assert(has_neighbor_colored(g, colb, y, k));
                            let j = choose|j: int| 0 <= j < g.nbrs()[y].len() && #[trigger] colb[g.nbrs()[y][j] as int] == Some(k);
                            assert(g.nbrs()[y][j] < n);
                            assert(colors@[g.nbrs()[y][j] as int] == Some(k));
                        }
                        assert forall|y: usize| #[trigger] bits_of(unreachable).contains(y) implies y < n && has_neighbor_colored(
                            g,
                            colors@,
                            y as int,
                            current_color,
                        ) by {
                            assert(has_neighbor_colored(g, colb, y as int, current_color));
                            let j = choose|j: int| 0 <= j < g.nbrs()[y as int].len() && #[trigger] colb[g.nbrs()[y as int][j] as int] == Some(current_color);
                            assert(g.nbrs()[y as int][j] < n);
                            assert(colors@[g.nbrs()[y as int][j] as int] == Some(current_color));
                        }
                    }
                    let nb = g.neighbors(cv);
                    let mut t: usize = 0;
                    while t < nb.len()
                        invariant
                            g.wf(),
                            n == g.n,
                            cv < n,
                            nb@ == g.nbrs()[cv as int],
                            t <= nb@.len(),
                            removal@.len() == n,
                            reachable_degree@.len() == n,
                            colors@.len() == n,
                            colors@[cv as int] == Some(current_color),
                            forall|y: usize| #[trigger] bits_of(colored).contains(y) <==> (y < n && colors@[y as int] is Some),
                            forall|i: int| 0 <= i < t && colors@[nb@[i] as int] is None ==> #[trigger] bits_of(unreachable).contains(nb@[i]),
                            forall|y: usize| #[trigger] bits_of(unreachable).contains(y) ==> y < n && has_neighbor_colored(
                                g,
                                colors@,
                                y as int,
                                current_color,
                            ),
                            forall|y: int, i: int|
                                0 <= y < n && y != cv && 0 <= i < g.nbrs()[y].len() && #[trigger] colors@[y] == Some(current_color)
                                    && colors@[#[trigger] g.nbrs()[y][i] as int] is None ==> bits_of(unreachable).contains(
                                    g.nbrs()[y][i],
                                ),
                        decreases nb@.len() - t,
                    {
                        let u = nb[t];
                        proof {
                            assert(g.nbrs()[cv as int][t as int] == u);
                            assert(u < n);
                        }
                        if !unreachable.contains(u) && !colored.contains(u) {
                            let nbu = g.neighbors(u);
                            let mut s: usize = 0;
                            while s < nbu.len()
                                invariant
                                    g.wf(),
                                    u < n,
                                    nbu@ == g.nbrs()[u as int],
                                    s <= nbu@.len(),
                                    removal@.len() == n,
                                    n == g.n,
                                decreases nbu@.len() - s,
                            {
                                let w = nbu[s];
                                proof {
                                    assert(g.nbrs()[u as int][s as int] == w);
                                }
                                removal[w] = removal[w].saturating_add(1);
                                s += 1;
                            }
                            proof {
                                assert(g.adj(cv as int, u as int)) by {
                                    assert(nb@.contains(u));
                                }
                                assert(g.adj(u as int, cv as int));
                                let j = choose|j: int| 0 <= j < g.nbrs()[u as int].len() && g.nbrs()[u as int][j] == cv;
                                assert(colors@[g.nbrs()[u as int][j] as int] == Some(current_color));
                                assert(has_neighbor_colored(g, colors@, u as int, current_color));
                            }
                            unreachable.insert(u);
                            reachable_degree[u] = reachable_degree[u].saturating_sub(1);
                        }
                        t += 1;
                    }
                    proof {
                        assert forall|y: int, i: int|
                            0 <= y < n && 0 <= i < g.nbrs()[y].len() && #[trigger] colors@[y] is Some && colors@[
                                #[trigger] g.nbrs()[y][i] as int] is Some implies colors@[g.nbrs()[y][i] as int]
                            != colors@[y] by {
                            let z = g.nbrs()[y][i];
                            if y == cv {
                                if colors@[z as int] == Some(current_color) {
                                    assert(g.adj(cv as int, z as int)) by {
                                        assert(g.nbrs()[cv as int].contains(z));
                                    }
                                    assert(g.adj(z as int, cv as int));
                                    let q = choose|q: int| 0 <= q < g.nbrs()[z as int].len() && g.nbrs()[z as int][q] == cv;
                                    assert(before[z as int] == Some(current_color));
                                    assert(before[cv as int] is None);
                                    assert(bits_of(unreachable).contains(cv)) by {
                                        assert(g.nbrs()[z as int][q] == cv);
                                    }
                                }
                            } else if z == cv {
                                if colors@[y] == Some(current_color) {
                                    assert(before[y] == Some(current_color));
                                    assert(before[cv as int] is None);
                                    assert(bits_of(unreachable).contains(cv)) by {
                                        assert(g.nbrs()[y][i] == cv);
                                    }
                                }
                            } else {
                                assert(before[y] == colors@[y] && before[z as int] == colors@[z as int]);
                            }
                        }
                    }
                },
            }
        }
        current_color += 1;
    }
    let mut plain: Vec<usize> = Vec::new();
    let mut x: usize = 0;
    while x < n
        invariant
            n == g.n,
            x <= n,
            colors@.len() == n,
            forall|y: usize| #[trigger] bits_of(colored).contains(y) <==> (y < n && colors@[y as int] is Some),
            nb_colored == n,
            bits_of(colored).len() == n,
            bits_of(colored).subset_of(below(n as nat)),
            plain@.len() == x,
            forall|y: int| 0 <= y < x ==> Some(#[trigger] plain@[y]) == colors@[y],
        decreases n - x,
    {
        proof {
            assert(bits_of(colored).contains(x)) by {
                if !bits_of(colored).contains(x) {
                    lemma_below(n as nat);
                    vstd::set_lib::lemma_len_subset(bits_of(colored), below(n as nat).remove(x));
                }
            }
        }
        plain.push(colors[x].unwrap());
        x += 1;
    }
    proof {
        assert forall|y: int| 0 <= y < plain@.len() implies #[trigger] plain@[y] < current_color by {
            assert(colors@[y] == Some(plain@[y]));
        }
        assert forall|y: int, i: int|
            0 <= y < g.n && 0 <= i < g.nbrs()[y].len() implies plain@[#[trigger] g.nbrs()[y][i] as int]
            != plain@[y] by {
            let z = g.nbrs()[y][i];
            assert(colors@[y] == Some(plain@[y]));
            assert(colors@[z as int] == Some(plain@[z as int]));
        }
    }
    let r = colors_to_partition(&plain, current_color);
    proof {
        lemma_partition_proper(g, classes(r@), plain@, current_color as nat);
        let rs = classes(r@);
        assert forall|c: int, i: int, c2: int|
            crate::color::is_pos(rs, c2, i) && 0 <= c < c2 implies #[trigger] neighbor_in_class(g, rs, rs[c2][i], c) by {
            let y = rs[c2][i];
            assert(plain@[y as int] == c2);
            assert(colors@[y as int] == Some(c2 as usize));
            assert(c2 < current_color);
            assert(has_neighbor_colored(g, colors@, y as int, c as usize));
            let j = choose|j: int| 0 <= j < g.nbrs()[y as int].len() && #[trigger] colors@[g.nbrs()[y as int][j] as int] == Some(c as usize);
            let z = g.nbrs()[y as int][j];
            assert(z < n);
            assert(plain@[z as int] == c);
            assert(crate::color::occurs(rs, z));
            let (c3, i3) = choose|c3: int, i3: int| crate::color::is_pos(rs, c3, i3) && #[trigger] rs[c3][i3] == z;
            assert(c3 == c);
            assert(rs[c][i3] == z);
            assert(rs[c].contains(g.nbrs()[y as int][j]));
        }
        assert forall|t: int| 0 <= t < r@.len() implies #[trigger] r@[t]@.len() > 0 by {
            assert(color_used(colors@, n, t as usize));
            let y = choose|y: int| 0 <= y < n && #[trigger] colors@[y] == Some(t as usize);
            assert(plain@[y] == t);
            crate::color::lemma_used_class_nonempty(classes(r@), plain@, current_color as nat, y);
            assert(classes(r@)[t] == r@[t]@);
        }
    }
    r
}

} // verus!
