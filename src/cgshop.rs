use vstd::prelude::*;
use crate::color::{
    DimacsInstance,
    InstanceError,
    VertexId,
    below,
    classes,
    colors_to_partition,
    covers,
    is_partition_of,
    is_pos,
    lemma_below,
    no_vertex_twice,
    occurs,
    within,
};

verus! {

/// Largest absolute value of a coordinate: every orientation test then stays
/// within 64-bit signed arithmetic.
pub const COORD_BOUND: i64 = 1_000_000_000;

/// A point with integer coordinates.
pub type Point = (i64, i64);

/// A segment given by its two endpoints.
pub type Segment = (Point, Point);

/// true iff both coordinates of `p` lie within `COORD_BOUND`
pub open spec fn point_in_range(p: Point) -> bool {
    -COORD_BOUND <= p.0 <= COORD_BOUND && -COORD_BOUND <= p.1 <= COORD_BOUND
}

/// true iff both endpoints of `s` lie within `COORD_BOUND`
pub open spec fn segment_in_range(s: Segment) -> bool {
    point_in_range(s.0) && point_in_range(s.1)
}

/// 3 point orientation (either collinear, clockwise or counterclockwise)
#[derive(Debug, PartialEq, Eq, Structural)]
pub enum Orientation {
    /// the three points lie on a line
    Collinear,
    /// the turn p, q, r is clockwise
    Clockwise,
    /// the turn p, q, r is counterclockwise
    CounterClockwise,
}

/// signed area term of the turn p, q, r
pub open spec fn cross(p: Point, q: Point, r: Point) -> int {
    (q.1 - p.1) * (r.0 - q.0) - (q.0 - p.0) * (r.1 - q.1)
}

/// orientation of the turn p, q, r, by the sign of `cross`
pub open spec fn orientation_of(p: Point, q: Point, r: Point) -> Orientation {
    let v = cross(p, q, r);
    if v == 0 {
        Orientation::Collinear
    } else if v > 0 {
        Orientation::Clockwise
    } else {
        Orientation::CounterClockwise
    }
}

/// q lies in the bounding box of p and r
pub open spec fn in_box(p: Point, q: Point, r: Point) -> bool {
    (p.0 <= q.0 <= r.0 || r.0 <= q.0 <= p.0) && (p.1 <= q.1 <= r.1 || r.1 <= q.1 <= p.1)
}

/// Proper intersection of two segments. Segments that share an endpoint only
/// conflict when they overlap on a positive length: an endpoint of one, other
/// than the shared one, lies on the other segment (collinear and inside its
/// bounding box). Otherwise the four orientation test decides, with the
/// collinear cases settled by bounding boxes.
pub open spec fn intersecting(a: Segment, b: Segment) -> bool {
    let (p1, q1) = a;
    let (p2, q2) = b;
    let o1 = orientation_of(p1, q1, p2);
    let o2 = orientation_of(p1, q1, q2);
    let o3 = orientation_of(p2, q2, p1);
    let o4 = orientation_of(p2, q2, q1);
    if p1 == p2 || p1 == q2 || q1 == p2 || q1 == q2 {
        (o1 == Orientation::Collinear && p1 != p2 && q1 != p2 && in_box(p1, p2, q1))
        || (o2 == Orientation::Collinear && p1 != q2 && q1 != q2 && in_box(p1, q2, q1))
        || (o3 == Orientation::Collinear && p2 != p1 && q2 != p1 && in_box(p2, p1, q2))
        || (o4 == Orientation::Collinear && p2 != q1 && q2 != q1 && in_box(p2, q1, q2))
    } else {
        (o1 != o2 && o3 != o4)
        || (o1 == Orientation::Collinear && in_box(p1, p2, q1))
        || (o2 == Orientation::Collinear && in_box(p1, q2, q1))
        || (o3 == Orientation::Collinear && in_box(p2, p1, q2))
        || (o4 == Orientation::Collinear && in_box(p2, q1, q2))
    }
}

proof fn lemma_diff_product_bounds(a: int, b: int)
    requires
        -2 * COORD_BOUND <= a <= 2 * COORD_BOUND,
        -2 * COORD_BOUND <= b <= 2 * COORD_BOUND,
    ensures
        -4 * COORD_BOUND * COORD_BOUND <= a * b <= 4 * COORD_BOUND * COORD_BOUND,
{
    assert(-4 * COORD_BOUND * COORD_BOUND <= a * b <= 4 * COORD_BOUND * COORD_BOUND)
        by (nonlinear_arith)
        requires
            -2 * COORD_BOUND <= a <= 2 * COORD_BOUND,
            -2 * COORD_BOUND <= b <= 2 * COORD_BOUND,
            COORD_BOUND == 1_000_000_000,
    ;
}

/// computes the orientation of the turn p, q, r in exact integer arithmetic
pub fn orientation(p: &Point, q: &Point, r: &Point) -> (o: Orientation)
    requires
        point_in_range(*p),
        point_in_range(*q),
        point_in_range(*r),
    ensures
        o == orientation_of(*p, *q, *r),
{
    proof {
        lemma_diff_product_bounds(q.1 - p.1, r.0 - q.0);
        lemma_diff_product_bounds(q.0 - p.0, r.1 - q.1);
    }
    let val: i64 = (q.1 - p.1) * (r.0 - q.0) - (q.0 - p.0) * (r.1 - q.1);
    if val == 0 {
        return Orientation::Collinear;
    }
    if val > 0 {
        Orientation::Clockwise
    } else {
        Orientation::CounterClockwise
    }
}

/// returns true iff q lies in the bounding box of p and r
pub fn on_segment(p: &Point, q: &Point, r: &Point) -> (b: bool)
    ensures
        b == in_box(*p, *q, *r),
{
    let max_x = if p.0 >= r.0 { p.0 } else { r.0 };
    let min_x = if p.0 <= r.0 { p.0 } else { r.0 };
    let max_y = if p.1 >= r.1 { p.1 } else { r.1 };
    let min_y = if p.1 <= r.1 { p.1 } else { r.1 };
    q.0 <= max_x && q.0 >= min_x && q.1 <= max_y && q.1 >= min_y
}

/// returns true iff p and q are the same point
pub fn same_point(p: &Point, q: &Point) -> (b: bool)
    ensures
        b == (*p == *q),
{
    p.0 == q.0 && p.1 == q.1
}

/// returns true iff segments a and b properly intersect
pub fn are_intersecting(a: &Segment, b: &Segment) -> (res: bool)
    requires
        segment_in_range(*a),
        segment_in_range(*b),
    ensures
        res == intersecting(*a, *b),
{
    let p1 = &a.0;
    let q1 = &a.1;
    let p2 = &b.0;
    let q2 = &b.1;
    let o1 = orientation(p1, q1, p2);
    let o2 = orientation(p1, q1, q2);
    let o3 = orientation(p2, q2, p1);
    let o4 = orientation(p2, q2, q1);
    let p1p2 = same_point(p1, p2);
    let p1q2 = same_point(p1, q2);
    let q1p2 = same_point(q1, p2);
    let q1q2 = same_point(q1, q2);
    if p1p2 || p1q2 || q1p2 || q1q2 {
        return (o1 == Orientation::Collinear && !p1p2 && !q1p2 && on_segment(p1, p2, q1)) || (o2
            == Orientation::Collinear && !p1q2 && !q1q2 && on_segment(p1, q2, q1)) || (o3
            == Orientation::Collinear && !p1p2 && !p1q2 && on_segment(p2, p1, q2)) || (o4
            == Orientation::Collinear && !q1p2 && !q1q2 && on_segment(p2, q1, q2));
    }
    if o1 != o2 && o3 != o4 {
        return true;
    }
    if o1 == Orientation::Collinear && on_segment(p1, p2, q1) {
        return true;
    }
    if o2 == Orientation::Collinear && on_segment(p1, q2, q1) {
        return true;
    }
    if o3 == Orientation::Collinear && on_segment(p2, p1, q2) {
        return true;
    }
    if o4 == Orientation::Collinear && on_segment(p2, q1, q2) {
        return true;
    }
    false
}

/// total number of vertices listed in a partition
pub open spec fn total_len(s: Seq<Seq<VertexId>>) -> nat
    decreases s.len(),
{
    if s.len() == 0 {
        0
    } else {
        total_len(s.drop_last()) + s.last().len()
    }
}

/// vertex x has the color of its class in the partition
pub open spec fn colors_of_partition(colors: Seq<usize>, s: Seq<Seq<VertexId>>) -> bool {
    forall|c: int, i: int| is_pos(s, c, i) ==> colors[#[trigger] s[c][i] as int] == c
}

/// data structure to represent a CGSHOP solution
pub struct CGSHOPSolution {
    /// solution type (should be "Solution_CGSHOP2022")
    pub sol_type: String,
    /// instance name
    pub instance: String,
    /// number of colors
    pub num_colors: usize,
    /// color list (color[e]: color of edge e)
    pub colors: Vec<usize>,
}

impl CGSHOPSolution {
    /// every color is below the number of colors
    pub open spec fn wf(&self) -> bool {
        forall|i: int| 0 <= i < self.colors@.len() ==> #[trigger] self.colors@[i] < self.num_colors
    }

    /// creates a solution given a number of colors and the assignment
    pub fn new(instance: String, num_colors: usize, colors: Vec<usize>) -> (r: Self)
        ensures
            r.sol_type@ == "Solution_CGSHOP2022"@,
            r.instance == instance,
            r.num_colors == num_colors,
            r.colors == colors,
    {
        CGSHOPSolution { sol_type: "Solution_CGSHOP2022".to_string(), instance, num_colors, colors }
    }

    /// returns the corresponding graph coloring solution
    pub fn to_solution(&self) -> (r: Vec<Vec<VertexId>>)
        requires
            self.wf(),
        ensures
            is_partition_of(classes(r@), self.colors@, self.num_colors as nat),
            within(classes(r@), self.colors@.len()),
            total_len(classes(r@)) == self.colors@.len(),
    {
        let r = colors_to_partition(&self.colors, self.num_colors);
        let len = self.colors.len();
        proof {
            assert(self.colors@.len() == len);
            lemma_partition_total(classes(r@), self.colors@.len());
        }
        r
    }

    /// creates a solution from a partition
    pub fn from_solution(instance: String, solution: &Vec<Vec<VertexId>>) -> (r: Self)
        requires
            total_len(classes(solution@)) <= usize::MAX,
            within(classes(solution@), total_len(classes(solution@))),
        ensures
            r.sol_type@ == "Solution_CGSHOP2022"@,
            r.instance == instance,
            r.num_colors == solution@.len(),
            r.colors@.len() == total_len(classes(solution@)),
            r.wf() || solution@.len() == 0,
            no_vertex_twice(classes(solution@)) ==> colors_of_partition(
                r.colors@,
                classes(solution@),
            ),
    {
        let ghost s = classes(solution@);
        let nb_colors = solution.len();
        let mut n: usize = 0;
        let mut c: usize = 0;
        while c < nb_colors
            invariant
                s == classes(solution@),
                nb_colors == s.len(),
                c <= nb_colors,
                total_len(s) <= usize::MAX,
                n == total_len(s.take(c as int)),
            decreases nb_colors - c,
        {
            proof {
                assert(s.take(c + 1).drop_last() =~= s.take(c as int));
                lemma_total_len_prefix(s, c + 1);
            }
            n = n + solution[c].len();
            c += 1;
        }
        proof {
            assert(s.take(nb_colors as int) =~= s);
        }
        let mut colors: Vec<usize> = vec![0; n];
        let mut i: usize = 0;
        while i < nb_colors
            invariant
                s == classes(solution@),
                nb_colors == s.len(),
                n == total_len(s),
                within(s, n as nat),
                i <= nb_colors,
                colors@.len() == n,
                forall|x: int| 0 <= x < n ==> #[trigger] colors@[x] < nb_colors || nb_colors == 0,
                no_vertex_twice(s) ==> forall|c2: int, t: int|
                    is_pos(s, c2, t) && c2 < i ==> colors@[#[trigger] s[c2][t] as int] == c2,
            decreases nb_colors - i,
        {
            let class = &solution[i];
            assert(class@ == s[i as int]);
            let mut t: usize = 0;
            while t < class.len()
                invariant
                    s == classes(solution@),
                    nb_colors == s.len(),
                    n == total_len(s),
                    within(s, n as nat),
                    i < nb_colors,
                    class@ == s[i as int],
                    t <= class@.len(),
                    colors@.len() == n,
                    forall|x: int| 0 <= x < n ==> #[trigger] colors@[x] < nb_colors,
                    no_vertex_twice(s) ==> forall|c2: int, t2: int|
                        is_pos(s, c2, t2) && (c2 < i || (c2 == i && t2 < t)) ==> colors@[#[trigger] s[
                            c2][t2] as int] == c2,
                decreases class@.len() - t,
            {
                let v = class[t];
                assert(s[i as int][t as int] == v && v < n);
                colors[v] = i;
                proof {
                    if no_vertex_twice(s) {
                        assert forall|c2: int, t2: int|
                            is_pos(s, c2, t2) && (c2 < i || (c2 == i && t2 < t + 1)) implies colors@[#[trigger] s[
                                c2][t2] as int] == c2 by {
                            if c2 != i || t2 != t {
                                assert(s[c2][t2] != s[i as int][t as int]);
                            }
                        }
                    }
                }
                t += 1;
            }
            i += 1;
        }
        Self::new(instance, nb_colors, colors)
    }
}

/// a prefix of the classes lists no more vertices than the whole
pub proof fn lemma_total_len_prefix(s: Seq<Seq<VertexId>>, c: int)
    requires
        0 <= c <= s.len(),
    ensures
        total_len(s.take(c)) <= total_len(s),
    decreases s.len(),
{
    if c < s.len() {
        assert(s.drop_last().take(c) =~= s.take(c));
        lemma_total_len_prefix(s.drop_last(), c);
    } else {
        assert(s.take(c) =~= s);
    }
}

/// the vertices listed in a partition
pub open spec fn listed(s: Seq<Seq<VertexId>>) -> Set<VertexId> {
    Set::new(|x: VertexId| occurs(s, x))
}

/// a partition without repeated vertex lists as many distinct vertices as entries
proof fn lemma_listed_len(s: Seq<Seq<VertexId>>)
    requires
        no_vertex_twice(s),
    ensures
        listed(s).finite(),
        listed(s).len() == total_len(s),
    decreases s.len(),
{
    if s.len() == 0 {
        assert(listed(s) =~= Set::<VertexId>::empty());
    } else {
        let q = s.drop_last();
        let l = s.last();
        let li = s.len() - 1;
        assert(no_vertex_twice(q)) by {
            assert forall|c1: int, i1: int, c2: int, i2: int|
                is_pos(q, c1, i1) && is_pos(q, c2, i2) && (c1 != c2 || i1 != i2) implies #[trigger] q[c1][i1]
                    != #[trigger] q[c2][i2] by {
                assert(q[c1] == s[c1] && q[c2] == s[c2]);
                assert(is_pos(s, c1, i1) && is_pos(s, c2, i2));
            }
        }
        lemma_listed_len(q);
        assert(l.no_duplicates()) by {
            assert forall|i: int, j: int| 0 <= i < l.len() && 0 <= j < l.len() && i != j implies l[i]
                != l[j] by {
                assert(is_pos(s, li, i) && is_pos(s, li, j));
                assert(s[li][i] != s[li][j]);
            }
        }
        l.unique_seq_to_set();
        assert(listed(s) =~= listed(q) + l.to_set()) by {
            assert forall|x: VertexId| listed(s).contains(x) implies (listed(q) + l.to_set()).contains(x) by {
                let (c, i) = choose|c: int, i: int| is_pos(s, c, i) && #[trigger] s[c][i] == x;
                if c == li {
                    assert(l[i] == x);
                } else {
                    assert(q[c][i] == x);
                    assert(is_pos(q, c, i));
                }
            }
            assert forall|x: VertexId| (listed(q) + l.to_set()).contains(x) implies listed(s).contains(x) by {
                if listed(q).contains(x) {
                    let (c, i) = choose|c: int, i: int| is_pos(q, c, i) && #[trigger] q[c][i] == x;
                    assert(s[c][i] == x && is_pos(s, c, i));
                } else {
                    let i = choose|i: int| 0 <= i < l.len() && l[i] == x;
                    assert(s[li][i] == x && is_pos(s, li, i));
                }
            }
        }
        assert(listed(q).disjoint(l.to_set())) by {
            assert forall|x: VertexId| listed(q).contains(x) implies !l.to_set().contains(x) by {
                let (c, i) = choose|c: int, i: int| is_pos(q, c, i) && #[trigger] q[c][i] == x;
                if l.to_set().contains(x) {
                    let j = choose|j: int| 0 <= j < l.len() && l[j] == x;
                    assert(is_pos(s, c, i) && is_pos(s, li, j) && s[c][i] == s[li][j]);
                }
            }
        }
        vstd::set_lib::lemma_set_disjoint_lens(listed(q), l.to_set());
    }
}

/// a partition of the vertices 0..n lists exactly n entries
pub proof fn lemma_partition_total(s: Seq<Seq<VertexId>>, n: nat)
    requires
        n <= usize::MAX,
        no_vertex_twice(s),
        within(s, n),
        covers(s, n),
    ensures
        total_len(s) == n,
{
    lemma_listed_len(s);
    lemma_below(n);
    assert(listed(s) =~= below(n)) by {
        assert forall|x: VertexId| listed(s).contains(x) implies below(n).contains(x) by {
            let (c, i) = choose|c: int, i: int| is_pos(s, c, i) && #[trigger] s[c][i] == x;
        }
    }
}

/// Turning a solution into its partition and back gives the same colors:
/// the colors that `from_solution` reads off the partition that `to_solution`
/// builds are the colors of the solution.
pub proof fn lemma_solution_round_trip(
    colors: Seq<usize>,
    k: nat,
    p: Seq<Seq<VertexId>>,
    colors2: Seq<usize>,
)
    requires
        colors.len() <= usize::MAX,
        is_partition_of(p, colors, k),
        within(p, colors.len()),
        colors2.len() == total_len(p),
        colors_of_partition(colors2, p),
    ensures
        colors2 == colors,
{
    lemma_partition_total(p, colors.len());
    assert forall|x: int| 0 <= x < colors.len() implies colors2[x] == colors[x] by {
        assert(occurs(p, x as usize));
        let (c, i) = choose|c: int, i: int| is_pos(p, c, i) && #[trigger] p[c][i] == x as usize;
    }
    assert(colors2 =~= colors);
}

/// the edges a-b (b < a) with a below i, or a == i and b below j, whose segments intersect
pub open spec fn crossing_before(segs: Seq<Segment>, i: int, j: int, a: int, b: int) -> bool {
    0 <= b < a && (a < i || (a == i && b < j)) && intersecting(segs[a], segs[b])
}

/// builds the segment intersection graph: one vertex per segment, and an edge
/// between two segments that properly intersect (tested with the segment of
/// larger index first)
pub fn segment_graph(segs: &Vec<Segment>) -> (g: DimacsInstance)
    requires
        segs@.len() < usize::MAX,
        forall|i: int| 0 <= i < segs@.len() ==> segment_in_range(#[trigger] segs@[i]),
    ensures
        g.wf(),
        g.n == segs@.len(),
        forall|u: int, v: int|
            g.adj(u, v) <==> (0 <= u < g.n && 0 <= v < g.n && u != v && if u > v {
                intersecting(segs@[u], segs@[v])
            } else {
                intersecting(segs@[v], segs@[u])
            }),
{
    let n = segs.len();
    let ghost sg = segs@;
    let mut edges: Vec<(usize, usize)> = Vec::new();
    let mut i: usize = 0;
    while i < n
        invariant
            n == sg.len(),
            sg == segs@,
            forall|t: int| 0 <= t < sg.len() ==> segment_in_range(#[trigger] sg[t]),
            i <= n,
            forall|t: int| 0 <= t < edges@.len() ==> (#[trigger] edges@[t]).1 < edges@[t].0 && edges@[t].0 < i,
            forall|a: usize, b: usize|
                #[trigger] edges@.contains((a, b)) <==> crossing_before(sg, i as int, 0, a as int, b as int),
        decreases n - i,
    {
        let mut j: usize = 0;
        while j < i
            invariant
                n == sg.len(),
                sg == segs@,
                forall|t: int| 0 <= t < sg.len() ==> segment_in_range(#[trigger] sg[t]),
                i < n,
                j <= i,
                forall|t: int|
                    0 <= t < edges@.len() ==> (#[trigger] edges@[t]).1 < edges@[t].0 && edges@[t].0 <= i,
                forall|a: usize, b: usize|
                    #[trigger] edges@.contains((a, b)) <==> crossing_before(
                        sg,
                        i as int,
                        j as int,
                        a as int,
                        b as int,
                    ),
            decreases i - j,
        {
            let ghost old_e = edges@;
            if are_intersecting(&segs[i], &segs[j]) {
                edges.push((i, j));
            }
            proof {
                assert forall|a: usize, b: usize|
                    #[trigger] edges@.contains((a, b)) <==> crossing_before(
                        sg,
                        i as int,
                        j + 1,
                        a as int,
                        b as int,
                    ) by {
                    if edges@.contains((a, b)) {
                        let t = choose|t: int| 0 <= t < edges@.len() && edges@[t] == (a, b);
                        if t < old_e.len() {
                            assert(old_e[t] == edges@[t]);
                            assert(old_e.contains((a, b)));
                        }
                    }
                    if crossing_before(sg, i as int, j + 1, a as int, b as int) {
                        if a == i && b == j {
                            assert(edges@[edges@.len() - 1] == (a, b));
                        } else {
                            assert(old_e.contains((a, b)));
                            let t = choose|t: int| 0 <= t < old_e.len() && old_e[t] == (a, b);
                            assert(edges@[t] == old_e[t]);
                        }
                    }
                }
            }
            j += 1;
        }
        proof {
            assert forall|t: int| 0 <= t < edges@.len() implies (#[trigger] edges@[t]).1 < edges@[t].0
                && edges@[t].0 < i + 1 by {}
            assert forall|a: usize, b: usize|
                #[trigger] edges@.contains((a, b)) <==> crossing_before(
                    sg,
                    i + 1,
                    0,
                    a as int,
                    b as int,
                ) by {
                assert(crossing_before(sg, i + 1, 0, a as int, b as int) == crossing_before(
                    sg,
                    i as int,
                    i as int,
                    a as int,
                    b as int,
                ));
            }
        }
        i += 1;
    }
    match DimacsInstance::from_edges(n, &edges) {
        Ok(g) => {
            proof {
                assert forall|u: int, v: int|
                    g.adj(u, v) <==> (0 <= u < g.n && 0 <= v < g.n && u != v && if u > v {
                        intersecting(sg[u], sg[v])
                    } else {
                        intersecting(sg[v], sg[u])
                    }) by {
                    if g.adj(u, v) {
                        let t = choose|t: int|
                            0 <= t < edges@.len() && ((edges@[t].0 == u && edges@[t].1 == v) || (
                            edges@[t].0 == v && edges@[t].1 == u));
                        let (a, b) = edges@[t];
                        assert(edges@.contains((a, b)));
                    }
                    if 0 <= u < g.n && 0 <= v < g.n && u != v {
                        let a = if u > v { u } else { v };
                        let b = if u > v { v } else { u };
                        if intersecting(sg[a], sg[b]) {
                            assert(crossing_before(sg, n as int, 0, a, b));
                            assert(edges@.contains((a as usize, b as usize)));
                            let t = choose|t: int| 0 <= t < edges@.len() && edges@[t] == (a as usize, b as usize);
                            assert(edges@[t].0 == a && edges@[t].1 == b);
                        }
                    }
                }
            }
            g
        },
        Err(e) => {
            proof {
                match e {
                    InstanceError::EndpointOutOfRange(u, v) => {
                        let t = choose|t: int| 0 <= t < edges@.len() && edges@[t] == (u, v) && (u >= n || v >= n);
                        assert(edges@[t].1 < edges@[t].0 && edges@[t].0 < n);
                    },
                    InstanceError::SelfLoop(u) => {
                        let t = choose|t: int| 0 <= t < edges@.len() && edges@[t] == (u, u) && u < n;
                        assert(edges@[t].1 < edges@[t].0);
                    },
                    _ => {},
                }
            }
            DimacsInstance::from_edges(0, &Vec::new()).unwrap()
        },
    }
}

} // verus!
