use vstd::prelude::*;
use fastrand::Rng;

verus! {

#[verifier::external_type_specification]
#[verifier::external_body]
pub struct ExRng(Rng);

/// Relies on fastrand's Rng::new: a generator seeded by the process.
pub assume_specification[ Rng::new ]() -> Rng;

/// Relies on fastrand's Rng::usize: a number drawn in `0..bound`, which must not be empty.
#[verifier::external_body]
fn draw_below(rng: &mut Rng, bound: usize) -> (r: usize)
    requires
        bound > 0,
    ensures
        r < bound,
{
    rng.usize(0..bound)
}

/// Decision of giving color c to vertex v: the key of a move in the tabu tenure
#[derive(Debug, Clone, Copy, PartialEq, Eq, Structural)]
pub struct Decision {
    /// vertex
    pub v: usize,
    /// color
    pub c: usize,
}

/// Reactive tabu tenure for moves (vertex, color). A move taken at iteration
/// `t` stays tabu while `t >= nb_iter - threshold`, where the threshold is
/// drawn anew at each insertion as `rand(0..l) + floor(lambda * f)`, `f` being
/// the infeasibility at that time and `lambda = lambda_num / lambda_den`,
/// capped at `i64::MAX` so that a move never taken is never tabu.
pub struct TabuColTenure {
    /// tabu fixed size
    pub l: usize,
    /// numerator of the tabu dynamic size
    pub lambda_num: u64,
    /// denominator of the tabu dynamic size
    pub lambda_den: u64,
    /// number of iterations since the beginning of the search
    pub nb_iter: i64,
    /// decisions[v][c]: last iteration in which the decision have been taken
    pub decisions: Vec<Vec<i64>>,
    /// random number generator
    pub rng: Rng,
    /// threshold value for a given iteration
    pub threshold: i128,
}

impl TabuColTenure {
    /// the dimensions and parameters are valid
    pub open spec fn wf(&self, n: nat, c: nat) -> bool {
        &&& self.l > 0
        &&& self.lambda_den > 0
        &&& self.lambda_num <= u32::MAX
        &&& 0 <= self.nb_iter
        &&& 0 <= self.threshold <= i64::MAX
        &&& self.decisions@.len() == n
        &&& forall|v: int| 0 <= v < n ==> #[trigger] self.decisions@[v]@.len() == c
    }

    /// the move (v, c) is tabu
    pub open spec fn is_tabu(&self, v: int, c: int) -> bool {
        self.decisions@[v]@[c] >= self.nb_iter - self.threshold
    }

    /// the dynamic part of the threshold for an infeasibility f
    pub open spec fn dynamic_part(&self, f: nat) -> int {
        (self.lambda_num * f) / (self.lambda_den as int)
    }

    /// creates a tabucol tenure given:
    /// - l: fixed tabu size
    /// - lambda_num / lambda_den: variable tabu size
    /// - n: the number of vertices in the graph
    /// - c: the maximum number of colors
    pub fn new(l: usize, lambda_num: u64, lambda_den: u64, n: usize, c: usize) -> (r: Self)
        requires
            l > 0,
            lambda_den > 0,
            lambda_num <= u32::MAX,
        ensures
            r.wf(n as nat, c as nat),
            r.l == l,
            r.lambda_num == lambda_num,
            r.lambda_den == lambda_den,
            r.nb_iter == 0,
            r.threshold == 0,
            forall|v: int, k: int| 0 <= v < n && 0 <= k < c ==> #[trigger] r.decisions@[v]@[k]
                == i64::MIN,
    {
        let mut decisions: Vec<Vec<i64>> = Vec::new();
        let mut i: usize = 0;
        while i < n
            invariant
                i <= n,
                decisions@.len() == i,
                forall|v: int| 0 <= v < i ==> #[trigger] decisions@[v]@.len() == c,
                forall|v: int, k: int| 0 <= v < i && 0 <= k < c ==> #[trigger] decisions@[v]@[k]
                    == i64::MIN,
            decreases n - i,
        {
            let row: Vec<i64> = vec![i64::MIN; c];
            decisions.push(row);
            i += 1;
        }
        TabuColTenure { l, lambda_num, lambda_den, nb_iter: 0, decisions, rng: Rng::new(), threshold: 0 }
    }

    /// records that vertex v left color c at the current iteration, and draws a
    /// new threshold for the infeasibility f
    pub fn insert(&mut self, d: &Decision, f: u64)
        requires
            d.v < old(self).decisions@.len(),
            old(self).wf(old(self).decisions@.len(), old(self).decisions@[d.v as int]@.len()),
            d.c < old(self).decisions@[d.v as int]@.len(),
        ensures
            final(self).wf(old(self).decisions@.len(), old(self).decisions@[d.v as int]@.len()),
            final(self).decisions@.len() == old(self).decisions@.len(),
            forall|x: int|
                0 <= x < old(self).decisions@.len() ==> #[trigger] final(self).decisions@[x]@.len()
                    == old(self).decisions@[x]@.len(),
            forall|x: int, y: int|
                0 <= x < old(self).decisions@.len() && 0 <= y < old(self).decisions@[x]@.len()
                    ==> #[trigger] final(self).decisions@[x]@[y] == if x == d.v && y == d.c {
                    old(self).nb_iter
                } else {
                    old(self).decisions@[x]@[y]
                },
            final(self).nb_iter == old(self).nb_iter,
            final(self).l == old(self).l,
            final(self).lambda_num == old(self).lambda_num,
            final(self).lambda_den == old(self).lambda_den,
            final(self).threshold == i64::MAX || (old(self).dynamic_part(f as nat) <= final(self).threshold
                < old(self).dynamic_part(f as nat) + old(self).l),
            old(self).dynamic_part(f as nat) + old(self).l <= i64::MAX ==> final(self).threshold
                < old(self).dynamic_part(f as nat) + old(self).l,
    {
        let v = d.v;
        let c = d.c;
        let ghost k = self.decisions@[v as int]@.len();
        let it = self.nb_iter;
        self.decisions[v][c] = it;
        let r = draw_below(&mut self.rng, self.l);
        proof {
            assert(self.lambda_num * f <= u32::MAX * u64::MAX) by (nonlinear_arith)
                requires
                    self.lambda_num <= u32::MAX,
                    f <= u64::MAX,
            ;
            assert((self.lambda_num * f) / (self.lambda_den as int) <= self.lambda_num * f) by (
            nonlinear_arith)
                requires
                    self.lambda_den >= 1,
                    self.lambda_num * f >= 0,
            ;
        }
        let dynamic: u128 = (self.lambda_num as u128) * (f as u128) / (self.lambda_den as u128);
        let t: i128 = (r as i128) + (dynamic as i128);
        self.threshold = if t > i64::MAX as i128 {
            i64::MAX as i128
        } else {
            t
        };
    }

    /// true iff the move that gives color c to vertex v is tabu
    pub fn contains(&self, d: &Decision) -> (r: bool)
        requires
            d.v < self.decisions@.len(),
            self.wf(self.decisions@.len(), self.decisions@[d.v as int]@.len()),
            d.c < self.decisions@[d.v as int]@.len(),
        ensures
            r == self.is_tabu(d.v as int, d.c as int),
            self.decisions@[d.v as int]@[d.c as int] == i64::MIN ==> !r,
    {
        (self.decisions[d.v][d.c] as i128) >= (self.nb_iter as i128) - self.threshold
    }

    /// increases the number of iterations of the tabu tenure
    pub fn increment_iter(&mut self)
        requires
            old(self).nb_iter < i64::MAX,
        ensures
            final(self).nb_iter == old(self).nb_iter + 1,
            final(self).decisions == old(self).decisions,
            final(self).threshold == old(self).threshold,
            final(self).l == old(self).l,
            final(self).lambda_num == old(self).lambda_num,
            final(self).lambda_den == old(self).lambda_den,
    {
        self.nb_iter += 1;
    }
}

} // verus!
