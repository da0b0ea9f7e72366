use vstd::prelude::*;

verus! {

/// sum of f over the elements of s
pub open spec fn seq_sum(s: Seq<usize>, f: spec_fn(usize) -> int) -> int
    decreases s.len(),
{
    if s.len() == 0 {
        0
    } else {
        seq_sum(s.drop_last(), f) + f(s.last())
    }
}

/// sum of f over 0..k
pub open spec fn range_sum(k: nat, f: spec_fn(nat) -> int) -> int
    decreases k,
{
    if k == 0 {
        0
    } else {
        range_sum((k - 1) as nat, f) + f((k - 1) as nat)
    }
}

/// two functions that agree on the elements of s have the same sum over s
pub proof fn lemma_seq_sum_ext(s: Seq<usize>, f: spec_fn(usize) -> int, g: spec_fn(usize) -> int)
    requires
        forall|i: int| 0 <= i < s.len() ==> f(#[trigger] s[i]) == g(s[i]),
    ensures
        seq_sum(s, f) == seq_sum(s, g),
    decreases s.len(),
{
    if s.len() > 0 {
        let t = s.drop_last();
        assert forall|i: int| 0 <= i < t.len() implies f(#[trigger] t[i]) == g(t[i]) by {
            assert(t[i] == s[i]);
        }
        lemma_seq_sum_ext(t, f, g);
    }
}

/// changing f at a single point changes its sum over a sequence without
/// duplicates by the change at that point, if the point is in the sequence
pub proof fn lemma_seq_sum_point(
    s: Seq<usize>,
    f: spec_fn(usize) -> int,
    g: spec_fn(usize) -> int,
    a: usize,
)
    requires
        s.no_duplicates(),
        forall|i: int| 0 <= i < s.len() && s[i] != a ==> #[trigger] f(s[i]) == g(s[i]),
    ensures
        seq_sum(s, g) == seq_sum(s, f) + (if s.contains(a) {
            g(a) - f(a)
        } else {
            0
        }),
    decreases s.len(),
{
    if s.len() > 0 {
        let t = s.drop_last();
        assert(t.no_duplicates()) by {
            assert forall|i: int, j: int| 0 <= i < t.len() && 0 <= j < t.len() && i != j implies t[i]
                != t[j] by {
                assert(t[i] == s[i] && t[j] == s[j]);
            }
        }
        assert forall|i: int| 0 <= i < t.len() && t[i] != a implies #[trigger] f(t[i]) == g(t[i]) by {
            assert(t[i] == s[i]);
        }
        lemma_seq_sum_point(t, f, g, a);
        if s.last() == a {
            assert(!t.contains(a)) by {
                if t.contains(a) {
                    let i = choose|i: int| 0 <= i < t.len() && t[i] == a;
                    assert(s[i] == s[s.len() - 1]);
                }
            }
            assert(s.contains(a)) by {
                assert(s[s.len() - 1] == a);
            }
        } else {
            assert(s.contains(a) == t.contains(a)) by {
                if s.contains(a) {
                    let i = choose|i: int| 0 <= i < s.len() && s[i] == a;
                    assert(i < s.len() - 1);
                    assert(t[i] == a);
                }
                if t.contains(a) {
                    let i = choose|i: int| 0 <= i < t.len() && t[i] == a;
                    assert(s[i] == a);
                }
            }
        }
    }
}

/// the sum over a prefix grows by the next element
pub proof fn lemma_seq_sum_take(s: Seq<usize>, f: spec_fn(usize) -> int, j: int)
    requires
        0 <= j < s.len(),
    ensures
        seq_sum(s.take(j + 1), f) == seq_sum(s.take(j), f) + f(s[j]),
{
    assert(s.take(j + 1).drop_last() =~= s.take(j));
}

/// a sum of terms within [0, m] lies within [0, len * m]
pub proof fn lemma_seq_sum_bounds(s: Seq<usize>, f: spec_fn(usize) -> int, m: int)
    requires
        forall|i: int| 0 <= i < s.len() ==> 0 <= #[trigger] f(s[i]) <= m,
    ensures
        0 <= seq_sum(s, f) <= s.len() * m,
    decreases s.len(),
{
    if s.len() > 0 {
        let t = s.drop_last();
        assert forall|i: int| 0 <= i < t.len() implies 0 <= #[trigger] f(t[i]) <= m by {
            assert(t[i] == s[i]);
        }
        lemma_seq_sum_bounds(t, f, m);
        assert(0 <= f(s[s.len() - 1]) <= m);
        assert(t.len() * m + m == s.len() * m) by (nonlinear_arith)
            requires
                t.len() + 1 == s.len(),
        ;
    }
}

/// a sum of non-negative terms is zero only if every term is
pub proof fn lemma_seq_sum_zero(s: Seq<usize>, f: spec_fn(usize) -> int)
    requires
        forall|i: int| 0 <= i < s.len() ==> 0 <= #[trigger] f(s[i]),
        seq_sum(s, f) == 0,
    ensures
        forall|i: int| 0 <= i < s.len() ==> #[trigger] f(s[i]) == 0,
    decreases s.len(),
{
    if s.len() > 0 {
        let t = s.drop_last();
        assert forall|i: int| 0 <= i < t.len() implies 0 <= #[trigger] f(t[i]) by {
            assert(t[i] == s[i]);
        }
        assert(0 <= f(s[s.len() - 1]));
        lemma_seq_sum_nonneg(t, f);
        lemma_seq_sum_zero(t, f);
        assert forall|i: int| 0 <= i < s.len() implies #[trigger] f(s[i]) == 0 by {
            if i < s.len() - 1 {
                assert(t[i] == s[i]);
            }
        }
    }
}

/// a sum of non-negative terms is non-negative
pub proof fn lemma_seq_sum_nonneg(s: Seq<usize>, f: spec_fn(usize) -> int)
    requires
        forall|i: int| 0 <= i < s.len() ==> 0 <= #[trigger] f(s[i]),
    ensures
        0 <= seq_sum(s, f),
    decreases s.len(),
{
    if s.len() > 0 {
        let t = s.drop_last();
        assert forall|i: int| 0 <= i < t.len() implies 0 <= #[trigger] f(t[i]) by {
            assert(t[i] == s[i]);
        }
        lemma_seq_sum_nonneg(t, f);
    }
}

/// two functions that agree below k have the same sum over 0..k
pub proof fn lemma_range_sum_ext(k: nat, f: spec_fn(nat) -> int, g: spec_fn(nat) -> int)
    requires
        forall|x: nat| x < k ==> #[trigger] f(x) == g(x),
    ensures
        range_sum(k, f) == range_sum(k, g),
    decreases k,
{
    if k > 0 {
        lemma_range_sum_ext((k - 1) as nat, f, g);
    }
}

/// changing f at a single point below k changes its sum over 0..k by the change
pub proof fn lemma_range_sum_point(k: nat, f: spec_fn(nat) -> int, g: spec_fn(nat) -> int, a: nat)
    requires
        forall|x: nat| x < k && x != a ==> #[trigger] f(x) == g(x),
    ensures
        range_sum(k, g) == range_sum(k, f) + (if a < k {
            g(a) - f(a)
        } else {
            0
        }),
    decreases k,
{
    if k > 0 {
        lemma_range_sum_point((k - 1) as nat, f, g, a);
    }
}

/// a sum of terms within [0, m] lies within [0, k * m]
pub proof fn lemma_range_sum_bounds(k: nat, f: spec_fn(nat) -> int, m: int)
    requires
        forall|x: nat| x < k ==> 0 <= #[trigger] f(x) <= m,
    ensures
        0 <= range_sum(k, f) <= k * m,
    decreases k,
{
    if k > 0 {
        let j = (k - 1) as nat;
        lemma_range_sum_bounds(j, f, m);
        assert(0 <= f(j) <= m);
        assert(range_sum(k, f) == range_sum(j, f) + f(j));
        assert(j * m + m == k * m) by (nonlinear_arith)
            requires
                j + 1 == k,
        ;
    } else {
        assert(k * m == 0) by (nonlinear_arith)
            requires
                k == 0,
        ;
    }
}

/// a sum of non-negative terms is zero only if every term is
pub proof fn lemma_range_sum_zero(k: nat, f: spec_fn(nat) -> int)
    requires
        forall|x: nat| x < k ==> 0 <= #[trigger] f(x),
        range_sum(k, f) == 0,
    ensures
        forall|x: nat| x < k ==> #[trigger] f(x) == 0,
    decreases k,
{
    if k > 0 {
        lemma_range_sum_nonneg((k - 1) as nat, f);
        lemma_range_sum_zero((k - 1) as nat, f);
    }
}

/// a sum of non-negative terms is non-negative
pub proof fn lemma_range_sum_nonneg(k: nat, f: spec_fn(nat) -> int)
    requires
        forall|x: nat| x < k ==> 0 <= #[trigger] f(x),
    ensures
        0 <= range_sum(k, f),
    decreases k,
{
    if k > 0 {
        lemma_range_sum_nonneg((k - 1) as nat, f);
    }
}

/// a single term of a sum of non-negative terms is at most the sum
pub proof fn lemma_range_sum_term(k: nat, f: spec_fn(nat) -> int, a: nat)
    requires
        forall|x: nat| x < k ==> 0 <= #[trigger] f(x),
        a < k,
    ensures
        f(a) <= range_sum(k, f),
    decreases k,
{
    lemma_range_sum_nonneg((k - 1) as nat, f);
    if a < k - 1 {
        lemma_range_sum_term((k - 1) as nat, f, a);
    }
}

/// the sum of a difference is the difference of the sums
pub proof fn lemma_seq_sum_sub(
    s: Seq<usize>,
    f: spec_fn(usize) -> int,
    g: spec_fn(usize) -> int,
    h: spec_fn(usize) -> int,
)
    requires
        forall|x: usize| #[trigger] h(x) == f(x) - g(x),
    ensures
        seq_sum(s, h) == seq_sum(s, f) - seq_sum(s, g),
    decreases s.len(),
{
    if s.len() > 0 {
        lemma_seq_sum_sub(s.drop_last(), f, g, h);
    }
}

/// over non-negative terms, a prefix sums to at most the whole, and the
/// rest past the prefix is at least its first term
pub proof fn lemma_seq_sum_prefix(s: Seq<usize>, f: spec_fn(usize) -> int, j: int)
    requires
        forall|i: int| 0 <= i < s.len() ==> 0 <= #[trigger] f(s[i]),
        0 <= j < s.len(),
    ensures
        seq_sum(s.take(j), f) + f(s[j]) <= seq_sum(s, f),
    decreases s.len(),
{
    lemma_seq_sum_take(s, f, j);
    if j + 1 < s.len() {
        let t = s.drop_last();
        assert forall|i: int| 0 <= i < t.len() implies 0 <= #[trigger] f(t[i]) by {
            assert(t[i] == s[i]);
        }
        lemma_seq_sum_prefix(t, f, j);
        assert(t.take(j) =~= s.take(j));
        assert(t[j] == s[j]);
        assert(0 <= f(s[s.len() - 1]));
    } else {
        assert(s.take(j + 1) =~= s);
    }
}

} // verus!
