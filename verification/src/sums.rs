//! Finite sums over sequences, and the facts about them that the geometry
//! proofs lean on.

use vstd::prelude::*;

verus! {

/// One for a true condition and zero for a false one.
pub open spec fn ind(b: bool) -> int {
    if b {
        1
    } else {
        0
    }
}

/// The sum of `f` over the elements of `s`.
pub open spec fn sum<T>(s: Seq<T>, f: spec_fn(T) -> int) -> int
    decreases s.len(),
{
    if s.len() == 0 {
        0
    } else {
        sum(s.drop_last(), f) + f(s.last())
    }
}

pub proof fn lemma_sum_push<T>(s: Seq<T>, a: T, f: spec_fn(T) -> int)
    ensures
        sum(s.push(a), f) == sum(s, f) + f(a),
{
    assert(s.push(a).drop_last() =~= s);
}

pub proof fn lemma_sum_append<T>(s: Seq<T>, t: Seq<T>, f: spec_fn(T) -> int)
    ensures
        sum(s + t, f) == sum(s, f) + sum(t, f),
    decreases t.len(),
{
    if t.len() == 0 {
        assert(s + t =~= s);
    } else {
        lemma_sum_append(s, t.drop_last(), f);
        assert((s + t).drop_last() =~= s + t.drop_last());
        assert((s + t).last() == t.last());
    }
}

pub proof fn lemma_sum_same<T>(s: Seq<T>, f: spec_fn(T) -> int, g: spec_fn(T) -> int)
    requires
        forall|i: int| 0 <= i < s.len() ==> f(#[trigger] s[i]) == g(s[i]),
    ensures
        sum(s, f) == sum(s, g),
    decreases s.len(),
{
    if s.len() > 0 {
        let r = s.drop_last();
        assert forall|i: int| 0 <= i < r.len() implies f(#[trigger] r[i]) == g(r[i]) by {
            assert(r[i] == s[i]);
        }
        lemma_sum_same(r, f, g);
        assert(s.last() == s[s.len() - 1]);
    }
}

/// A sum splits along any pointwise decomposition of its terms.
pub proof fn lemma_sum_split<T>(
    s: Seq<T>,
    f: spec_fn(T) -> int,
    g: spec_fn(T) -> int,
    h: spec_fn(T) -> int,
)
    requires
        forall|i: int| 0 <= i < s.len() ==> f(#[trigger] s[i]) == g(s[i]) + h(s[i]),
    ensures
        sum(s, f) == sum(s, g) + sum(s, h),
    decreases s.len(),
{
    if s.len() > 0 {
        let r = s.drop_last();
        assert forall|i: int| 0 <= i < r.len() implies f(#[trigger] r[i]) == g(r[i]) + h(r[i]) by {
            assert(r[i] == s[i]);
        }
        lemma_sum_split(r, f, g, h);
        assert(s.last() == s[s.len() - 1]);
    }
}

pub proof fn lemma_sum_zero<T>(s: Seq<T>, f: spec_fn(T) -> int)
    requires
        forall|i: int| 0 <= i < s.len() ==> f(#[trigger] s[i]) == 0,
    ensures
        sum(s, f) == 0,
    decreases s.len(),
{
    if s.len() > 0 {
        let r = s.drop_last();
        assert forall|i: int| 0 <= i < r.len() implies f(#[trigger] r[i]) == 0 by {
            assert(r[i] == s[i]);
        }
        lemma_sum_zero(r, f);
        assert(s.last() == s[s.len() - 1]);
    }
}

pub proof fn lemma_sum_nonneg<T>(s: Seq<T>, f: spec_fn(T) -> int)
    requires
        forall|i: int| 0 <= i < s.len() ==> f(#[trigger] s[i]) >= 0,
    ensures
        sum(s, f) >= 0,
    decreases s.len(),
{
    if s.len() > 0 {
        let r = s.drop_last();
        assert forall|i: int| 0 <= i < r.len() implies f(#[trigger] r[i]) >= 0 by {
            assert(r[i] == s[i]);
        }
        lemma_sum_nonneg(r, f);
        assert(s.last() == s[s.len() - 1]);
    }
}

/// In a sum without negative terms no single term exceeds the whole.
pub proof fn lemma_sum_bounds_term<T>(s: Seq<T>, f: spec_fn(T) -> int, k: int)
    requires
        forall|i: int| 0 <= i < s.len() ==> f(#[trigger] s[i]) >= 0,
        0 <= k < s.len(),
    ensures
        sum(s, f) >= f(s[k]),
    decreases s.len(),
{
    let r = s.drop_last();
    assert forall|i: int| 0 <= i < r.len() implies f(#[trigger] r[i]) >= 0 by {
        assert(r[i] == s[i]);
    }
    assert(s.last() == s[s.len() - 1]);
    if k == s.len() - 1 {
        lemma_sum_nonneg(r, f);
    } else {
        lemma_sum_bounds_term(r, f, k);
        assert(r[k] == s[k]);
    }
}

/// Nor do any two of its terms together.
pub proof fn lemma_sum_bounds_two<T>(s: Seq<T>, f: spec_fn(T) -> int, j: int, k: int)
    requires
        forall|i: int| 0 <= i < s.len() ==> f(#[trigger] s[i]) >= 0,
        0 <= j < s.len(),
        0 <= k < s.len(),
        j != k,
    ensures
        sum(s, f) >= f(s[j]) + f(s[k]),
    decreases s.len(),
{
    let r = s.drop_last();
    assert forall|i: int| 0 <= i < r.len() implies f(#[trigger] r[i]) >= 0 by {
        assert(r[i] == s[i]);
    }
    assert(s.last() == s[s.len() - 1]);
    if k == s.len() - 1 {
        lemma_sum_bounds_term(r, f, j);
        assert(r[j] == s[j]);
    } else if j == s.len() - 1 {
        lemma_sum_bounds_term(r, f, k);
        assert(r[k] == s[k]);
    } else {
        lemma_sum_bounds_two(r, f, j, k);
        assert(r[k] == s[k]);
        assert(r[j] == s[j]);
    }
}

/// A positive sum has a positive term.
pub proof fn lemma_sum_positive<T>(s: Seq<T>, f: spec_fn(T) -> int) -> (k: int)
    requires
        sum(s, f) > 0,
    ensures
        0 <= k < s.len(),
        f(s[k]) > 0,
    decreases s.len(),
{
    let r = s.drop_last();
    assert(s.last() == s[s.len() - 1]);
    if f(s.last()) > 0 {
        s.len() - 1
    } else {
        let k = lemma_sum_positive(r, f);
        assert(r[k] == s[k]);
        k
    }
}

pub proof fn lemma_sum_scale<T>(s: Seq<T>, f: spec_fn(T) -> int, g: spec_fn(T) -> int, c: int)
    requires
        forall|i: int| 0 <= i < s.len() ==> f(#[trigger] s[i]) == c * g(s[i]),
    ensures
        sum(s, f) == c * sum(s, g),
    decreases s.len(),
{
    if s.len() > 0 {
        let r = s.drop_last();
        assert forall|i: int| 0 <= i < r.len() implies f(#[trigger] r[i]) == c * g(r[i]) by {
            assert(r[i] == s[i]);
        }
        lemma_sum_scale(r, f, g, c);
        assert(s.last() == s[s.len() - 1]);
        assert(c * (sum(r, g) + g(s.last())) == c * sum(r, g) + c * g(s.last()))
            by (nonlinear_arith);
    } else {
        assert(c * 0 == 0);
    }
}

pub proof fn lemma_sum_monotone<T>(s: Seq<T>, f: spec_fn(T) -> int, g: spec_fn(T) -> int)
    requires
        forall|i: int| 0 <= i < s.len() ==> f(#[trigger] s[i]) <= g(s[i]),
    ensures
        sum(s, f) <= sum(s, g),
    decreases s.len(),
{
    if s.len() > 0 {
        let r = s.drop_last();
        assert forall|i: int| 0 <= i < r.len() implies f(#[trigger] r[i]) <= g(r[i]) by {
            assert(r[i] == s[i]);
        }
        lemma_sum_monotone(r, f, g);
        assert(s.last() == s[s.len() - 1]);
    }
}

/// Changing the function at one element changes the sum by that much.
pub proof fn lemma_sum_change<T>(s: Seq<T>, f: spec_fn(T) -> int, g: spec_fn(T) -> int, k: int)
    requires
        0 <= k < s.len(),
        forall|i: int| 0 <= i < s.len() && i != k ==> f(#[trigger] s[i]) == g(s[i]),
    ensures
        sum(s, g) == sum(s, f) - f(s[k]) + g(s[k]),
    decreases s.len(),
{
    let r = s.drop_last();
    assert forall|i: int| 0 <= i < r.len() && i != k implies f(#[trigger] r[i]) == g(r[i]) by {
        assert(r[i] == s[i]);
    }
    if k == s.len() - 1 {
        lemma_sum_same(r, f, g);
    } else {
        lemma_sum_change(r, f, g, k);
        assert(r[k] == s[k]);
        assert(s.last() == s[s.len() - 1]);
    }
}

/// The indices of a sequence of length `n`.
pub open spec fn indices(n: nat) -> Seq<int> {
    Seq::new(n, |i: int| i)
}

/// A sum over elements is a sum over their indices.
pub proof fn lemma_sum_indices<T>(s: Seq<T>, g: spec_fn(T) -> int)
    ensures
        sum(indices(s.len()), |i: int| g(s[i])) == sum(s, g),
    decreases s.len(),
{
    let by_index = |i: int| g(s[i]);
    if s.len() > 0 {
        let r = s.drop_last();
        lemma_sum_indices(r, g);
        assert(indices(s.len()).drop_last() =~= indices(r.len()));
        lemma_sum_same(indices(r.len()), by_index, |i: int| g(r[i]));
        assert(indices(s.len()).last() == s.len() - 1);
    }
}

/// Two sums with the same terms, one by one, are the same.
pub proof fn lemma_sum_match<S, T>(s: Seq<S>, t: Seq<T>, f: spec_fn(S) -> int, g: spec_fn(T) -> int)
    requires
        s.len() == t.len(),
        forall|i: int| #![trigger s[i]] #![trigger t[i]] 0 <= i < s.len() ==> f(s[i]) == g(t[i]),
    ensures
        sum(s, f) == sum(t, g),
    decreases s.len(),
{
    if s.len() > 0 {
        let s0 = s.drop_last();
        let t0 = t.drop_last();
        assert forall|i: int|
            #![trigger s0[i]]
            #![trigger t0[i]]
            0 <= i < s0.len() implies f(s0[i]) == g(t0[i]) by {
            assert(s0[i] == s[i] && t0[i] == t[i]);
        }
        lemma_sum_match(s0, t0, f, g);
        assert(f(s[s.len() - 1]) == g(t[t.len() - 1]));
    }
}

} // verus!
