//! Mathematical model of the running aggregates: the sum, the sum of
//! squares, the minimum and the maximum of a sequence of samples, together
//! with the lemmas that say how each aggregate moves when an element is
//! inserted into or removed from the sequence.

use vstd::prelude::*;

verus! {

/// Sum of the samples, as an unbounded integer.
pub open spec fn sum_seq(s: Seq<i64>) -> int
    decreases s.len(),
{
    if s.len() == 0 {
        0
    } else {
        sum_seq(s.drop_last()) + s.last() as int
    }
}

/// Sum of the squared samples, as an unbounded integer.
pub open spec fn sum_sq_seq(s: Seq<i64>) -> int
    decreases s.len(),
{
    if s.len() == 0 {
        0
    } else {
        sum_sq_seq(s.drop_last()) + (s.last() as int) * (s.last() as int)
    }
}

/// Smallest sample of a non-empty sequence.
pub open spec fn min_seq(s: Seq<i64>) -> i64
    recommends
        s.len() > 0,
    decreases s.len(),
{
    if s.len() <= 1 {
        s[0]
    } else if s.last() < min_seq(s.drop_last()) {
        s.last()
    } else {
        min_seq(s.drop_last())
    }
}

/// Largest sample of a non-empty sequence.
pub open spec fn max_seq(s: Seq<i64>) -> i64
    recommends
        s.len() > 0,
    decreases s.len(),
{
    if s.len() <= 1 {
        s[0]
    } else if s.last() > max_seq(s.drop_last()) {
        s.last()
    } else {
        max_seq(s.drop_last())
    }
}

/// Floor of the mean of a non-empty sequence.
pub open spec fn mean_floor(s: Seq<i64>) -> int
    recommends
        s.len() > 0,
{
    sum_seq(s) / s.len() as int
}

/// Numerator of the population variance, scaled by `len * len`: the
/// expression `len * sum_of_squares - sum * sum`, clamped at zero. With
/// exact arithmetic the expression is never negative, but the clamp is part
/// of the query's definition and costs nothing.
pub open spec fn variance_num(s: Seq<i64>) -> int {
    let d = s.len() * sum_sq_seq(s) - sum_seq(s) * sum_seq(s);
    if d < 0 {
        0
    } else {
        d
    }
}

/// Floor of the population variance of a non-empty sequence.
pub open spec fn variance_floor(s: Seq<i64>) -> int
    recommends
        s.len() > 0,
{
    variance_num(s) / (s.len() as int * s.len() as int)
}

/// Sums distribute over concatenation.
pub proof fn lemma_sum_concat(a: Seq<i64>, b: Seq<i64>)
    ensures
        sum_seq(a + b) == sum_seq(a) + sum_seq(b),
        sum_sq_seq(a + b) == sum_sq_seq(a) + sum_sq_seq(b),
    decreases b.len(),
{
    if b.len() == 0 {
        assert(a + b =~= a);
    } else {
        assert((a + b).drop_last() =~= a + b.drop_last());
        assert((a + b).last() == b.last());
        lemma_sum_concat(a, b.drop_last());
    }
}

/// The sum of `n` samples lies between `n * i64::MIN` and `n * i64::MAX`,
/// and the sum of their squares between `0` and `n * i64::MIN * i64::MIN`.
pub proof fn lemma_sum_bounds(s: Seq<i64>)
    ensures
        s.len() * (i64::MIN as int) <= sum_seq(s) <= s.len() * (i64::MAX as int),
        0 <= sum_sq_seq(s) <= s.len() * ((i64::MIN as int) * (i64::MIN as int)),
    decreases s.len(),
{
    if s.len() > 0 {
        lemma_sum_bounds(s.drop_last());
        let x = s.last() as int;
        assert(0 <= x * x <= (i64::MIN as int) * (i64::MIN as int)) by (nonlinear_arith)
            requires
                i64::MIN as int <= x <= i64::MAX as int,
        ;
    }
}

/// The minimum is a member of the sequence and a lower bound on every
/// element; the maximum is a member and an upper bound.
pub proof fn lemma_min_max_props(s: Seq<i64>)
    requires
        s.len() > 0,
    ensures
        s.contains(min_seq(s)),
        s.contains(max_seq(s)),
        forall|j: int| 0 <= j < s.len() ==> min_seq(s) <= #[trigger] s[j] <= max_seq(s),
    decreases s.len(),
{
    if s.len() == 1 {
        assert(s[0] == min_seq(s));
        assert(s[0] == max_seq(s));
    } else {
        let t = s.drop_last();
        lemma_min_max_props(t);
        assert forall|j: int| 0 <= j < s.len() implies min_seq(s) <= #[trigger] s[j] <= max_seq(s) by {
            if j < s.len() - 1 {
                assert(s[j] == t[j]);
            } else {
                assert(s[j] == s.last());
            }
        }
        if s.last() < min_seq(t) {
            assert(s[s.len() - 1] == min_seq(s));
        } else {
            let i = choose|i: int| 0 <= i < t.len() && t[i] == min_seq(t);
            assert(s[i] == min_seq(s));
        }
        if s.last() > max_seq(t) {
            assert(s[s.len() - 1] == max_seq(s));
        } else {
            let i = choose|i: int| 0 <= i < t.len() && t[i] == max_seq(t);
            assert(s[i] == max_seq(s));
        }
    }
}

/// A member that bounds every element from below is the minimum.
pub proof fn lemma_min_unique(s: Seq<i64>, m: i64)
    requires
        s.len() > 0,
        s.contains(m),
        forall|j: int| 0 <= j < s.len() ==> m <= #[trigger] s[j],
    ensures
        min_seq(s) == m,
{
    lemma_min_max_props(s);
    let i = choose|i: int| 0 <= i < s.len() && s[i] == min_seq(s);
    assert(m <= s[i]);
    let j = choose|j: int| 0 <= j < s.len() && s[j] == m;
    assert(min_seq(s) <= s[j]);
}

/// A member that bounds every element from above is the maximum.
pub proof fn lemma_max_unique(s: Seq<i64>, m: i64)
    requires
        s.len() > 0,
        s.contains(m),
        forall|j: int| 0 <= j < s.len() ==> #[trigger] s[j] <= m,
    ensures
        max_seq(s) == m,
{
    lemma_min_max_props(s);
    let i = choose|i: int| 0 <= i < s.len() && s[i] == max_seq(s);
    assert(s[i] <= m);
    let j = choose|j: int| 0 <= j < s.len() && s[j] == m;
    assert(s[j] <= max_seq(s));
}

/// Inserting a sample adds it to both sums, wherever it lands.
pub proof fn lemma_sum_insert(s: Seq<i64>, i: int, x: i64)
    requires
        0 <= i <= s.len(),
    ensures
        sum_seq(s.insert(i, x)) == sum_seq(s) + x,
        sum_sq_seq(s.insert(i, x)) == sum_sq_seq(s) + (x as int) * (x as int),
{
    let pre = s.subrange(0, i);
    let post = s.subrange(i, s.len() as int);
    lemma_sum_concat(pre.push(x), post);
    assert(pre.push(x).drop_last() =~= pre);
    lemma_sum_concat(pre, post);
    assert(pre + post =~= s);
}

/// Removing a sample subtracts it from both sums, wherever it stood.
pub proof fn lemma_sum_remove(s: Seq<i64>, i: int)
    requires
        0 <= i < s.len(),
    ensures
        sum_seq(s.remove(i)) == sum_seq(s) - s[i],
        sum_sq_seq(s.remove(i)) == sum_sq_seq(s) - (s[i] as int) * (s[i] as int),
{
    let pre = s.subrange(0, i);
    let post = s.subrange(i + 1, s.len() as int);
    lemma_sum_concat(pre, post);
    lemma_sum_concat(pre.push(s[i]), post);
    assert(pre.push(s[i]).drop_last() =~= pre);
    assert(pre.push(s[i]) + post =~= s);
}

/// Inserting a sample moves each extremum to it exactly when it passes the
/// old extremum; into an empty sequence it becomes both extrema.
pub proof fn lemma_min_max_insert(s: Seq<i64>, i: int, x: i64)
    requires
        0 <= i <= s.len(),
    ensures
        s.len() == 0 ==> min_seq(s.insert(i, x)) == x && max_seq(s.insert(i, x)) == x,
        s.len() > 0 ==> min_seq(s.insert(i, x)) == (if x < min_seq(s) { x } else { min_seq(s) }),
        s.len() > 0 ==> max_seq(s.insert(i, x)) == (if x > max_seq(s) { x } else { max_seq(s) }),
{
    let t = s.insert(i, x);
    assert(t.len() == s.len() + 1);
    assert forall|k: int| 0 <= k < t.len() implies #[trigger] t[k] == (if k < i { s[k] } else if k == i { x } else { s[k - 1] }) by {
    }
    if s.len() == 0 {
        assert(t[0] == x);
    } else {
        lemma_min_max_props(s);
        let mn = if x < min_seq(s) { x } else { min_seq(s) };
        let mx = if x > max_seq(s) { x } else { max_seq(s) };
        if mn == x {
            assert(t[i] == mn);
        } else {
            let j = choose|j: int| 0 <= j < s.len() && s[j] == min_seq(s);
            if j < i {
                assert(t[j] == mn);
            } else {
                assert(t[j + 1] == mn);
            }
        }
        if mx == x {
            assert(t[i] == mx);
        } else {
            let j = choose|j: int| 0 <= j < s.len() && s[j] == max_seq(s);
            if j < i {
                assert(t[j] == mx);
            } else {
                assert(t[j + 1] == mx);
            }
        }
        assert forall|k: int| 0 <= k < t.len() implies mn <= #[trigger] t[k] <= mx by {
            if k < i {
                assert(t[k] == s[k]);
            } else if k > i {
                assert(t[k] == s[k - 1]);
            }
        }
        lemma_min_unique(t, mn);
        lemma_max_unique(t, mx);
    }
}

/// Removing a sample that is neither the minimum nor the maximum leaves
/// both extrema unchanged.
pub proof fn lemma_min_max_remove_inner(s: Seq<i64>, i: int)
    requires
        0 <= i < s.len(),
        s.len() >= 2,
        s[i] != min_seq(s),
        s[i] != max_seq(s),
    ensures
        min_seq(s.remove(i)) == min_seq(s),
        max_seq(s.remove(i)) == max_seq(s),
{
    let t = s.remove(i);
    lemma_min_max_props(s);
    assert forall|k: int| 0 <= k < t.len() implies #[trigger] t[k] == (if k < i { s[k] } else { s[k + 1] }) by {
    }
    let j = choose|j: int| 0 <= j < s.len() && s[j] == min_seq(s);
    if j < i {
        assert(t[j] == min_seq(s));
    } else {
        assert(t[j - 1] == min_seq(s));
    }
    let j2 = choose|j2: int| 0 <= j2 < s.len() && s[j2] == max_seq(s);
    if j2 < i {
        assert(t[j2] == max_seq(s));
    } else {
        assert(t[j2 - 1] == max_seq(s));
    }
    assert forall|k: int| 0 <= k < t.len() implies min_seq(s) <= #[trigger] t[k] <= max_seq(s) by {
        if k < i {
            assert(t[k] == s[k]);
        } else {
            assert(t[k] == s[k + 1]);
        }
    }
    lemma_min_unique(t, min_seq(s));
    lemma_max_unique(t, max_seq(s));
}

/// One step of the linear rescan: extending a scanned prefix by one sample
/// updates the prefix extrema by a single comparison each.
pub proof fn lemma_min_max_take_step(s: Seq<i64>, j: int)
    requires
        0 <= j < s.len(),
    ensures
        j == 0 ==> min_seq(s.take(1)) == s[0] && max_seq(s.take(1)) == s[0],
        j > 0 ==> min_seq(s.take(j + 1)) == (if s[j] < min_seq(s.take(j)) { s[j] } else { min_seq(s.take(j)) }),
        j > 0 ==> max_seq(s.take(j + 1)) == (if s[j] > max_seq(s.take(j)) { s[j] } else { max_seq(s.take(j)) }),
{
    assert(s.take(j + 1).drop_last() =~= s.take(j));
    assert(s.take(j + 1).last() == s[j]);
}

} // verus!
