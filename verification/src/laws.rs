//! General laws of the container, proved over the same spec functions its
//! contracts use.

use vstd::prelude::*;

use crate::aggregates::max_seq;
use crate::aggregates::min_seq;
use crate::aggregates::sum_seq;
use crate::aggregates::sum_sq_seq;
use crate::arith::is_sqrt_floor;

verus! {

/// Law: the floor of a square root is unique, so the container's cached
/// standard-deviation query and the batch oracle, whose contracts both pin
/// the result by `is_sqrt_floor` of the same floored variance, must return
/// the same answer on the same samples.
pub proof fn lemma_sqrt_floor_unique(n: int, r1: int, r2: int)
    requires
        is_sqrt_floor(n, r1),
        is_sqrt_floor(n, r2),
    ensures
        r1 == r2,
{
    assert(r1 == r2) by (nonlinear_arith)
        requires
            0 <= r1,
            0 <= r2,
            r1 * r1 <= n,
            n < (r1 + 1) * (r1 + 1),
            r2 * r2 <= n,
            n < (r2 + 1) * (r2 + 1),
    ;
}

/// Law: once the container has been reduced to exactly one sample, by any
/// removal path, its minimum and maximum both equal that sample.
pub proof fn lemma_singleton_collapse(s: Seq<i64>)
    requires
        s.len() == 1,
    ensures
        min_seq(s) == s[0],
        max_seq(s) == s[0],
{
}

/// Law: the empty sequence contributes nothing to either running sum, so a
/// freshly created or freshly reset container carries zero in both.
pub proof fn lemma_empty_sums(s: Seq<i64>)
    requires
        s.len() == 0,
    ensures
        sum_seq(s) == 0,
        sum_sq_seq(s) == 0,
{
}

/// Law: a removal at `i` keeps every remaining sample in its relative
/// order — those before `i` keep their index, those after move one place
/// left. Removal-based operations (`remove`, `pop`, `drain`, `split_off`,
/// `truncate`, `trim`) promise sequences of this shape.
pub proof fn lemma_remove_preserves_order(s: Seq<i64>, i: int)
    requires
        0 <= i < s.len(),
    ensures
        s.remove(i).len() == s.len() - 1,
        forall|k: int| 0 <= k < i ==> s.remove(i)[k] == s[k],
        forall|k: int| i <= k < s.len() - 1 ==> s.remove(i)[k] == s[k + 1],
{
}

/// Law: an insertion at `i` keeps every prior sample in its relative
/// order — those before `i` keep their index, those from `i` on move one
/// place right. Insertion-based operations (`insert`, `push`, `append`,
/// `splice`) promise sequences of this shape.
pub proof fn lemma_insert_preserves_order(s: Seq<i64>, i: int, x: i64)
    requires
        0 <= i <= s.len(),
    ensures
        s.insert(i, x).len() == s.len() + 1,
        s.insert(i, x)[i] == x,
        forall|k: int| 0 <= k < i ==> s.insert(i, x)[k] == s[k],
        forall|k: int| i <= k < s.len() ==> s.insert(i, x)[k + 1] == s[k],
{
}

/// Law: pushing the samples `vs` onto a container holding `s` and then
/// popping `vs.len()` times returns the container to `s`, and the `k`-th
/// pop from the end hands back exactly `vs[k]` — the pops replay the
/// pushes in reverse order.
pub proof fn lemma_push_pop_round_trip(s: Seq<i64>, vs: Seq<i64>, k: int)
    requires
        0 <= k < vs.len(),
    ensures
        (s + vs).take(s.len() + k + 1).drop_last() == (s + vs).take(s.len() + k),
        (s + vs).take(s.len() + k + 1).last() == vs[k],
        (s + vs).take(s.len() as int) == s,
{
    assert((s + vs).take(s.len() + k + 1).drop_last() =~= (s + vs).take(s.len() + k));
    assert((s + vs).take(s.len() + k + 1).last() == vs[k]);
    assert((s + vs).take(s.len() as int) =~= s);
}

} // verus!
