//! The batch statistics oracle: stateless, one-pass functions over a fixed
//! sequence of samples, with no caching and no mutation. Each promises
//! exactly the aggregate that the container's cached queries promise over
//! their current samples, so the cached answers provably agree with a full
//! rescan.

use vstd::prelude::*;

use crate::aggregates::lemma_min_max_take_step;
use crate::aggregates::lemma_sum_bounds;
use crate::aggregates::lemma_sum_concat;
use crate::aggregates::max_seq;
use crate::aggregates::mean_floor;
use crate::aggregates::min_seq;
use crate::aggregates::sum_seq;
use crate::aggregates::sum_sq_seq;
use crate::aggregates::variance_floor;
use crate::aggregates::variance_num;
use crate::arith::floor_div_i128;
use crate::arith::is_sqrt_floor;
use crate::arith::isqrt_u128;

verus! {

/// One pass accumulating the sum and the sum of squares of the samples.
fn scan_sums(data: &Vec<i64>) -> (r: (i128, i128))
    requires
        data@.len() * sum_sq_seq(data@) <= i128::MAX as int,
    ensures
        r.0 as int == sum_seq(data@),
        r.1 as int == sum_sq_seq(data@),
{
    proof {
        lemma_sum_bounds(data@);
        assert(sum_sq_seq(data@) <= data@.len() * sum_sq_seq(data@)) by (nonlinear_arith)
            requires
                0 <= sum_sq_seq(data@),
                data@.len() >= 1 || sum_sq_seq(data@) == 0,
        ;
        assert(data@.take(0) =~= Seq::<i64>::empty());
    }
    let mut sum: i128 = 0;
    let mut sum_sq: i128 = 0;
    let mut i: usize = 0;
    while i < data.len()
        invariant
            0 <= i <= data@.len(),
            sum as int == sum_seq(data@.take(i as int)),
            sum_sq as int == sum_sq_seq(data@.take(i as int)),
            sum_sq_seq(data@) <= i128::MAX as int,
        decreases data@.len() - i,
    {
        let x = data[i];
        proof {
            let d = data@;
            assert(d.take(i as int + 1).drop_last() =~= d.take(i as int));
            assert(d.take(i as int + 1).last() == d[i as int]);
            lemma_sum_bounds(d.take(i as int + 1));
            lemma_sum_concat(d.take(i as int + 1), d.skip(i as int + 1));
            assert(d.take(i as int + 1) + d.skip(i as int + 1) =~= d);
            lemma_sum_bounds(d.skip(i as int + 1));
            assert(0 <= (x as int) * (x as int) <= (i64::MIN as int) * (i64::MIN as int))
                by (nonlinear_arith)
                requires
                    i64::MIN as int <= x as int <= i64::MAX as int,
            ;
        }
        sum = sum + x as i128;
        sum_sq = sum_sq + (x as i128) * (x as i128);
        i = i + 1;
    }
    proof {
        assert(data@.take(data@.len() as int) =~= data@);
    }
    (sum, sum_sq)
}

/// Floor of the mean of the samples, absent exactly on empty input: a
/// single scan, then one division.
pub fn mean(data: &Vec<i64>) -> (r: Option<i128>)
    ensures
        data@.len() == 0 ==> r is None,
        data@.len() > 0 ==> r == Some(mean_floor(data@) as i128),
{
    if data.len() == 0 {
        return None;
    }
    proof {
        assert(data@.take(0) =~= Seq::<i64>::empty());
        lemma_sum_bounds(data@);
    }
    let mut sum: i128 = 0;
    let mut i: usize = 0;
    while i < data.len()
        invariant
            0 <= i <= data@.len(),
            sum as int == sum_seq(data@.take(i as int)),
        decreases data@.len() - i,
    {
        let x = data[i];
        proof {
            let d = data@;
            assert(d.take(i as int + 1).drop_last() =~= d.take(i as int));
            assert(d.take(i as int + 1).last() == d[i as int]);
            lemma_sum_bounds(d.take(i as int));
        }
        sum = sum + x as i128;
        i = i + 1;
    }
    proof {
        assert(data@.take(data@.len() as int) =~= data@);
    }
    let q = floor_div_i128(sum, data.len());
    Some(q)
}

/// Floor of the population standard deviation of the samples, absent
/// exactly on empty input: a single scan for the two sums, then the same
/// clamped-variance formula the container's cached query uses. The two
/// product bounds are machine limits on the 128-bit intermediates.
pub fn stddev(data: &Vec<i64>) -> (r: Option<i128>)
    requires
        data@.len() * sum_sq_seq(data@) <= i128::MAX as int,
        sum_seq(data@) * sum_seq(data@) <= i128::MAX as int,
    ensures
        data@.len() == 0 <==> r is None,
        r matches Some(v) ==> is_sqrt_floor(variance_floor(data@), v as int),
{
    if data.len() == 0 {
        return None;
    }
    let (sum, sum_sq) = scan_sums(data);
    let n = data.len();
    proof {
        lemma_sum_bounds(data@);
        assert(0 <= (n as int) * (sum_sq as int)) by (nonlinear_arith)
            requires
                0 <= n as int,
                0 <= sum_sq as int,
        ;
        assert(0 <= (sum as int) * (sum as int)) by (nonlinear_arith);
    }
    let nssq: i128 = (n as i128) * sum_sq;
    let s2: i128 = sum * sum;
    let d: i128 = if nssq >= s2 {
        nssq - s2
    } else {
        0
    };
    let n_u: u128 = n as u128;
    proof {
        assert(n_u * n_u < u128::MAX as int) by (nonlinear_arith)
            requires
                0 <= n_u as int <= 0xffff_ffff_ffff_ffff as int,
        ;
        assert(n_u as int * n_u as int > 0) by (nonlinear_arith)
            requires
                n_u as int >= 1,
        ;
    }
    let nn: u128 = n_u * n_u;
    let q: u128 = (d as u128) / nn;
    proof {
        assert(d as int == variance_num(data@));
        assert(q as int == variance_floor(data@));
    }
    let root = isqrt_u128(q);
    Some(root as i128)
}

/// Smallest sample, absent exactly on empty input: a single linear fold.
pub fn min(data: &Vec<i64>) -> (r: Option<i64>)
    ensures
        data@.len() == 0 ==> r is None,
        data@.len() > 0 ==> r == Some(min_seq(data@)),
{
    if data.len() == 0 {
        return None;
    }
    proof {
        lemma_min_max_take_step(data@, 0);
    }
    let mut mn: i64 = data[0];
    let mut j: usize = 1;
    while j < data.len()
        invariant
            1 <= j <= data@.len(),
            mn == min_seq(data@.take(j as int)),
        decreases data@.len() - j,
    {
        proof {
            lemma_min_max_take_step(data@, j as int);
        }
        let x = data[j];
        if x < mn {
            mn = x;
        }
        j = j + 1;
    }
    proof {
        assert(data@.take(data@.len() as int) =~= data@);
    }
    Some(mn)
}

/// Largest sample, absent exactly on empty input: a single linear fold.
pub fn max(data: &Vec<i64>) -> (r: Option<i64>)
    ensures
        data@.len() == 0 ==> r is None,
        data@.len() > 0 ==> r == Some(max_seq(data@)),
{
    if data.len() == 0 {
        return None;
    }
    proof {
        lemma_min_max_take_step(data@, 0);
    }
    let mut mx: i64 = data[0];
    let mut j: usize = 1;
    while j < data.len()
        invariant
            1 <= j <= data@.len(),
            mx == max_seq(data@.take(j as int)),
        decreases data@.len() - j,
    {
        proof {
            lemma_min_max_take_step(data@, j as int);
        }
        let x = data[j];
        if x > mx {
            mx = x;
        }
        j = j + 1;
    }
    proof {
        assert(data@.take(data@.len() as int) =~= data@);
    }
    Some(mx)
}

} // verus!
