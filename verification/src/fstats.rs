//! The incremental cached-statistics container: an insertion-ordered
//! sequence of `i64` samples beside four scalar caches — sum, sum of
//! squares, minimum and maximum — that every structural mutation keeps
//! consistent with the sequence before it returns.
//!
//! The caches make every aggregate query O(1). The one costly repair is
//! removal of a cached extremum, which forces a single linear rescan of the
//! remaining samples; removal of any other sample leaves both extrema
//! provably unchanged and does no rescan.

use vstd::prelude::*;

use crate::aggregates::lemma_min_max_insert;
use crate::aggregates::lemma_min_max_remove_inner;
use crate::aggregates::lemma_min_max_take_step;
use crate::aggregates::lemma_sum_bounds;
use crate::aggregates::lemma_sum_concat;
use crate::aggregates::lemma_sum_insert;
use crate::aggregates::lemma_sum_remove;
use crate::aggregates::max_seq;
use crate::aggregates::mean_floor;
use crate::aggregates::min_seq;
use crate::aggregates::sum_seq;
use crate::aggregates::sum_sq_seq;
use crate::aggregates::variance_floor;
use crate::aggregates::variance_num;
use crate::arith::floor_div_i128;
use crate::arith::is_sqrt_floor;
use crate::arith::isqrt_u128;

verus! {

/// One end of an index range: unbounded, or an inclusive or exclusive
/// index.
#[derive(Clone, Copy)]
pub enum Bound {
    Unbounded,
    Included(usize),
    Excluded(usize),
}

/// An index range over the samples, with an independently unbounded,
/// inclusive or exclusive bound at each end.
#[derive(Clone, Copy)]
pub struct IdxRange {
    pub start: Bound,
    pub end: Bound,
}

/// First index named by a start bound: unbounded means the front, an
/// exclusive index means the one after it (saturating at `usize::MAX`).
pub open spec fn start_index_of(b: Bound) -> int {
    match b {
        Bound::Unbounded => 0,
        Bound::Included(s) => s as int,
        Bound::Excluded(s) => if s == usize::MAX {
            s as int
        } else {
            s as int + 1
        },
    }
}

/// Last index named by an end bound against a sequence of length `len`:
/// unbounded means the back, an exclusive index means the one before it
/// (saturating at zero).
pub open spec fn end_index_of(b: Bound, len: int) -> int {
    match b {
        Bound::Unbounded => len - 1,
        Bound::Included(e) => e as int,
        Bound::Excluded(e) => if e == 0 {
            0
        } else {
            e as int - 1
        },
    }
}

/// Start index of a translated range.
pub open spec fn range_start(r: IdxRange) -> int {
    start_index_of(r.start)
}

/// Element count of a translated range against length `len`. An unbounded
/// end over an empty sequence names nothing, and a last index before the
/// start index likewise.
pub open spec fn range_count(r: IdxRange, len: int) -> int {
    if len == 0 && (r.end is Unbounded) {
        0
    } else {
        let s = start_index_of(r.start);
        let e = end_index_of(r.end, len);
        if e < s {
            0
        } else {
            e - s + 1
        }
    }
}

/// Ordered container of `i64` samples with cached running aggregates.
pub struct Stats {
    data: Vec<i64>,
    length: usize,
    sum: i128,
    sum_of_squares: i128,
    max: Option<i64>,
    min: Option<i64>,
}

impl View for Stats {
    type V = Seq<i64>;

    closed spec fn view(&self) -> Seq<i64> {
        self.data@
    }
}

impl Stats {
    /// The four caches and the count agree with the sequence `s`.
    spec fn caches_ok(self, s: Seq<i64>) -> bool {
        &&& self.length == s.len()
        &&& self.sum as int == sum_seq(s)
        &&& self.sum_of_squares as int == sum_sq_seq(s)
        &&& (s.len() == 0 ==> self.min is None && self.max is None)
        &&& (s.len() > 0 ==> self.min == Some(min_seq(s)) && self.max == Some(max_seq(s)))
    }

    /// Consistency invariant: the caches agree with the backing sequence,
    /// so every cached aggregate equals what a full rescan would compute.
    /// Established by `new` and preserved by every mutating operation.
    pub closed spec fn wf(self) -> bool {
        self.caches_ok(self@)
    }

    /// Creates an empty container.
    pub fn new() -> (r: Stats)
        ensures
            r.wf(),
            r@ == Seq::<i64>::empty(),
    {
        let r = Stats {
            data: Vec::new(),
            length: 0,
            sum: 0,
            sum_of_squares: 0,
            max: None,
            min: None,
        };
        proof {
            assert(r@ =~= Seq::<i64>::empty());
        }
        r
    }

    /// Clears the container back to the empty state: the backing storage is
    /// released and every cache takes its empty-state value.
    pub fn reset(&mut self)
        ensures
            final(self).wf(),
            final(self)@ == Seq::<i64>::empty(),
    {
        self.data = Vec::new();
        self.length = 0;
        self.sum = 0;
        self.sum_of_squares = 0;
        self.max = None;
        self.min = None;
        proof {
            assert(self@ =~= Seq::<i64>::empty());
        }
    }

    /// Number of samples held.
    pub fn len(&self) -> (r: usize)
        ensures
            r == self@.len(),
    {
        self.data.len()
    }

    /// Whether the container holds no sample.
    pub fn is_empty(&self) -> (r: bool)
        ensures
            r == (self@.len() == 0),
    {
        self.data.is_empty()
    }

    /// Cached minimum, absent exactly on the empty container. No scan.
    pub fn min(&self) -> (r: Option<i64>)
        requires
            self.wf(),
        ensures
            self@.len() == 0 ==> r is None,
            self@.len() > 0 ==> r == Some(min_seq(self@)),
    {
        if self.length > 0 {
            self.min
        } else {
            None
        }
    }

    /// Cached maximum, absent exactly on the empty container. No scan.
    pub fn max(&self) -> (r: Option<i64>)
        requires
            self.wf(),
        ensures
            self@.len() == 0 ==> r is None,
            self@.len() > 0 ==> r == Some(max_seq(self@)),
    {
        if self.length > 0 {
            self.max
        } else {
            None
        }
    }

    /// Floor of the mean, computed from the cached sum with no scan;
    /// absent exactly on the empty container.
    pub fn mean(&self) -> (r: Option<i128>)
        requires
            self.wf(),
        ensures
            self@.len() == 0 ==> r is None,
            self@.len() > 0 ==> r == Some(mean_floor(self@) as i128),
    {
        if self.length > 0 {
            proof {
                lemma_sum_bounds(self.data@);
            }
            let q = floor_div_i128(self.sum, self.length);
            Some(q)
        } else {
            None
        }
    }

    /// Floor of the population standard deviation, computed from the cached
    /// sums with no scan; absent exactly on the empty container. The
    /// variance numerator `len * sum_of_squares - sum * sum` is clamped at
    /// zero before the division, as the query's definition asks. The two
    /// product bounds are machine limits on the 128-bit intermediates.
    pub fn stddev(&self) -> (r: Option<i128>)
        requires
            self.wf(),
            self@.len() * sum_sq_seq(self@) <= i128::MAX as int,
            sum_seq(self@) * sum_seq(self@) <= i128::MAX as int,
        ensures
            self@.len() == 0 <==> r is None,
            r matches Some(v) ==> is_sqrt_floor(variance_floor(self@), v as int),
    {
        if self.length == 0 {
            return None;
        }
        proof {
            lemma_sum_bounds(self.data@);
            assert(0 <= (self.length as int) * (self.sum_of_squares as int)) by (nonlinear_arith)
                requires
                    0 <= self.length as int,
                    0 <= self.sum_of_squares as int,
            ;
            assert(0 <= (self.sum as int) * (self.sum as int)) by (nonlinear_arith);
        }
        let nssq: i128 = (self.length as i128) * self.sum_of_squares;
        let s2: i128 = self.sum * self.sum;
        let d: i128 = if nssq >= s2 {
            nssq - s2
        } else {
            0
        };
        let n_u: u128 = self.length as u128;
        proof {
            assert(n_u * n_u < u128::MAX as int) by (nonlinear_arith)
                requires
                    0 <= n_u as int <= 0xffff_ffff_ffff_ffff as int,
            ;
            assert(n_u as int * n_u as int > 0) by (nonlinear_arith)
                requires
                    n_u as int >= 1,
            ;
        }
        let nn: u128 = n_u * n_u;
        let q: u128 = (d as u128) / nn;
        proof {
            assert(d as int == variance_num(self.data@));
            assert(q as int == variance_floor(self.data@));
        }
        let root = isqrt_u128(q);
        Some(root as i128)
    }

    /// A copy of the backing sequence, in order.
    pub fn data(&self) -> (r: Vec<i64>)
        ensures
            r@ == self@,
    {
        let mut out: Vec<i64> = Vec::new();
        let mut i: usize = 0;
        while i < self.data.len()
            invariant
                0 <= i <= self.data@.len(),
                out@ == self.data@.take(i as int),
            decreases self.data@.len() - i,
        {
            let x = self.data[i];
            out.push(x);
            proof {
                assert(out@ =~= self.data@.take(i as int + 1));
            }
            i = i + 1;
        }
        proof {
            assert(self.data@.take(self.data@.len() as int) =~= self.data@);
        }
        out
    }

    /// O(1) cache update after one sample `x` has been inserted at position
    /// `at` of the data; `prev` is the sequence before the insertion.
    fn add_cache(&mut self, x: i64, prev: Ghost<Seq<i64>>, at: Ghost<int>)
        requires
            0 <= at@ <= prev@.len(),
            old(self).data@ == prev@.insert(at@, x),
            old(self).caches_ok(prev@),
            sum_sq_seq(prev@) + (x as int) * (x as int) <= i128::MAX as int,
        ensures
            final(self).data@ == old(self).data@,
            final(self).caches_ok(final(self).data@),
    {
        proof {
            lemma_sum_insert(prev@, at@, x);
            lemma_min_max_insert(prev@, at@, x);
            lemma_sum_bounds(self.data@);
            lemma_sum_bounds(prev@);
        }
        // the count after the insertion is this vector's length, so it fits
        let new_length = self.data.len();
        self.sum = self.sum + x as i128;
        self.sum_of_squares = self.sum_of_squares + (x as i128) * (x as i128);
        self.length = new_length;
        self.max = match self.max {
            None => Some(x),
            Some(m) => if m < x {
                Some(x)
            } else {
                Some(m)
            },
        };
        self.min = match self.min {
            None => Some(x),
            Some(m) => if x < m {
                Some(x)
            } else {
                Some(m)
            },
        };
    }

    /// Cache repair after the sample `x` at position `at` of `prev` has been
    /// removed from the data. If samples remain and `x` equals a cached
    /// extremum, one linear rescan recomputes both extrema; otherwise the
    /// repair is O(1), since removing a non-extremal sample provably leaves
    /// both extrema unchanged.
    fn del_cache(&mut self, x: i64, prev: Ghost<Seq<i64>>, at: Ghost<int>)
        requires
            0 <= at@ < prev@.len(),
            prev@[at@] == x,
            old(self).data@ == prev@.remove(at@),
            old(self).caches_ok(prev@),
        ensures
            final(self).data@ == old(self).data@,
            final(self).caches_ok(final(self).data@),
    {
        proof {
            lemma_sum_remove(prev@, at@);
            lemma_sum_bounds(self.data@);
            lemma_sum_bounds(prev@);
            assert(0 <= (x as int) * (x as int)) by (nonlinear_arith);
        }
        self.sum = self.sum - x as i128;
        self.sum_of_squares = self.sum_of_squares - (x as i128) * (x as i128);
        self.length = self.length - 1;
        if self.length == 0 {
            self.max = None;
            self.min = None;
        } else if self.length == 1 {
            let only = self.data[0];
            self.max = Some(only);
            self.min = Some(only);
        } else {
            proof {
                crate::aggregates::lemma_min_max_props(prev@);
            }
            let cmx = self.max.unwrap();
            let cmn = self.min.unwrap();
            if cmx == x || cmn == x {
                let (mn, mx) = scan_min_max(&self.data);
                self.min = Some(mn);
                self.max = Some(mx);
            } else {
                proof {
                    lemma_min_max_remove_inner(prev@, at@);
                }
            }
        }
    }

    /// Translates an index range into the pair (start index, element
    /// count) that `drain` and `splice` act on. The one machine limit asks
    /// that the translated count fit a `usize`.
    pub fn count_in_range(&self, range: &IdxRange) -> (r: (usize, usize))
        requires
            range_count(*range, self@.len() as int) <= usize::MAX as int,
        ensures
            r.0 as int == range_start(*range),
            r.1 as int == range_count(*range, self@.len() as int),
    {
        let start: usize = match range.start {
            Bound::Unbounded => 0,
            Bound::Included(s) => s,
            Bound::Excluded(s) => if s == usize::MAX {
                usize::MAX
            } else {
                s + 1
            },
        };
        let end: usize = match range.end {
            Bound::Unbounded => {
                if self.data.len() == 0 {
                    return (start, 0);
                }
                self.data.len() - 1
            },
            Bound::Included(e) => e,
            Bound::Excluded(e) => if e == 0 {
                0
            } else {
                e - 1
            },
        };
        if end < start {
            (start, 0)
        } else {
            (start, end - start + 1)
        }
    }

    /// Removes and returns, in their original order, the samples whose
    /// positions the range names. Conceptually repeated `remove` at the
    /// translated start position; the caches end consistent with what
    /// remains. An unbounded range over the empty container names nothing
    /// and is a no-op.
    pub fn drain(&mut self, range: &IdxRange) -> (r: Vec<i64>)
        requires
            old(self).wf(),
            ({
                let s = range_start(*range);
                let c = range_count(*range, old(self)@.len() as int);
                c == 0 || s + c <= old(self)@.len()
            }),
        ensures
            final(self).wf(),
            ({
                let s = range_start(*range);
                let c = range_count(*range, old(self)@.len() as int);
                if c == 0 {
                    r@ == Seq::<i64>::empty() && final(self)@ == old(self)@
                } else {
                    r@ == old(self)@.subrange(s, s + c) && final(self)@ == old(self)@.subrange(
                        0,
                        s,
                    ) + old(self)@.subrange(s + c, old(self)@.len() as int)
                }
            }),
    {
        let (start, count) = self.count_in_range(range);
        let mut del: Vec<i64> = Vec::new();
        proof {
            assert(del@ =~= Seq::<i64>::empty());
        }
        if count == 0 {
            return del;
        }
        let ghost orig = self@;
        let ghost s = start as int;
        let ghost n = orig.len() as int;
        proof {
            assert(orig.subrange(0, s) + orig.subrange(s, n) =~= orig);
        }
        let mut k: usize = 0;
        while k < count
            invariant
                self.wf(),
                0 <= k <= count,
                s == start as int,
                n == orig.len() as int,
                s + count <= n,
                self@ == orig.subrange(0, s) + orig.subrange(s + k, n),
                del@ == orig.subrange(s, s + k),
            decreases count - k,
        {
            let ghost cur = self@;
            let x = self.remove(start);
            proof {
                assert(cur[s] == orig[s + k]);
                assert(cur.remove(s) =~= orig.subrange(0, s) + orig.subrange(s + k + 1, n));
            }
            del.push(x);
            proof {
                assert(del@ =~= orig.subrange(s, s + k + 1));
            }
            k = k + 1;
        }
        del
    }

    /// Appends `x` at the end. O(1) cache update. The two bounds are
    /// machine limits: the count must fit a `usize` and the updated sum of
    /// squares must fit an `i128`.
    pub fn push(&mut self, x: i64)
        requires
            old(self).wf(),
            old(self)@.len() < usize::MAX,
            sum_sq_seq(old(self)@) + (x as int) * (x as int) <= i128::MAX as int,
        ensures
            final(self).wf(),
            final(self)@ == old(self)@.push(x),
    {
        let ghost p = self.data@;
        self.data.push(x);
        proof {
            assert(self.data@ =~= p.insert(p.len() as int, x));
        }
        self.add_cache(x, Ghost(p), Ghost(p.len() as int));
    }

    /// Inserts `x` at position `index`, shifting the samples behind it.
    /// The cache update is the same O(1) step as `push`'s: the position
    /// does not affect any aggregate. Out-of-bounds positions are rejected
    /// by contract: `index` may be at most the current length.
    pub fn insert(&mut self, index: usize, element: i64)
        requires
            old(self).wf(),
            index <= old(self)@.len(),
            old(self)@.len() < usize::MAX,
            sum_sq_seq(old(self)@) + (element as int) * (element as int) <= i128::MAX as int,
        ensures
            final(self).wf(),
            final(self)@ == old(self)@.insert(index as int, element),
    {
        let ghost p = self.data@;
        self.data.insert(index, element);
        self.add_cache(element, Ghost(p), Ghost(index as int));
    }

    /// Removes and returns the last sample, or reports emptiness. Cache
    /// repair as described on `del_cache`.
    pub fn pop(&mut self) -> (r: Option<i64>)
        requires
            old(self).wf(),
        ensures
            final(self).wf(),
            old(self)@.len() == 0 ==> r is None && final(self)@ == old(self)@,
            old(self)@.len() > 0 ==> r == Some(old(self)@.last()) && final(self)@
                == old(self)@.drop_last(),
    {
        let ghost p = self.data@;
        let option = self.data.pop();
        match option {
            Some(x) => {
                proof {
                    assert(self.data@ =~= p.remove(p.len() - 1));
                }
                self.del_cache(x, Ghost(p), Ghost(p.len() - 1));
            },
            None => {},
        }
        option
    }

    /// Removes the samples the range names and inserts `replace_with` in
    /// their place, preserving overall order; returns the removed samples
    /// in their original order. Equivalent to `drain(range)` followed by
    /// inserting the replacement at the range's start. The two sum bounds
    /// are machine limits on the count and the 128-bit sum of squares.
    pub fn splice(&mut self, range: &IdxRange, replace_with: &Vec<i64>) -> (r: Vec<i64>)
        requires
            old(self).wf(),
            ({
                let s = range_start(*range);
                let c = range_count(*range, old(self)@.len() as int);
                (c == 0 && replace_with@.len() == 0) || s + c <= old(self)@.len()
            }),
            old(self)@.len() + replace_with@.len() <= usize::MAX,
            sum_sq_seq(old(self)@) + sum_sq_seq(replace_with@) <= i128::MAX as int,
        ensures
            final(self).wf(),
            ({
                let s = range_start(*range);
                let c = range_count(*range, old(self)@.len() as int);
                let n = old(self)@.len() as int;
                if s + c <= n {
                    r@ == old(self)@.subrange(s, s + c) && final(self)@ == old(self)@.subrange(
                        0,
                        s,
                    ) + replace_with@ + old(self)@.subrange(s + c, n)
                } else {
                    r@ == Seq::<i64>::empty() && final(self)@ == old(self)@
                }
            }),
    {
        let ghost orig = self@;
        let ghost s = range_start(*range);
        let ghost c = range_count(*range, orig.len() as int);
        let ghost n = orig.len() as int;
        let (start, count) = self.count_in_range(range);
        if count == 0 && replace_with.len() == 0 {
            let del: Vec<i64> = Vec::new();
            proof {
                assert(del@ =~= Seq::<i64>::empty());
                if s + c <= n {
                    assert(orig.subrange(s, s) =~= Seq::<i64>::empty());
                    assert(orig.subrange(0, s) + Seq::<i64>::empty() + orig.subrange(s, n)
                        =~= orig);
                }
            }
            return del;
        }
        let del = self.drain(range);
        let ghost pre = orig.subrange(0, s);
        let ghost post = orig.subrange(s + c, n);
        proof {
            if c == 0 {
                assert(pre + post =~= orig);
            }
            assert(self@ == pre + post);
            lemma_sum_concat(pre, post);
            lemma_sum_concat(pre, orig.subrange(s, s + c));
            assert(pre + orig.subrange(s, s + c) =~= orig.subrange(0, s + c));
            lemma_sum_concat(orig.subrange(0, s + c), post);
            assert(orig.subrange(0, s + c) + post =~= orig);
            lemma_sum_bounds(orig.subrange(s, s + c));
            lemma_sum_bounds(pre);
            lemma_sum_bounds(post);
        }
        let mut i: usize = 0;
        while i < replace_with.len()
            invariant
                self.wf(),
                0 <= i <= replace_with@.len(),
                s == start as int,
                0 <= s,
                0 <= c,
                s + c <= n,
                n == orig.len() as int,
                n + replace_with@.len() <= usize::MAX,
                pre == orig.subrange(0, s),
                post == orig.subrange(s + c, n),
                self@ == pre + replace_with@.take(i as int) + post,
                sum_sq_seq(pre) + sum_sq_seq(post) <= sum_sq_seq(orig),
                0 <= sum_sq_seq(pre),
                0 <= sum_sq_seq(post),
                sum_sq_seq(orig) + sum_sq_seq(replace_with@) <= i128::MAX as int,
            decreases replace_with@.len() - i,
        {
            let x = replace_with[i];
            proof {
                let rw = replace_with@;
                lemma_sum_concat(pre, rw.take(i as int));
                lemma_sum_concat(pre + rw.take(i as int), post);
                lemma_sum_insert(rw.take(i as int), i as int, x);
                assert(rw.take(i as int).insert(i as int, x) =~= rw.take(i as int + 1));
                lemma_sum_concat(rw.take(i as int + 1), rw.skip(i as int + 1));
                assert(rw.take(i as int + 1) + rw.skip(i as int + 1) =~= rw);
                lemma_sum_bounds(rw.take(i as int));
                lemma_sum_bounds(rw.skip(i as int + 1));
            }
            let ghost cur = self@;
            self.insert(start + i, x);
            proof {
                assert(cur.insert(s + i, x) =~= pre + replace_with@.take(i as int + 1) + post);
            }
            i = i + 1;
        }
        proof {
            assert(replace_with@.take(replace_with@.len() as int) =~= replace_with@);
            if c == 0 {
                assert(orig.subrange(s, s) =~= Seq::<i64>::empty());
            }
        }
        del
    }

    /// Removes and returns, as a new ordered sequence, every sample from
    /// index `at` to the end; equivalent to repeated `remove(at)`. With
    /// `at` past the end nothing is removed and the result is empty.
    pub fn split_off(&mut self, at: usize) -> (r: Vec<i64>)
        requires
            old(self).wf(),
        ensures
            final(self).wf(),
            at <= old(self)@.len() ==> final(self)@ == old(self)@.take(at as int) && r@ == old(
                self,
            )@.skip(at as int),
            at > old(self)@.len() ==> final(self)@ == old(self)@ && r@ == Seq::<i64>::empty(),
    {
        let ghost orig = self@;
        let length = self.data.len();
        let mut del: Vec<i64> = Vec::new();
        proof {
            assert(del@ =~= Seq::<i64>::empty());
            if at == length {
                assert(orig.take(at as int) =~= orig);
                assert(orig.skip(at as int) =~= Seq::<i64>::empty());
            }
        }
        if at >= length {
            return del;
        }
        proof {
            assert(orig.take(at as int) + orig.skip(at as int) =~= orig);
        }
        let mut k: usize = at;
        while k < length
            invariant
                self.wf(),
                at <= k <= length,
                length == orig.len(),
                self@ == orig.take(at as int) + orig.skip(k as int),
                del@ == orig.subrange(at as int, k as int),
            decreases length - k,
        {
            let ghost cur = self@;
            let x = self.remove(at);
            proof {
                assert(cur[at as int] == orig[k as int]);
                assert(cur.remove(at as int) =~= orig.take(at as int) + orig.skip(k as int + 1));
            }
            del.push(x);
            proof {
                assert(del@ =~= orig.subrange(at as int, k as int + 1));
            }
            k = k + 1;
        }
        proof {
            assert(orig.skip(length as int) =~= Seq::<i64>::empty());
            assert(orig.take(at as int) + Seq::<i64>::empty() =~= orig.take(at as int));
            assert(orig.subrange(at as int, length as int) =~= orig.skip(at as int));
        }
        del
    }

    /// Pushes each sample of `other`, in order. The two sum bounds are
    /// machine limits on the count and the 128-bit sum of squares.
    pub fn append(&mut self, other: &Vec<i64>)
        requires
            old(self).wf(),
            old(self)@.len() + other@.len() <= usize::MAX,
            sum_sq_seq(old(self)@) + sum_sq_seq(other@) <= i128::MAX as int,
        ensures
            final(self).wf(),
            final(self)@ == old(self)@ + other@,
    {
        let ghost orig = self@;
        proof {
            assert(orig + other@.take(0) =~= orig);
            lemma_sum_bounds(orig);
        }
        let mut i: usize = 0;
        while i < other.len()
            invariant
                self.wf(),
                0 <= i <= other@.len(),
                orig.len() + other@.len() <= usize::MAX,
                sum_sq_seq(orig) + sum_sq_seq(other@) <= i128::MAX as int,
                self@ == orig + other@.take(i as int),
            decreases other@.len() - i,
        {
            let x = other[i];
            proof {
                let ov = other@;
                lemma_sum_concat(orig, ov.take(i as int));
                lemma_sum_insert(ov.take(i as int), i as int, x);
                assert(ov.take(i as int).insert(i as int, x) =~= ov.take(i as int + 1));
                lemma_sum_concat(ov.take(i as int + 1), ov.skip(i as int + 1));
                assert(ov.take(i as int + 1) + ov.skip(i as int + 1) =~= ov);
                lemma_sum_bounds(ov.skip(i as int + 1));
                lemma_sum_bounds(orig);
            }
            let ghost cur = self@;
            self.push(x);
            proof {
                assert(cur.push(x) =~= orig + other@.take(i as int + 1));
            }
            i = i + 1;
        }
        proof {
            assert(other@.take(other@.len() as int) =~= other@);
        }
    }

    /// Pushes every sample of `v`, in order.
    pub fn push_vec(&mut self, v: Vec<i64>)
        requires
            old(self).wf(),
            old(self)@.len() + v@.len() <= usize::MAX,
            sum_sq_seq(old(self)@) + sum_sq_seq(v@) <= i128::MAX as int,
        ensures
            final(self).wf(),
            final(self)@ == old(self)@ + v@,
    {
        self.append(&v);
    }

    /// Grows to `new_len` by pushing `value`, or shrinks to it by popping
    /// from the end; a no-op at the target length. The sum bound is the
    /// machine limit on the 128-bit sum of squares when growing.
    pub fn resize(&mut self, new_len: usize, value: i64)
        requires
            old(self).wf(),
            new_len > old(self)@.len() ==> sum_sq_seq(old(self)@) + (new_len - old(self)@.len())
                * ((value as int) * (value as int)) <= i128::MAX as int,
        ensures
            final(self).wf(),
            new_len >= old(self)@.len() ==> final(self)@ == old(self)@ + Seq::new(
                (new_len - old(self)@.len()) as nat,
                |i: int| value,
            ),
            new_len < old(self)@.len() ==> final(self)@ == old(self)@.take(new_len as int),
    {
        let ghost orig = self@;
        let old_length = self.data.len();
        if new_len > old_length {
            proof {
                assert(orig + Seq::new(0, |i: int| value) =~= orig);
                assert(0 <= (value as int) * (value as int)) by (nonlinear_arith);
            }
            let mut k: usize = old_length;
            while k < new_len
                invariant
                    self.wf(),
                    old_length <= k <= new_len,
                    old_length == orig.len(),
                    self@ == orig + Seq::new((k - old_length) as nat, |i: int| value),
                    sum_sq_seq(orig) + (new_len - orig.len()) * ((value as int) * (value as int))
                        <= i128::MAX as int,
                    sum_sq_seq(self@) == sum_sq_seq(orig) + (k - old_length) * ((value as int)
                        * (value as int)),
                    0 <= (value as int) * (value as int),
                decreases new_len - k,
            {
                proof {
                    let vv = (value as int) * (value as int);
                    let j = k - old_length;
                    let m = new_len - old_length;
                    assert(j * vv + vv == (j + 1) * vv) by (nonlinear_arith);
                    assert((j + 1) * vv <= m * vv) by (nonlinear_arith)
                        requires
                            j + 1 <= m,
                            0 <= vv,
                    ;
                    lemma_sum_bounds(orig);
                }
                let ghost cur = self@;
                self.push(value);
                proof {
                    assert(cur.push(value) =~= orig + Seq::new(
                        (k + 1 - old_length) as nat,
                        |i: int| value,
                    ));
                    assert(cur.push(value).drop_last() =~= cur);
                }
                k = k + 1;
            }
        } else if new_len < old_length {
            proof {
                assert(orig.take(old_length as int) =~= orig);
            }
            let mut k: usize = old_length;
            while k > new_len
                invariant
                    self.wf(),
                    new_len <= k <= old_length,
                    old_length == orig.len(),
                    self@ == orig.take(k as int),
                decreases k - new_len,
            {
                let ghost cur = self@;
                self.pop();
                proof {
                    assert(cur.drop_last() =~= orig.take(k as int - 1));
                }
                k = k - 1;
            }
        } else {
            proof {
                assert(orig + Seq::new(0, |i: int| value) =~= orig);
            }
        }
    }

    /// Shortens the container to `len` samples by removing from the end; a
    /// no-op if it already holds at most `len`.
    pub fn truncate(&mut self, len: usize)
        requires
            old(self).wf(),
        ensures
            final(self).wf(),
            len < old(self)@.len() ==> final(self)@ == old(self)@.take(len as int),
            len >= old(self)@.len() ==> final(self)@ == old(self)@,
    {
        let ghost orig = self@;
        let length = self.data.len();
        if len >= length {
            return;
        }
        proof {
            assert(orig.take(len as int) + orig.skip(len as int) =~= orig);
        }
        let mut k: usize = len;
        while k < length
            invariant
                self.wf(),
                len <= k <= length,
                length == orig.len(),
                self@ == orig.take(len as int) + orig.skip(k as int),
            decreases length - k,
        {
            let ghost cur = self@;
            self.remove(len);
            proof {
                assert(cur.remove(len as int) =~= orig.take(len as int) + orig.skip(k as int + 1));
            }
            k = k + 1;
        }
        proof {
            assert(orig.skip(length as int) =~= Seq::<i64>::empty());
            assert(orig.take(len as int) + Seq::<i64>::empty() =~= orig.take(len as int));
        }
    }

    /// Drops the first `index` samples from the front; a no-op if `index`
    /// is at least the current length.
    pub fn trim(&mut self, index: usize)
        requires
            old(self).wf(),
        ensures
            final(self).wf(),
            index < old(self)@.len() ==> final(self)@ == old(self)@.skip(index as int),
            index >= old(self)@.len() ==> final(self)@ == old(self)@,
    {
        let ghost orig = self@;
        let length = self.data.len();
        if index < length {
            proof {
                assert(orig.skip(0) =~= orig);
            }
            let mut j: usize = 0;
            while j < index
                invariant
                    self.wf(),
                    0 <= j <= index,
                    index < orig.len(),
                    self@ == orig.skip(j as int),
                decreases index - j,
            {
                let ghost cur = self@;
                self.remove(0);
                proof {
                    assert(cur.remove(0) =~= orig.skip(j as int + 1));
                }
                j = j + 1;
            }
        }
    }

    /// Removes and returns the sample at `index`, filling its place with
    /// the last sample: the conventional swap-with-last semantics, which
    /// reorders the tail but touches nothing else. This is the one
    /// structural operation that does not preserve relative order.
    /// Out-of-bounds positions are rejected by contract.
    pub fn swap_remove(&mut self, index: usize) -> (r: i64)
        requires
            old(self).wf(),
            index < old(self)@.len(),
        ensures
            final(self).wf(),
            r == old(self)@[index as int],
            final(self)@ == old(self)@.update(index as int, old(self)@.last()).drop_last(),
    {
        let ghost orig = self@;
        let ghost n = orig.len() as int;
        let x = self.remove(index);
        if index < self.data.len() {
            let last_val = self.data[self.data.len() - 1];
            proof {
                assert(last_val == orig[n - 1]);
                lemma_sum_remove(orig, index as int);
                assert(self@.drop_last() =~= orig.remove(index as int).drop_last());
                assert(self@.drop_last().push(self@.last()) =~= self@);
                lemma_sum_bounds(self@.drop_last());
                assert(0 <= (x as int) * (x as int)) by (nonlinear_arith);
            }
            self.pop();
            self.insert(index, last_val);
            proof {
                assert(orig.remove(index as int).drop_last().insert(index as int, orig[n - 1])
                    =~= orig.update(index as int, orig.last()).drop_last());
            }
        } else {
            proof {
                assert(orig.update(index as int, orig.last()).drop_last() =~= orig.remove(
                    index as int,
                ));
            }
        }
        x
    }

    /// Removes and returns the sample at `index`, shifting the samples
    /// behind it. Cache repair as described on `del_cache`, whatever the
    /// position. Out-of-bounds positions are rejected by contract.
    pub fn remove(&mut self, index: usize) -> (r: i64)
        requires
            old(self).wf(),
            index < old(self)@.len(),
        ensures
            final(self).wf(),
            r == old(self)@[index as int],
            final(self)@ == old(self)@.remove(index as int),
    {
        let ghost p = self.data@;
        let x = self.data.remove(index);
        self.del_cache(x, Ghost(p), Ghost(index as int));
        x
    }
}

/// The linear rescan: one pass over the samples, returning their minimum
/// and maximum.
fn scan_min_max(v: &Vec<i64>) -> (r: (i64, i64))
    requires
        v@.len() > 0,
    ensures
        r.0 == min_seq(v@),
        r.1 == max_seq(v@),
{
    proof {
        lemma_min_max_take_step(v@, 0);
    }
    let mut mn: i64 = v[0];
    let mut mx: i64 = v[0];
    let mut j: usize = 1;
    while j < v.len()
        invariant
            1 <= j <= v@.len(),
            mn == min_seq(v@.take(j as int)),
            mx == max_seq(v@.take(j as int)),
        decreases v@.len() - j,
    {
        proof {
            lemma_min_max_take_step(v@, j as int);
        }
        let x = v[j];
        if x < mn {
            mn = x;
        }
        if x > mx {
            mx = x;
        }
        j = j + 1;
    }
    proof {
        assert(v@.take(v@.len() as int) =~= v@);
    }
    (mn, mx)
}

} // verus!
