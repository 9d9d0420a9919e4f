use fast_stats::fstats::Bound;
use fast_stats::fstats::IdxRange;
use fast_stats::fstats::Stats;
use fast_stats::stats::max;
use fast_stats::stats::mean;
use fast_stats::stats::min;
use fast_stats::stats::stddev;

#[test]
fn empty_state_after_new() {
    let st = Stats::new();
    assert_eq!(st.len(), 0);
    assert!(st.is_empty());
    assert_eq!(st.mean(), None);
    assert_eq!(st.stddev(), None);
    assert_eq!(st.min(), None);
    assert_eq!(st.max(), None);
}

#[test]
fn empty_state_after_reset() {
    let mut st = Stats::new();
    st.push_vec(vec![4, -1, 9]);
    st.reset();
    assert_eq!(st.len(), 0);
    assert!(st.is_empty());
    assert_eq!(st.mean(), None);
    assert_eq!(st.stddev(), None);
    assert_eq!(st.min(), None);
    assert_eq!(st.max(), None);
}

#[test]
fn singleton_collapse_by_removals() {
    let mut st = Stats::new();
    st.push_vec(vec![5, -3, 7]);
    st.remove(1);
    st.pop();
    assert_eq!(st.len(), 1);
    assert_eq!(st.min(), Some(5));
    assert_eq!(st.max(), Some(5));
    assert_eq!(st.mean(), Some(5));
}

#[test]
fn singleton_collapse_by_drain() {
    let mut st = Stats::new();
    st.push_vec(vec![9, 2, 4, 2]);
    st.drain(&IdxRange { start: Bound::Included(0), end: Bound::Excluded(3) });
    assert_eq!(st.data(), vec![2]);
    assert_eq!(st.min(), Some(2));
    assert_eq!(st.max(), Some(2));
}

#[test]
fn round_trip_push_then_pop() {
    let mut st = Stats::new();
    let values = vec![3, -1, 4, 1];
    st.push_vec(values.clone());
    let mut popped = Vec::new();
    while let Some(x) = st.pop() {
        popped.push(x);
    }
    let mut reversed = values.clone();
    reversed.reverse();
    assert_eq!(popped, reversed);
    assert_eq!(st.len(), 0);
    assert!(st.is_empty());
    assert_eq!(st.mean(), None);
    assert_eq!(st.stddev(), None);
    assert_eq!(st.min(), None);
    assert_eq!(st.max(), None);
}

#[test]
fn extremum_removal_triggers_rescan() {
    let mut st = Stats::new();
    st.push(1);
    st.push(2);
    st.push(3);
    assert_eq!(st.mean(), Some(2));
    assert_eq!(st.min(), Some(1));
    assert_eq!(st.max(), Some(3));
    // removing the cached maximum forces the linear rescan
    let removed = st.remove(2);
    assert_eq!(removed, 3);
    assert_eq!(st.max(), Some(2));
    assert_eq!(st.min(), Some(1));
    // the exact mean is 1.5; the integer query reports its floor
    assert_eq!(st.mean(), Some(1));
}

#[test]
fn drain_unbounded_on_empty() {
    let mut st = Stats::new();
    let drained = st.drain(&IdxRange { start: Bound::Unbounded, end: Bound::Unbounded });
    assert_eq!(drained, vec![]);
    assert_eq!(st.len(), 0);
    assert!(st.is_empty());
}

#[test]
fn drain_unbounded_takes_everything() {
    let mut st = Stats::new();
    st.push_vec(vec![8, 1, 6]);
    let drained = st.drain(&IdxRange { start: Bound::Unbounded, end: Bound::Unbounded });
    assert_eq!(drained, vec![8, 1, 6]);
    assert!(st.is_empty());
    assert_eq!(st.min(), None);
}

#[test]
fn splice_returns_drained_and_reorders() {
    let mut st = Stats::new();
    st.push_vec(vec![1, 2, 3]);
    let drained = st.splice(
        &IdxRange { start: Bound::Included(1), end: Bound::Excluded(3) },
        &vec![4, 5, 6],
    );
    assert_eq!(drained, vec![2, 3]);
    assert_eq!(st.data(), vec![1, 4, 5, 6]);
    assert_eq!(st.min(), Some(1));
    assert_eq!(st.max(), Some(6));
    assert_eq!(st.mean(), Some(4));
}

#[test]
fn stddev_exact_value() {
    let values = vec![2, 4, 4, 4, 5, 5, 7, 9];
    let mut st = Stats::new();
    st.push_vec(values.clone());
    // mean 5, population variance 4, standard deviation exactly 2
    assert_eq!(st.mean(), Some(5));
    assert_eq!(st.stddev(), Some(2));
    assert_eq!(stddev(&values), Some(2));
    assert_eq!(mean(&values), Some(5));
}

#[test]
fn mean_floors_toward_negative_infinity() {
    let mut st = Stats::new();
    st.push(-3);
    st.push(-4);
    // the exact mean is -3.5; the floor is -4, not the truncation -3
    assert_eq!(st.mean(), Some(-4));
    assert_eq!(mean(&vec![-3, -4]), Some(-4));
}

#[test]
fn pop_on_empty_is_none() {
    let mut st = Stats::new();
    assert_eq!(st.pop(), None);
    assert_eq!(st.len(), 0);
}

#[test]
fn trim_drops_front_in_order() {
    let mut st = Stats::new();
    st.push_vec(vec![9, 1, 7, 2, 8]);
    st.trim(2);
    assert_eq!(st.data(), vec![7, 2, 8]);
    assert_eq!(st.min(), Some(2));
    assert_eq!(st.max(), Some(8));
}

#[test]
fn trim_overlarge_is_noop() {
    let mut st = Stats::new();
    st.push_vec(vec![4, 5]);
    st.trim(2);
    assert_eq!(st.data(), vec![4, 5]);
    st.trim(10);
    assert_eq!(st.data(), vec![4, 5]);
}

#[test]
fn truncate_at_or_past_len_is_noop() {
    let mut st = Stats::new();
    st.push_vec(vec![4, 5]);
    st.truncate(2);
    assert_eq!(st.data(), vec![4, 5]);
    st.truncate(9);
    assert_eq!(st.data(), vec![4, 5]);
}

#[test]
fn split_off_past_end_returns_empty() {
    let mut st = Stats::new();
    st.push_vec(vec![1, 2]);
    let tail = st.split_off(5);
    assert_eq!(tail, vec![]);
    assert_eq!(st.data(), vec![1, 2]);
    let all = st.split_off(0);
    assert_eq!(all, vec![1, 2]);
    assert!(st.is_empty());
}

#[test]
fn swap_remove_of_last_sample() {
    let mut st = Stats::new();
    st.push_vec(vec![1, 2, 3]);
    let removed = st.swap_remove(2);
    assert_eq!(removed, 3);
    assert_eq!(st.data(), vec![1, 2]);
    assert_eq!(st.max(), Some(2));
}

#[test]
fn insert_at_end_behaves_like_push() {
    let mut st = Stats::new();
    st.push_vec(vec![1, 2]);
    st.insert(2, 3);
    assert_eq!(st.data(), vec![1, 2, 3]);
    assert_eq!(st.max(), Some(3));
}

#[test]
fn negative_samples_min_max() {
    let mut st = Stats::new();
    st.push(-5);
    st.push(3);
    assert_eq!(st.min(), Some(-5));
    assert_eq!(st.max(), Some(3));
    assert_eq!(min(&vec![-5, 3]), Some(-5));
    assert_eq!(max(&vec![-5, 3]), Some(3));
}

#[test]
fn oracle_absent_on_empty() {
    let empty: Vec<i64> = vec![];
    assert_eq!(mean(&empty), None);
    assert_eq!(stddev(&empty), None);
    assert_eq!(min(&empty), None);
    assert_eq!(max(&empty), None);
}

#[test]
fn count_in_range_translation() {
    let mut st = Stats::new();
    st.push_vec(vec![10, 20, 30]);
    assert_eq!(st.count_in_range(&IdxRange { start: Bound::Unbounded, end: Bound::Unbounded }), (0, 3));
    assert_eq!(
        st.count_in_range(&IdxRange { start: Bound::Included(1), end: Bound::Unbounded }),
        (1, 2)
    );
    assert_eq!(
        st.count_in_range(&IdxRange { start: Bound::Unbounded, end: Bound::Included(1) }),
        (0, 2)
    );
    assert_eq!(
        st.count_in_range(&IdxRange { start: Bound::Excluded(0), end: Bound::Unbounded }),
        (1, 2)
    );
    // the exclusive end saturates at zero, so an empty-looking range
    // still names one element
    assert_eq!(
        st.count_in_range(&IdxRange { start: Bound::Unbounded, end: Bound::Excluded(0) }),
        (0, 1)
    );
    // a last index before the start index names nothing
    assert_eq!(
        st.count_in_range(&IdxRange { start: Bound::Included(2), end: Bound::Excluded(2) }),
        (2, 0)
    );
}

#[test]
fn consistency_after_mixed_mutations() {
    let mut st = Stats::new();
    let mut reference: Vec<i64> = Vec::new();
    st.push_vec(vec![6, -2, 6, 0]);
    reference.extend_from_slice(&[6, -2, 6, 0]);

    st.insert(2, 11);
    reference.insert(2, 11);
    assert_eq!(st.data(), reference);
    assert_eq!(st.mean(), mean(&reference));
    assert_eq!(st.stddev(), stddev(&reference));
    assert_eq!(st.min(), min(&reference));
    assert_eq!(st.max(), max(&reference));

    st.remove(0);
    reference.remove(0);
    assert_eq!(st.data(), reference);
    assert_eq!(st.mean(), mean(&reference));
    assert_eq!(st.stddev(), stddev(&reference));
    assert_eq!(st.min(), min(&reference));
    assert_eq!(st.max(), max(&reference));

    st.resize(7, -1);
    reference.resize(7, -1);
    st.trim(1);
    reference.drain(0..1);
    assert_eq!(st.data(), reference);
    assert_eq!(st.mean(), mean(&reference));
    assert_eq!(st.stddev(), stddev(&reference));
    assert_eq!(st.min(), min(&reference));
    assert_eq!(st.max(), max(&reference));
}
