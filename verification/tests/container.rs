use fast_stats::fstats::Bound;
use fast_stats::fstats::IdxRange;
use fast_stats::fstats::Stats;
use fast_stats::stats::max;
use fast_stats::stats::mean;
use fast_stats::stats::min;
use fast_stats::stats::stddev;

#[test]
fn reset_test() {
    let mut vfs = Stats::new();
    vfs.push_vec(vec![1, 2, 3]);
    vfs.reset();

    assert_eq!(vfs.data(), vec![])
}

#[test]
fn mean_test() {
    let vs = vec![1, 2];
    let mean_s = mean(&vs);

    let mut vfs = Stats::new();
    vfs.push(1);
    vfs.push(2);
    let mean_fs = vfs.mean();

    assert_eq!(mean_s, mean_fs);
}

#[test]
fn stddev_test() {
    let vs = vec![1, 2];
    let stddev_s = stddev(&vs);

    let mut vfs = Stats::new();
    vfs.push(1);
    vfs.push(2);
    let stddev_fs = vfs.stddev();

    assert_eq!(stddev_s, stddev_fs);
}

#[test]
fn min_max_test() {
    let vs = vec![1, 2, 3];
    let min_s = min(&vs);
    let max_s = max(&vs);

    let mut vfs = Stats::new();
    vfs.push_vec(vec![1, 2, 3]);
    let min_fs = vfs.min();
    let max_fs = vfs.max();

    assert_eq!(min_s, min_fs);
    assert_eq!(max_s, max_fs);
}

#[test]
fn append_test() {
    let mut vs = vec![1, 2, 3];
    let mut new_s = vec![4, 3, 2];
    vs.append(&mut new_s);

    let mut vfs = Stats::new();
    vfs.push_vec(vec![1, 2, 3]);
    let new_fs = vec![4, 3, 2];
    vfs.append(&new_fs);

    assert_eq!(vs, vfs.data());
    assert_eq!(mean(&vs), vfs.mean());
    assert_eq!(stddev(&vs), vfs.stddev());
    assert_eq!(min(&vs), vfs.min());
    assert_eq!(max(&vs), vfs.max());
}

#[test]
fn drain_test() {
    let mut vs = vec![1, -2, 3, -4, 1, 4];
    vs.drain(3..4);

    let mut vfs = Stats::new();
    let vf = vec![1, -2, 3, -4, 1, 4];
    vfs.push_vec(vf);
    vfs.drain(&IdxRange { start: Bound::Included(3), end: Bound::Excluded(4) });

    assert_eq!(vs, vfs.data());
    assert_eq!(mean(&vs), vfs.mean());
    assert_eq!(stddev(&vs), vfs.stddev());
    assert_eq!(min(&vs), vfs.min());
    assert_eq!(max(&vs), vfs.max());
}

#[test]
fn insert_test() {
    let mut vs = vec![1, 2, 3];
    vs.insert(1, 4);

    let mut vfs = Stats::new();
    vfs.push_vec(vec![1, 2, 3]);
    vfs.insert(1, 4);

    assert_eq!(vs, vfs.data());
    assert_eq!(mean(&vs), vfs.mean());
    assert_eq!(stddev(&vs), vfs.stddev());
    assert_eq!(min(&vs), vfs.min());
    assert_eq!(max(&vs), vfs.max());
}

#[test]
fn is_empty_test() {
    let vs: Vec<i64> = vec![];
    let bs = vs.is_empty();
    let vfs = Stats::new();
    let bfs = vfs.is_empty();

    assert_eq!(bs, bfs);
}

#[test]
fn len_test() {
    let vs = vec![1, 2, 3];
    let len_s = vs.len();

    let mut vfs = Stats::new();
    vfs.push_vec(vec![1, 2, 3]);
    let len_fs = vfs.len();

    assert_eq!(len_s, len_fs)
}

#[test]
fn remove_test() {
    let mut vs = vec![1, 2, 3];
    vs.remove(1);

    let mut vfs = Stats::new();
    vfs.push_vec(vec![1, 2, 3]);
    vfs.remove(1);

    assert_eq!(vs, vfs.data());
    assert_eq!(mean(&vs), vfs.mean());
    assert_eq!(stddev(&vs), vfs.stddev());
    assert_eq!(min(&vs), vfs.min());
    assert_eq!(max(&vs), vfs.max());
}

#[test]
pub fn resize_test() {
    let mut vs = vec![1, 2, 3];
    vs.resize(8, 0);

    let mut vfs = Stats::new();
    vfs.push_vec(vec![1, 2, 3]);
    vfs.resize(8, 0);

    assert_eq!(vs, vfs.data());

    vs.resize(2, 0);
    vfs.resize(2, 0);

    assert_eq!(vs, vfs.data());
    assert_eq!(mean(&vs), vfs.mean());
    assert_eq!(stddev(&vs), vfs.stddev());
    assert_eq!(min(&vs), vfs.min());
    assert_eq!(max(&vs), vfs.max());
}

#[test]
fn splice_test() {
    let mut vs = vec![1, 2, 3];
    let new_s = vec![4, 5, 6];
    vs.splice(1..3, new_s);

    let mut vfs = Stats::new();
    vfs.push_vec(vec![1, 2, 3]);
    let new_fs = vec![4, 5, 6];
    vfs.splice(&IdxRange { start: Bound::Included(1), end: Bound::Excluded(3) }, &new_fs);

    assert_eq!(vs, vfs.data());
    assert_eq!(mean(&vs), vfs.mean());
    assert_eq!(stddev(&vs), vfs.stddev());
    assert_eq!(min(&vs), vfs.min());
    assert_eq!(max(&vs), vfs.max());
}

#[test]
fn split_off_test() {
    let mut vs = vec![1, 2, 3];
    let del_s = vs.split_off(0);

    let mut vfs = Stats::new();
    vfs.push_vec(vec![1, 2, 3]);
    let del_fs = vfs.split_off(0);

    assert_eq!(del_s, del_fs);
    assert_eq!(mean(&vs), vfs.mean());
    assert_eq!(stddev(&vs), vfs.stddev());
    assert_eq!(min(&vs), vfs.min());
    assert_eq!(max(&vs), vfs.max());
}

#[test]
fn swap_remove_test() {
    let mut vs = vec![1, 2, 3];
    vs.swap_remove(0);

    let mut vfs = Stats::new();
    vfs.push_vec(vec![1, 2, 3]);
    vfs.swap_remove(0);

    assert_eq!(vs, vfs.data());
    assert_eq!(mean(&vs), vfs.mean());
    assert_eq!(stddev(&vs), vfs.stddev());
    assert_eq!(min(&vs), vfs.min());
    assert_eq!(max(&vs), vfs.max());
}

#[test]
fn truncate_test() {
    let mut vs = vec![1, 2, 3];
    vs.truncate(2);

    let mut vfs = Stats::new();
    let vf = vec![1, 2, 3];
    vfs.push_vec(vf);
    vfs.truncate(2);

    assert_eq!(vs, vfs.data());
    assert_eq!(mean(&vs), vfs.mean());
    assert_eq!(stddev(&vs), vfs.stddev());
    assert_eq!(min(&vs), vfs.min());
    assert_eq!(max(&vs), vfs.max());
}
