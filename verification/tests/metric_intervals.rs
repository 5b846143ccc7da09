use itertools::Itertools;
use cardamon_core::intervals::{rab_intervals, MetricInterval};

fn iv(newer: usize, older: usize, delta_millis: u64) -> MetricInterval {
    MetricInterval { newer, older, delta_millis }
}

#[test]
fn no_metric_no_interval() {
    assert!(rab_intervals(&vec![]).is_empty());
}

#[test]
fn one_metric_no_interval() {
    assert!(rab_intervals(&vec![1000]).is_empty());
}

#[test]
fn orders_newest_first() {
    let r = rab_intervals(&vec![100, 400, 250]);
    assert_eq!(r, vec![iv(1, 2, 150), iv(2, 0, 150)]);
}

#[test]
fn equal_time_stamps_keep_their_order() {
    let r = rab_intervals(&vec![100, 300, 200, 300]);
    assert_eq!(r, vec![iv(1, 3, 0), iv(3, 2, 100), iv(2, 0, 100)]);
}

#[test]
fn intervals_span_from_oldest_to_newest() {
    let ts = vec![5_000, -2_000, 17_000, 3_000, 17_000, 0];
    let r = rab_intervals(&ts);
    assert_eq!(r.len(), ts.len() - 1);
    let total: u64 = r.iter().map(|i| i.delta_millis).sum();
    assert_eq!(total as i64, 17_000 - (-2_000));
    for w in r.windows(2) {
        assert_eq!(w[0].older, w[1].newer);
    }
}

#[test]
fn extreme_time_stamps_do_not_overflow() {
    let r = rab_intervals(&vec![i64::MIN, i64::MAX]);
    assert_eq!(r, vec![iv(1, 0, u64::MAX)]);
}

#[test]
fn matches_itertools_pairing() {
    let ts = vec![9, 3, 9, 1, 4, 4, 10];
    let expected: Vec<MetricInterval> = ts
        .iter()
        .enumerate()
        .sorted_by(|a, b| b.1.cmp(a.1))
        .tuple_windows()
        .map(|((i, x), (j, y))| iv(i, j, (x - y) as u64))
        .collect();
    assert_eq!(rab_intervals(&ts), expected);
}
