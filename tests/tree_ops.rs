use segment_tree::SegmentTree;

fn naive_sum(vals: &[i32], a: usize, b: usize) -> i32 {
    vals[a..=b].iter().sum()
}

fn same_sums(x: &SegmentTree, y: &SegmentTree) -> bool {
    if x.start != y.start || x.end != y.end || x.sum != y.sum {
        return false;
    }
    match (&x.left, &x.right, &y.left, &y.right) {
        (Some(xl), Some(xr), Some(yl), Some(yr)) => same_sums(xl, yl) && same_sums(xr, yr),
        (None, None, None, None) => true,
        _ => false,
    }
}

fn check_invariants(t: &SegmentTree) {
    assert!(t.start <= t.end);
    if t.start == t.end {
        assert!(t.left.is_none() && t.right.is_none());
        return;
    }
    let l = t.left.as_ref().unwrap();
    let r = t.right.as_ref().unwrap();
    let mid = t.start + (t.end - t.start) / 2;
    assert_eq!(l.start, t.start);
    assert_eq!(l.end, mid);
    assert_eq!(r.start, mid + 1);
    assert_eq!(r.end, t.end);
    assert_eq!(t.sum, l.sum + r.sum);
    check_invariants(l);
    check_invariants(r);
}

#[test]
fn concrete_scenario() {
    let values = vec![1, 3, 5, 7, 9, 11];
    let mut t = SegmentTree::build(0, 5, &values);
    assert_eq!(t.query(0, 5), 36);
    assert_eq!(t.query(1, 3), 15);
    assert_eq!(t.query(0, 0), 1);
    t.update(2, 100);
    assert_eq!(t.query(0, 5), 131);
    assert_eq!(t.query(1, 3), 110);
    assert_eq!(t.query(2, 2), 100);
    assert_eq!(t.query(0, 1), 4);
}

#[test]
fn single_element() {
    let values = vec![42];
    let mut t = SegmentTree::build(0, 0, &values);
    assert_eq!(t.query(0, 0), 42);
    assert!(t.left.is_none() && t.right.is_none());
    t.update(0, -1);
    assert_eq!(t.query(0, 0), -1);
    assert_eq!(t.sum, -1);
}

#[test]
fn full_range_is_total() {
    for n in 1..=17usize {
        let values: Vec<i32> = (0..n as i32).map(|x| x * 7 - 20).collect();
        let t = SegmentTree::build(0, n - 1, &values);
        assert_eq!(t.query(0, n - 1), values.iter().sum::<i32>());
        assert_eq!(t.sum, values.iter().sum::<i32>());
    }
}

#[test]
fn point_queries_after_build() {
    let values = vec![4, -2, 0, 9, 13, -8, 5];
    let t = SegmentTree::build(0, values.len() - 1, &values);
    for i in 0..values.len() {
        assert_eq!(t.query(i, i), values[i]);
    }
}

#[test]
fn build_over_inner_range() {
    let values = vec![100, 1, 2, 3, 4, 100];
    let t = SegmentTree::build(1, 4, &values);
    assert_eq!(t.start, 1);
    assert_eq!(t.end, 4);
    assert_eq!(t.query(1, 4), 10);
    assert_eq!(t.query(2, 3), 5);
    assert_eq!(t.query(4, 4), 4);
}

#[test]
fn update_moves_containing_ranges() {
    let values = vec![2, 4, 6, 8, 10, 12, 14];
    let n = values.len();
    for i in 0..n {
        let before = SegmentTree::build(0, n - 1, &values);
        let mut after = SegmentTree::build(0, n - 1, &values);
        after.update(i, -5);
        assert_eq!(after.query(i, i), -5);
        for a in 0..n {
            for b in a..n {
                if a <= i && i <= b {
                    assert_eq!(after.query(a, b), before.query(a, b) - values[i] + -5);
                } else {
                    assert_eq!(after.query(a, b), before.query(a, b));
                }
            }
        }
    }
}

#[test]
fn range_split_consistency() {
    let values = vec![3, -1, 4, -1, 5, -9, 2, 6];
    let n = values.len();
    let t = SegmentTree::build(0, n - 1, &values);
    for a in 0..n {
        for b in a..n {
            assert_eq!(t.query(a, b), naive_sum(&values, a, b));
            for m in a..b {
                assert_eq!(t.query(a, b), t.query(a, m) + t.query(m + 1, b));
            }
        }
    }
}

#[test]
fn rebuild_is_identical() {
    let values = vec![5, 1, 8, 2, 9, 3, 7, 4, 6];
    let t1 = SegmentTree::build(0, 8, &values);
    let t2 = SegmentTree::build(0, 8, &values);
    assert!(same_sums(&t1, &t2));
    let other = vec![5, 1, 8, 2, 9, 3, 7, 4, 0];
    let t3 = SegmentTree::build(0, 8, &other);
    assert!(!same_sums(&t1, &t3));
}

#[test]
fn inner_sums_hold_after_updates() {
    let mut values = vec![0, 0, 0, 0, 0, 0, 0, 0, 0, 0, 0];
    let n = values.len();
    let mut t = SegmentTree::build(0, n - 1, &values);
    check_invariants(&t);
    let steps: [(usize, i32); 8] = [(3, 7), (0, -2), (10, 11), (3, 1), (5, 5), (9, -9), (0, 0), (6, 13)];
    for (i, v) in steps {
        t.update(i, v);
        values[i] = v;
        check_invariants(&t);
        assert_eq!(t.query(0, n - 1), values.iter().sum::<i32>());
    }
    for i in 0..n {
        assert_eq!(t.query(i, i), values[i]);
    }
}

#[test]
fn update_twice_same_as_once() {
    let values = vec![1, 2, 3, 4, 5];
    let mut once = SegmentTree::build(0, 4, &values);
    let mut twice = SegmentTree::build(0, 4, &values);
    once.update(3, 40);
    twice.update(3, 40);
    twice.update(3, 40);
    assert!(same_sums(&once, &twice));
}

#[test]
fn values_at_the_i32_limits() {
    let values = vec![i32::MAX, i32::MIN, i32::MAX, -1];
    let t = SegmentTree::build(0, 3, &values);
    assert_eq!(t.query(0, 0), i32::MAX);
    assert_eq!(t.query(0, 1), -1);
    assert_eq!(t.query(1, 2), -1);
    assert_eq!(t.query(2, 3), i32::MAX - 1);
    assert_eq!(t.query(0, 3), i32::MAX - 2);
}

fn height(t: &SegmentTree) -> usize {
    match (&t.left, &t.right) {
        (Some(l), Some(r)) => 1 + height(l).max(height(r)),
        _ => 0,
    }
}

#[test]
fn height_is_logarithmic() {
    let values = vec![1; 16];
    assert_eq!(height(&SegmentTree::build(0, 15, &values)), 4);
    let values = vec![1; 17];
    assert_eq!(height(&SegmentTree::build(0, 16, &values)), 5);
}
