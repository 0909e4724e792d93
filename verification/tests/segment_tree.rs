use segtree::generic::{SegTreeError, SegmentTree, SpanBound};

#[test]
fn simple_add() {
    let mut s = SegmentTree::<i32>::new(7);
    s.assign(3, 7).unwrap();
    s.assign(4, 1).unwrap();

    assert_eq!(s.range_sum(2, 7).unwrap(), 8);
    assert_eq!(s.range_sum(0, 3).unwrap(), 7);
    assert_eq!(s.range_sum(4, 5).unwrap(), 1);
    assert_eq!(s.range_sum(5, 5).unwrap(), 0);
}

#[test]
fn sum_scenario_on_concrete_tree() {
    let mut s = segtree::new(7);
    assert_eq!(s.storage_len(), 16);
    s.assign(3, 7).unwrap();
    s.assign(4, 1).unwrap();

    assert_eq!(s.range_sum(2, 7), Ok(8));
    assert_eq!(s.range_sum(0, 3), Ok(7));
    assert_eq!(s.range_sum(4, 5), Ok(1));
    assert_eq!(s.range_sum(5, 5), Ok(0));
}

#[test]
fn point_query_returns_last_assigned_or_identity() {
    let mut s = segtree::SegmentTree::new(4);
    assert_eq!(s.range_sum(2, 2), Ok(0));
    s.assign(2, 41).unwrap();
    s.assign(2, -13).unwrap();
    assert_eq!(s.range_sum(2, 2), Ok(-13));
    assert_eq!(s.range_sum(0, 0), Ok(0));
}

#[test]
fn full_range_is_fold_of_all_leaves() {
    let values: [i32; 8] = [5, -2, 9, 0, 14, -7, 3, 1];
    let mut s = segtree::SegmentTree::new(8);
    let mut expected: i32 = 0;
    for (k, v) in values.iter().enumerate() {
        s.assign(k, *v).unwrap();
        expected += *v;
    }
    assert_eq!(s.range_sum(0, 7), Ok(expected));
}

#[test]
fn splitting_agrees_with_combined_halves() {
    let mut s = segtree::SegmentTree::new(8);
    for k in 0..8 {
        s.assign(k, (k * k) as i32).unwrap();
    }
    for m in 1..7 {
        let whole = s.range_sum(1, 7).unwrap();
        let left = s.range_sum(1, m).unwrap();
        let right = s.range_sum(m + 1, 7).unwrap();
        assert_eq!(whole, left + right);
    }
}

#[test]
fn assigning_twice_matches_assigning_once() {
    let mut once = segtree::SegmentTree::new(8);
    let mut twice = segtree::SegmentTree::new(8);
    once.assign(5, 23).unwrap();
    twice.assign(5, 23).unwrap();
    twice.assign(5, 23).unwrap();
    for i in 0..8 {
        for j in i..8 {
            assert_eq!(once.range_sum(i, j), twice.range_sum(i, j));
        }
    }
}

#[test]
fn out_of_bounds_assign_fails_and_changes_nothing() {
    let mut s = segtree::SegmentTree::new(4);
    s.assign(1, 6).unwrap();
    assert_eq!(s.assign(4, 99), Err(SegTreeError::OutOfBounds));
    assert_eq!(s.assign(usize::MAX, 99), Err(SegTreeError::OutOfBounds));
    assert_eq!(s.range_sum(0, 3), Ok(6));
}

#[test]
fn bad_ranges_fail_with_the_right_error() {
    let s = segtree::SegmentTree::new(4);
    assert_eq!(s.range_sum(0, 4), Err(SegTreeError::OutOfBounds));
    assert_eq!(s.range_sum(4, 4), Err(SegTreeError::OutOfBounds));
    assert_eq!(s.range_sum(3, 1), Err(SegTreeError::InvalidRange));
    // An inverted pair with an endpoint past the capacity is out of bounds
    // first.
    assert_eq!(s.range_sum(5, 2), Err(SegTreeError::OutOfBounds));
}

#[test]
fn zero_size_gets_capacity_one() {
    let mut s = segtree::SegmentTree::new(0);
    assert_eq!(s.storage_len(), 2);
    assert_eq!(s.range_sum(0, 0), Ok(0));
    s.assign(0, 12).unwrap();
    assert_eq!(s.range_sum(0, 0), Ok(12));
    assert_eq!(s.assign(1, 1), Err(SegTreeError::OutOfBounds));
    assert_eq!(s.range_sum(0, 1), Err(SegTreeError::OutOfBounds));
}

#[test]
fn sum_wraps_like_wrapping_add() {
    let mut s = segtree::SegmentTree::new(2);
    s.assign(0, i32::MAX).unwrap();
    s.assign(1, 1).unwrap();
    assert_eq!(s.range_sum(0, 1), Ok(i32::MIN));
}

#[test]
fn storage_layout_holds_node_invariant() {
    let mut s = segtree::SegmentTree::new(7);
    s.assign(3, 7).unwrap();
    s.assign(4, 1).unwrap();

    let len = s.storage_len();
    assert_eq!(len, 16);
    let cells: Vec<i32> = (0..len).map(|k| s.storage_at(k).unwrap()).collect();
    // Leaves: slots 0..8 live in cells 8..16.
    assert_eq!(&cells[8..16], &[0, 0, 0, 7, 1, 0, 0, 0]);
    // Every internal node is the sum of its children.
    for v in 1..8 {
        assert_eq!(cells[v], cells[2 * v] + cells[2 * v + 1]);
    }
    assert_eq!(cells[1], 8);
    assert_eq!(s.storage_at(16), None);
}

#[test]
fn span_bounds_normalize_like_range_expressions() {
    let mut s = segtree::SegmentTree::new(7);
    s.assign(3, 7).unwrap();
    s.assign(4, 1).unwrap();

    // 2..=7, 0..4, 4..6, and the full span.
    assert_eq!(
        s.range_sum_bounds(SpanBound::Excluded(1), SpanBound::Included(7)),
        Ok(8)
    );
    assert_eq!(
        s.range_sum_bounds(SpanBound::Included(0), SpanBound::Excluded(4)),
        Ok(7)
    );
    assert_eq!(
        s.range_sum_bounds(SpanBound::Included(4), SpanBound::Excluded(6)),
        Ok(1)
    );
    assert_eq!(
        s.range_sum_bounds(SpanBound::Unbounded, SpanBound::Unbounded),
        Ok(8)
    );
}

#[test]
fn span_bounds_report_bad_spans() {
    let s = segtree::SegmentTree::new(4);
    assert_eq!(
        s.range_sum_bounds(SpanBound::Included(0), SpanBound::Excluded(0)),
        Err(SegTreeError::InvalidRange)
    );
    assert_eq!(
        s.range_sum_bounds(SpanBound::Excluded(3), SpanBound::Unbounded),
        Err(SegTreeError::OutOfBounds)
    );
    assert_eq!(
        s.range_sum_bounds(SpanBound::Excluded(usize::MAX), SpanBound::Unbounded),
        Err(SegTreeError::OutOfBounds)
    );
    assert_eq!(
        s.range_sum_bounds(SpanBound::Included(2), SpanBound::Excluded(2)),
        Err(SegTreeError::InvalidRange)
    );
    assert_eq!(
        s.range_sum_bounds(SpanBound::Unbounded, SpanBound::Included(4)),
        Err(SegTreeError::OutOfBounds)
    );
}

#[test]
fn concatenation_keeps_left_to_right_order() {
    let mut s = SegmentTree::<Vec<i64>>::new(8);
    for k in 0..8i64 {
        s.assign(k as usize, vec![10 + k]).unwrap();
    }
    assert_eq!(s.range_sum(1, 2).unwrap(), vec![11, 12]);
    // A query crossing the root split must still come out in ascending
    // index order.
    assert_eq!(s.range_sum(1, 6).unwrap(), vec![11, 12, 13, 14, 15, 16]);
    assert_eq!(s.range_sum(0, 7).unwrap(), vec![10, 11, 12, 13, 14, 15, 16, 17]);
    assert_eq!(s.range_sum(4, 4).unwrap(), vec![14]);
}

#[test]
fn concatenation_identity_is_empty() {
    let mut s = SegmentTree::<Vec<i64>>::new(4);
    s.assign(2, vec![7]).unwrap();
    assert_eq!(s.range_sum(0, 1).unwrap(), Vec::<i64>::new());
    assert_eq!(s.range_sum(0, 3).unwrap(), vec![7]);
}
