use intertense::error::{check_layout, check_layout_mut, checked_count, ErrorKind};
use intertense::layout::{AxisRange, Layout, RangeBound};
use intertense::match_tensor::{arg_max_by_key, binary_search_by};
use intertense::position::{advance_position, for_positions, increment_position, Position, PositionIter};
use intertense::sheet_ops;
use intertense::tensor::{Tens, Tensor};
use intertense::xmatch;

fn coords(p: &Position) -> Vec<isize> {
    p.as_slice().to_vec()
}

#[test]
fn aliasing_through_three_axes_is_refused() {
    // (1, 1, 0) and (0, 0, 1) both reach offset 8.
    assert_eq!(check_layout_mut(&[2, 2, 2], &[3, 5, 8]).unwrap_err().get_kind(), ErrorKind::Alias);
    // Offsets 0, 2, 4 plus 0, 3 are all distinct.
    assert!(check_layout_mut(&[3, 2], &[2, 3]).is_ok());
    assert!(check_layout_mut(&[3, 2], &[-2, 3]).is_ok());
    assert!(check_layout_mut(&[], &[]).is_ok());
    assert!(check_layout_mut(&[0, 4], &[0, 0]).is_ok());
}

#[test]
fn rank_mismatch_kinds() {
    let e = check_layout(&[10], &[]).unwrap_err();
    assert_eq!(e.get_kind(), ErrorKind::SpecificRankMismatch(1));
    assert_eq!(e.get_op(), "check");
    let e = check_layout_mut(&[10], &[]).unwrap_err();
    assert_eq!(e.get_kind(), ErrorKind::SpecificRankMismatch(1));
    let e = check_layout_mut(&[10, 3], &[1, 0]).unwrap_err();
    assert_eq!(e.get_kind(), ErrorKind::Alias);
    assert_eq!(e.get_op(), "check");
}

#[test]
fn count_with_a_zero_dim_is_zero() {
    let m = isize::MAX as usize;
    assert_eq!(checked_count(&[m, m, 0]).unwrap(), 0);
    let e = checked_count(&[m, m]).unwrap_err();
    assert_eq!(e.get_kind(), ErrorKind::CountOverflow);
    assert_eq!(e.get_op(), "count");
    assert_eq!(checked_count(&[m + 1, 0]).unwrap_err().get_kind(), ErrorKind::DimOverflow);
}

#[test]
fn unbounded_start_slices_from_zero() {
    let mut l = Layout::new(&[5]);
    let mut off: usize = 0;
    let r = AxisRange { start: RangeBound::Unbounded, end: RangeBound::Excluded(3) };
    assert!(l.try_slice(&mut off, &[r]).is_ok());
    assert_eq!(l.dims(), [3]);
    assert_eq!(l.strides(), [1]);
    assert_eq!(off, 0);
}

#[test]
fn start_past_stop_is_an_error() {
    let mut l = Layout::new(&[5]);
    let mut off: usize = 7;
    let r = AxisRange { start: RangeBound::Included(4), end: RangeBound::Excluded(2) };
    assert!(l.try_slice(&mut off, &[r]).is_err());
    assert_eq!(l.dims(), [5]);
    assert_eq!(off, 7);
}

#[test]
fn negative_stride_slice_keeps_components() {
    // Components of axis 0 run from the far end: coordinate q sits at offset 3 - q.
    let t = Tens::from_inner(vec![40, 30, 20, 10], Layout::from_inner(vec![4], vec![-1]));
    assert_eq!(*t.component(&[1]).unwrap(), 20);
    assert_eq!(*t.component(&[2]).unwrap(), 30);
    let mut l = Layout::from_inner(vec![4], vec![-1]);
    let mut off: usize = 0;
    l.slice_dim(0, &mut off, AxisRange { start: RangeBound::Included(1), end: RangeBound::Excluded(3) });
    assert_eq!(l.dims(), [2]);
    assert_eq!(off, 1);
    let s = Tens::from_inner(vec![30, 20, 10], l);
    assert_eq!(*s.component(&[0]).unwrap(), 20);
    assert_eq!(*s.component(&[1]).unwrap(), 30);
}

#[test]
fn binary_exact_match_needs_an_equal_component() {
    let v = Tensor::vector(vec![1, 3, 5, 7]);
    assert_eq!(sheet_ops::xmatch(&4, v.as_view(), Some(0), Some(2)), None);
    assert_eq!(sheet_ops::xmatch(&5, v.as_view(), Some(0), Some(2)).map(|p| coords(&p)), Some(vec![2]));
    assert_eq!(sheet_ops::xmatch(&4, v.as_view(), None, Some(-2)), None);
}

#[test]
fn walk_picks_the_nearest_candidate() {
    let v = Tensor::vector(vec![1, 3, 5, 7]);
    assert_eq!(sheet_ops::xmatch(&4, v.as_view(), Some(-1), Some(1)).map(|p| coords(&p)), Some(vec![1]));
    assert_eq!(sheet_ops::xmatch(&4, v.as_view(), Some(1), Some(1)).map(|p| coords(&p)), Some(vec![2]));
    assert_eq!(sheet_ops::xmatch(&5, v.as_view(), Some(0), Some(1)).map(|p| coords(&p)), Some(vec![2]));
    assert_eq!(sheet_ops::xmatch(&4, v.as_view(), Some(0), Some(1)), None);
    let w = Tensor::vector(vec![9, 6, 8, 6]);
    assert_eq!(sheet_ops::xmatch(&5, w.as_view(), Some(1), Some(1)).map(|p| coords(&p)), Some(vec![1]));
    assert_eq!(sheet_ops::xmatch(&5, w.as_view(), Some(1), Some(-1)).map(|p| coords(&p)), Some(vec![-1]));
}

#[test]
fn ceil_and_floor_pick_the_first_nearest() {
    let v = Tensor::vector(vec![9, 6, 8, 6, 2]);
    assert_eq!(xmatch::ceil_index(v.as_view(), &5).map(|(e, p)| (*e, coords(&p))), Some((6, vec![1])));
    assert_eq!(xmatch::floor_index(v.as_view(), &7).map(|(e, p)| (*e, coords(&p))), Some((6, vec![1])));
    assert_eq!(xmatch::ceil_index(v.as_view(), &10), None);
}

#[test]
fn arg_max_keeps_the_first_greatest() {
    let v = Tensor::vector(vec![3, 9, 2, 9, 1]);
    assert_eq!(coords(&arg_max_by_key(v.as_view(), |x: &i32| *x)), vec![1]);
    assert_eq!(coords(&arg_max_by_key(v.as_view(), |x: &i32| -*x)), vec![4]);
}

#[test]
fn binary_search_of_a_scalar() {
    assert!(binary_search_by(|_p: Position| Some(core::cmp::Ordering::Equal), &[]).is_ok());
    assert!(binary_search_by(|_p: Position| Some(core::cmp::Ordering::Less), &[]).is_err());
}

#[test]
fn range_starts_at_from_and_stops_before_to() {
    let from = Position::try_from_coordinates(&[0, 1]).unwrap();
    let to = Position::try_from_coordinates(&[1, 1]).unwrap();
    let mut it = PositionIter::range(&[2, 3], Some(from), Some(to));
    assert_eq!(it.len(), 3);
    let mut got = Vec::new();
    while let Some(p) = it.next() {
        got.push(coords(&p));
    }
    assert_eq!(got, vec![vec![0, 1], vec![0, 2], vec![1, 0]]);
}

#[test]
fn construction_and_index_error_kinds() {
    let e = Tens::try_new(vec![1, 2, 3], &[2, 2]).unwrap_err();
    assert_eq!(e.get_kind(), ErrorKind::BufferTooSmall { available: 3, required: 4 });
    assert_eq!(e.get_op(), "new");
    let t = Tens::try_new(vec![1, 2, 3, 4], &[2, 2]).unwrap();
    assert_eq!(t.dims(), [2, 2]);
    assert_eq!(t.buffer(), [1, 2, 3, 4]);
    let u = Tens::from_inner(vec![7], Layout::from_inner(vec![2], vec![1]));
    assert_eq!(*u.component(&[0]).unwrap(), 7);
    assert_eq!(u.component(&[1]).unwrap_err().get_kind(), ErrorKind::InvalidLayout);
    assert_eq!(u.component(&[2]).unwrap_err().get_kind(), ErrorKind::OutOfBounds(Position::try_from_coordinates(&[2]).unwrap()));
}

#[test]
fn normalizing_keeps_components_and_normalizes_empty_tensors() {
    let mut t = Tens::from_inner(vec![1, 2, 3, 4, 5, 6], Layout::from_inner(vec![2, 3], vec![1, 2]));
    t.normalize_layout();
    assert!(t.is_layout_normalized());
    assert_eq!(t.buffer(), [1, 3, 5, 2, 4, 6]);
    let mut e: Tens<i32> = Tens::from_inner(vec![], Layout::from_inner(vec![2, 0], vec![5, 7]));
    e.normalize_layout();
    assert!(e.is_layout_normalized());
    assert_eq!(e.dims(), [2, 0]);
}

#[test]
fn front_and_back_calls_never_cross() {
    let mut it = PositionIter::new(&[2, 3]);
    let mut seen = Vec::new();
    let mut from_front = true;
    for _ in 0..8 {
        let r = if from_front { it.next() } else { it.next_back() };
        if let Some(p) = r {
            let c = coords(&p);
            let n = if c[0] < 0 { c[0] + 2 } else { c[0] };
            let m = if c[1] < 0 { c[1] + 3 } else { c[1] };
            seen.push(n * 3 + m);
        }
        from_front = !from_front;
    }
    seen.sort();
    assert_eq!(seen, vec![0, 1, 2, 3, 4, 5]);
}

#[test]
fn unsqueeze_then_squeeze_gives_back_the_layout() {
    let mut l = Layout::from_inner(vec![2, 3], vec![3, 1]);
    l.unsqueeze_dim(1).squeeze_dim(1);
    assert_eq!(l.dims(), [2, 3]);
    assert_eq!(l.strides(), [3, 1]);
}

#[test]
fn binary_search_returns_coordinates_from_the_start() {
    let vals = [1, 3, 5, 7];
    let found = binary_search_by(|ix: Position| Some(vals[ix.as_slice()[0] as usize].cmp(&7)), &[4]);
    assert_eq!(found.map(|p| coords(&p)), Ok(vec![3]));
    let missing = binary_search_by(|ix: Position| Some(vals[ix.as_slice()[0] as usize].cmp(&4)), &[4]);
    assert_eq!(missing.map_err(|p| coords(&p)), Err(vec![2]));
    let past = binary_search_by(|ix: Position| Some(vals[ix.as_slice()[0] as usize].cmp(&9)), &[4]);
    assert_eq!(past.map_err(|p| coords(&p)), Err(vec![4]));
}

#[test]
fn walks_give_coordinates_from_their_starting_end() {
    let v = Tensor::vector(vec![1, 3, 5, 7]);
    assert_eq!(sheet_ops::xmatch(&5, v.as_view(), Some(0), Some(2)).map(|p| coords(&p)), Some(vec![2]));
    assert_eq!(sheet_ops::xmatch(&5, v.as_view(), Some(0), Some(-1)).map(|p| coords(&p)), Some(vec![-2]));
    assert_eq!(sheet_ops::xmatch(&4, v.as_view(), Some(1), Some(-1)).map(|p| coords(&p)), Some(vec![-2]));
    assert_eq!(xmatch::xmatch(&5, v.as_view(), 0, -1).map(|p| coords(&p)), Some(vec![-2]));
    assert_eq!(xmatch::xmatch(&5, v.as_view(), 0, 1).map(|p| coords(&p)), Some(vec![2]));
}

#[test]
fn xlookup_reads_the_return_tensor_at_the_walked_position() {
    let look = Tensor::vector(vec![1, 3, 5, 7]);
    let ret = Tensor::vector(vec![10, 20, 30, 40, 50, 60]);
    assert_eq!(sheet_ops::xlookup(&5, look.as_view(), ret.as_view(), None, None, None), Some(&30));
    assert_eq!(sheet_ops::xlookup(&5, look.as_view(), ret.as_view(), None, None, Some(-1)), Some(&50));
    assert_eq!(sheet_ops::xlookup(&4, look.as_view(), ret.as_view(), Some(&0), None, None), Some(&0));
}

#[test]
fn for_positions_stops_where_the_closure_breaks() {
    let mut p = vec![0isize, 0];
    for_positions(&[2, 3], |q: &Vec<isize>| {
        if q[0] == 1 && q[1] == 1 { core::ops::ControlFlow::Break(()) } else { core::ops::ControlFlow::Continue(()) }
    }, &mut p);
    assert_eq!(p, vec![1, 1]);
    let mut w = vec![0isize, 1];
    for_positions(&[2, 3], |_q: &Vec<isize>| core::ops::ControlFlow::Continue(()), &mut w);
    assert_eq!(w, vec![0, 0]);
    let mut e = vec![0isize, 0];
    for_positions(&[2, 0], |_q: &Vec<isize>| core::ops::ControlFlow::Break(()), &mut e);
    assert_eq!(e, vec![0, 0]);
    let mut n = vec![-1isize, -3];
    for_positions(&[2, 3], |q: &Vec<isize>| {
        if q[1] == -1 { core::ops::ControlFlow::Break(()) } else { core::ops::ControlFlow::Continue(()) }
    }, &mut n);
    assert_eq!(n, vec![-1, -1]);
}

#[test]
fn increment_is_advance_by_one() {
    let dims = [2usize, 3];
    for start in [[0isize, 0], [0, 2], [1, 2], [-1, -1], [1, -3]] {
        let mut a = start.to_vec();
        let mut b = start.to_vec();
        assert_eq!(increment_position(&dims, &mut a), advance_position(&dims, 1, &mut b));
        assert_eq!(a, b);
    }
}
