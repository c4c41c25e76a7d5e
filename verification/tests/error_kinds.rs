use intertense::error::{
    check_bounds, check_broadcast, check_dims, check_layout_mut, check_shape_match, checked_count, checked_len,
    checked_rank, ErrorKind,
};
use intertense::layout::Layout;
use intertense::position::Position;
use intertense::tensor::Tens;

#[test]
fn bounds_errors() {
    assert!(check_bounds(&[2, 3], &[1, -3]).is_ok());
    let e = check_bounds(&[2, 3], &[1, 3]).unwrap_err();
    assert_eq!(e.get_kind(), ErrorKind::OutOfBounds(Position::try_from_coordinates(&[1, 3]).unwrap()));
    let e = check_bounds(&[2, 3], &[1]).unwrap_err();
    assert_eq!(e.get_kind(), ErrorKind::SpecificRankMismatch(1));
}

#[test]
fn broadcast_and_shape_errors() {
    assert!(check_broadcast(&[3, 1], &[1, 4]).is_ok());
    let e = check_broadcast(&[3, 2], &[4, 2]).unwrap_err();
    assert_eq!(e.get_kind(), ErrorKind::BroadcastMismatch);
    assert!(check_shape_match(&[3, 2], &[3, 2]).is_ok());
    let e = check_shape_match(&[3, 2], &[2, 3]).unwrap_err();
    assert_eq!(e.get_kind(), ErrorKind::ShapeMismatch);
}

#[test]
fn overflow_errors() {
    let big = isize::MAX as usize + 1;
    assert_eq!(check_dims(&[2, big]).unwrap_err().get_kind(), ErrorKind::DimOverflow);
    assert_eq!(checked_count(&[2, 3, 4]).unwrap(), 24);
    let half = 1usize << 33;
    assert_eq!(checked_count(&[half, half]).unwrap_err().get_kind(), ErrorKind::CountOverflow);
    assert_eq!(checked_len(&[2, 3], &[3, 1]).unwrap(), 6);
    let e = checked_len(&[4, 2], &[1 << 62, 1]).unwrap_err();
    assert_eq!(e.get_kind(), ErrorKind::LenOverflow);
    assert_eq!(checked_rank(&[2, 3], &[1]).unwrap_err().get_kind(), ErrorKind::SpecificRankMismatch(2));
}

#[test]
fn alias_and_buffer_errors() {
    assert_eq!(check_layout_mut(&[2, 2], &[1, 1]).unwrap_err().get_kind(), ErrorKind::Alias);
    assert!(check_layout_mut(&[2, 2], &[2, 1]).is_ok());
    let l = Layout::from_inner(vec![2, 3], vec![3, 1]);
    assert_eq!(
        l.validate(5).unwrap_err().get_kind(),
        ErrorKind::BufferTooSmall { available: 5, required: 6 }
    );
    assert!(l.validate(6).is_ok());
    assert_eq!(l.try_normalize_index(2).unwrap_err().get_kind(), ErrorKind::InvalidIndex(2));
    assert_eq!(l.try_normalize_index(-2).unwrap(), 0);
}

#[test]
fn component_errors() {
    let t = Tens::new(vec![1, 2, 3, 4, 5, 6], &[2, 3]);
    assert_eq!(*t.component(&[-1, -1]).unwrap(), 6);
    let e = t.component(&[2, 0]).unwrap_err();
    assert_eq!(e.get_op(), "index");
    assert!(Tens::try_new(vec![1, 2, 3], &[2, 2]).is_err());
}
