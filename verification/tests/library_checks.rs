use intertense::error::{check_layout, ErrorKind};
use intertense::grid::stack_sheets;
use intertense::layout::Layout;
use intertense::match_tensor::{compare_subtensors, fuzzy_str_pos};
use intertense::position::{advance_position, rewind_position, unsign_position_slice, Position};
use intertense::sheet_ops;
use intertense::tensor::{Tens, Tensor};
use intertense::xmatch;

fn strings(items: &[&str]) -> Tensor<String> {
    Tensor::vector(items.iter().map(|s| s.to_string()).collect())
}

#[test]
fn fuzzy_finds_nearest_string() {
    let data = strings(&["here", "hi", "kitten", "there"]);
    assert_eq!(fuzzy_str_pos(data.as_view(), "there").as_slice(), [3]);
    assert_eq!(fuzzy_str_pos(data.as_view(), "sitting").as_slice(), [2]);
    assert_eq!(fuzzy_str_pos(data.as_view(), "hello").as_slice(), [0]);
    assert_eq!(fuzzy_str_pos(data.as_view(), "h").as_slice(), [1]);
}

#[test]
fn fuzzy_keeps_first_of_equally_near() {
    let data = strings(&["ab", "cd", "xy"]);
    assert_eq!(fuzzy_str_pos(data.as_view(), "zz").as_slice(), [0]);
}

#[test]
fn windows_are_compared_in_order() {
    let data = Tensor::new((1..=9).collect::<Vec<i32>>(), &[3, 3]);
    let template = Tensor::new(vec![0, 0, 0, 0], &[2, 2]);
    let sums = compare_subtensors(
        data.as_view(),
        |w, _t, p| (w.flat_vec(None).iter().sum::<i32>(), p.as_slice().to_vec()),
        template.as_view(),
    );
    assert_eq!(
        sums,
        vec![(12, vec![0, 0]), (16, vec![0, 1]), (24, vec![1, 0]), (28, vec![1, 1])]
    );
}

#[test]
fn template_larger_than_data_has_no_window() {
    let data = Tensor::new((1..=4).collect::<Vec<i32>>(), &[2, 2]);
    let template = Tensor::new(vec![0; 6], &[3, 2]);
    let sums = compare_subtensors(data.as_view(), |_w, _t, _p| 1, template.as_view());
    assert!(sums.is_empty());
}

#[test]
fn kind_messages() {
    assert_eq!(ErrorKind::SpecificRankMismatch(1).to_string(), "expected a tensor of rank 1");
    assert_eq!(
        ErrorKind::BufferTooSmall { available: 3, required: 10 }.to_string(),
        "buffer len is 3 but tensor len is 10"
    );
    assert_eq!(ErrorKind::InvalidIndex(-3).to_string(), "index -3 is invalid for this layout");
    let p = Position::try_from_coordinates(&[1, -2]).unwrap();
    assert_eq!(ErrorKind::OutOfBounds(p).to_string(), "position [1, -2] out of bounds");
    assert_eq!(ErrorKind::Alias.to_string(), "mutable components may not alias");
    assert_eq!(ErrorKind::Undefined("why").to_string(), "operation result is undefined: why");
    assert_eq!(ErrorKind::Other("custom".to_string()).to_string(), "custom");
}

#[test]
fn error_report() {
    let e = check_layout(&[10], &[]).unwrap_err();
    assert_eq!(
        e.to_string(),
        "Error:     expected a tensor of rank 1\nOperation: check\nLayout:    Layout { inner: ([10], []) }\nRhs:       None\n"
    );
}

#[test]
fn position_and_layout_text() {
    assert_eq!(Position::try_from_coordinates(&[1, -2, 30]).unwrap().to_string(), "[1, -2, 30]");
    assert_eq!(Position::new(0).to_string(), "[]");
    assert_eq!(
        Layout::from_inner(vec![2, 3], vec![3, -1]).to_string(),
        "Layout { inner: ([2, 3], [3, -1]) }"
    );
    assert_eq!(
        Position::try_from_coordinates(&[isize::MIN]).unwrap().to_string(),
        "[-9223372036854775808]"
    );
}

#[test]
fn unsign_slice_converts_until_first_out_of_bounds() {
    let mut p = [-1isize, 2];
    assert!(unsign_position_slice(&[3, 4], &mut p));
    assert_eq!(p, [2, 2]);

    let mut q = [-1isize, 9, -1];
    assert!(!unsign_position_slice(&[3, 4, 5], &mut q));
    assert_eq!(q, [2, 9, -1]);
}

#[test]
fn rewind_undoes_advance() {
    let dims = [2, 4];
    let mut position: Vec<isize> = vec![1, 3];
    let carry = advance_position(&dims, 5, &mut position);
    assert_eq!(position, [1, 0]);
    assert_eq!(carry, 1);
    let borrow = rewind_position(&dims, 5, &mut position);
    assert_eq!(position, [1, 3]);
    assert_eq!(borrow, carry);
}

#[test]
fn advances_add_up() {
    let dims = [3, 2];
    let mut a: Vec<isize> = vec![0, 1];
    let c1 = advance_position(&dims, 3, &mut a);
    let c2 = advance_position(&dims, 4, &mut a);
    let mut b: Vec<isize> = vec![0, 1];
    let c3 = advance_position(&dims, 7, &mut b);
    assert_eq!(a, b);
    assert_eq!(c1 + c2, c3);
}

#[test]
fn flipping_an_axis_mirrors_it() {
    let mut t = Tens::new((0..6).collect::<Vec<i32>>(), &[2, 3]);
    t.flip_dim(1);
    assert_eq!(*t.component(&[0, 0]).unwrap(), 2);
    assert_eq!(*t.component(&[1, 0]).unwrap(), 5);
    assert_eq!(*t.component(&[1, 2]).unwrap(), 3);
}

#[test]
fn swapping_axes_moves_coordinates() {
    let mut t = Tens::new((0..6).collect::<Vec<i32>>(), &[2, 3]);
    t.swap_dims(0, 1);
    assert_eq!(t.dims(), [3, 2]);
    assert_eq!(*t.component(&[2, 1]).unwrap(), 5);
    assert_eq!(*t.component(&[1, 0]).unwrap(), 1);
}

#[test]
fn sheet_xmatch_modes() {
    let v = Tensor::vector(vec![1, 3, 5, 7]);
    let values = v.as_view();
    assert_eq!(sheet_ops::xmatch(&5, values, None, None).map(|p| p.as_slice().to_vec()), Some(vec![2]));
    assert_eq!(sheet_ops::xmatch(&4, values, None, None), None);
    assert_eq!(sheet_ops::xmatch(&4, values, Some(1), None).map(|p| p.as_slice().to_vec()), Some(vec![2]));
    assert_eq!(sheet_ops::xmatch(&4, values, Some(-1), None).map(|p| p.as_slice().to_vec()), Some(vec![1]));
    // binary search over ascending components
    assert_eq!(sheet_ops::xmatch(&7, values, None, Some(2)).map(|p| p.as_slice().to_vec()), Some(vec![3]));
    assert_eq!(sheet_ops::xmatch(&4, values, Some(1), Some(2)).map(|p| p.as_slice().to_vec()), Some(vec![2]));
    assert_eq!(sheet_ops::xmatch(&4, values, Some(-1), Some(2)).map(|p| p.as_slice().to_vec()), Some(vec![1]));
    assert_eq!(sheet_ops::xmatch(&8, values, Some(-1), Some(2)).map(|p| p.as_slice().to_vec()), Some(vec![3]));
    assert_eq!(sheet_ops::xmatch(&8, values, Some(1), Some(2)), None);
}

#[test]
fn sheet_xmatch_searches_backwards() {
    let v = Tensor::vector(vec![1, 2, 1]);
    assert_eq!(sheet_ops::xmatch(&1, v.as_view(), None, Some(-1)).map(|p| p.as_slice().to_vec()), Some(vec![-1]));
    assert_eq!(sheet_ops::xmatch(&1, v.as_view(), None, Some(1)).map(|p| p.as_slice().to_vec()), Some(vec![0]));
}

#[test]
fn sheet_xlookup_returns_matching_component() {
    let keys = Tensor::vector(vec![1, 2, 3]);
    let vals = Tensor::vector(vec![10, 20, 30]);
    let fallback = 0;
    assert_eq!(sheet_ops::xlookup(&2, keys.as_view(), vals.as_view(), None, None, None), Some(&20));
    assert_eq!(sheet_ops::xlookup(&9, keys.as_view(), vals.as_view(), Some(&fallback), None, None), Some(&0));
    assert_eq!(sheet_ops::xlookup(&9, keys.as_view(), vals.as_view(), None, None, None), None);
}

#[test]
fn ceil_and_floor() {
    let v = Tensor::vector(vec![5, 1, 9, 3]);
    assert_eq!(xmatch::ceil(v.as_view(), &4), Some(&5));
    assert_eq!(xmatch::floor(v.as_view(), &4), Some(&3));
    assert_eq!(xmatch::ceil(v.as_view(), &10), None);
    assert_eq!(xmatch::floor_index(v.as_view(), &9).map(|(e, p)| (*e, p.as_slice().to_vec())), Some((9, vec![2])));
    assert_eq!(xmatch::xmatch(&4, v.as_view(), 1, 1).map(|p| p.as_slice().to_vec()), Some(vec![0]));
    assert_eq!(xmatch::xmatch(&4, v.as_view(), -1, 1).map(|p| p.as_slice().to_vec()), Some(vec![3]));
}

#[test]
fn positions_order_without_dims() {
    let p = |c: &[isize]| Position::try_from_coordinates(c).unwrap();
    assert!(p(&[1, 2]) < p(&[1, 3]));
    assert_eq!(p(&[-1]).partial_cmp(&p(&[3])), None);
    assert_eq!(p(&[0, -1]).partial_cmp(&p(&[0, -2])), Some(std::cmp::Ordering::Greater));
    assert_eq!(p(&[1]).partial_cmp(&p(&[1, 0])), None);
    assert_eq!(p(&[2, -1]).partial_cmp(&p(&[1, 5])), Some(std::cmp::Ordering::Greater));
    assert_eq!(p(&[2, 3]).partial_cmp(&p(&[2, 3])), Some(std::cmp::Ordering::Equal));
    assert!(p(&[2, 3]) == p(&[2, 3]));
}

#[test]
fn stacked_sheets_pad_with_fill() {
    let sheets = vec![vec![vec![1, 2], vec![3]], vec![vec![4, 5, 6]]];
    let t = stack_sheets(&sheets, &0);
    assert_eq!(t.dims(), [2, 2, 3]);
    assert_eq!(t.into_flat_vec(), vec![1, 2, 0, 3, 0, 0, 4, 5, 6, 0, 0, 0]);
    let empty: Vec<Vec<Vec<i32>>> = Vec::new();
    assert_eq!(stack_sheets(&empty, &0).dims(), [0, 0, 0]);
}

#[test]
fn row_major_tensors_never_alias() {
    let t = Tensor::try_new((0..24).collect::<Vec<i32>>(), &[2, 3, 4]).unwrap();
    assert_eq!(t.strides(), [12, 4, 1]);
    assert!(t.validate_mut().is_ok());
    assert!(Tensor::try_new(vec![1, 2, 3], &[2, 2]).is_err());
}

#[test]
fn tensors_compare_by_components() {
    let a = Tens::new(vec![1, 2, 3, 4], &[2, 2]);
    let mut b = Tens::new(vec![1, 3, 2, 4], &[2, 2]);
    assert_ne!(a, b);
    b.swap_dims(0, 1);
    assert_eq!(a, b);
    let c = Tens::new(vec![1, 2, 3, 4], &[4]);
    assert_ne!(a, c);
}

#[test]
fn position_iter_from_checked_dims() {
    let it = intertense::position::PositionIter::try_from(&[2, 3]).unwrap();
    assert_eq!(it.len(), 6);
    let big = 1usize << 40;
    let e = intertense::position::PositionIter::try_from(&[big, big]).unwrap_err();
    assert_eq!(e.get_op(), "positions");
    assert_eq!(e.get_kind(), ErrorKind::CountOverflow);
}
