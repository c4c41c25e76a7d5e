use intertense::error::{check_layout, check_layout_mut, ErrorKind};

#[test]
fn layout() {
    let (mut dims, mut strides): (Vec<usize>, Vec<isize>) = (Vec::new(), Vec::new());
    // scalar
    assert!(check_layout(&dims, &strides).is_ok());

    dims.push(10);
    let check = check_layout(&dims, &strides).unwrap_err();
    // rank mismatch
    assert_eq!((check.get_kind(), check.get_op()), (ErrorKind::SpecificRankMismatch(1), "check"));

    strides.push(1);
    assert!(check_layout(&dims, &strides).is_ok());

    dims.push(3);
    strides.push(0);
    assert!(check_layout(&dims, &strides).is_ok());
}

#[test]
fn layout_mut() {
    let (mut dims, mut strides): (Vec<usize>, Vec<isize>) = (Vec::new(), Vec::new());
    // scalar
    assert!(check_layout_mut(&dims, &strides).is_ok());

    dims.push(10);
    let check = check_layout_mut(&dims, &strides).unwrap_err();
    // rank mismatch
    assert_eq!((check.get_kind(), check.get_op()), (ErrorKind::SpecificRankMismatch(1), "check"));

    strides.push(1);
    assert!(check_layout(&dims, &strides).is_ok());

    dims.push(3);
    strides.push(0);
    let check = check_layout_mut(&dims, &strides).unwrap_err();
    assert_eq!((check.get_kind(), check.get_op()), (ErrorKind::Alias, "check"));
}
