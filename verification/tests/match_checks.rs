use intertense::layout::Layout;
use intertense::match_tensor::fill_holes;
use intertense::tensor::Tensor;

#[test]
fn fill_holes_00() {
    let data: Tensor<f32> = Tensor::vector(vec![
        0.5, 0.0, 0.5, 0.4, 0.1, //
        0.0, 0.1, 0.0, 0.4, 0.2, //
        0.0, 0.0, 0.4, 0.0, 0.3,
    ]);
    let filled = vec![
        0.5, 0.0, 0.5, 0.4, 0.1, //
        0.5, 0.1, 0.5, 0.4, 0.2, //
        0.5, 0.1, 0.4, 0.4, 0.3,
    ];

    let mut data = data.with_layout(Layout::new(&[3, 5])).tens();
    fill_holes(data.as_mut_view(), 0, |&x| x, |&x| x == 0.0);

    assert_eq!(data.into_flat_vec(), filled);
}
