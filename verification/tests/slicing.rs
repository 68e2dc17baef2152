use tensor::slice::SliceDim;
use tensor::tensor::Tensor;

#[test]
fn test_tile() {
    let tensor = Tensor::new(&[2, 3, 4, 5], ());
    assert_eq!(tensor.shape(), vec![2, 3, 4, 5]);
    assert_eq!(tensor.tiles().as_slice(), &[2, 3, 4, 5, 1]);
    assert_eq!(tensor.pattern.shape.to_string(), "00000");
    assert_eq!(tensor.pattern.value, vec![60, 20, 5, 1, 0]);
    assert_eq!(tensor.storage.shape.to_string(), "00000");
    assert_eq!(tensor.storage.value.len(), 1);
    assert_eq!(tensor.size(), 120);

    let tensor = tensor
        .tile_slice(&[
            SliceDim::all(),
            SliceDim::from_take(1, 2),
            SliceDim::from_take_per(1, 2, 2),
            SliceDim::rev(),
        ])
        .unwrap();
    assert_eq!(tensor.shape(), vec![2, 2, 2, 5]);
    assert_eq!(tensor.tiles().as_slice(), &[2, 2, 2, 5, 1]);
    assert_eq!(tensor.pattern.shape.to_string(), "00000");
    assert_eq!(tensor.pattern.value, vec![60, 20, 10, -1, 29]);
    assert_eq!(tensor.storage.shape.to_string(), "00000");
    assert_eq!(tensor.storage.value.len(), 1);
    assert_eq!(tensor.size(), 40);
}

#[test]
fn test_macro() {
    assert_eq!(
        SliceDim::new(5, -3, 2),
        SliceDim {
            start: 5,
            step: -3,
            len: 2,
        }
    );
    assert_eq!(SliceDim::all(), SliceDim::new(0, 1, usize::MAX));
    assert_eq!(SliceDim::rev(), SliceDim::new(usize::MAX, -1, usize::MAX));
    assert_eq!(SliceDim::take(5), SliceDim::new(0, 1, 5));
    assert_eq!(SliceDim::from_until(3, 5), SliceDim::new(3, 1, 2));
    assert_eq!(SliceDim::from_take(3, 5), SliceDim::new(3, 1, 5));
    assert_eq!(SliceDim::from_take_per(3, 5, 2), SliceDim::new(3, 2, 5));
}

#[test]
fn normalize_forward_clamps_length() {
    let d = SliceDim::new(1, 1, usize::MAX);
    assert_eq!(d.normalize(4), SliceDim::new(1, 1, 3));

    let d = SliceDim::new(1, 2, usize::MAX);
    assert_eq!(d.normalize(4), SliceDim::new(1, 2, 2));

    let d = SliceDim::new(0, 100, usize::MAX);
    assert_eq!(d.normalize(10), SliceDim::new(0, 100, 1));
}

#[test]
fn normalize_backward_clamps_start() {
    let d = SliceDim::rev();
    assert_eq!(d.normalize(5), SliceDim::new(4, -1, 5));

    let d = SliceDim::new(2, -2, usize::MAX);
    assert_eq!(d.normalize(9), SliceDim::new(2, -2, 2));
}

#[test]
fn normalize_broadcast_keeps_length() {
    let d = SliceDim::new(3, 0, 7);
    assert_eq!(d.normalize(5), SliceDim::new(3, 0, 7));
}

#[test]
fn slice_broadcast_zeroes_coefficient() {
    let tensor = Tensor::new(&[2, 3], ());
    let tensor = tensor
        .tile_slice(&[SliceDim::all(), SliceDim::new(1, 0, 4)])
        .unwrap();
    assert_eq!(tensor.tiles().as_slice(), &[2, 4, 1]);
    assert_eq!(tensor.pattern.value, vec![3, 0, 1]);
    assert_eq!(tensor.size(), 8);
}
