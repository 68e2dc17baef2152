use tensor::TransformError;
use tensor::slice::SliceDim;
use tensor::tensor::Tensor;

#[test]
fn tile_split_rejects_sentinel_axis() {
    let t = Tensor::new(&[6, 10], ());
    assert_eq!(
        t.tile_split(2, &[2, 5]).unwrap_err(),
        TransformError::AxisOutOfRange
    );
}

#[test]
fn tile_split_rejects_product_mismatch() {
    let t = Tensor::new(&[6, 10], ());
    assert_eq!(
        t.tile_split(1, &[2, 4]).unwrap_err(),
        TransformError::ShapeMismatch
    );
}

#[test]
fn tile_split_rejects_zero_part() {
    let t = Tensor::new(&[6, 10], ());
    assert_eq!(
        t.tile_split(1, &[0, 10]).unwrap_err(),
        TransformError::ShapeMismatch
    );
}

#[test]
fn tile_transpose_rejects_duplicate() {
    let t = Tensor::new(&[2, 3, 4], ());
    assert_eq!(
        t.tile_transpose(&[1, 1]).unwrap_err(),
        TransformError::DuplicateAxis
    );
}

#[test]
fn tile_transpose_rejects_sentinel_axis() {
    let t = Tensor::new(&[2, 3], ());
    assert_eq!(
        t.tile_transpose(&[0, 2]).unwrap_err(),
        TransformError::AxisOutOfRange
    );
}

#[test]
fn transpose_rejects_duplicate() {
    let t = Tensor::new(&[2, 3, 4], ());
    assert_eq!(
        t.transpose(&[2, 2]).unwrap_err(),
        TransformError::DuplicateAxis
    );
}

#[test]
fn transpose_rejects_missing_dimension() {
    let t = Tensor::new(&[2, 3], ());
    assert_eq!(
        t.transpose(&[2]).unwrap_err(),
        TransformError::AxisOutOfRange
    );
}

#[test]
fn restructure_rejects_bad_sum() {
    let t = Tensor::new(&[2, 3, 4], ());
    assert_eq!(
        t.restructure(vec![2, 2]).unwrap_err(),
        TransformError::GroupSumMismatch
    );
}

#[test]
fn tile_slice_rejects_rank_mismatch() {
    let t = Tensor::new(&[2, 3, 4], ());
    assert_eq!(
        t.tile_slice(&[SliceDim::all(), SliceDim::all()]).unwrap_err(),
        TransformError::RankMismatch
    );
}

#[test]
fn concat_rejects_empty_input() {
    let r = Tensor::<()>::concat(0, vec![]);
    assert_eq!(r.unwrap_err(), TransformError::RankMismatch);
}

#[test]
fn concat_rejects_sentinel_axis() {
    let a = Tensor::new(&[2, 3], ());
    assert_eq!(
        Tensor::concat(2, vec![a]).unwrap_err(),
        TransformError::AxisOutOfRange
    );
}

#[test]
fn concat_rejects_disagreeing_inputs() {
    let a = Tensor::new(&[2, 3, 5], ());
    let b = Tensor::new(&[2, 7, 6], ());
    assert_eq!(
        Tensor::concat(1, vec![a, b]).unwrap_err(),
        TransformError::ShapeMismatch
    );
}
