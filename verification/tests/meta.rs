use tensor::meta::MetaTensor;
use tensor::meta_shape::{AxisTag, MetaShape};

#[test]
fn meta_tile_split_test() {
    let mut meta = MetaTensor {
        shape: MetaShape::new(5),
        value: vec![()],
    };
    meta.shape.0[2] = AxisTag::Distinguished;
    meta.shape.0[3] = AxisTag::Distinguished;
    assert_eq!(meta.shape.to_string(), "00110");
    {
        let meta = meta.clone().tile_split(2, &[2, 2]);
        assert_eq!(meta.shape.to_string(), "001110");
    }
    {
        let meta = meta.clone().tile_split(1, &[2, 2]);
        assert_eq!(meta.shape.to_string(), "000110");
    }
}

#[test]
fn transpose_test_transpose() {
    let tiles = [1usize, 3, 4, 4];
    let mut meta = MetaTensor {
        shape: MetaShape::new(tiles.len() + 1),
        value: Vec::<usize>::new(),
    };
    meta.shape.0[1] = AxisTag::Distinguished;
    meta.shape.0[2] = AxisTag::Distinguished;
    let size = (tiles.len() + 1) * tiles[1] * tiles[2];
    meta.value = (0..size).collect();

    assert_eq!(meta.shape.to_string(), "01100");
}

#[test]
fn test_split() {
    let mut shape = MetaShape::new(5);
    shape.0[2] = AxisTag::Distinguished;
    shape.0[3] = AxisTag::Distinguished;

    assert_eq!(shape.clone().split(2, 2).to_string(), "0011110");
    assert_eq!(shape.clone().split(1, 2).to_string(), "0000110");
}

#[test]
fn meta_shape_test_transpose() {
    let mut shape = MetaShape::new(5);
    shape.0[2] = AxisTag::Distinguished;
    shape.0[3] = AxisTag::Distinguished;

    let map = vec![0usize, 2, 3, 1, 4];
    assert_eq!(shape.transpose(&map).to_string(), "01100");
}

#[test]
fn meta_shape_empty_prints_empty() {
    let shape = MetaShape::new(0);
    assert_eq!(shape.len(), 0);
    assert_eq!(shape.to_string(), "");
}

#[test]
fn meta_rank_counts_all_axes() {
    let meta = MetaTensor {
        shape: MetaShape::new(4),
        value: vec![0isize; 4],
    };
    assert_eq!(meta.rank(), 4);
}

#[test]
fn as_matrix_lists_columns() {
    let meta = MetaTensor {
        shape: MetaShape::new(3),
        value: vec![3isize, 1, 0, 5, 1, -3],
    };
    let matrix = meta.as_matrix();
    assert_eq!(matrix, vec![vec![3, 1, 0], vec![5, 1, -3]]);
}
