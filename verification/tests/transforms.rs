use tensor::tensor::Tensor;

#[test]
fn split_test() {
    let tensor = Tensor::new(&[6, 10], ());
    assert_eq!(tensor.shape(), vec![6, 10]);
    assert_eq!(tensor.tiles().as_slice(), &[6, 10, 1]);
    assert_eq!(tensor.pattern.shape.to_string(), "000");
    assert_eq!(tensor.pattern.value, vec![10, 1, 0]);
    assert_eq!(tensor.storage.shape.to_string(), "000");
    assert_eq!(tensor.storage.value.len(), 1);
    assert_eq!(tensor.size(), 60);

    let tensor = tensor.tile_split(1, &[2, 5]).unwrap();
    assert_eq!(tensor.shape(), vec![6, 10]);
    assert_eq!(tensor.tiles().as_slice(), &[6, 2, 5, 1]);
    assert_eq!(tensor.pattern.shape.to_string(), "0000");
    assert_eq!(tensor.pattern.value, vec![10, 5, 1, 0]);
    assert_eq!(tensor.storage.shape.to_string(), "0000");
    assert_eq!(tensor.storage.value.len(), 1);
    assert_eq!(tensor.size(), 60);
}

#[test]
fn tile_split_test() {
    let tensor = Tensor::new(&[6, 10], ());
    assert_eq!(tensor.shape(), vec![6, 10]);
    assert_eq!(tensor.tiles().as_slice(), &[6, 10, 1]);
    assert_eq!(tensor.pattern.shape.to_string(), "000");
    assert_eq!(tensor.pattern.value, vec![10, 1, 0]);
    assert_eq!(tensor.storage.shape.to_string(), "000");
    assert_eq!(tensor.storage.value.len(), 1);
    assert_eq!(tensor.size(), 60);

    let tensor = tensor.tile_split(1, &[2, 5]).unwrap();
    assert_eq!(tensor.shape(), vec![6, 10]);
    assert_eq!(tensor.tiles().as_slice(), &[6, 2, 5, 1]);
    assert_eq!(tensor.pattern.shape.to_string(), "0000");
    assert_eq!(tensor.pattern.value, vec![10, 5, 1, 0]);
    assert_eq!(tensor.storage.shape.to_string(), "0000");
    assert_eq!(tensor.storage.value.len(), 1);
    assert_eq!(tensor.size(), 60);
}

#[test]
fn restructure_test() {
    let tensor = Tensor::new(&[2, 3, 4], ());
    assert_eq!(tensor.shape(), vec![2, 3, 4]);

    let tensor = tensor.restructure(vec![3]).unwrap();
    assert_eq!(tensor.shape(), vec![24]);

    let tensor = tensor.restructure(vec![2, 1]).unwrap();
    assert_eq!(tensor.shape(), vec![6, 4]);
}

#[test]
fn concat_test() {
    let a = Tensor::new(&[2, 3, 3], ()).tile_split(0, &[2, 1]).unwrap();
    let b = Tensor::new(&[2, 3, 3], ()).tile_split(1, &[1, 3]).unwrap();
    let c = Tensor::new(&[2, 6, 3], ()).tile_split(1, &[2, 3]).unwrap();
    let d = Tensor::concat(1, vec![a, b, c]).unwrap();
    assert_eq!(d.shape(), vec![72]);
    assert_eq!(d.tiles().as_slice(), &[2, 4, 3, 3, 1]);
    assert_eq!(d.size(), 72);
}

#[test]
fn test_tiles() {
    let tensor = Tensor::new(&[2, 3, 4, 5], ());
    assert_eq!(tensor.shape(), vec![2, 3, 4, 5]);
    assert_eq!(tensor.tiles().as_slice(), &[2, 3, 4, 5, 1]);
    assert_eq!(tensor.pattern.shape.to_string(), "00000");
    assert_eq!(tensor.pattern.value, vec![60, 20, 5, 1, 0]);
    assert_eq!(tensor.storage.shape.to_string(), "00000");
    assert_eq!(tensor.storage.value.len(), 1);
    assert_eq!(tensor.size(), 120);

    let tensor = tensor.tile_transpose(&[3, 1, 2]).unwrap();
    assert_eq!(tensor.shape(), vec![2, 5, 3, 4]);
    assert_eq!(tensor.tiles().as_slice(), &[2, 5, 3, 4, 1]);
    assert_eq!(tensor.pattern.shape.to_string(), "00000");
    assert_eq!(tensor.pattern.value, vec![60, 1, 20, 5, 0]);
    assert_eq!(tensor.storage.shape.to_string(), "00000");
    assert_eq!(tensor.storage.value.len(), 1);
    assert_eq!(tensor.size(), 120);
}

#[test]
fn transpose_test() {
    let tensor = Tensor::new(&[2, 3, 4, 5], ());
    assert_eq!(tensor.shape(), vec![2, 3, 4, 5]);
    assert_eq!(tensor.tiles().as_slice(), &[2, 3, 4, 5, 1]);
    assert_eq!(tensor.pattern.value, vec![60, 20, 5, 1, 0]);
    assert_eq!(tensor.storage.value.len(), 1);
    assert_eq!(tensor.size(), 120);

    let tensor = tensor.tile_transpose(&[3, 1, 2]).unwrap();
    assert_eq!(tensor.shape(), vec![2, 5, 3, 4]);
    assert_eq!(tensor.tiles().as_slice(), &[2, 5, 3, 4, 1]);
    assert_eq!(tensor.pattern.value, vec![60, 1, 20, 5, 0]);
    assert_eq!(tensor.storage.value.len(), 1);
    assert_eq!(tensor.size(), 120);
}

#[test]
fn test_shape() {
    let tensor = Tensor::new(&[4, 6, 8, 9], ())
        .tile_split(1, &[2, 3])
        .unwrap()
        .tile_split(3, &[2, 2, 2])
        .unwrap();
    assert_eq!(tensor.shape(), vec![4, 6, 8, 9]);
    assert_eq!(tensor.tiles().as_slice(), &[4, 2, 3, 2, 2, 2, 9, 1]);
    assert_eq!(tensor.pattern.shape.to_string(), "00000000");
    assert_eq!(tensor.pattern.value, vec![432, 216, 72, 36, 18, 9, 1, 0]);
    assert_eq!(tensor.storage.shape.to_string(), "00000000");
    assert_eq!(tensor.storage.value.len(), 1);
    assert_eq!(tensor.size(), 1728);

    let tensor = tensor.transpose(&[3, 1, 2]).unwrap();
    assert_eq!(tensor.shape(), vec![4, 9, 6, 8]);
    assert_eq!(tensor.tiles().as_slice(), &[4, 9, 2, 3, 2, 2, 2, 1]);
    assert_eq!(tensor.pattern.shape.to_string(), "00000000");
    assert_eq!(tensor.pattern.value, vec![432, 1, 216, 72, 36, 18, 9, 0]);
    assert_eq!(tensor.storage.shape.to_string(), "00000000");
    assert_eq!(tensor.storage.value.len(), 1);
    assert_eq!(tensor.size(), 1728);
}

#[test]
fn shape_product_invariant() {
    // The element count always equals the product of the logical shape,
    // and the product of the real tile extents, across a chain of
    // transforms.
    let check = |t: &Tensor<()>| {
        let shape_product: usize = t.shape().iter().product();
        let tile_product: usize = t.tiles()[..t.tiles().len() - 1].iter().product();
        assert_eq!(t.size(), shape_product);
        assert_eq!(t.size(), tile_product);
    };
    let t = Tensor::new(&[4, 6, 8], ());
    check(&t);
    let t = t.tile_split(1, &[2, 3]).unwrap();
    check(&t);
    let t = t.tile_transpose(&[2, 0]).unwrap();
    check(&t);
    let t = t.restructure(vec![1, 3]).unwrap();
    check(&t);
    let t = t.transpose(&[1, 0]).unwrap();
    check(&t);
}

#[test]
fn identity_short_circuit() {
    // An empty or identity permutation returns an observably identical
    // tensor, at both the tile level and the dimension level.
    let t = Tensor::new(&[2, 3, 4], ()).tile_split(2, &[2, 2]).unwrap();
    let tiles = t.tiles().clone();
    let pattern = t.pattern.value.clone();
    let shape = t.shape();

    let t = t.tile_transpose(&[]).unwrap();
    assert_eq!(t.tiles(), &tiles);
    assert_eq!(t.pattern.value, pattern);
    assert_eq!(t.shape(), shape);

    let t = t.tile_transpose(&[0, 1, 2, 3]).unwrap();
    assert_eq!(t.tiles(), &tiles);
    assert_eq!(t.pattern.value, pattern);
    assert_eq!(t.shape(), shape);

    let t = t.transpose(&[]).unwrap();
    assert_eq!(t.tiles(), &tiles);
    assert_eq!(t.pattern.value, pattern);
    assert_eq!(t.shape(), shape);

    let t = t.transpose(&[0, 1, 2]).unwrap();
    assert_eq!(t.tiles(), &tiles);
    assert_eq!(t.pattern.value, pattern);
    assert_eq!(t.shape(), shape);
}

#[test]
fn split_merge_round_trip() {
    // Splitting a tile axis and then restructuring to fuse the sub-axes
    // back into one logical dimension reproduces the original shape.
    let t = Tensor::new(&[6, 10, 7], ());
    let original_shape = t.shape();
    let t = t.tile_split(1, &[2, 5]).unwrap();
    assert_eq!(t.shape(), original_shape);
    let t = t.restructure(vec![1, 2, 1]).unwrap();
    assert_eq!(t.shape(), original_shape);
}

#[test]
fn transpose_involution() {
    // A permutation followed by its inverse restores extents, shape and
    // pattern coefficients.
    let t = Tensor::new(&[2, 3, 4, 5], ());
    let tiles = t.tiles().clone();
    let pattern = t.pattern.value.clone();
    let shape = t.shape();

    let t = t.tile_transpose(&[3, 1, 2]).unwrap();
    let t = t.tile_transpose(&[2, 3, 1]).unwrap();
    assert_eq!(t.tiles(), &tiles);
    assert_eq!(t.pattern.value, pattern);
    assert_eq!(t.shape(), shape);
}

#[test]
fn concat_keeps_other_axes() {
    // The concat extent law: the summed axis grows to the sum of the
    // inputs' extents and every other axis is unchanged.
    let a = Tensor::new(&[2, 3, 5], ());
    let b = Tensor::new(&[2, 7, 5], ());
    let d = Tensor::concat(1, vec![a, b]).unwrap();
    assert_eq!(d.tiles().as_slice(), &[2, 10, 5, 1]);
    assert_eq!(d.size(), 100);
    assert_eq!(d.pattern.shape.to_string(), "0100");
    assert_eq!(d.storage.value.len(), 10);
}

#[test]
fn concat_then_split_and_transpose() {
    // Concatenation distinguishes the summed axis: every position on it
    // carries its own pattern column and storage handle, and later
    // splits and transposes keep the columns consistent.
    let a = Tensor::new(&[2, 3], 10i32);
    let b = Tensor::new(&[2, 5], 20i32);
    let d = Tensor::concat(1, vec![a, b]).unwrap();
    assert_eq!(d.tiles().as_slice(), &[2, 8, 1]);
    assert_eq!(d.pattern.shape.to_string(), "010");
    let mut expected = Vec::new();
    for _ in 0..3 {
        expected.extend_from_slice(&[3, 1, 0]);
    }
    for _ in 0..5 {
        expected.extend_from_slice(&[5, 1, -3]);
    }
    assert_eq!(d.pattern.value, expected);
    assert_eq!(d.storage.value, vec![10, 10, 10, 20, 20, 20, 20, 20]);

    let s = d.clone().tile_split(1, &[2, 4]).unwrap();
    assert_eq!(s.tiles().as_slice(), &[2, 2, 4, 1]);
    assert_eq!(s.pattern.shape.to_string(), "0110");
    let mut expected = Vec::new();
    for _ in 0..3 {
        expected.extend_from_slice(&[3, 4, 1, 0]);
    }
    for _ in 0..5 {
        expected.extend_from_slice(&[5, 4, 1, -3]);
    }
    assert_eq!(s.pattern.value, expected);
    assert_eq!(s.storage.value.len(), 8);

    let t = d.tile_transpose(&[1, 0]).unwrap();
    assert_eq!(t.tiles().as_slice(), &[8, 2, 1]);
    assert_eq!(t.pattern.shape.to_string(), "100");
    let mut expected = Vec::new();
    for _ in 0..3 {
        expected.extend_from_slice(&[1, 3, 0]);
    }
    for _ in 0..5 {
        expected.extend_from_slice(&[1, 5, -3]);
    }
    assert_eq!(t.pattern.value, expected);
}

#[test]
fn tile_split_single_part_is_identity() {
    // A split into one part equal to the current extent is a guarded
    // identity, not an error.
    let t = Tensor::new(&[6, 10], ());
    let t = t.tile_split(1, &[10]).unwrap();
    assert_eq!(t.tiles().as_slice(), &[6, 10, 1]);
    assert_eq!(t.pattern.value, vec![10, 1, 0]);

    let t = Tensor::new(&[6, 10], ());
    assert!(t.tile_split(1, &[7]).is_err());
}
