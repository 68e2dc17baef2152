use tensor::logical::Logical;

#[test]
fn logical_test() {
    let logical = Logical::new(&[20, 30, 40]);

    assert_eq!(logical.0, vec![3, /**/ 0, 1, 2, 3, /**/ 20, /**/ 30, /**/ 40]);
    assert_eq!(logical.rank(), 3);
    assert_eq!(logical.shape(0), Some(20));
    assert_eq!(logical.shape(1), Some(30));
    assert_eq!(logical.shape(2), Some(40));
    assert_eq!(logical.shape(3), None);
    assert_eq!(logical.tile(0).map(|t| t.0), Some(&[20][..]));
    assert_eq!(logical.tile(1).map(|t| t.0), Some(&[30][..]));
    assert_eq!(logical.tile(2).map(|t| t.0), Some(&[40][..]));
    assert!(logical.tile(3).is_none());

    let logical = logical.partition(1, &[3, 10]);
    assert_eq!(
        logical.0,
        vec![3, /**/ 0, 1, 3, 4, /**/ 20, /**/ 30, 10, /**/ 40]
    );
    assert_eq!(logical.shape(0), Some(20));
    assert_eq!(logical.shape(1), Some(30));
    assert_eq!(logical.shape(2), Some(40));
    assert_eq!(logical.shape(3), None);
    assert_eq!(logical.tile(0).map(|t| t.0), Some(&[20][..]));
    assert_eq!(logical.tile(1).map(|t| t.0), Some(&[30, 10][..]));
    assert_eq!(logical.tile(2).map(|t| t.0), Some(&[40][..]));
    assert!(logical.tile(3).is_none());

    let logical = logical.partition(2, &[2, 20]);
    assert_eq!(
        logical.0,
        vec![3, /**/ 0, 1, 3, 5, /**/ 20, /**/ 30, 10, /**/ 40, 20]
    );
    assert_eq!(logical.shape(0), Some(20));
    assert_eq!(logical.shape(1), Some(30));
    assert_eq!(logical.shape(2), Some(40));
    assert_eq!(logical.shape(3), None);
    assert_eq!(logical.tile(0).map(|t| t.0), Some(&[20][..]));
    assert_eq!(logical.tile(1).map(|t| t.0), Some(&[30, 10][..]));
    assert_eq!(logical.tile(2).map(|t| t.0), Some(&[40, 20][..]));
    assert!(logical.tile(3).is_none());

    let logical = logical.partition(1, &[5, 6]);
    assert_eq!(
        logical.0,
        vec![3, /**/ 0, 1, 3, 5, /**/ 20, /**/ 30, 6, /**/ 40, 20]
    );
    assert_eq!(logical.shape(0), Some(20));
    assert_eq!(logical.shape(1), Some(30));
    assert_eq!(logical.shape(2), Some(40));
    assert_eq!(logical.shape(3), None);
    assert_eq!(logical.tile(0).map(|t| t.0), Some(&[20][..]));
    assert_eq!(logical.tile(1).map(|t| t.0), Some(&[30, 6][..]));
    assert_eq!(logical.tile(2).map(|t| t.0), Some(&[40, 20][..]));
    assert!(logical.tile(3).is_none());

    let logical = logical.partition(1, &[2, 3, 5]);
    assert_eq!(
        logical.0,
        vec![3, /**/ 0, 1, 4, 6, /**/ 20, /**/ 30, 15, 5, /**/ 40, 20]
    );
    let tile = logical.tile(1).unwrap();
    assert_eq!(tile.rank(), 3);
    assert_eq!(tile.shape(0), Some(2));
    assert_eq!(tile.shape(1), Some(3));
    assert_eq!(tile.shape(2), Some(5));
    assert_eq!(tile.shape(3), None);

    let logical = logical.transpose(&[2, 0, 1]);
    assert_eq!(
        logical.0,
        vec![3, /**/ 0, 2, 3, 6, /**/ 40, 20, /**/ 20, /**/ 30, 15, 5]
    );
}

#[test]
fn logical_shape_vec_lists_extents() {
    let logical = Logical::new(&[20, 30, 40]).partition(1, &[3, 10]);
    assert_eq!(logical.shape_vec(), vec![20, 30, 40]);
}

#[test]
fn tile_shape_vec_recovers_extents() {
    let logical = Logical::new(&[30]).partition(0, &[2, 3, 5]);
    let tile = logical.tile(0).unwrap();
    assert_eq!(tile.size(), 30);
    assert_eq!(tile.shape_vec(), vec![2, 3, 5]);
}

#[test]
fn strides_are_suffix_products() {
    let strides = tensor::strides::Strides::new(&[6, 10], 1);
    assert_eq!(strides.0, vec![10, 1]);

    let strides = tensor::strides::Strides::new(&[7, 1024], 32);
    assert_eq!(strides.0, vec![32768, 32]);
}

#[test]
fn tiles_test() {
    let shape = tensor::tiles::Tiles::from_iter(vec![2, 3, 4, 1]);
    assert_eq!(shape.clone().tile_split(2, &[2, 2]).0, vec![2, 3, 2, 2, 1]);
}
