use rten::tensor::{RandomSource, Tensor};

/// Create a tensor where the value of each element is its logical index
/// plus one.
fn steps(shape: &[usize]) -> Tensor<i32> {
    let n: usize = shape.iter().product();
    Tensor::from_data(shape, (1..=n as i32).collect())
}

/// Small xorshift generator producing floats in `[0, 1)`.
struct XorShiftRng {
    state: u64,
}

impl XorShiftRng {
    fn new(seed: u64) -> XorShiftRng {
        XorShiftRng { state: seed }
    }
}

impl RandomSource<f32> for XorShiftRng {
    fn next(&mut self) -> f32 {
        let mut x = self.state;
        x ^= x << 13;
        x ^= x >> 7;
        x ^= x << 17;
        self.state = x;
        (x >> 40) as f32 / (1u64 << 24) as f32
    }
}

#[test]
fn test_apply() {
    let mut x = steps(&[3, 3]);
    x.apply(|el| el * el);
    let expected = Tensor::from_data(&[3, 3], vec![1, 4, 9, 16, 25, 36, 49, 64, 81]);
    assert_eq!(x.shape(), expected.shape());
    assert_eq!(x.to_vec(), expected.to_vec());
}

#[test]
fn test_clip_dim() {
    let mut x = steps(&[3, 3]);
    x.clip_dim(0, 1..2);
    x.clip_dim(1, 1..2);
    assert_eq!(x.to_vec(), vec![5]);
}

#[test]
fn test_clip_dim_start() {
    let mut x = steps(&[3, 3]);

    // Clip the start of the tensor, adjusting the `base` offset.
    x.clip_dim(0, 1..3);

    // Indexing should reflect the slice.
    assert_eq!(x.to_vec(), &[4, 5, 6, 7, 8, 9]);
    assert_eq!(*x.index([0, 0]), 4);
    assert_eq!(*x.index_mut([0, 0]), 4);

    // Slices returned by `data`, `data_mut` should reflect the slice.
    assert_eq!(x.data(), &[4, 5, 6, 7, 8, 9]);
    assert_eq!(x.data_mut(), &[4, 5, 6, 7, 8, 9]);

    // Offsets should be relative to the sliced returned by `data`,
    // `data_mut`.
    assert_eq!(x.offsets(), &[0, 1, 2, 3, 4, 5]);
    assert_eq!(x.layout().offset(&[0, 0]), 0);
}

#[test]
fn test_from_scalar() {
    let x = Tensor::from_scalar(5);
    assert_eq!(x.shape().len(), 0);
    assert_eq!(x.data(), &[5]);
}

#[test]
fn test_from_vec() {
    let x = Tensor::from_vec(vec![1, 2, 3]);
    assert_eq!(x.shape(), &[3]);
    assert_eq!(x.data(), &[1, 2, 3]);
}

#[test]
fn test_stride() {
    let x = Tensor::<f32>::zeros(&[2, 5, 7, 3]);
    assert_eq!(x.stride(3), 1);
    assert_eq!(x.stride(2), 3);
    assert_eq!(x.stride(1), 7 * 3);
    assert_eq!(x.stride(0), 5 * 7 * 3);
}

#[test]
fn test_strides() {
    let x = Tensor::<f32>::zeros(&[2, 5, 7, 3]);
    assert_eq!(x.strides(), [5 * 7 * 3, 7 * 3, 3, 1]);
}

#[test]
fn test_index() {
    let mut x = Tensor::<f32>::zeros(&[2, 2]);

    x.data_mut()[0] = 1.0;
    x.data_mut()[1] = 2.0;
    x.data_mut()[2] = 3.0;
    x.data_mut()[3] = 4.0;

    // Index with fixed-sized array.
    assert_eq!(*x.index([0, 0]), 1.0);
    assert_eq!(*x.index([0, 1]), 2.0);
    assert_eq!(*x.index([1, 0]), 3.0);
    assert_eq!(*x.index([1, 1]), 4.0);

    // Index with slice.
    assert_eq!(*x.index([0, 0].as_slice()), 1.0);
    assert_eq!(*x.index([0, 1].as_slice()), 2.0);
    assert_eq!(*x.index([1, 0].as_slice()), 3.0);
    assert_eq!(*x.index([1, 1].as_slice()), 4.0);
}

#[test]
fn test_index_scalar() {
    let x = Tensor::from_scalar(5.0);
    assert_eq!(*x.index([]), 5.0);
}

#[test]
fn test_index_mut() {
    let mut x = Tensor::<f32>::zeros(&[2, 2]);

    *x.index_mut([0, 0]) = 1.0;
    *x.index_mut([0, 1]) = 2.0;
    *x.index_mut([1, 0]) = 3.0;
    *x.index_mut([1, 1]) = 4.0;

    assert_eq!(x.data()[0], 1.0);
    assert_eq!(x.data()[1], 2.0);
    assert_eq!(x.data()[2], 3.0);
    assert_eq!(x.data()[3], 4.0);
}

#[test]
fn test_item() {
    let scalar = Tensor::from_scalar(5.0);
    assert_eq!(scalar.item(), Some(&5.0));

    let vec_one_item = Tensor::from_vec(vec![5.0]);
    assert_eq!(vec_one_item.item(), Some(&5.0));

    let vec_many_items = Tensor::from_vec(vec![1.0, 2.0]);
    assert_eq!(vec_many_items.item(), None);

    let matrix_one_item = Tensor::from_data(&[1, 1], vec![5.0]);
    assert_eq!(matrix_one_item.item(), Some(&5.0));
}

#[test]
fn test_ndim() {
    let scalar = Tensor::from_scalar(5.0);
    let vec = Tensor::from_vec(vec![5.0]);
    let matrix = Tensor::from_data(&[1, 1], vec![5.0]);

    assert_eq!(scalar.ndim(), 0);
    assert_eq!(vec.ndim(), 1);
    assert_eq!(matrix.ndim(), 2);
}

#[test]
fn test_len() {
    let scalar = Tensor::from_scalar(5);
    let vec = Tensor::from_vec(vec![1, 2, 3]);
    let matrix = Tensor::from_data(&[2, 2], vec![1, 2, 3, 4]);

    assert_eq!(scalar.len(), 1);
    assert_eq!(vec.len(), 3);
    assert_eq!(matrix.len(), 4);
}

#[test]
fn test_is_empty() {
    assert!(Tensor::<f32>::from_vec(vec![]).is_empty());
    assert!(!Tensor::from_vec(vec![1]).is_empty());
    assert!(!Tensor::from_scalar(5.0).is_empty());
}

#[test]
fn test_reshape() {
    let mut rng = XorShiftRng::new(1234);
    let mut x = Tensor::rand(&[10, 5, 3, 7], &mut rng);
    let x_data: Vec<f32> = x.data().into();

    assert_eq!(x.shape(), &[10, 5, 3, 7]);

    x.reshape(&[10, 5, 3 * 7]);

    assert_eq!(x.shape(), &[10, 5, 3 * 7]);
    assert_eq!(x.data(), x_data);
}

#[test]
fn test_reshape_copies_with_custom_strides() {
    let mut rng = XorShiftRng::new(1234);
    let mut x = Tensor::rand(&[10, 10], &mut rng);

    // Give the tensor a non-default stride
    x.clip_dim(1, 0..8);
    assert!(!x.is_contiguous());
    let x_elements = x.to_vec();

    x.reshape(&[80]);

    // Since the tensor had a non-default stride, `reshape` will have copied
    // data.
    assert_eq!(x.shape(), &[80]);
    assert!(x.is_contiguous());
    assert_eq!(x.data(), x_elements);
}

#[test]
fn test_insert_dim() {
    let mut input = steps(&[2, 3]);
    input.insert_dim(1);
    assert_eq!(input.shape(), &[2, 1, 3]);

    input.insert_dim(1);
    assert_eq!(input.shape(), &[2, 1, 1, 3]);

    input.insert_dim(0);
    assert_eq!(input.shape(), &[1, 2, 1, 1, 3]);
}

#[test]
fn test_clone_with_shape() {
    let mut rng = XorShiftRng::new(1234);
    let x = Tensor::rand(&[10, 5, 3, 7], &mut rng);
    let y = x.clone_with_shape(&[10, 5, 3 * 7]);

    assert_eq!(y.shape(), &[10, 5, 3 * 7]);
    assert_eq!(y.data(), x.data());
}

#[test]
fn test_iter_for_contiguous_array() {
    for dims in 1..7 {
        let mut shape = Vec::new();
        for d in 0..dims {
            shape.push(d + 1);
        }
        let mut rng = XorShiftRng::new(1234);
        let x = Tensor::rand(&shape, &mut rng);

        let elts: Vec<f32> = x.iter();

        assert_eq!(x.data(), elts);
    }
}

#[test]
fn test_iter_for_empty_array() {
    let empty = Tensor::<f32>::zeros(&[3, 0, 5]);
    assert!(empty.iter().is_empty());
}

#[test]
fn test_iter_for_non_contiguous_array() {
    let mut x = Tensor::<usize>::zeros(&[3, 3]);
    for (index, elt) in x.data_mut().iter_mut().enumerate() {
        *elt = index + 1;
    }

    // Initially tensor is contiguous, so data buffer and element sequence
    // match.
    assert_eq!(x.data(), x.iter());

    // Slice the tensor along an outer dimension. This will leave the tensor
    // contiguous, and hence `data` and `elements` should return the same
    // elements.
    x.clip_dim(0, 0..2);
    assert_eq!(x.data(), &[1, 2, 3, 4, 5, 6]);
    assert_eq!(x.iter(), &[1, 2, 3, 4, 5, 6]);
    assert_eq!(x.iter().into_iter().step_by(2).collect::<Vec<_>>(), &[1, 3, 5]);

    // Slice the tensor along an inner dimension. The tensor will no longer
    // be contiguous and hence `elements` will return different results than
    // `data`.
    x.clip_dim(1, 0..2);
    assert_eq!(x.data(), &[1, 2, 3, 4, 5]);
    assert_eq!(x.iter(), &[1, 2, 4, 5]);
    assert_eq!(x.iter().into_iter().step_by(2).collect::<Vec<_>>(), &[1, 4]);
}

#[test]
fn test_iter_for_scalar() {
    let x = Tensor::from_scalar(5.0);
    let elements = x.iter();
    assert_eq!(&elements, &[5.0]);
}

#[test]
fn test_to_vec() {
    let mut x = steps(&[3, 3]);

    // Contiguous case.
    assert_eq!(x.to_vec(), x.iter());

    // Non-contiguous case.
    x.clip_dim(1, 0..2);
    assert!(!x.is_contiguous());
    assert_eq!(x.to_vec(), x.iter());
}

#[test]
fn test_offsets() {
    let mut rng = XorShiftRng::new(1234);
    let mut x = Tensor::rand(&[10, 10], &mut rng);

    let x_elts: Vec<_> = x.to_vec();

    let x_offsets = x.offsets();
    let x_data = x.data_mut();
    let x_elts_from_offset: Vec<_> = x_offsets.into_iter().map(|off| x_data[off]).collect();

    assert_eq!(x_elts, x_elts_from_offset);
}

#[test]
fn test_offsets_nth() {
    let x = steps(&[3]);
    let mut iter = x.offsets().into_iter();
    assert_eq!(iter.nth(0), Some(0));
    assert_eq!(iter.nth(0), Some(1));
    assert_eq!(iter.nth(0), Some(2));
    assert_eq!(iter.nth(0), None);

    let x = steps(&[10]);
    let mut iter = x.offsets().into_iter();
    assert_eq!(iter.nth(1), Some(1));
    assert_eq!(iter.nth(5), Some(7));
    assert_eq!(iter.nth(1), Some(9));
    assert_eq!(iter.nth(0), None);
}

#[test]
fn test_from_data() {
    let scalar = Tensor::from_data(&[], vec![1.0]);
    assert_eq!(scalar.len(), 1);

    let matrix = Tensor::from_data(&[2, 2], vec![1, 2, 3, 4]);
    assert_eq!(matrix.shape(), &[2, 2]);
    assert_eq!(matrix.data(), &[1, 2, 3, 4]);
}

#[test]
fn test_is_contiguous() {
    let mut x = Tensor::<usize>::zeros(&[3, 3]);
    for (index, elt) in x.data_mut().iter_mut().enumerate() {
        *elt = index + 1;
    }

    // Freshly-allocated tensor
    assert!(x.is_contiguous());

    // Tensor where outermost dimension has been clipped at the end.
    let mut y = x.clone();
    y.clip_dim(0, 0..2);
    assert!(y.is_contiguous());
    assert_eq!(y.data(), &[1, 2, 3, 4, 5, 6]);

    // Tensor where outermost dimension has been clipped at the start.
    let mut y = x.clone();
    y.clip_dim(0, 1..3);
    assert!(y.is_contiguous());
    assert_eq!(y.data(), &[4, 5, 6, 7, 8, 9]);

    // Tensor where inner dimension has been clipped at the start.
    let mut y = x.clone();
    y.clip_dim(1, 1..3);
    assert!(!y.is_contiguous());

    // Tensor where inner dimension has been clipped at the end.
    let mut y = x.clone();
    y.clip_dim(1, 0..2);
    assert!(!y.is_contiguous());
}

#[test]
fn test_is_contiguous_1d() {
    let mut x = Tensor::<usize>::zeros(&[10]);
    for (index, elt) in x.data_mut().iter_mut().enumerate() {
        *elt = index + 1;
    }

    assert!(x.is_contiguous());
    x.clip_dim(0, 0..5);
    assert!(x.is_contiguous());
}

#[test]
fn test_make_contiguous() {
    let mut x = steps(&[3, 3]);
    assert!(x.is_contiguous());

    // Clip outer dimension at start. This will modify the base offset.
    x.clip_dim(0, 1..3);

    // Clip inner dimension at start. This will modify the strides.
    x.clip_dim(1, 1..3);
    assert!(!x.is_contiguous());

    x.make_contiguous();
    assert!(x.is_contiguous());
    assert_eq!(x.to_vec(), &[5, 6, 8, 9]);
}

#[test]
fn test_broadcast_iter() {
    let x = steps(&[1, 2, 1, 2]);
    assert_eq!(x.to_vec(), &[1, 2, 3, 4]);

    // Broadcast a 1-size dimension to size 2
    let bx = x.broadcast_iter(&[2, 2, 1, 2]);
    assert_eq!(bx, &[1, 2, 3, 4, 1, 2, 3, 4]);

    // Broadcast a different 1-size dimension to size 2
    let bx = x.broadcast_iter(&[1, 2, 2, 2]);
    assert_eq!(bx, &[1, 2, 1, 2, 3, 4, 3, 4]);

    // Broadcast to a larger number of dimensions
    let x = steps(&[5]);
    let bx = x.broadcast_iter(&[1, 5]);
    assert_eq!(bx, &[1, 2, 3, 4, 5]);
}

#[test]
fn test_broadcast_iter_with_scalar() {
    let scalar = Tensor::from_scalar(7);
    let bx = scalar.broadcast_iter(&[3, 3]);
    assert_eq!(bx, &[7, 7, 7, 7, 7, 7, 7, 7, 7]);
}

#[test]
fn test_broadcast_offsets() {
    let x = steps(&[2, 1, 4]);
    let to_shape = &[2, 2, 1, 4];

    let expected: Vec<i32> = x.broadcast_iter(to_shape);
    let actual: Vec<i32> = x
        .broadcast_offsets(to_shape)
        .into_iter()
        .map(|off| x.data()[off])
        .collect();

    assert_eq!(&actual, &expected);
}

#[test]
fn test_can_broadcast_to() {
    let x = steps(&[1, 5, 10]);
    assert!(x.can_broadcast_to(&[2, 5, 10]));
    assert!(x.can_broadcast_to(&[1, 5, 10]));
    assert!(!x.can_broadcast_to(&[1, 1, 10]));
}

#[test]
fn test_map() {
    // Contiguous tensor.
    let x = steps(&[2, 3]).map(|val| val * 2);
    assert_eq!(x.to_vec(), &[2, 4, 6, 8, 10, 12]);

    // Non-contiguous view.
    let x = steps(&[2, 3]);
    let x = x.transposed();
    assert!(!x.is_contiguous());
    assert_eq!(x.to_vec(), &[1, 4, 2, 5, 3, 6]);
    let x = x.map(|val| val * 2);
    assert_eq!(x.to_vec(), &[2, 8, 4, 10, 6, 12]);
}

#[test]
fn test_move_axis() {
    let mut x = steps(&[2, 3]);
    x.move_axis(1, 0);
    assert_eq!(x.shape(), [3, 2]);
}

#[test]
fn test_reshape_non_contiguous() {
    let mut rng = XorShiftRng::new(1234);
    let mut x = Tensor::rand(&[10, 10], &mut rng);

    // Set the input up so that it is non-contiguous and has a non-zero
    // `base` offset.
    x.permute(&[1, 0]);
    x.clip_dim(0, 2..8);

    // Reshape the tensor. This should copy the data and reset the `base`
    // offset.
    x.reshape(&[x.shape().iter().product()]);

    // After reshaping, we should be able to successfully read all the elements.
    // Note this test doesn't check that the correct elements were read.
    let elts: Vec<_> = x.iter();
    assert_eq!(elts.len(), 60);

    // Set up another input so it is non-contiguous and has a non-zero `base` offset.
    let mut x = steps(&[3, 3]);
    x.clip_dim(0, 1..3);
    x.clip_dim(1, 1..3);

    // Flatten the input with reshape.
    x.reshape(&[4]);

    // Check that the correct elements were read.
    assert_eq!(x.to_vec(), &[5, 6, 8, 9]);
}

#[test]
fn test_permute() {
    // Test with a vector (this is a no-op)
    let mut input = steps(&[5]);
    assert!(input.iter().iter().eq([1, 2, 3, 4, 5].iter()));
    input.permute(&[0]);
    assert!(input.iter().iter().eq([1, 2, 3, 4, 5].iter()));

    // Test with a matrix (ie. transpose the matrix)
    let mut input = steps(&[2, 3]);
    assert!(input.iter().iter().eq([1, 2, 3, 4, 5, 6].iter()));
    input.permute(&[1, 0]);
    assert_eq!(input.shape(), &[3, 2]);
    assert!(input.iter().iter().eq([1, 4, 2, 5, 3, 6].iter()));

    // Test with a higher-rank tensor. For this test we don't list out the
    // full permuted element sequence, but just check the shape and strides
    // were updated.
    let mut input = steps(&[3, 4, 5]);
    let (stride_0, stride_1, stride_2) = (input.stride(0), input.stride(1), input.stride(2));
    input.permute(&[2, 0, 1]);
    assert_eq!(input.shape(), &[5, 3, 4]);
    assert_eq!(
        (input.stride(0), input.stride(1), input.stride(2)),
        (stride_2, stride_0, stride_1)
    );
}

#[test]
fn test_transpose() {
    // Test with a vector (this is a no-op)
    let mut input = steps(&[5]);
    input.transpose();
    assert_eq!(input.shape(), &[5]);

    // Test with a matrix
    let mut input = steps(&[2, 3]);
    assert!(input.iter().iter().eq([1, 2, 3, 4, 5, 6].iter()));
    input.transpose();
    assert_eq!(input.shape(), &[3, 2]);
    assert!(input.iter().iter().eq([1, 4, 2, 5, 3, 6].iter()));

    // Test with a higher-rank tensor
    let mut input = steps(&[1, 3, 7]);
    input.transpose();
    assert_eq!(input.shape(), [7, 3, 1]);
}

#[test]
fn move_axis_to_the_end() {
    let mut x = steps(&[2, 3, 4]);
    x.move_axis(0, 2);
    assert_eq!(x.shape(), &[3, 4, 2]);
    assert_eq!(x.strides(), &[4, 1, 12]);
    assert_eq!(*x.index([1, 2, 1]), *steps(&[2, 3, 4]).index([1, 1, 2]));
}

#[test]
fn insert_dim_keeps_contiguity_and_elements() {
    let mut x = steps(&[2, 3]);
    x.insert_dim(2);
    assert_eq!(x.shape(), &[2, 3, 1]);
    assert!(x.is_contiguous());
    assert_eq!(x.to_vec(), &[1, 2, 3, 4, 5, 6]);
}

#[test]
fn clip_dim_to_empty_range() {
    let mut x = steps(&[3, 3]);
    x.clip_dim(1, 3..3);
    assert_eq!(x.shape(), &[3, 0]);
    assert!(x.is_empty());
    assert!(x.to_vec().is_empty());
}

#[test]
fn reshape_after_clip_keeps_logical_order() {
    let mut x = steps(&[3, 3]);
    x.clip_dim(0, 1..3);
    x.clip_dim(1, 1..3);
    x.reshape(&[4]);
    assert_eq!(x.to_vec(), &[5, 6, 8, 9]);
}

#[test]
fn to_contiguous_copies_clipped_view() {
    let mut x = steps(&[3, 3]);
    x.clip_dim(1, 0..2);
    let y = x.to_contiguous();
    assert!(y.is_contiguous());
    assert_eq!(y.shape(), &[3, 2]);
    assert_eq!(y.data(), &[1, 2, 4, 5, 7, 8]);
}

#[test]
fn test_can_broadcast_with() {
    let x = steps(&[1, 5, 10]);
    assert!(x.can_broadcast_with(&[2, 5, 10]));
    assert!(x.can_broadcast_with(&[1, 5, 10]));
    assert!(x.can_broadcast_with(&[1, 1, 10]));
}

#[test]
fn cannot_broadcast_with_mismatched_sizes() {
    let x = steps(&[2, 3]);
    assert!(!x.can_broadcast_with(&[4, 3]));
    assert!(x.can_broadcast_with(&[7, 1, 3]));
    assert!(!x.can_broadcast_to(&[3]));
}

#[test]
fn to_owned_of_transposed_is_contiguous() {
    let x = steps(&[2, 3]).transposed();
    let y = x.to_owned();
    assert!(y.is_contiguous());
    assert_eq!(y.shape(), &[3, 2]);
    assert_eq!(y.data(), &[1, 4, 2, 5, 3, 6]);
}

#[test]
fn into_data_returns_buffer() {
    let mut x = steps(&[2, 2]);
    x.data_mut()[3] = 40;
    assert_eq!(x.into_data(), vec![1, 2, 3, 40]);
}

#[test]
fn item_of_clipped_single_element() {
    let mut x = steps(&[3, 3]);
    x.clip_dim(0, 2..3);
    x.clip_dim(1, 1..2);
    assert_eq!(x.item(), Some(&8));
}

#[test]
fn test_squeezed() {
    let mut rng = XorShiftRng::new(1234);
    let x = Tensor::rand(&[1, 1, 10, 20], &mut rng);
    let y = x.squeezed();
    assert_eq!(y.data(), x.data());
    assert_eq!(y.shape(), &[10, 20]);
    assert_eq!(y.stride(0), 20);
    assert_eq!(y.stride(1), 1);
}

#[test]
fn squeezed_keeps_logical_order_of_strided_tensor() {
    let x = steps(&[2, 1, 3]).transposed();
    let y = x.squeezed();
    assert_eq!(y.shape(), &[3, 2]);
    assert_eq!(y.to_vec(), x.to_vec());
}

#[test]
fn axis_iter_slices_along_each_dimension() {
    let x = steps(&[2, 3, 4]);

    // First dimension.
    let views = x.axis_iter(0);
    assert_eq!(views.len(), 2);
    assert_eq!(views[0].shape(), &[3, 4]);
    assert_eq!(views[0].to_vec(), (1..=12).collect::<Vec<i32>>());
    assert_eq!(views[1].to_vec(), (13..=24).collect::<Vec<i32>>());

    // Second dimension.
    let views = x.axis_iter(1);
    assert_eq!(views.len(), 3);
    assert_eq!(views[0].shape(), &[2, 4]);
    assert_eq!(views[0].to_vec(), &[1, 2, 3, 4, 13, 14, 15, 16]);
    assert_eq!(views[1].to_vec(), &[5, 6, 7, 8, 17, 18, 19, 20]);

    // Last dimension.
    let views = x.axis_iter(2);
    assert_eq!(views.len(), 4);
    assert_eq!(views[3].to_vec(), &[4, 8, 12, 16, 20, 24]);
}

#[test]
fn remove_unit_dim_keeps_elements() {
    let mut x = steps(&[2, 1, 3]);
    x.remove_dim(1);
    assert_eq!(x.shape(), &[2, 3]);
    assert_eq!(x.to_vec(), &[1, 2, 3, 4, 5, 6]);
}

#[test]
fn test_to_contiguous() {
    let x = steps(&[3, 3]);
    let y = x.to_contiguous();
    assert!(y.is_contiguous());
    assert_eq!(y.data(), x.data());

    let x = x.permuted(&[1, 0]);
    let y = x.to_contiguous();
    assert!(y.is_contiguous());
    assert_eq!(y.data(), x.to_vec());
}

#[test]
fn test_axis_iter() {
    let x = steps(&[2, 3, 4]);

    // First dimension: the slices `x[0]` and `x[1]`.
    let views = x.axis_iter(0);
    assert_eq!(views.len(), 2);
    assert_eq!(views[0].shape(), &[3, 4]);
    assert_eq!(views[0].to_vec(), (1..=12).collect::<Vec<i32>>());
    assert_eq!(views[1].shape(), &[3, 4]);
    assert_eq!(views[1].to_vec(), (13..=24).collect::<Vec<i32>>());

    // Second dimension: the slices `x[.., 0]` and `x[.., 1]`.
    let views = x.axis_iter(1);
    assert_eq!(views.len(), 3);
    assert_eq!(views[0].shape(), &[2, 4]);
    assert_eq!(views[0].to_vec(), &[1, 2, 3, 4, 13, 14, 15, 16]);
    assert_eq!(views[1].shape(), &[2, 4]);
    assert_eq!(views[1].to_vec(), &[5, 6, 7, 8, 17, 18, 19, 20]);
}

#[test]
fn insert_dim_and_permute_keep_buffer() {
    let mut x = steps(&[2, 3]);
    x.insert_dim(1);
    x.permute(&[2, 1, 0]);
    x.transpose();
    assert_eq!(x.into_data(), (1..=6).collect::<Vec<i32>>());
}

#[test]
fn make_contiguous_keeps_contiguous_buffer() {
    let mut x = steps(&[2, 3]);
    x.make_contiguous();
    assert_eq!(x.data(), &[1, 2, 3, 4, 5, 6]);
}
