use analytic::tensor::ephemeral_view::{EphemeralView, ToEphemeralView};
use analytic::tensor::indexable_tensor::IndexableTensor;
use analytic::tensor::matrix::{IndexableMatrix, Matrix};
use analytic::tensor::matrix_transpose::MatrixTranspose;
use analytic::tensor::tensor_shape::{HasTensorShape, TensorShape};
use analytic::tensor::tensor_storage::IntoTensorStorage;
use analytic::traits::ToIterator;

#[test]
fn test_as_shape() {
    let data = vec![1, 2, 3, 4].into_tensor_storage();
    let view1 = data.as_shape(TensorShape::from_dims(&vec![2, 2]));
    assert_eq!(view1.shape, TensorShape { dims_strides: vec![(2, 2), (2, 1)] });

    let view2 = data.as_shape(TensorShape { dims_strides: vec![(2, 2), (2, 1)] });
    assert_eq!(view1, view2);
    assert_eq!(view1.shape.dims(), vec![2, 2]);
    assert_eq!(view1.shape.strides(), vec![2, 1]);
    assert_eq!(view1.shape.ndim(), 2);
    assert_eq!(view2.shape.dims(), vec![2, 2]);
    assert_eq!(view2.shape.strides(), vec![2, 1]);
    assert_eq!(view2.shape.ndim(), 2);
}

#[test]
fn test_indexing() {
    let storage = vec![1, 2, 3, 4, 5, 6].into_tensor_storage();
    let view = storage.as_shape(TensorShape::from_dims(&vec![2, 3]));
    assert_eq!(view.at(&vec![0, 0]), 1);
    assert_eq!(view.at(&vec![0, 1]), 2);
    assert_eq!(view.at(&vec![0, 2]), 3);

    assert_eq!(view.at(&vec![1, 0]), 4);

    let coord = vec![1, 1];
    assert_eq!(view.at(&coord), 5);

    let coord = vec![1, 2];
    assert_eq!(view.at(&coord), 6);
}

#[test]
fn test_matmul() {
    let a = Matrix::from_vec(vec![1, 2, 3, 4], 2, 2);
    let b = Matrix::from_vec(vec![1, 2, 3, 4], 2, 2);
    let c = a.matmul(&b);
    assert_eq!(c.storage.vec, vec![7, 10, 15, 22]);

    let d = Matrix::from_vec(vec![1, 1], 2, 1);
    let e = a.matmul(&d);
    assert_eq!(e.storage.vec, vec![3, 7]);

    let a = Matrix::from_vec(vec![1, 2, 3, 4], 2, 2);
    let res = a.t().matmul(&a);
    assert_eq!(res, Matrix::from_vec(vec![10, 14, 14, 20], 2, 2));
}

#[test]
fn test_print_matrix() {
    fn get_display_string(vec: Vec<i64>, num_rows: i64, num_columns: i64) -> String {
        let m = Matrix::from_vec(vec, num_rows, num_columns);
        m.to_display_string(num_rows, num_columns)
    }

    assert_eq!(get_display_string(vec![1, 2, 3, 4], 2, 2), "[[1, 2]\n[3, 4]]");
    assert_eq!(get_display_string(vec![1, 2], 2, 1), "[[1]\n[2]]");
    assert_eq!(get_display_string(vec![1, 2], 1, 2), "[[1, 2]]");
    assert_eq!(get_display_string(vec![], 0, 0), "[]");
    assert_eq!(get_display_string(vec![-1, 0, 25, -307], 2, 2), "[[-1, 0]\n[25, -307]]");
    assert_eq!(
        get_display_string(vec![1, 2, 3, 4, 5, 6, 7, 8, 9, 10, 11, 12], 3, 4),
        "[[1, 2, 3, 4]\n[5, 6, 7, 8]\n[9, 10, 11, 12]]"
    );
}

#[test]
fn test_transpose() {
    {
        let storage = vec![1, 2, 3, 4, 5, 6].into_tensor_storage();
        let arr = EphemeralView::new(&storage, TensorShape::from_dims(&vec![2, 3]));
        let arr_t = arr.t();
        assert_eq!(arr_t.shape().dims(), vec![3, 2]);
        assert_eq!(arr_t.shape().strides(), vec![1, 3]);
        assert_eq!(arr_t.shape().ndim(), 2);
    }
    {
        // the original stride is (12, 3, 1)
        let storage = (0..24).into_iter().collect::<Vec<i64>>().into_tensor_storage();
        let arr = EphemeralView::new(&storage, TensorShape::from_dims(&vec![2, 4, 3]));
        let arr_t = arr.t();
        assert_eq!(arr_t.shape().dims(), vec![3, 4, 2]);
        assert_eq!(arr_t.shape().strides(), vec![1, 3, 12]);
        assert_eq!(arr_t.shape().ndim(), 3);

        let arr_t01 = arr.transpose(vec![1, 0, 2]);
        assert_eq!(arr_t01.shape().dims(), vec![4, 2, 3]);
        assert_eq!(arr_t01.shape().strides(), vec![3, 12, 1]);
        assert_eq!(arr_t01.shape().ndim(), 3);
    }
    {
        // the original stride is (60, 15, 5, 1)
        let storage = (0..120).into_iter().collect::<Vec<i64>>().into_tensor_storage();

        let arr = EphemeralView::new(&storage, TensorShape::from_dims(&vec![2, 4, 3, 5]));
        let arr_t = arr.transpose(vec![1, 3, 0, 2]);
        assert_eq!(arr_t.shape().dims(), vec![4, 5, 2, 3]);
        assert_eq!(arr_t.shape().strides(), vec![15, 1, 60, 5]);
        assert_eq!(arr_t.shape().ndim(), 4);
    }
}

#[test]
fn test_tensor_iter() {
    let matrix = Matrix::from_vec(vec![1, 2, 3, 4, 5, 6, 7, 8, 9, 10, 11, 12], 3, 4);
    let view = EphemeralView::new(
        &matrix.storage,
        TensorShape { dims_strides: matrix.shape.dims_strides.clone() },
    );

    let mut it = view.to_iter();
    let mut i: i64 = 0;
    while let Some(val) = it.next() {
        assert_eq!(val, i + 1);
        i += 1;
    }
    assert_eq!(i, 12);

    {
        let transposed = view.t();
        let mut it = transposed.to_iter();
        for expected in vec![1, 5, 9, 2, 6, 10, 3, 7, 11, 4, 8, 12] {
            assert_eq!(it.next(), Some(expected));
        }
        assert_eq!(it.next(), None);
    }

    let t2 = (0..24).into_iter().collect::<Vec<i64>>().into_tensor_storage();
    let t2_view = t2.as_shape(TensorShape::from_dims(&vec![4, 3, 2]));

    // the transposed view has shape [3, 4, 2]
    let t2_102 = t2_view.transpose(vec![1, 0, 2]);
    let mut it = t2_102.to_iter();
    for expected in vec![
        0, 1, 6, 7, 12, 13, 18, 19, 2, 3, 8, 9, 14, 15, 20, 21, 4, 5, 10, 11, 16, 17, 22, 23,
    ] {
        assert_eq!(it.next(), Some(expected));
    }
    assert_eq!(it.next(), None);
}

#[test]
fn test_tensor_shape() {
    {
        let shape = TensorShape::from_dims(&vec![2, 4, 3]);
        assert_eq!(shape.dims(), vec![2, 4, 3]);
        assert_eq!(shape.strides(), vec![12, 3, 1]);
        assert_eq!(shape.ndim(), 3);
    }
    {
        let empty_shape = TensorShape::from_dims(&vec![]);
        assert_eq!(empty_shape.dims(), vec![]);
        assert_eq!(empty_shape.strides(), vec![]);
        assert_eq!(empty_shape.ndim(), 0);
    }
}

#[test]
fn test_tensor_shape_from_trait() {
    fn check_from_dims(dims: Vec<i64>) {
        let tensor_shape = TensorShape::from_dims(&dims);
        assert_eq!(tensor_shape.dims_strides, vec![(3, 10), (2, 5), (5, 1)]);
    }
    check_from_dims(vec![3, 2, 5]);
    check_from_dims(vec![3, 2, 5]);
    check_from_dims(vec![3, 2, 5]);
    check_from_dims(vec![3, 2, 5]);
    check_from_dims(vec![3, 2, 5]);
    check_from_dims(vec![3, 2, 5]);
}

#[test]
fn test_to_ephemeral_view() {
    {
        let storage = vec![1, 2, 3, 4, 5, 6].into_tensor_storage();
        let view = storage.as_shape(TensorShape::from_dims(&vec![2, 3]));
        let shape = view.shape();
        assert_eq!(shape.dims(), vec![2, 3]);
        assert_eq!(shape.strides(), vec![3, 1]);
        assert_eq!(shape.ndim(), 2);

        assert_eq!(view.at(&vec![0, 0]), 1);
        assert_eq!(view.at(&vec![0, 2]), 3);
        assert_eq!(view.at(&vec![1, 2]), 6);
    }
    {
        let storage = (0..24).into_iter().collect::<Vec<i64>>().into_tensor_storage();
        let view = storage.as_shape(TensorShape::from_dims(&vec![2, 3, 4]));
        let shape = view.shape();
        assert_eq!(shape.dims(), vec![2, 3, 4]);
        assert_eq!(shape.strides(), vec![12, 4, 1]);
        assert_eq!(shape.ndim(), 3);

        assert_eq!(view.at(&vec![0, 0, 0]), 0);
        assert_eq!(view.at(&vec![0, 0, 1]), 1);
        assert_eq!(view.at(&vec![0, 0, 2]), 2);
        assert_eq!(view.at(&vec![0, 0, 3]), 3);
        assert_eq!(view.at(&vec![0, 1, 0]), 4);
        assert_eq!(view.at(&vec![0, 1, 1]), 5);
        assert_eq!(view.at(&vec![0, 1, 2]), 6);
        assert_eq!(view.at(&vec![0, 1, 3]), 7);
        assert_eq!(view.at(&vec![0, 2, 3]), 11);

        assert_eq!(view.at(&vec![1, 0, 0]), 12);
        assert_eq!(view.at(&vec![1, 0, 1]), 13);
        assert_eq!(view.at(&vec![1, 0, 2]), 14);
        assert_eq!(view.at(&vec![1, 0, 3]), 15);
        assert_eq!(view.at(&vec![1, 1, 0]), 16);
        assert_eq!(view.at(&vec![1, 1, 1]), 17);
        assert_eq!(view.at(&vec![1, 1, 2]), 18);
        assert_eq!(view.at(&vec![1, 1, 3]), 19);
        assert_eq!(view.at(&vec![1, 2, 3]), 23);
    }
    {
        let storage = (0..30).into_iter().collect::<Vec<i64>>().into_tensor_storage();
        let view = storage.as_shape(TensorShape::from_dims(&vec![2, 3, 5]));
        let shape = view.shape();
        assert_eq!(shape.dims(), vec![2, 3, 5]);
        assert_eq!(shape.strides(), vec![15, 5, 1]);
        assert_eq!(shape.ndim(), 3);
    }
}
