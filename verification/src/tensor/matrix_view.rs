use crate::tensor::matrix::MatrixTrait;
use crate::tensor::tensor_shape::{HasTensorShape, TensorShape};
use crate::tensor::tensor_storage::{HasTensorData, TensorStorage};
use vstd::prelude::*;

verus! {

/// A matrix-shaped view borrowing another tensor's storage.
#[derive(Debug, PartialEq, Eq)]
pub struct MatrixView<'a> {
    pub shape: TensorShape,
    pub data: &'a TensorStorage<i64>,
}

impl HasTensorData<i64> for MatrixView<'_> {
    open spec fn data_spec(&self) -> TensorStorage<i64> {
        *self.data
    }

    fn data(&self) -> (r: &TensorStorage<i64>) {
        self.data
    }
}

impl HasTensorShape for MatrixView<'_> {
    open spec fn shape_spec(&self) -> TensorShape {
        self.shape
    }

    fn shape(&self) -> (r: &TensorShape) {
        &self.shape
    }
}

impl MatrixTrait for MatrixView<'_> {
    open spec fn rows_spec(&self) -> int {
        self.shape.dims_strides@[0].0 as int
    }

    open spec fn cols_spec(&self) -> int {
        self.shape.dims_strides@[1].0 as int
    }

    open spec fn matrix_req(&self) -> bool {
        self.shape.dims_strides@.len() == 2
    }

    fn num_rows(&self) -> (r: i64) {
        self.shape.dims_strides[0].0
    }

    fn num_columns(&self) -> (r: i64) {
        self.shape.dims_strides[1].0
    }
}

} // verus!
