//! A view of referenced tensor data under a particular shape. The underlying
//! data has to outlive the view itself.

use crate::tensor::borrow_tensor::BorrowTensor;
use crate::tensor::tensor_shape::{HasTensorShape, TensorShape};
use crate::tensor::tensor_storage::{HasTensorData, TensorStorage};
use vstd::prelude::*;

verus! {

#[derive(Debug, PartialEq, Eq)]
pub struct EphemeralView<'a, Dtype> {
    pub shape: TensorShape,
    pub data: &'a TensorStorage<Dtype>,
}

/// The implementor can be viewed as a tensor of the given shape; the
/// resulting `EphemeralView` cannot outlive the original data.
pub trait ToEphemeralView<'a, Dtype> where Self: Sized {
    /// When `as_shape` may be called (the shape must address exactly the
    /// stored elements).
    spec fn as_shape_req(&self, shape: TensorShape) -> bool;

    /// The storage the resulting view exposes.
    spec fn as_shape_data(&self) -> TensorStorage<Dtype>;

    fn as_shape(&'a self, shape: TensorShape) -> (r: EphemeralView<'a, Dtype>)
        requires
            self.as_shape_req(shape),
        ensures
            r.shape == shape,
            *r.data == self.as_shape_data(),
    ;
}

impl<'a, Dtype> EphemeralView<'a, Dtype> {
    pub fn new(data: &'a TensorStorage<Dtype>, shape: TensorShape) -> (r: EphemeralView<'a, Dtype>)
        ensures
            r.shape == shape,
            r.data == data,
    {
        EphemeralView { shape, data }
    }
}

impl<Dtype> HasTensorShape for EphemeralView<'_, Dtype> {
    open spec fn shape_spec(&self) -> TensorShape {
        self.shape
    }

    fn shape(&self) -> (r: &TensorShape) {
        &self.shape
    }
}

impl<Dtype> HasTensorData<Dtype> for EphemeralView<'_, Dtype> {
    open spec fn data_spec(&self) -> TensorStorage<Dtype> {
        *self.data
    }

    fn data(&self) -> (r: &TensorStorage<Dtype>) {
        self.data
    }
}

impl<'a, Dtype: 'a> BorrowTensor<'a, Dtype> for EphemeralView<'_, Dtype> {
    type Output = EphemeralView<'a, Dtype>;

    open spec fn create_borrowed_post(
        shape: TensorShape,
        data: &'a TensorStorage<Dtype>,
        r: Self::Output,
    ) -> bool {
        r.shape == shape && r.data == data
    }

    fn create_borrowed_tensor(shape: TensorShape, data: &'a TensorStorage<Dtype>) -> (r:
        Self::Output) {
        EphemeralView::new(data, shape)
    }
}

} // verus!
