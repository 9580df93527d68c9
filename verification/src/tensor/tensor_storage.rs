//! An N-dimensional tensor storage.

use crate::tensor::ephemeral_view::{EphemeralView, ToEphemeralView};
use crate::tensor::tensor_shape::{dims_product, num_elements_spec, TensorShape};
use vstd::prelude::*;

verus! {

#[derive(Clone, Debug, PartialEq, Eq)]
pub struct TensorStorage<Dtype> {
    pub vec: Vec<Dtype>,
}

pub trait HasTensorData<Dtype> {
    /// The storage as a mathematical value.
    spec fn data_spec(&self) -> TensorStorage<Dtype>;

    fn data(&self) -> (r: &TensorStorage<Dtype>)
        ensures
            *r == self.data_spec(),
    ;
}

pub trait IntoTensorStorage<Dtype> where Self: Sized {
    /// The storage the conversion produces.
    spec fn storage_spec(self) -> TensorStorage<Dtype>;

    fn into_tensor_storage(self) -> (r: TensorStorage<Dtype>)
        ensures
            r == self.storage_spec(),
    ;
}

impl<Dtype> IntoTensorStorage<Dtype> for Vec<Dtype> {
    open spec fn storage_spec(self) -> TensorStorage<Dtype> {
        TensorStorage { vec: self }
    }

    fn into_tensor_storage(self) -> (r: TensorStorage<Dtype>) {
        TensorStorage { vec: self }
    }
}

impl<'a, Dtype> ToEphemeralView<'a, Dtype> for TensorStorage<Dtype> {
    open spec fn as_shape_data(&self) -> TensorStorage<Dtype> {
        *self
    }

    open spec fn as_shape_req(&self, shape: TensorShape) -> bool {
        &&& forall|i: int|
            0 <= i < shape.dims_strides@.len() ==> 0 <= (#[trigger] shape.dims_strides@[i]).0
                <= usize::MAX
        &&& forall|k: int|
            0 <= k <= shape.dims_strides@.len() ==> dims_product(
                #[trigger] shape.dims_strides@.subrange(0, k),
            ) <= usize::MAX
        &&& num_elements_spec(shape.dims_strides@) == self.vec@.len()
    }

    fn as_shape(&'a self, shape: TensorShape) -> (r: EphemeralView<'a, Dtype>) {
        let target_elements = shape.num_elements();
        EphemeralView { shape, data: self }
    }
}

} // verus!
