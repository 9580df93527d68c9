use crate::tensor::tensor_shape::TensorShape;
use crate::tensor::tensor_storage::TensorStorage;
use vstd::prelude::*;

verus! {

/// A tensor type whose values borrow their data from a storage.
pub trait BorrowTensor<'a, Dtype> {
    type Output;

    /// What `create_borrowed_tensor` is allowed to return.
    spec fn create_borrowed_post(
        shape: TensorShape,
        data: &'a TensorStorage<Dtype>,
        r: Self::Output,
    ) -> bool;

    fn create_borrowed_tensor(shape: TensorShape, data: &'a TensorStorage<Dtype>) -> (r:
        Self::Output)
        ensures
            Self::create_borrowed_post(shape, data, r),
    ;
}

} // verus!
