use crate::tensor::ephemeral_view::EphemeralView;
use crate::tensor::has_tensor_shape_data::{coord_index_ok, index_of, HasTensorShapeData};
use vstd::prelude::*;

verus! {

pub trait IndexableTensor<Dtype: Copy>: HasTensorShapeData<Dtype> {
    /// The element stored at an N-dimensional coordinate.
    fn at(&self, coord: &Vec<i64>) -> (r: Dtype)
        requires
            coord_index_ok(self.shape_spec().dims_strides@, coord@),
            0 <= index_of(self.shape_spec().dims_strides@, coord@) < self.data_spec().vec@.len(),
        ensures
            r == self.data_spec().vec@[index_of(self.shape_spec().dims_strides@, coord@)],
    ;
}

impl<Dtype: Copy> HasTensorShapeData<Dtype> for EphemeralView<'_, Dtype> {

}

impl<Dtype: Copy> IndexableTensor<Dtype> for EphemeralView<'_, Dtype> {
    fn at(&self, coord: &Vec<i64>) -> (r: Dtype) {
        let idx = self.coord_to_index(coord);
        let total = self.data.vec.len();
        proof {
            assert(0 <= idx < total);
        }
        self.data.vec[idx as usize]
    }
}

} // verus!
