use crate::tensor::ephemeral_view::EphemeralView;
use crate::tensor::matrix::Matrix;
use crate::tensor::matrix_view::MatrixView;
use crate::tensor::tensor_shape::TensorShape;
use vstd::prelude::*;

verus! {

/// A tensor whose axes can be reversed or permuted into a borrowing view.
pub trait MatrixTranspose<'a> where Self: Sized {
    type Output;

    /// When the transpositions may be taken.
    spec fn transpose_req(&self) -> bool;

    /// What `t` is allowed to return.
    spec fn t_post(&self, r: Self::Output) -> bool;

    /// What `transpose` is allowed to return.
    spec fn transpose_post(&self, axes: Vec<usize>, r: Self::Output) -> bool;

    /// Reverses the axes.
    fn t(&'a self) -> (r: Self::Output)
        requires
            self.transpose_req(),
        ensures
            self.t_post(r),
    ;

    /// Whether `axes` is a valid permutation of this tensor's axes.
    spec fn transpose_axes_req(&self, axes: Vec<usize>) -> bool;

    /// Permutes the axes: for each `i`, the original `axes[i]`-th axis is at
    /// the `i`-th axis of the result.
    fn transpose(&'a self, axes: Vec<usize>) -> (r: Self::Output)
        requires
            self.transpose_req(),
            self.transpose_axes_req(axes),
        ensures
            self.transpose_post(axes, r),
    ;
}

impl<'a> MatrixTranspose<'a> for Matrix {
    type Output = MatrixView<'a>;

    open spec fn transpose_req(&self) -> bool {
        self.shape.dims_strides@.len() == 2
    }

    open spec fn t_post(&self, r: MatrixView<'a>) -> bool {
        &&& r.shape.dims_strides@.len() == 2
        &&& r.shape.dims_strides@[0] == self.shape.dims_strides@[1]
        &&& r.shape.dims_strides@[1] == self.shape.dims_strides@[0]
        &&& *r.data == self.storage
    }

    open spec fn transpose_axes_req(&self, axes: Vec<usize>) -> bool {
        &&& axes@.len() == 2
        &&& forall|i: int| 0 <= i < axes@.len() ==> (#[trigger] axes@[i]) < 2
        &&& forall|i: int, j: int| 0 <= i < j < axes@.len() ==> axes@[i] != axes@[j]
    }

    open spec fn transpose_post(&self, axes: Vec<usize>, r: MatrixView<'a>) -> bool {
        &&& r.shape.dims_strides@.len() == 2
        &&& forall|i: int|
            0 <= i < 2 ==> #[trigger] r.shape.dims_strides@[i] == self.shape.dims_strides@[axes@[
                i] as int]
        &&& *r.data == self.storage
    }

    fn t(&'a self) -> (r: MatrixView<'a>) {
        let mut axes: Vec<usize> = Vec::new();
        axes.push(1);
        axes.push(0);
        let shape = self.shape.to_transposed(axes);
        MatrixView { shape, data: &self.storage }
    }

    fn transpose(&'a self, axes: Vec<usize>) -> (r: MatrixView<'a>) {
        let shape = self.shape.to_transposed(axes);
        MatrixView { shape, data: &self.storage }
    }
}

impl<'a, Dtype: 'a> MatrixTranspose<'a> for EphemeralView<'a, Dtype> {
    type Output = EphemeralView<'a, Dtype>;

    open spec fn transpose_req(&self) -> bool {
        true
    }

    open spec fn t_post(&self, r: EphemeralView<'a, Dtype>) -> bool {
        &&& r.shape.dims_strides@.len() == self.shape.dims_strides@.len()
        &&& forall|i: int|
            0 <= i < r.shape.dims_strides@.len() ==> #[trigger] r.shape.dims_strides@[i]
                == self.shape.dims_strides@[self.shape.dims_strides@.len() - 1 - i]
        &&& r.data == self.data
    }

    open spec fn transpose_axes_req(&self, axes: Vec<usize>) -> bool {
        &&& axes@.len() == self.shape.dims_strides@.len()
        &&& forall|i: int|
            0 <= i < axes@.len() ==> (#[trigger] axes@[i]) < self.shape.dims_strides@.len()
        &&& forall|i: int, j: int| 0 <= i < j < axes@.len() ==> axes@[i] != axes@[j]
    }

    open spec fn transpose_post(&self, axes: Vec<usize>, r: EphemeralView<'a, Dtype>) -> bool {
        &&& r.shape.dims_strides@.len() == self.shape.dims_strides@.len()
        &&& forall|i: int|
            0 <= i < r.shape.dims_strides@.len() ==> #[trigger] r.shape.dims_strides@[i]
                == self.shape.dims_strides@[axes@[i] as int]
        &&& r.data == self.data
    }

    fn t(&'a self) -> (r: EphemeralView<'a, Dtype>) {
        let n = self.shape.dims_strides.len();
        let mut axes: Vec<usize> = Vec::new();
        let mut k: usize = n;
        while k > 0
            invariant
                k <= n,
                axes@.len() == n - k,
                forall|i: int| 0 <= i < axes@.len() ==> #[trigger] axes@[i] == n - 1 - i,
            decreases k,
        {
            k = k - 1;
            axes.push(k);
        }
        proof {
            assert forall|i: int, j: int| 0 <= i < j < axes@.len() implies axes@[i] != axes@[
            j] by {}
        }
        let shape = self.shape.to_transposed(axes);
        EphemeralView { shape, data: self.data }
    }

    fn transpose(&'a self, axes: Vec<usize>) -> (r: EphemeralView<'a, Dtype>) {
        let shape = self.shape.to_transposed(axes);
        EphemeralView { shape, data: self.data }
    }
}

} // verus!
