use crate::tensor::ephemeral_view::EphemeralView;
use crate::tensor::tensor_shape::{dims_product, num_elements_spec, TensorShape};
use crate::tensor::tensor_storage::TensorStorage;
use crate::traits::ToIterator;
use vstd::prelude::*;

verus! {

/// The flat storage offset of the `idx`-th element in logical row-major
/// order: each axis, starting from the last, consumes `idx` modulo its size.
pub open spec fn iter_offset(ds: Seq<(i64, i64)>, idx: int) -> int
    decreases ds.len(),
{
    if ds.len() == 0 {
        0
    } else {
        (idx % (ds.last().0 as int)) * (ds.last().1 as int) + iter_offset(
            ds.drop_last(),
            idx / (ds.last().0 as int),
        )
    }
}

/// The bounds under which the traversal's offset arithmetic stays in
/// machine range and inside the storage.
pub open spec fn tensor_iter_ok(ds: Seq<(i64, i64)>, data: TensorStorage<i64>) -> bool {
    &&& ds.len() <= 16
    &&& forall|i: int|
        0 <= i < ds.len() ==> 1 <= (#[trigger] ds[i]).0 <= 0x8000 && 0 <= ds[i].1 <= 0x8000
    &&& forall|t: int|
        0 <= t < num_elements_spec(ds) ==> 0 <= #[trigger] iter_offset(ds, t) < data.vec@.len()
    &&& forall|k: int|
        0 <= k <= ds.len() ==> dims_product(#[trigger] ds.subrange(0, k)) <= 0x4000_0000
}

/// Iterates the elements of a tensor view in logical row-major order,
/// following the view's strides through the underlying storage.
pub struct TensorIter<'a> {
    pub i: usize,
    pub num_elements: usize,
    pub tensor_view: EphemeralView<'a, i64>,
}

impl<'a> TensorIter<'a> {
    pub open spec fn well_formed(self) -> bool {
        &&& tensor_iter_ok(self.tensor_view.shape.dims_strides@, *self.tensor_view.data)
        &&& self.num_elements == num_elements_spec(self.tensor_view.shape.dims_strides@)
        &&& self.i <= self.num_elements
    }

    fn new(tensor: EphemeralView<'a, i64>) -> (r: TensorIter<'a>)
        requires
            tensor_iter_ok(tensor.shape.dims_strides@, *tensor.data),
        ensures
            r.well_formed(),
            r.i == 0,
            r.tensor_view.shape.dims_strides@ == tensor.shape.dims_strides@,
            r.tensor_view.data == tensor.data,
    {
        proof {
            if tensor.shape.dims_strides@.len() > 0 {
                lemma_nonempty_dims_product_pos(tensor.shape.dims_strides@);
            }
        }
        let num_elements = tensor.shape.num_elements();
        TensorIter { i: 0, num_elements, tensor_view: tensor }
    }

    /// Yields the next element in logical row-major order.
    pub fn next(&mut self) -> (r: Option<i64>)
        requires
            old(self).well_formed(),
        ensures
            final(self).well_formed(),
            final(self).tensor_view == old(self).tensor_view,
            final(self).num_elements == old(self).num_elements,
            match r {
                Option::None => old(self).i == old(self).num_elements && final(self).i == old(
                    self,
                ).i,
                Option::Some(v) => {
                    &&& old(self).i < old(self).num_elements
                    &&& final(self).i == old(self).i + 1
                    &&& v == old(self).tensor_view.data.vec@[iter_offset(
                        old(self).tensor_view.shape.dims_strides@,
                        old(self).i as int,
                    )]
                },
            },
    {
        if self.i >= self.num_elements {
            return Option::None;
        }
        let ds_len = self.tensor_view.shape.dims_strides.len();
        let ghost ds = self.tensor_view.shape.dims_strides@;
        let mut vec_index: i64 = 0;
        let mut index: i64 = self.i as i64;
        let mut k: usize = ds_len;
        proof {
            assert(ds.subrange(0, ds_len as int) =~= ds);
        }
        while k > 0
            invariant
                ds == self.tensor_view.shape.dims_strides@,
                ds_len == ds.len(),
                tensor_iter_ok(self.tensor_view.shape.dims_strides@, *self.tensor_view.data),
                k <= ds_len,
                0 <= index,
                0 <= vec_index <= 0x4000_0000 * ((ds_len - k) as int),
                iter_offset(ds, self.i as int) == vec_index + iter_offset(
                    ds.subrange(0, k as int),
                    index as int,
                ),
            decreases k,
        {
            k = k - 1;
            let (len, stride) = self.tensor_view.shape.dims_strides[k];
            proof {
                let sub = ds.subrange(0, k + 1 as int);
                assert(sub.drop_last() =~= ds.subrange(0, k as int));
                assert(sub.last() == ds[k as int]);
                assert(1 <= len <= 0x8000 && 0 <= stride <= 0x8000);
                assert(0 <= (index as int) % (len as int) < len as int) by {
                    vstd::arithmetic::div_mod::lemma_mod_bound(index as int, len as int);
                }
                assert(0 <= ((index as int) % (len as int)) * (stride as int)
                    <= 0x4000_0000) by (nonlinear_arith)
                    requires
                        0 <= (index as int) % (len as int) < 0x8000,
                        0 <= stride <= 0x8000,
                ;
                assert(0 <= index as int / (len as int)) by {
                    vstd::arithmetic::div_mod::lemma_div_pos_is_pos(index as int, len as int);
                }
            }
            vec_index = vec_index + (index % len) * stride;
            index = index / len;
        }
        proof {
            assert(ds.subrange(0, 0) =~= Seq::<(i64, i64)>::empty());
            assert(iter_offset(ds, self.i as int) == vec_index);
            assert(0 <= vec_index < self.tensor_view.data.vec@.len());
        }
        let total = self.tensor_view.data.vec.len();
        let v = self.tensor_view.data.vec[vec_index as usize];
        self.i = self.i + 1;
        Option::Some(v)
    }
}

/// With all dimension sizes at least one, the element count is positive.
pub proof fn lemma_nonempty_dims_product_pos(s: Seq<(i64, i64)>)
    requires
        s.len() >= 1,
        forall|i: int| 0 <= i < s.len() ==> (#[trigger] s[i]).0 >= 1,
    ensures
        dims_product(s) >= 1,
    decreases s.len(),
{
    if s.len() == 1 {
    } else {
        lemma_nonempty_dims_product_pos(s.drop_last());
        vstd::arithmetic::mul::lemma_mul_strictly_positive(
            dims_product(s.drop_last()),
            s.last().0 as int,
        );
    }
}

impl<'a> ToIterator<'a, TensorIter<'a>, i64> for EphemeralView<'a, i64> {
    open spec fn to_iter_req(&self) -> bool {
        tensor_iter_ok(self.shape.dims_strides@, *self.data)
    }

    open spec fn to_iter_post(&self, r: TensorIter<'a>) -> bool {
        &&& r.well_formed()
        &&& r.i == 0
        &&& r.tensor_view.shape.dims_strides@ == self.shape.dims_strides@
        &&& r.tensor_view.data == self.data
    }

    fn to_iter(&'a self) -> (r: TensorIter<'a>) {
        TensorIter::new(self.clone_view())
    }
}

impl<'a, Dtype> EphemeralView<'a, Dtype> {
    /// A second view of the same data under the same shape.
    fn clone_view(&self) -> (r: EphemeralView<'a, Dtype>)
        ensures
            r.shape.dims_strides@ == self.shape.dims_strides@,
            r.data == self.data,
    {
        let n = self.shape.dims_strides.len();
        let mut dims_strides: Vec<(i64, i64)> = Vec::new();
        for k in 0..n
            invariant
                n == self.shape.dims_strides@.len(),
                dims_strides@ == self.shape.dims_strides@.subrange(0, k as int),
        {
            dims_strides.push(self.shape.dims_strides[k]);
            proof {
                assert(dims_strides@ =~= self.shape.dims_strides@.subrange(0, k + 1 as int));
            }
        }
        proof {
            assert(dims_strides@ =~= self.shape.dims_strides@);
        }
        let shape = TensorShape { dims_strides };
        EphemeralView { shape, data: self.data }
    }
}

} // verus!
