use crate::tensor::tensor_shape::HasTensorShape;
use crate::tensor::tensor_storage::HasTensorData;
use vstd::prelude::*;

verus! {

/// The flat storage offset addressed by a coordinate: the sum of each
/// coordinate times its axis stride.
pub open spec fn index_of(ds: Seq<(i64, i64)>, coord: Seq<i64>) -> int
    decreases ds.len(),
{
    if ds.len() == 0 {
        0
    } else {
        index_of(ds.drop_last(), coord.drop_last()) + (coord[ds.len() - 1] as int) * (ds.last().1 as int)
    }
}

/// The partial offset sums stay within machine range.
pub open spec fn coord_index_ok(ds: Seq<(i64, i64)>, coord: Seq<i64>) -> bool {
    &&& coord.len() == ds.len()
    &&& forall|k: int|
        0 <= k <= ds.len() ==> -(i64::MAX as int) <= index_of(
            #[trigger] ds.subrange(0, k),
            coord.subrange(0, k),
        ) <= i64::MAX
    &&& forall|k: int|
        0 <= k < ds.len() ==> -(i64::MAX as int) <= (#[trigger] coord[k] as int) * (ds[
            k].1 as int) <= i64::MAX
}

pub trait HasTensorShapeData<Dtype>: HasTensorShape + HasTensorData<Dtype> {
    /// Converts an N-dimensional coordinate into the flat storage offset.
    fn coord_to_index(&self, coord: &Vec<i64>) -> (r: i64)
        requires
            coord_index_ok(self.shape_spec().dims_strides@, coord@),
        ensures
            r == index_of(self.shape_spec().dims_strides@, coord@),
    {
        let shape = self.shape();
        let n = shape.dims_strides.len();
        let ghost ds = self.shape_spec().dims_strides@;
        let mut index: i64 = 0;
        proof {
            assert(ds.subrange(0, 0) =~= Seq::<(i64, i64)>::empty());
            assert(coord@.subrange(0, 0) =~= Seq::<i64>::empty());
        }
        for i in 0..n
            invariant
                n == ds.len(),
                shape.dims_strides@ == ds,
                coord_index_ok(ds, coord@),
                index == index_of(ds.subrange(0, i as int), coord@.subrange(0, i as int)),
        {
            proof {
                let p = ds.subrange(0, i as int);
                let q = ds.subrange(0, i + 1 as int);
                assert(q.drop_last() =~= p);
                assert(coord@.subrange(0, i + 1 as int).drop_last() =~= coord@.subrange(
                    0,
                    i as int,
                ));
                assert(index_of(q, coord@.subrange(0, i + 1 as int)) == index_of(
                    p,
                    coord@.subrange(0, i as int),
                ) + (coord@[i as int] as int) * (ds[i as int].1 as int));
            }
            index = index + coord[i] * shape.dims_strides[i].1;
        }
        proof {
            assert(ds.subrange(0, n as int) =~= ds);
            assert(coord@.subrange(0, n as int) =~= coord@);
        }
        index
    }
}

} // verus!
