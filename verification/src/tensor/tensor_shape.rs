use vstd::prelude::*;

verus! {

/// The shape of an N-dimensional tensor: a size for each dimension with an
/// associated stride, e.g. a row-major 3 x 5 matrix has `dims_strides`
/// `[(3, 5), (5, 1)]`. Index 0 always refers to the leftmost dimension.
#[derive(Clone, Debug, PartialEq, Eq)]
pub struct TensorShape {
    pub dims_strides: Vec<(i64, i64)>,
}

/// The product of all dimension sizes.
pub open spec fn dims_product(s: Seq<(i64, i64)>) -> int
    decreases s.len(),
{
    if s.len() == 0 {
        1
    } else {
        dims_product(s.drop_last()) * (s.last().0 as int)
    }
}

/// The number of elements addressed by a shape: the product of its
/// dimension sizes, or zero for the empty shape.
pub open spec fn num_elements_spec(s: Seq<(i64, i64)>) -> int {
    if s.len() == 0 {
        0
    } else {
        dims_product(s)
    }
}

/// The product of the dimension sizes from position `i` on.
pub open spec fn suffix_product(dims: Seq<i64>, i: int) -> int
    decreases dims.len() - i,
{
    if i < 0 || i >= dims.len() {
        1
    } else {
        (dims[i] as int) * suffix_product(dims, i + 1)
    }
}

impl TensorShape {
    pub fn dims(&self) -> (r: Vec<i64>)
        ensures
            r@.len() == self.dims_strides@.len(),
            forall|i: int| 0 <= i < r@.len() ==> r@[i] == (#[trigger] self.dims_strides@[i]).0,
    {
        let n = self.dims_strides.len();
        let mut r: Vec<i64> = Vec::new();
        for k in 0..n
            invariant
                n == self.dims_strides@.len(),
                r@.len() == k,
                forall|i: int| 0 <= i < k ==> r@[i] == (#[trigger] self.dims_strides@[i]).0,
        {
            r.push(self.dims_strides[k].0);
        }
        r
    }

    pub fn strides(&self) -> (r: Vec<i64>)
        ensures
            r@.len() == self.dims_strides@.len(),
            forall|i: int| 0 <= i < r@.len() ==> r@[i] == (#[trigger] self.dims_strides@[i]).1,
    {
        let n = self.dims_strides.len();
        let mut r: Vec<i64> = Vec::new();
        for k in 0..n
            invariant
                n == self.dims_strides@.len(),
                r@.len() == k,
                forall|i: int| 0 <= i < k ==> r@[i] == (#[trigger] self.dims_strides@[i]).1,
        {
            r.push(self.dims_strides[k].1);
        }
        r
    }

    pub fn ndim(&self) -> (r: usize)
        ensures
            r == self.dims_strides@.len(),
    {
        self.dims_strides.len()
    }

    pub fn num_elements(&self) -> (r: usize)
        requires
            forall|i: int|
                0 <= i < self.dims_strides@.len() ==> 0 <= (#[trigger] self.dims_strides@[i]).0
                    <= usize::MAX,
            forall|k: int|
                0 <= k <= self.dims_strides@.len() ==> dims_product(
                    #[trigger] self.dims_strides@.subrange(0, k),
                ) <= usize::MAX,
        ensures
            r == num_elements_spec(self.dims_strides@),
    {
        let n = self.dims_strides.len();
        if n == 0 {
            return 0;
        }
        let mut acc: usize = 1;
        proof {
            assert(self.dims_strides@.subrange(0, 0) =~= Seq::<(i64, i64)>::empty());
            lemma_dims_product_nonneg(self.dims_strides@, 0);
        }
        for k in 0..n
            invariant
                n == self.dims_strides@.len(),
                forall|i: int|
                    0 <= i < self.dims_strides@.len() ==> 0 <= (#[trigger] self.dims_strides@[
                        i]).0 <= usize::MAX,
                forall|t: int|
                    0 <= t <= self.dims_strides@.len() ==> dims_product(
                        #[trigger] self.dims_strides@.subrange(0, t),
                    ) <= usize::MAX,
                acc == dims_product(self.dims_strides@.subrange(0, k as int)),
        {
            let d = self.dims_strides[k].0;
            proof {
                let prefix = self.dims_strides@.subrange(0, k as int);
                let next = self.dims_strides@.subrange(0, k + 1 as int);
                assert(next.drop_last() =~= prefix);
                assert(next.last() == self.dims_strides@[k as int]);
                lemma_dims_product_nonneg(self.dims_strides@, k + 1 as int);
                lemma_dims_product_nonneg(self.dims_strides@, k as int);
                assert(dims_product(next) == dims_product(prefix) * (d as int));
                assert(dims_product(next) <= usize::MAX);
                assert((acc as int) * (d as int) <= usize::MAX);
            }
            acc = acc * (d as usize);
        }
        proof {
            assert(self.dims_strides@.subrange(0, n as int) =~= self.dims_strides@);
        }
        acc
    }

    /// The shape with its axes permuted: for each `i`, the original
    /// `axes[i]`-th axis is at the `i`-th axis of the new shape.
    pub fn to_transposed(&self, axes: Vec<usize>) -> (r: TensorShape)
        requires
            axes@.len() == self.dims_strides@.len(),
            forall|i: int|
                0 <= i < axes@.len() ==> (#[trigger] axes@[i]) < self.dims_strides@.len(),
            forall|i: int, j: int| 0 <= i < j < axes@.len() ==> axes@[i] != axes@[j],
        ensures
            r.dims_strides@.len() == self.dims_strides@.len(),
            forall|i: int|
                0 <= i < r.dims_strides@.len() ==> #[trigger] r.dims_strides@[i]
                    == self.dims_strides@[axes@[i] as int],
    {
        let n = axes.len();
        let mut dims_strides: Vec<(i64, i64)> = Vec::new();
        for k in 0..n
            invariant
                n == axes@.len(),
                axes@.len() == self.dims_strides@.len(),
                forall|i: int|
                    0 <= i < axes@.len() ==> (#[trigger] axes@[i]) < self.dims_strides@.len(),
                dims_strides@.len() == k,
                forall|i: int|
                    0 <= i < k ==> #[trigger] dims_strides@[i] == self.dims_strides@[axes@[
                        i] as int],
        {
            dims_strides.push(self.dims_strides[axes[k]]);
        }
        TensorShape { dims_strides }
    }

    /// The row-major shape with the given dimension sizes: each stride is
    /// the product of all later dimension sizes.
    pub fn from_dims(dims: &Vec<i64>) -> (r: TensorShape)
        requires
            forall|i: int| 0 <= i < dims@.len() ==> (#[trigger] dims@[i]) >= 0,
            forall|i: int| 0 <= i <= dims@.len() ==> suffix_product(dims@, i) <= i64::MAX,
        ensures
            r.dims_strides@.len() == dims@.len(),
            forall|i: int|
                0 <= i < dims@.len() ==> #[trigger] r.dims_strides@[i] == (
                dims@[i],
                suffix_product(dims@, i + 1) as i64,
            ),
    {
        let n = dims.len();
        let mut dims_strides: Vec<(i64, i64)> = Vec::new();
        let mut acc: i64 = 1;
        let mut k: usize = n;
        let mut rev: Vec<(i64, i64)> = Vec::new();
        while k > 0
            invariant
                n == dims@.len(),
                forall|i: int| 0 <= i < dims@.len() ==> (#[trigger] dims@[i]) >= 0,
                forall|i: int| 0 <= i <= dims@.len() ==> suffix_product(dims@, i) <= i64::MAX,
                k <= n,
                acc == suffix_product(dims@, k as int),
                rev@.len() == n - k,
                forall|i: int|
                    0 <= i < rev@.len() ==> #[trigger] rev@[i] == (
                    dims@[n - 1 - i],
                    suffix_product(dims@, n - i) as i64,
                ),
            decreases k,
        {
            k = k - 1;
            proof {
                lemma_suffix_product_nonneg(dims@, k as int);
                lemma_suffix_product_nonneg(dims@, k + 1 as int);
                assert(suffix_product(dims@, k as int) == (dims@[k as int] as int)
                    * suffix_product(dims@, k + 1 as int));
                assert(suffix_product(dims@, k as int) <= i64::MAX);
                assert((acc as int) * (dims@[k as int] as int) == suffix_product(
                    dims@,
                    k as int,
                )) by (nonlinear_arith)
                    requires
                        acc as int == suffix_product(dims@, k + 1 as int),
                        suffix_product(dims@, k as int) == (dims@[k as int] as int)
                            * suffix_product(dims@, k + 1 as int),
                ;
            }
            rev.push((dims[k], acc));
            acc = acc * dims[k];
        }
        for t in 0..n
            invariant
                n == dims@.len(),
                rev@.len() == n,
                forall|i: int|
                    0 <= i < rev@.len() ==> #[trigger] rev@[i] == (
                    dims@[n - 1 - i],
                    suffix_product(dims@, n - i) as i64,
                ),
                dims_strides@.len() == t,
                forall|i: int|
                    0 <= i < t ==> #[trigger] dims_strides@[i] == (
                    dims@[i],
                    suffix_product(dims@, i + 1) as i64,
                ),
        {
            dims_strides.push(rev[n - 1 - t]);
        }
        TensorShape { dims_strides }
    }
}

pub proof fn lemma_dims_product_nonneg(s: Seq<(i64, i64)>, k: int)
    requires
        0 <= k <= s.len(),
        forall|i: int| 0 <= i < s.len() ==> (#[trigger] s[i]).0 >= 0,
    ensures
        dims_product(s.subrange(0, k)) >= 0,
    decreases k,
{
    if k == 0 {
        assert(s.subrange(0, 0) =~= Seq::<(i64, i64)>::empty());
    } else {
        lemma_dims_product_nonneg(s, k - 1);
        assert(s.subrange(0, k).drop_last() =~= s.subrange(0, k - 1));
        assert(s.subrange(0, k).last() == s[k - 1]);
        assert(dims_product(s.subrange(0, k)) == dims_product(s.subrange(0, k - 1)) * (s[
            k - 1].0 as int));
        vstd::arithmetic::mul::lemma_mul_nonnegative(
            dims_product(s.subrange(0, k - 1)),
            s[k - 1].0 as int,
        );
    }
}

pub proof fn lemma_suffix_product_nonneg(dims: Seq<i64>, i: int)
    requires
        forall|t: int| 0 <= t < dims.len() ==> (#[trigger] dims[t]) >= 0,
    ensures
        suffix_product(dims, i) >= 0,
    decreases dims.len() - i,
{
    if 0 <= i < dims.len() {
        lemma_suffix_product_nonneg(dims, i + 1);
        vstd::arithmetic::mul::lemma_mul_nonnegative(dims[i] as int, suffix_product(dims, i + 1));
    }
}

pub trait HasTensorShape {
    /// The shape as a mathematical value.
    spec fn shape_spec(&self) -> TensorShape;

    fn shape(&self) -> (r: &TensorShape)
        ensures
            *r == self.shape_spec(),
    ;
}

} // verus!
