use crate::tensor::tensor_shape::{HasTensorShape, TensorShape};
use crate::tensor::tensor_storage::{HasTensorData, IntoTensorStorage, TensorStorage};
use vstd::prelude::*;

verus! {

/// A row-major two-dimensional tensor of integers.
#[derive(Debug, PartialEq, Eq)]
pub struct Matrix {
    pub shape: TensorShape,
    pub storage: TensorStorage<i64>,
}

/// A row-major `rows x cols` matrix layout over a storage of matching size.
pub open spec fn matrix_wf(shape: TensorShape, storage: TensorStorage<i64>, rows: int, cols: int) -> bool {
    &&& 0 <= rows
    &&& 0 <= cols
    &&& shape.dims_strides@ =~= seq![(rows as i64, cols as i64), (cols as i64, 1i64)]
    &&& storage.vec@.len() == rows * cols
}

/// The entry at row `i`, column `j` of a row-major storage with `cols`
/// columns.
pub open spec fn matrix_entry(storage: TensorStorage<i64>, cols: int, i: int, j: int) -> int {
    storage.vec@[i * cols + j] as int
}

/// The entry at row `i`, column `j` of a storage read with the given row
/// and column strides.
pub open spec fn strided_entry(
    storage: TensorStorage<i64>,
    sr: int,
    sc: int,
    i: int,
    j: int,
) -> int {
    storage.vec@[i * sr + j * sc] as int
}

/// The dot product of the first `t` pairs of row `i` of a strided matrix and
/// column `j` of a row-major matrix.
pub open spec fn dot_prefix(
    a: TensorStorage<i64>,
    sr: int,
    sc: int,
    b: TensorStorage<i64>,
    b_cols: int,
    i: int,
    j: int,
    t: int,
) -> int
    decreases t,
{
    if t <= 0 {
        0
    } else {
        dot_prefix(a, sr, sc, b, b_cols, i, j, t - 1) + strided_entry(a, sr, sc, i, t - 1)
            * matrix_entry(b, b_cols, t - 1, j)
    }
}

impl Matrix {
    pub fn from_vec(v: Vec<i64>, num_rows: i64, num_columns: i64) -> (r: Matrix)
        requires
            num_rows >= 0,
            num_columns >= 0,
            v@.len() == (num_rows as int) * (num_columns as int),
        ensures
            matrix_wf(r.shape, r.storage, num_rows as int, num_columns as int),
            r.storage.vec@ == v@,
    {
        Matrix {
            shape: create_row_major_shape(num_rows, num_columns),
            storage: v.into_tensor_storage(),
        }
    }

    /// The entry at row `i`, column `j`.
    pub fn entry(&self, i: i64, j: i64, num_rows: i64, num_columns: i64) -> (r: i64)
        requires
            matrix_wf(self.shape, self.storage, num_rows as int, num_columns as int),
            0 <= i < num_rows,
            0 <= j < num_columns,
            num_rows <= 0x8000,
            num_columns <= 0x8000,
        ensures
            r == matrix_entry(self.storage, num_columns as int, i as int, j as int),
    {
        proof {
            lemma_matrix_index_bound(
                i as int,
                j as int,
                num_rows as int,
                num_columns as int,
            );
            assert(0 <= (i as int) * (num_columns as int) && (num_rows as int) * (
            num_columns as int) <= 0x4000_0000) by (nonlinear_arith)
                requires
                    0 <= i,
                    0 <= num_columns <= 0x8000,
                    0 <= num_rows <= 0x8000,
            ;
        }
        self.storage.vec[(i * num_columns + j) as usize]
    }
}

/// With `i < rows` and `j < cols`, the flat index `i * cols + j` addresses a
/// cell inside the `rows * cols` storage.
pub proof fn lemma_matrix_index_bound(i: int, j: int, rows: int, cols: int)
    requires
        0 <= i < rows,
        0 <= j < cols,
    ensures
        0 <= i * cols + j < rows * cols,
    decreases rows,
{
    if i == rows - 1 {
        assert(i * cols + j < rows * cols) by (nonlinear_arith)
            requires
                0 <= i < rows,
                0 <= j < cols,
                i == rows - 1,
        ;
        assert(i * cols + j >= 0) by (nonlinear_arith)
            requires
                0 <= i,
                0 <= j,
                0 < cols,
        ;
    } else {
        lemma_matrix_index_bound(i, j, rows - 1, cols);
        assert((rows - 1) * cols <= rows * cols) by (nonlinear_arith)
            requires
                0 < cols,
                0 < rows,
        ;
    }
}

impl HasTensorShape for Matrix {
    open spec fn shape_spec(&self) -> TensorShape {
        self.shape
    }

    fn shape(&self) -> (r: &TensorShape) {
        &self.shape
    }
}

impl HasTensorData<i64> for Matrix {
    open spec fn data_spec(&self) -> TensorStorage<i64> {
        self.storage
    }

    fn data(&self) -> (r: &TensorStorage<i64>) {
        &self.storage
    }
}

pub trait MatrixTrait {
    /// The number of rows, as a mathematical value.
    spec fn rows_spec(&self) -> int;

    /// The number of columns, as a mathematical value.
    spec fn cols_spec(&self) -> int;

    /// When the matrix accessors may be used.
    spec fn matrix_req(&self) -> bool;

    fn num_rows(&self) -> (r: i64)
        requires
            self.matrix_req(),
        ensures
            r == self.rows_spec(),
    ;

    fn num_columns(&self) -> (r: i64)
        requires
            self.matrix_req(),
        ensures
            r == self.cols_spec(),
    ;
}

impl MatrixTrait for Matrix {
    open spec fn rows_spec(&self) -> int {
        self.shape.dims_strides@[0].0 as int
    }

    open spec fn cols_spec(&self) -> int {
        self.shape.dims_strides@[1].0 as int
    }

    open spec fn matrix_req(&self) -> bool {
        self.shape.dims_strides@.len() == 2
    }

    fn num_rows(&self) -> (r: i64) {
        self.shape.dims_strides[0].0
    }

    fn num_columns(&self) -> (r: i64) {
        self.shape.dims_strides[1].0
    }
}

/// Matrix multiplication under machine-size bounds: entries are bounded and
/// the dimensions are small enough that no index or dot product can
/// overflow.
pub open spec fn matmul_req(
    a: TensorStorage<i64>,
    m: int,
    n: int,
    sr: int,
    sc: int,
    b: TensorStorage<i64>,
    l: int,
) -> bool {
    &&& 0 <= m && 0 <= n && 0 <= l
    &&& m <= 0x8000
    &&& n <= 0x8000
    &&& l <= 0x8000
    &&& 0 <= sr <= 0x8000
    &&& 0 <= sc <= 0x8000
    &&& (m == 0 || n == 0 || (m - 1) * sr + (n - 1) * sc < a.vec@.len())
    &&& forall|t: int| 0 <= t < a.vec@.len() ==> -0x8000 <= (#[trigger] a.vec@[t]) <= 0x8000
    &&& forall|t: int| 0 <= t < b.vec@.len() ==> -0x8000 <= (#[trigger] b.vec@[t]) <= 0x8000
}

/// Multiplies the `m x n` matrix held in `a` with the given row and column
/// strides by the row-major `n x l` matrix `other`.
#[verifier::rlimit(50)]
pub fn matmul_storage(
    a: &TensorStorage<i64>,
    m: i64,
    n: i64,
    sr: i64,
    sc: i64,
    other: &Matrix,
    n2: i64,
    l: i64,
) -> (r: Matrix)
    requires
        matrix_wf(other.shape, other.storage, n2 as int, l as int),
        n == n2,
        matmul_req(*a, m as int, n as int, sr as int, sc as int, other.storage, l as int),
    ensures
        matrix_wf(r.shape, r.storage, m as int, l as int),
        forall|i: int, j: int|
            0 <= i < m && 0 <= j < l ==> matrix_entry(r.storage, l as int, i, j) == dot_prefix(
                *a,
                sr as int,
                sc as int,
                other.storage,
                l as int,
                i,
                j,
                n as int,
            ),
{
    let mut out: Vec<i64> = Vec::new();
    let mut i: i64 = 0;
    while i < m
        invariant
            matrix_wf(other.shape, other.storage, n as int, l as int),
            matmul_req(*a, m as int, n as int, sr as int, sc as int, other.storage, l as int),
            0 <= i <= m,
            out@.len() == i * l,
            forall|p: int, q: int|
                0 <= p < i && 0 <= q < l ==> (#[trigger] out@[p * (l as int) + q]) as int
                    == dot_prefix(*a, sr as int, sc as int, other.storage, l as int, p, q, n as int),
        decreases m - i,
    {
        let mut j: i64 = 0;
        while j < l
            invariant
                matrix_wf(other.shape, other.storage, n as int, l as int),
                matmul_req(*a, m as int, n as int, sr as int, sc as int, other.storage, l as int),
                0 <= i < m,
                0 <= j <= l,
                out@.len() == i * l + j,
                forall|p: int, q: int|
                    0 <= p < i && 0 <= q < l ==> (#[trigger] out@[p * (l as int) + q]) as int
                        == dot_prefix(*a, sr as int, sc as int, other.storage, l as int, p, q, n as int),
                forall|q: int|
                    0 <= q < j ==> (#[trigger] out@[i * (l as int) + q]) as int == dot_prefix(
                        *a,
                        sr as int,
                        sc as int,
                        other.storage,
                        l as int,
                        i as int,
                        q,
                        n as int,
                    ),
            decreases l - j,
        {
            let mut acc: i64 = 0;
            let mut t: i64 = 0;
            while t < n
                invariant
                    matrix_wf(other.shape, other.storage, n as int, l as int),
                    matmul_req(*a, m as int, n as int, sr as int, sc as int, other.storage, l as int),
                    0 <= i < m,
                    0 <= j < l,
                    0 <= t <= n,
                    acc == dot_prefix(*a, sr as int, sc as int, other.storage, l as int, i as int, j as int, t as int),
                    -(t as int) * 0x4000_0000 <= acc as int <= (t as int) * 0x4000_0000,
                decreases n - t,
            {
                proof {
                    lemma_matrix_index_bound(t as int, j as int, n as int, l as int);
                    assert(0 <= (t as int) * (l as int) && (n as int) * (l as int)
                        <= 0x4000_0000) by (nonlinear_arith)
                        requires
                            0 <= t,
                            0 <= n <= 0x8000,
                            0 <= l <= 0x8000,
                    ;
                    // the strided offset of the (i, t) entry stays within
                    // the storage
                    assert(0 <= (i as int) * (sr as int) <= ((m as int) - 1) * (
                    sr as int)) by (nonlinear_arith)
                        requires
                            0 <= i < m,
                            0 <= sr,
                    ;
                    assert(0 <= (t as int) * (sc as int) <= ((n as int) - 1) * (
                    sc as int)) by (nonlinear_arith)
                        requires
                            0 <= t < n,
                            0 <= sc,
                    ;
                    assert(((m as int) - 1) * (sr as int) <= 0x4000_0000) by (nonlinear_arith)
                        requires
                            0 < m <= 0x8000,
                            0 <= sr <= 0x8000,
                    ;
                    assert(((n as int) - 1) * (sc as int) <= 0x4000_0000) by (nonlinear_arith)
                        requires
                            0 < n <= 0x8000,
                            0 <= sc <= 0x8000,
                    ;
                }
                let xi = i * sr + t * sc;
                let yi = t * l + j;
                let x = a.vec[xi as usize];
                let y = other.storage.vec[yi as usize];
                proof {
                    assert(x == a.vec@[xi as int]);
                    assert(y == other.storage.vec@[yi as int]);
                    assert(x as int == strided_entry(*a, sr as int, sc as int, i as int, t as int));
                    assert(y as int == matrix_entry(other.storage, l as int, t as int, j as int));
                    assert(-0x8000 <= x <= 0x8000);
                    assert(-0x8000 <= y <= 0x8000);
                    assert(-0x4000_0000 <= (x as int) * (y as int) <= 0x4000_0000) by (nonlinear_arith)
                        requires
                            -0x8000 <= x <= 0x8000,
                            -0x8000 <= y <= 0x8000,
                    ;
                    assert(dot_prefix(*a, sr as int, sc as int, other.storage, l as int, i as int, j as int, t + 1 as int)
                        == dot_prefix(*a, sr as int, sc as int, other.storage, l as int, i as int, j as int, t as int)
                        + strided_entry(*a, sr as int, sc as int, i as int, t as int)
                        * matrix_entry(other.storage, l as int, t as int, j as int));
                }
                acc = acc + x * y;
                t = t + 1;
            }
            proof {
                lemma_matrix_index_bound(i as int, j as int, m as int, l as int);
            }
            out.push(acc);
            j = j + 1;
            proof {
                assert forall|p: int, q: int|
                    0 <= p < i && 0 <= q < l implies (#[trigger] out@[p * (l as int) + q]) as int
                        == dot_prefix(*a, sr as int, sc as int, other.storage, l as int, p, q, n as int) by {
                    assert(0 <= p * (l as int) + q < i * (l as int)) by (nonlinear_arith)
                        requires
                            0 <= p < i,
                            0 <= q < l,
                    ;
                }
            }
        }
        i = i + 1;
        proof {
            assert((i - 1) * (l as int) + (l as int) == i * (l as int)) by (nonlinear_arith)
            ;
            assert forall|p: int, q: int|
                0 <= p < i && 0 <= q < l implies (#[trigger] out@[p * (l as int) + q]) as int
                    == dot_prefix(*a, sr as int, sc as int, other.storage, l as int, p, q, n as int) by {
                if p < i - 1 {
                    assert(p * (l as int) + q < (i - 1) * (l as int)) by (nonlinear_arith)
                        requires
                            0 <= p < i - 1,
                            0 <= q < l,
                    ;
                } else {
                    assert(p == i - 1);
                }
            }
        }
    }
    proof {
        assert(out@.len() == (m as int) * (l as int));
        assert((m as int) * (l as int) >= 0) by (nonlinear_arith)
            requires
                m >= 0,
                l >= 0,
        ;
    }
    Matrix::from_vec(out, m, l)
}

pub trait IndexableMatrix: MatrixTrait {
    /// When `matmul` may be called.
    spec fn matmul_pre(&self, other: &Matrix) -> bool;

    /// What `matmul` is allowed to return.
    spec fn matmul_post(&self, other: &Matrix, r: Matrix) -> bool;

    fn matmul(&self, other: &Matrix) -> (r: Matrix)
        requires
            self.matmul_pre(other),
        ensures
            self.matmul_post(other, r),
    ;
}

impl IndexableMatrix for Matrix {
    open spec fn matmul_pre(&self, other: &Matrix) -> bool {
        &&& matrix_wf(self.shape, self.storage, self.rows_spec(), self.cols_spec())
        &&& matrix_wf(other.shape, other.storage, other.rows_spec(), other.cols_spec())
        &&& self.cols_spec() == other.rows_spec()
        &&& matmul_req(
            self.storage,
            self.rows_spec(),
            self.cols_spec(),
            self.cols_spec(),
            1,
            other.storage,
            other.cols_spec(),
        )
    }

    open spec fn matmul_post(&self, other: &Matrix, r: Matrix) -> bool {
        &&& matrix_wf(r.shape, r.storage, self.rows_spec(), other.cols_spec())
        &&& forall|i: int, j: int|
            0 <= i < self.rows_spec() && 0 <= j < other.cols_spec() ==> matrix_entry(
                r.storage,
                other.cols_spec(),
                i,
                j,
            ) == dot_prefix(
                self.storage,
                self.cols_spec(),
                1,
                other.storage,
                other.cols_spec(),
                i,
                j,
                self.cols_spec(),
            )
    }

    fn matmul(&self, other: &Matrix) -> (r: Matrix) {
        let m = self.num_rows();
        let n = self.num_columns();
        let n2 = other.num_rows();
        let l = other.num_columns();
        matmul_storage(&self.storage, m, n, n, 1, other, n2, l)
    }
}

impl IndexableMatrix for crate::tensor::matrix_view::MatrixView<'_> {
    open spec fn matmul_pre(&self, other: &Matrix) -> bool {
        &&& self.shape.dims_strides@.len() == 2
        &&& matrix_wf(other.shape, other.storage, other.rows_spec(), other.cols_spec())
        &&& self.cols_spec() == other.rows_spec()
        &&& matmul_req(
            *self.data,
            self.rows_spec(),
            self.cols_spec(),
            self.shape.dims_strides@[0].1 as int,
            self.shape.dims_strides@[1].1 as int,
            other.storage,
            other.cols_spec(),
        )
    }

    open spec fn matmul_post(&self, other: &Matrix, r: Matrix) -> bool {
        &&& matrix_wf(r.shape, r.storage, self.rows_spec(), other.cols_spec())
        &&& forall|i: int, j: int|
            0 <= i < self.rows_spec() && 0 <= j < other.cols_spec() ==> matrix_entry(
                r.storage,
                other.cols_spec(),
                i,
                j,
            ) == dot_prefix(
                *self.data,
                self.shape.dims_strides@[0].1 as int,
                self.shape.dims_strides@[1].1 as int,
                other.storage,
                other.cols_spec(),
                i,
                j,
                self.cols_spec(),
            )
    }

    /// Multiplies a matrix-shaped view by a matrix, reading the view's
    /// entries through its own strides, so that a transposed view multiplies
    /// as the transpose.
    fn matmul(&self, other: &Matrix) -> (r: Matrix) {
        let m = self.num_rows();
        let n = self.num_columns();
        let n2 = other.num_rows();
        let l = other.num_columns();
        let sr = self.shape.dims_strides[0].1;
        let sc = self.shape.dims_strides[1].1;
        matmul_storage(self.data, m, n, sr, sc, other, n2, l)
    }
}

fn create_row_major_shape(num_rows: i64, num_columns: i64) -> (r: TensorShape)
    ensures
        r.dims_strides@ =~= seq![(num_rows, num_columns), (num_columns, 1i64)],
{
    let mut dims_strides: Vec<(i64, i64)> = Vec::new();
    dims_strides.push((num_rows, num_columns));
    dims_strides.push((num_columns, 1));
    TensorShape { dims_strides }
}

} // verus!

use vstd::string::StringExecFns;

verus! {

/// The character for a single decimal digit.
pub open spec fn digit_char(d: int) -> char {
    if d == 0 {
        '0'
    } else if d == 1 {
        '1'
    } else if d == 2 {
        '2'
    } else if d == 3 {
        '3'
    } else if d == 4 {
        '4'
    } else if d == 5 {
        '5'
    } else if d == 6 {
        '6'
    } else if d == 7 {
        '7'
    } else if d == 8 {
        '8'
    } else {
        '9'
    }
}

/// The decimal digits of a non-negative integer, most significant first,
/// without leading zeros.
pub open spec fn decimal_digits(n: int) -> Seq<char>
    decreases n,
{
    if n < 10 {
        seq![digit_char(n)]
    } else {
        decimal_digits(n / 10).push(digit_char(n % 10))
    }
}

/// The decimal rendering of an integer: a minus sign for a negative one,
/// then its magnitude's digits.
pub open spec fn decimal_of(x: int) -> Seq<char> {
    if x < 0 {
        seq!['-'] + decimal_digits(-x)
    } else {
        decimal_digits(x)
    }
}

/// Relies on `i64`'s `Display` implementation through `format!`: the sign
/// followed by the magnitude's decimal digits without leading zeros.
#[verifier::external_body]
fn fmt_i64(x: i64) -> (r: String)
    ensures
        r@ == decimal_of(x as int),
{
    format!("{}", x)
}

/// The comma-separated decimal renderings of the first `j` cells of row `i`,
/// with a separator after every cell but the row's last.
pub open spec fn row_rendering(storage: TensorStorage<i64>, cols: int, i: int, j: int) -> Seq<char>
    decreases j,
{
    if j <= 0 {
        Seq::empty()
    } else {
        row_rendering(storage, cols, i, j - 1) + decimal_of(matrix_entry(storage, cols, i, j - 1))
            + (if j < cols {
            ", "@
        } else {
            Seq::<char>::empty()
        })
    }
}

/// The renderings of the first `i` rows, each wrapped in brackets, with a
/// line break after every row but the matrix's last.
pub open spec fn rows_rendering(
    storage: TensorStorage<i64>,
    cols: int,
    rows: int,
    i: int,
) -> Seq<char>
    decreases i,
{
    if i <= 0 {
        Seq::empty()
    } else {
        rows_rendering(storage, cols, rows, i - 1) + "["@ + row_rendering(
            storage,
            cols,
            i - 1,
            cols,
        ) + (if i < rows {
            "]\n"@
        } else {
            "]"@
        })
    }
}

impl Matrix {
    /// Renders the matrix as rows of comma-separated entries, one bracketed
    /// row per line, the whole wrapped in an outer pair of brackets.
    pub fn to_display_string(&self, num_rows: i64, num_columns: i64) -> (r: String)
        requires
            matrix_wf(self.shape, self.storage, num_rows as int, num_columns as int),
            num_rows <= 0x8000,
            num_columns <= 0x8000,
        ensures
            r@ == "["@ + rows_rendering(
                self.storage,
                num_columns as int,
                num_rows as int,
                num_rows as int,
            ) + "]"@,
    {
        let mut out = String::from_str("[");
        proof {
            assert(out@ =~= "["@ + rows_rendering(
                self.storage,
                num_columns as int,
                num_rows as int,
                0,
            ));
        }
        let mut i: i64 = 0;
        while i < num_rows
            invariant
                matrix_wf(self.shape, self.storage, num_rows as int, num_columns as int),
                num_rows <= 0x8000,
                num_columns <= 0x8000,
                0 <= i <= num_rows,
                out@ == "["@ + rows_rendering(
                    self.storage,
                    num_columns as int,
                    num_rows as int,
                    i as int,
                ),
            decreases num_rows - i,
        {
            out.append("[");
            proof {
                assert(out@ =~= "["@ + rows_rendering(
                    self.storage,
                    num_columns as int,
                    num_rows as int,
                    i as int,
                ) + "["@ + row_rendering(self.storage, num_columns as int, i as int, 0));
            }
            let mut j: i64 = 0;
            while j < num_columns
                invariant
                    matrix_wf(self.shape, self.storage, num_rows as int, num_columns as int),
                    num_rows <= 0x8000,
                    num_columns <= 0x8000,
                    0 <= i < num_rows,
                    0 <= j <= num_columns,
                    out@ == "["@ + rows_rendering(
                        self.storage,
                        num_columns as int,
                        num_rows as int,
                        i as int,
                    ) + "["@ + row_rendering(self.storage, num_columns as int, i as int, j as int),
                decreases num_columns - j,
            {
                let cell = self.entry(i, j, num_rows, num_columns);
                let rendered = fmt_i64(cell);
                out.append(rendered.as_str());
                if j + 1 < num_columns {
                    out.append(", ");
                }
                proof {
                    assert(out@ =~= "["@ + rows_rendering(
                        self.storage,
                        num_columns as int,
                        num_rows as int,
                        i as int,
                    ) + "["@ + row_rendering(
                        self.storage,
                        num_columns as int,
                        i as int,
                        j as int + 1,
                    ));
                }
                j = j + 1;
            }
            if i + 1 < num_rows {
                out.append("]\n");
            } else {
                out.append("]");
            }
            proof {
                assert(out@ =~= "["@ + rows_rendering(
                    self.storage,
                    num_columns as int,
                    num_rows as int,
                    i as int + 1,
                ));
            }
            i = i + 1;
        }
        let r = out.concat("]");
        proof {
            assert(r@ =~= "["@ + rows_rendering(
                self.storage,
                num_columns as int,
                num_rows as int,
                num_rows as int,
            ) + "]"@);
        }
        r
    }
}

} // verus!
