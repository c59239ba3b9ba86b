use vstd::prelude::*;
use crate::error::NetError;
use crate::scalar::Scalar;

verus! {

/// `i * c + j` indexes an `r x c` row-major buffer whenever `i < r` and `j < c`.
pub proof fn lemma_index_in_bounds(i: int, j: int, r: int, c: int)
    requires
        0 <= i < r,
        0 <= j < c,
    ensures
        0 <= i * c + j < r * c,
        i * c + j + 1 <= (i + 1) * c,
{
    assert(0 <= i * c) by (nonlinear_arith)
        requires
            0 <= i,
            0 <= c,
    ;
    assert((i + 1) * c <= r * c) by (nonlinear_arith)
        requires
            i + 1 <= r,
            0 <= c,
    ;
    assert((i + 1) * c == i * c + c) by (nonlinear_arith);
}

/// An element-for-element copy of a vector.
pub fn copy_vec<T: Copy>(v: &Vec<T>) -> (r: Vec<T>)
    ensures
        r@ == v@,
{
    let mut out: Vec<T> = Vec::new();
    let mut k: usize = 0;
    while k < v.len()
        invariant
            k <= v@.len(),
            out@ == v@.take(k as int),
        decreases v@.len() - k,
    {
        out.push(v[k]);
        proof {
            assert(v@.take(k + 1) =~= v@.take(k as int).push(v@[k as int]));
        }
        k = k + 1;
    }
    proof {
        assert(v@.take(k as int) =~= v@);
    }
    out
}

/// A dense matrix stored row-major.
pub struct Matrix<T> {
    rows: usize,
    cols: usize,
    data: Vec<T>,
}

/// Element-wise operations on two matrices of one shape.
#[derive(Clone, Copy)]
pub enum ZipOp {
    Minus,
    Times,
}

/// Element-wise operations on one matrix.
#[derive(Clone, Copy)]
pub enum MapOp {
    Activation,
    ActivationGrad,
    DivCount(usize),
}

/// What `zip` computes from one pair of elements.
pub open spec fn zip_spec<T: Scalar>(op: ZipOp, a: T, b: T) -> T {
    match op {
        ZipOp::Minus => a.spec_minus(b),
        ZipOp::Times => a.spec_times(b),
    }
}

/// What `map` computes from one element.
pub open spec fn map_spec<T: Scalar>(op: MapOp, a: T) -> T {
    match op {
        MapOp::Activation => a.spec_activation(),
        MapOp::ActivationGrad => a.spec_activation_grad(),
        MapOp::DivCount(c) => a.spec_div_count(c),
    }
}

/// The sum, from the left starting at zero, of `a.at(i, t) * b.at(t, j)`
/// for `t < k`: entry `(i, j)` of the product when `k` is the inner size.
pub open spec fn dot<T: Scalar>(a: Matrix<T>, b: Matrix<T>, i: int, j: int, k: int) -> T
    decreases k,
{
    if k <= 0 {
        T::spec_zero()
    } else {
        dot(a, b, i, j, k - 1).spec_plus(a.at(i, k - 1).spec_times(b.at(k - 1, j)))
    }
}

impl<T> Matrix<T> {
    pub closed spec fn nrows(&self) -> nat {
        self.rows as nat
    }

    pub closed spec fn ncols(&self) -> nat {
        self.cols as nat
    }

    /// The elements, row after row.
    pub closed spec fn elems(&self) -> Seq<T> {
        self.data@
    }

    /// The buffer holds exactly `rows * cols` elements.
    pub open spec fn wf(&self) -> bool {
        self.elems().len() == self.nrows() * self.ncols()
    }

    /// The element at row `i`, column `j`.
    pub open spec fn at(&self, i: int, j: int) -> T {
        self.elems()[i * self.ncols() + j]
    }

    pub open spec fn same_shape<U>(&self, o: &Matrix<U>) -> bool {
        self.nrows() == o.nrows() && self.ncols() == o.ncols()
    }

    /// Wraps a row-major buffer; fails unless it holds `rows * cols` elements.
    pub fn new(rows: usize, cols: usize, data: Vec<T>) -> (r: Result<Matrix<T>, NetError>)
        ensures
            r is Ok <==> data@.len() == rows * cols,
            r matches Ok(m) ==> m.wf() && m.nrows() == rows && m.ncols() == cols && m.elems()
                == data@,
            r matches Err(e) ==> e == NetError::ShapeMismatch,
    {
        if cols == 0 {
            if data.len() == 0 {
                proof {
                    assert(rows * 0 == 0) by (nonlinear_arith);
                }
                return Ok(Matrix { rows, cols, data });
            } else {
                proof {
                    assert(rows * 0 == 0) by (nonlinear_arith);
                }
                return Err(NetError::ShapeMismatch);
            }
        }
        if data.len() / cols == rows && data.len() % cols == 0 {
            proof {
                let l = data@.len() as int;
                assert(l == (l / cols as int) * cols as int + l % cols as int) by (nonlinear_arith)
                    requires
                        cols > 0,
                ;
                assert(rows * cols == cols * rows) by (nonlinear_arith);
            }
            Ok(Matrix { rows, cols, data })
        } else {
            proof {
                if data@.len() == rows * cols {
                    let l = data@.len() as int;
                    assert(l / cols as int == rows && l % cols as int == 0) by (nonlinear_arith)
                        requires
                            cols > 0,
                            l == rows * cols,
                    ;
                }
            }
            Err(NetError::ShapeMismatch)
        }
    }

    /// Whether the buffer holds exactly `rows * cols` elements.
    pub fn check_wf(&self) -> (r: bool)
        ensures
            r == self.wf(),
    {
        if self.cols == 0 {
            proof {
                assert(self.rows * 0 == 0) by (nonlinear_arith);
            }
            return self.data.len() == 0;
        }
        let l = self.data.len();
        proof {
            let li = l as int;
            let c = self.cols as int;
            assert(li == (li / c) * c + li % c) by (nonlinear_arith)
                requires
                    c > 0,
            ;
            if li == self.rows * c {
                assert(li / c == self.rows && li % c == 0) by (nonlinear_arith)
                    requires
                        c > 0,
                        li == self.rows * c,
                ;
            }
            assert(self.rows * c == c * self.rows) by (nonlinear_arith);
        }
        l / self.cols == self.rows && l % self.cols == 0
    }

    /// Wraps a row-major buffer known to hold `rows * cols` elements.
    pub fn from_parts(rows: usize, cols: usize, data: Vec<T>) -> (r: Matrix<T>)
        requires
            data@.len() == rows * cols,
        ensures
            r.wf(),
            r.nrows() == rows,
            r.ncols() == cols,
            r.elems() == data@,
    {
        Matrix { rows, cols, data }
    }

    pub fn rows(&self) -> (r: usize)
        ensures
            r == self.nrows(),
    {
        self.rows
    }

    pub fn cols(&self) -> (r: usize)
        ensures
            r == self.ncols(),
    {
        self.cols
    }

    /// The elements, row after row.
    pub fn data(&self) -> (r: &Vec<T>)
        ensures
            r@ == self.elems(),
    {
        &self.data
    }

    /// Gives up the matrix for its row-major buffer.
    pub fn into_vec(self) -> (r: Vec<T>)
        ensures
            r@ == self.elems(),
    {
        self.data
    }
}

impl<T: Copy> Matrix<T> {
    /// An element-for-element copy.
    pub fn duplicate(&self) -> (r: Matrix<T>)
        ensures
            r.nrows() == self.nrows(),
            r.ncols() == self.ncols(),
            r.elems() == self.elems(),
    {
        let data = copy_vec(&self.data);
        Matrix { rows: self.rows, cols: self.cols, data }
    }

    pub fn get(&self, i: usize, j: usize) -> (r: T)
        requires
            self.wf(),
            i < self.nrows(),
            j < self.ncols(),
        ensures
            r == self.at(i as int, j as int),
    {
        let n = self.data.len();
        proof {
            lemma_index_in_bounds(i as int, j as int, self.nrows() as int, self.ncols() as int);
            assert(i * self.cols + j < n);
        }
        self.data[i * self.cols + j]
    }

    /// The transpose: row `j`, column `i` of the result is row `i`, column `j`
    /// of `self`.
    pub fn transpose(&self) -> (r: Matrix<T>)
        requires
            self.wf(),
        ensures
            r.wf(),
            r.nrows() == self.ncols(),
            r.ncols() == self.nrows(),
            forall|i: int, j: int|
                0 <= i < self.ncols() && 0 <= j < self.nrows() ==> #[trigger] r.at(i, j)
                    == self.at(j, i),
    {
        let mut data: Vec<T> = Vec::new();
        let mut i: usize = 0;
        while i < self.cols
            invariant
                self.wf(),
                i <= self.cols,
                data@.len() == i * self.rows,
                forall|a: int, b: int|
                    0 <= a < i && 0 <= b < self.rows ==> #[trigger] data@[a * self.rows + b]
                        == self.at(b, a),
            decreases self.cols - i,
        {
            let mut j: usize = 0;
            while j < self.rows
                invariant
                    self.wf(),
                    i < self.cols,
                    j <= self.rows,
                    data@.len() == i * self.rows + j,
                    forall|a: int, b: int|
                        0 <= a < i && 0 <= b < self.rows ==> #[trigger] data@[a * self.rows + b]
                            == self.at(b, a),
                    forall|b: int| 0 <= b < j ==> #[trigger] data@[i * self.rows + b] == self.at(b, i as int),
                decreases self.rows - j,
            {
                let x = self.get(j, i);
                let ghost old_data = data@;
                data.push(x);
                proof {
                    assert forall|a: int, b: int|
                        0 <= a < i && 0 <= b < self.rows implies #[trigger] data@[a * self.rows + b]
                        == self.at(b, a) by {
                        lemma_index_in_bounds(a, b, i as int, self.rows as int);
                        assert(data@[a * self.rows + b] == old_data[a * self.rows + b]);
                    }
                    assert forall|b: int| 0 <= b < j + 1 implies #[trigger] data@[i * self.rows + b] == self.at(b, i as int) by {
                        if b < j {
                            assert(data@[i * self.rows + b] == old_data[i * self.rows + b]);
                        }
                    }
                }
                j = j + 1;
            }
            proof {
                assert((i + 1) * self.rows == i * self.rows + self.rows) by (nonlinear_arith);
                assert forall|a: int, b: int|
                    0 <= a < i + 1 && 0 <= b < self.rows implies #[trigger] data@[a * self.rows + b]
                    == self.at(b, a) by {
                    if a == i {
                        assert(data@[i * self.rows + b] == self.at(b, i as int));
                    }
                }
            }
            i = i + 1;
        }
        proof {
            assert(self.cols * self.rows == self.rows * self.cols) by (nonlinear_arith);
        }
        Matrix { rows: self.cols, cols: self.rows, data }
    }
}

impl<T: Scalar> Matrix<T> {
    /// The matrix with a first column of `T::one()` put before its columns:
    /// the constant input that the bias row of a weight matrix multiplies.
    pub fn with_bias(&self) -> (r: Matrix<T>)
        requires
            self.wf(),
            self.ncols() < usize::MAX,
        ensures
            r.wf(),
            r.nrows() == self.nrows(),
            r.ncols() == self.ncols() + 1,
            forall|i: int, j: int|
                0 <= i < self.nrows() && 0 <= j < self.ncols() ==> #[trigger] r.at(i, j + 1)
                    == self.at(i, j),
            forall|i: int| 0 <= i < self.nrows() ==> #[trigger] r.at(i, 0) == T::spec_one(),
    {
        let c = self.cols + 1;
        let mut data: Vec<T> = Vec::new();
        let mut i: usize = 0;
        while i < self.rows
            invariant
                self.wf(),
                c == self.cols + 1,
                i <= self.rows,
                data@.len() == i * c,
                forall|a: int, b: int|
                    0 <= a < i && 0 <= b < self.cols ==> #[trigger] data@[a * c + b + 1]
                        == self.at(a, b),
                forall|a: int| 0 <= a < i ==> #[trigger] data@[a * c] == T::spec_one(),
            decreases self.rows - i,
        {
            let ghost before = data@;
            data.push(T::one());
            proof {
                assert forall|a: int, b: int|
                    0 <= a < i && 0 <= b < self.cols implies #[trigger] data@[a * c + b + 1]
                    == self.at(a, b) by {
                    lemma_index_in_bounds(a, b + 1, i as int, c as int);
                    assert(data@[a * c + b + 1] == before[a * c + b + 1]);
                }
                assert forall|a: int| 0 <= a < i implies #[trigger] data@[a * c] == T::spec_one() by {
                    lemma_index_in_bounds(a, 0, i as int, c as int);
                    assert(data@[a * c] == before[a * c]);
                }
                assert(data@[i * c] == T::spec_one());
            }
            let mut j: usize = 0;
            while j < self.cols
                invariant
                    self.wf(),
                    c == self.cols + 1,
                    i < self.rows,
                    j <= self.cols,
                    data@.len() == i * c + j + 1,
                    forall|a: int, b: int|
                        0 <= a < i && 0 <= b < self.cols ==> #[trigger] data@[a * c + b + 1]
                            == self.at(a, b),
                    forall|b: int| 0 <= b < j ==> #[trigger] data@[i * c + b + 1] == self.at(i as int, b),
                    forall|a: int| 0 <= a < i ==> #[trigger] data@[a * c] == T::spec_one(),
                    data@[i * c] == T::spec_one(),
                decreases self.cols - j,
            {
                let x = self.get(i, j);
                let ghost old_data = data@;
                data.push(x);
                proof {
                    assert forall|a: int, b: int|
                        0 <= a < i && 0 <= b < self.cols implies #[trigger] data@[a * c + b + 1]
                        == self.at(a, b) by {
                        lemma_index_in_bounds(a, b + 1, i as int, c as int);
                        assert(data@[a * c + b + 1] == old_data[a * c + b + 1]);
                    }
                    assert forall|b: int| 0 <= b < j + 1 implies #[trigger] data@[i * c + b + 1] == self.at(i as int, b) by {
                        if b < j {
                            assert(data@[i * c + b + 1] == old_data[i * c + b + 1]);
                        }
                    }
                    assert forall|a: int| 0 <= a < i implies #[trigger] data@[a * c] == T::spec_one() by {
                        lemma_index_in_bounds(a, 0, i as int, c as int);
                        assert(data@[a * c] == old_data[a * c]);
                    }
                    assert(data@[i * c] == old_data[i * c]);
                }
                j = j + 1;
            }
            proof {
                assert((i + 1) * c == i * c + c) by (nonlinear_arith);
                assert forall|a: int| 0 <= a < i + 1 implies #[trigger] data@[a * c] == T::spec_one() by {
                    if a == i {
                        assert(data@[i * c] == T::spec_one());
                    }
                }
                assert forall|a: int, b: int|
                    0 <= a < i + 1 && 0 <= b < self.cols implies #[trigger] data@[a * c + b + 1]
                    == self.at(a, b) by {
                    if a == i {
                        assert(data@[i * c + b + 1] == self.at(i as int, b));
                    }
                }
            }
            i = i + 1;
        }
        let r = Matrix { rows: self.rows, cols: c, data };
        proof {
            assert(self.rows * c == i * c);
            assert forall|i: int, j: int|
                0 <= i < self.nrows() && 0 <= j < self.ncols() implies #[trigger] r.at(i, j + 1)
                == self.at(i, j) by {
                assert(i * c + (j + 1) == i * c + j + 1);
            }
            assert forall|i: int| 0 <= i < self.nrows() implies #[trigger] r.at(i, 0) == T::spec_one() by {
                assert(i * c + 0 == i * c);
            }
        }
        r
    }

    /// The matrix product `self * o`; fails with `ShapeMismatch` unless
    /// `self` has as many columns as `o` has rows.
    pub fn mat_mul(&self, o: &Matrix<T>) -> (r: Result<Matrix<T>, NetError>)
        requires
            self.wf(),
            o.wf(),
        ensures
            r is Ok <==> self.ncols() == o.nrows(),
            r matches Ok(m) ==> m.wf() && m.nrows() == self.nrows() && m.ncols() == o.ncols(),
            r matches Ok(m) ==> forall|i: int, j: int|
                0 <= i < self.nrows() && 0 <= j < o.ncols() ==> #[trigger] m.at(i, j) == dot(
                    *self,
                    *o,
                    i,
                    j,
                    self.ncols() as int,
                ),
            r matches Err(e) ==> e == NetError::ShapeMismatch,
    {
        if self.cols != o.rows {
            return Err(NetError::ShapeMismatch);
        }
        let mut data: Vec<T> = Vec::new();
        let mut i: usize = 0;
        while i < self.rows
            invariant
                self.wf(),
                o.wf(),
                self.cols == o.rows,
                i <= self.rows,
                data@.len() == i * o.cols,
                forall|a: int, b: int|
                    0 <= a < i && 0 <= b < o.cols ==> #[trigger] data@[a * o.cols + b] == dot(
                        *self,
                        *o,
                        a,
                        b,
                        self.cols as int,
                    ),
            decreases self.rows - i,
        {
            let mut j: usize = 0;
            while j < o.cols
                invariant
                    self.wf(),
                    o.wf(),
                    self.cols == o.rows,
                    i < self.rows,
                    j <= o.cols,
                    data@.len() == i * o.cols + j,
                    forall|a: int, b: int|
                        0 <= a < i && 0 <= b < o.cols ==> #[trigger] data@[a * o.cols + b] == dot(
                            *self,
                            *o,
                            a,
                            b,
                            self.cols as int,
                        ),
                    forall|b: int|
                        0 <= b < j ==> #[trigger] data@[i * o.cols + b] == dot(
                            *self,
                            *o,
                            i as int,
                            b,
                            self.cols as int,
                        ),
                decreases o.cols - j,
            {
                let mut acc = T::zero();
                let mut k: usize = 0;
                while k < self.cols
                    invariant
                        self.wf(),
                        o.wf(),
                        self.cols == o.rows,
                        i < self.rows,
                        j < o.cols,
                        k <= self.cols,
                        acc == dot(*self, *o, i as int, j as int, k as int),
                    decreases self.cols - k,
                {
                    let p = self.get(i, k).times(&o.get(k, j));
                    acc = acc.plus(&p);
                    k = k + 1;
                }
                let ghost old_data = data@;
                data.push(acc);
                proof {
                    assert forall|a: int, b: int|
                        0 <= a < i && 0 <= b < o.cols implies #[trigger] data@[a * o.cols + b]
                        == dot(*self, *o, a, b, self.cols as int) by {
                        lemma_index_in_bounds(a, b, i as int, o.cols as int);
                        assert(data@[a * o.cols + b] == old_data[a * o.cols + b]);
                    }
                    assert forall|b: int| 0 <= b < j + 1 implies #[trigger] data@[i * o.cols + b]
                        == dot(*self, *o, i as int, b, self.cols as int) by {
                        if b < j {
                            assert(data@[i * o.cols + b] == old_data[i * o.cols + b]);
                        }
                    }
                }
                j = j + 1;
            }
            proof {
                assert((i + 1) * o.cols == i * o.cols + o.cols) by (nonlinear_arith);
                assert forall|a: int, b: int|
                    0 <= a < i + 1 && 0 <= b < o.cols implies #[trigger] data@[a * o.cols + b]
                    == dot(*self, *o, a, b, self.cols as int) by {
                    if a == i {
                        assert(data@[i * o.cols + b] == dot(*self, *o, i as int, b, self.cols as int));
                    }
                }
            }
            i = i + 1;
        }
        Ok(Matrix { rows: self.rows, cols: o.cols, data })
    }

    /// Combines two matrices of one shape element by element; fails with
    /// `ShapeMismatch` when the shapes differ.
    pub fn zip(&self, o: &Matrix<T>, op: ZipOp) -> (r: Result<Matrix<T>, NetError>)
        requires
            self.wf(),
            o.wf(),
        ensures
            r is Ok <==> self.same_shape(o),
            r matches Ok(m) ==> m.wf() && m.same_shape(self),
            r matches Ok(m) ==> forall|k: int|
                0 <= k < m.elems().len() ==> #[trigger] m.elems()[k] == zip_spec(
                    op,
                    self.elems()[k],
                    o.elems()[k],
                ),
            r matches Err(e) ==> e == NetError::ShapeMismatch,
    {
        if self.rows != o.rows || self.cols != o.cols {
            return Err(NetError::ShapeMismatch);
        }
        let n = self.data.len();
        let mut data: Vec<T> = Vec::new();
        let mut k: usize = 0;
        while k < n
            invariant
                self.wf(),
                o.wf(),
                self.same_shape(o),
                n == self.elems().len(),
                k <= n,
                data@.len() == k,
                forall|t: int| 0 <= t < k ==> #[trigger] data@[t] == zip_spec(op, self.elems()[t], o.elems()[t]),
            decreases n - k,
        {
            let a = self.data[k];
            let b = o.data[k];
            let x = match op {
                ZipOp::Minus => a.minus(&b),
                ZipOp::Times => a.times(&b),
            };
            data.push(x);
            k = k + 1;
        }
        Ok(Matrix { rows: self.rows, cols: self.cols, data })
    }

    /// Applies an operation to every element.
    pub fn map(&self, op: MapOp) -> (r: Matrix<T>)
        requires
            self.wf(),
        ensures
            r.wf(),
            r.same_shape(self),
            forall|k: int| 0 <= k < r.elems().len() ==> #[trigger] r.elems()[k] == map_spec(op, self.elems()[k]),
    {
        let n = self.data.len();
        let mut data: Vec<T> = Vec::new();
        let mut k: usize = 0;
        while k < n
            invariant
                self.wf(),
                n == self.elems().len(),
                k <= n,
                data@.len() == k,
                forall|t: int| 0 <= t < k ==> #[trigger] data@[t] == map_spec(op, self.elems()[t]),
            decreases n - k,
        {
            let a = self.data[k];
            let x = match op {
                MapOp::Activation => a.activation(),
                MapOp::ActivationGrad => a.activation_grad(),
                MapOp::DivCount(c) => a.div_count(c),
            };
            data.push(x);
            k = k + 1;
        }
        Matrix { rows: self.rows, cols: self.cols, data }
    }
}

impl<T: Copy> Matrix<T> {
    /// The matrix without its first row (a weight matrix without its bias row).
    pub fn without_first_row(&self) -> (r: Matrix<T>)
        requires
            self.wf(),
            self.nrows() >= 1,
        ensures
            r.wf(),
            r.nrows() == self.nrows() - 1,
            r.ncols() == self.ncols(),
            r.elems() == self.elems().skip(self.ncols() as int),
    {
        let n = self.data.len();
        proof {
            assert(self.rows * self.cols == (self.rows - 1) * self.cols + self.cols) by (nonlinear_arith)
                requires
                    self.rows >= 1,
            ;
        }
        let mut data: Vec<T> = Vec::new();
        let mut k: usize = self.cols;
        while k < n
            invariant
                self.wf(),
                n == self.elems().len(),
                self.cols <= k <= n,
                data@ == self.elems().subrange(self.cols as int, k as int),
            decreases n - k,
        {
            data.push(self.data[k]);
            proof {
                assert(self.elems().subrange(self.cols as int, k + 1) =~= self.elems().subrange(self.cols as int, k as int).push(self.elems()[k as int]));
            }
            k = k + 1;
        }
        proof {
            assert(data@ =~= self.elems().skip(self.cols as int));
        }
        Matrix { rows: self.rows - 1, cols: self.cols, data }
    }
}

} // verus!
