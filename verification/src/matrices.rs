//! Matrices of field elements.

use vstd::prelude::*;

use crate::expression::Expression;
use crate::gadget_traits::expression_values;
use crate::field::{field_add, field_mul, Element, Field};

verus! {

/// `sum_j row[j] * v[j]` in `F_p`, over the entries of `row`.
pub open spec fn dot(row: Seq<nat>, v: Seq<nat>, p: nat) -> nat
    decreases row.len(),
{
    if row.len() == 0 {
        0
    } else {
        field_add(dot(row.drop_last(), v, p), field_mul(row.last(), v[row.len() - 1], p), p)
    }
}

/// The matrix-vector product: entry `i` is `sum_j rows[i][j] * v[j]` in `F_p`.
pub open spec fn mat_vec(rows: Seq<Seq<nat>>, v: Seq<nat>, p: nat) -> Seq<nat> {
    Seq::new(rows.len(), |i: int| dot(rows[i], v, p))
}

/// The values of a row of elements.
pub open spec fn row_values<F: Field>(row: Seq<Element<F>>) -> Seq<nat> {
    row.map_values(|e: Element<F>| e@)
}

/// A copy of a row of elements.
fn copy_row<F: Field>(row: &Vec<Element<F>>) -> (r: Vec<Element<F>>)
    ensures
        r@.len() == row@.len(),
        forall|k: int| 0 <= k < r@.len() ==> #[trigger] r@[k]@ == row@[k]@,
{
    copy_row_slice(row.as_slice())
}

/// A copy of a slice of elements.
fn copy_row_slice<F: Field>(row: &[Element<F>]) -> (r: Vec<Element<F>>)
    ensures
        r@.len() == row@.len(),
        forall|k: int| 0 <= k < r@.len() ==> #[trigger] r@[k]@ == row@[k]@,
{
    let mut out: Vec<Element<F>> = Vec::new();
    let mut j: usize = 0;
    while j < row.len()
        invariant
            j <= row@.len(),
            out@.len() == j,
            forall|k: int| 0 <= k < j ==> #[trigger] out@[k]@ == row@[k]@,
        decreases row@.len() - j,
    {
        out.push(row[j].copy());
        j += 1;
    }
    out
}

/// A matrix of prime field elements.
#[derive(Debug)]
pub struct ElementMatrix<F: Field> {
    rows: Vec<Vec<Element<F>>>,
}

impl<F: Field> ElementMatrix<F> {
    /// The rows, as values.
    pub closed spec fn spec_rows(&self) -> Seq<Seq<nat>> {
        self.rows@.map_values(|row: Vec<Element<F>>| row_values(row@))
    }

    /// The number of columns.
    pub closed spec fn spec_cols(&self) -> nat {
        self.rows@[0]@.len()
    }

    /// There is at least one row, and all rows have the same length.
    #[verifier::type_invariant]
    spec fn inv(&self) -> bool {
        &&& self.rows@.len() > 0
        &&& forall|i: int| 0 <= i < self.rows@.len() ==> #[trigger] self.rows@[i]@.len() == self.rows@[0]@.len()
    }

    /// A matrix with the given rows, which must be at least one and of uniform length.
    pub fn new(rows: Vec<Vec<Element<F>>>) -> (r: Self)
        requires
            rows@.len() > 0,
            forall|i: int| 0 <= i < rows@.len() ==> #[trigger] rows@[i]@.len() == rows@[0]@.len(),
        ensures
            r.spec_rows() == rows@.map_values(|row: Vec<Element<F>>| row_values(row@)),
            r.spec_cols() == rows@[0]@.len(),
    {
        ElementMatrix { rows }
    }

    /// The number of rows.
    pub fn num_rows(&self) -> (r: usize)
        ensures
            r == self.spec_rows().len(),
    {
        self.rows.len()
    }

    pub fn copy(&self) -> (r: Self)
        ensures
            r.spec_rows() == self.spec_rows(),
            r.spec_cols() == self.spec_cols(),
    {
        proof {
            use_type_invariant(self);
        }
        let mut rows: Vec<Vec<Element<F>>> = Vec::new();
        let mut i: usize = 0;
        while i < self.rows.len()
            invariant
                i <= self.rows@.len(),
                rows@.len() == i,
                forall|k: int| 0 <= k < i ==> #[trigger] row_values(rows@[k]@) == row_values(self.rows@[k]@),
                forall|k: int| 0 <= k < i ==> #[trigger] rows@[k]@.len() == self.rows@[k]@.len(),
            decreases self.rows@.len() - i,
        {
            let row = &self.rows[i];
            let mut copy: Vec<Element<F>> = Vec::new();
            let mut j: usize = 0;
            while j < row.len()
                invariant
                    j <= row@.len(),
                    copy@.len() == j,
                    forall|k: int| 0 <= k < j ==> #[trigger] copy@[k]@ == row@[k]@,
                decreases row@.len() - j,
            {
                copy.push(row[j].copy());
                j += 1;
            }
            proof {
                assert(row_values(copy@) =~= row_values(row@));
            }
            rows.push(copy);
            i += 1;
        }
        let r = ElementMatrix { rows };
        proof {
            assert(r.spec_rows() =~= self.spec_rows());
        }
        r
    }

    /// The matrix-vector product with a vector of elements, one entry per column.
    pub fn mul_elements(&self, rhs: &[Element<F>]) -> (r: Vec<Element<F>>)
        requires
            rhs@.len() == self.spec_cols(),
        ensures
            r@.len() == self.spec_rows().len(),
            forall|i: int|
                0 <= i < r@.len() ==> #[trigger] r@[i]@ == dot(
                    self.spec_rows()[i],
                    row_values(rhs@),
                    F::modulus(),
                ),
    {
        proof {
            use_type_invariant(self);
        }
        let ghost v = row_values(rhs@);
        let n = self.rows.len();
        let mut out: Vec<Element<F>> = Vec::new();
        let mut i: usize = 0;
        while i < n
            invariant
                i <= n,
                n == self.rows@.len(),
                v == row_values(rhs@),
                rhs@.len() == self.spec_cols(),
                forall|k: int| 0 <= k < self.rows@.len() ==> #[trigger] self.rows@[k]@.len() == self.rows@[0]@.len(),
                out@.len() == i,
                forall|k: int|
                    0 <= k < i ==> #[trigger] out@[k]@ == dot(self.spec_rows()[k], v, F::modulus()),
            decreases n - i,
        {
            let row = &self.rows[i];
            let ghost rv = row_values(row@);
            let mut sum = Element::zero();
            let mut j: usize = 0;
            proof {
                assert(rv.take(0) =~= Seq::<nat>::empty());
            }
            while j < row.len()
                invariant
                    j <= row@.len(),
                    row@.len() == rhs@.len(),
                    rv == row_values(row@),
                    v == row_values(rhs@),
                    sum@ == dot(rv.take(j as int), v, F::modulus()),
                decreases row@.len() - j,
            {
                proof {
                    assert(rv.take(j + 1).drop_last() =~= rv.take(j as int));
                    assert(rv.take(j + 1).last() == row@[j as int]@);
                }
                sum = sum.add(&row[j].mul(&rhs[j]));
                j += 1;
            }
            proof {
                assert(rv.take(row@.len() as int) =~= rv);
                assert(self.spec_rows()[i as int] == rv);
            }
            out.push(sum);
            i += 1;
        }
        out
    }

    /// A vector `y` with `self * y = rhs`, found by Gauss-Jordan elimination; `None` when the
    /// matrix is not square with one row per entry of `rhs`, or elimination meets a column with no
    /// non-zero pivot. A solution is returned only after it was checked.
    pub fn solve(&self, rhs: &[Element<F>]) -> (r: Option<Vec<Element<F>>>)
        ensures
            r matches Some(y) ==> y@.len() == self.spec_cols() && mat_vec(
                self.spec_rows(),
                row_values(y@),
                F::modulus(),
            ) == row_values(rhs@),
    {
        proof {
            use_type_invariant(self);
        }
        let n = self.rows.len();
        if rhs.len() != n || self.rows[0].len() != n {
            return None;
        }
        let mut a: Vec<Vec<Element<F>>> = Vec::new();
        let mut i: usize = 0;
        while i < n
            invariant
                i <= n,
                n == self.rows@.len(),
                forall|k: int| 0 <= k < n ==> #[trigger] self.rows@[k]@.len() == n,
                a@.len() == i,
                forall|k: int| 0 <= k < i ==> #[trigger] a@[k]@.len() == n,
            decreases n - i,
        {
            a.push(copy_row(&self.rows[i]));
            i += 1;
        }
        let mut b: Vec<Element<F>> = copy_row_slice(rhs);
        let mut col: usize = 0;
        while col < n
            invariant
                col <= n,
                a@.len() == n,
                b@.len() == n,
                forall|k: int| 0 <= k < n ==> #[trigger] a@[k]@.len() == n,
            decreases n - col,
        {
            let mut piv: usize = col;
            while piv < n && !a[piv][col].is_nonzero()
                invariant
                    col <= piv <= n,
                    col < n,
                    a@.len() == n,
                    forall|k: int| 0 <= k < n ==> #[trigger] a@[k]@.len() == n,
                decreases n - piv,
            {
                piv += 1;
            }
            if piv == n {
                return None;
            }
            // Bring the pivot row to position `col`.
            let row_p = copy_row(&a[piv]);
            let row_c = copy_row(&a[col]);
            a.set(col, row_p);
            a.set(piv, row_c);
            let b_p = b[piv].copy();
            let b_c = b[col].copy();
            b.set(col, b_p);
            b.set(piv, b_c);
            // Scale the pivot row so that the pivot is 1.
            let inv = a[col][col].multiplicative_inverse();
            let mut scaled: Vec<Element<F>> = Vec::new();
            let mut j: usize = 0;
            while j < n
                invariant
                    j <= n,
                    col < n,
                    a@.len() == n,
                    forall|k: int| 0 <= k < n ==> #[trigger] a@[k]@.len() == n,
                    scaled@.len() == j,
                decreases n - j,
            {
                scaled.push(a[col][j].mul(&inv));
                j += 1;
            }
            a.set(col, scaled);
            let b_scaled = b[col].mul(&inv);
            b.set(col, b_scaled);
            // Clear the column in every other row.
            let mut r: usize = 0;
            while r < n
                invariant
                    r <= n,
                    col < n,
                    a@.len() == n,
                    b@.len() == n,
                    forall|k: int| 0 <= k < n ==> #[trigger] a@[k]@.len() == n,
                decreases n - r,
            {
                if r != col {
                    let f = a[r][col].copy();
                    let mut row: Vec<Element<F>> = Vec::new();
                    let mut j: usize = 0;
                    while j < n
                        invariant
                            j <= n,
                            r < n,
                            col < n,
                            a@.len() == n,
                            forall|k: int| 0 <= k < n ==> #[trigger] a@[k]@.len() == n,
                            row@.len() == j,
                        decreases n - j,
                    {
                        row.push(a[r][j].sub(&f.mul(&a[col][j])));
                        j += 1;
                    }
                    a.set(r, row);
                    let b_r = b[r].sub(&f.mul(&b[col]));
                    b.set(r, b_r);
                }
                r += 1;
            }
            col += 1;
        }
        // Check the solution.
        let product = self.mul_elements(b.as_slice());
        let mut k: usize = 0;
        while k < n
            invariant
                k <= n,
                n == rhs@.len(),
                product@.len() == n,
                n == self.spec_rows().len(),
                forall|q: int| 0 <= q < k ==> #[trigger] product@[q]@ == rhs@[q]@,
                forall|q: int|
                    0 <= q < n ==> #[trigger] product@[q]@ == dot(
                        self.spec_rows()[q],
                        row_values(b@),
                        F::modulus(),
                    ),
            decreases n - k,
        {
            if !product[k].equals(&rhs[k]) {
                return None;
            }
            k += 1;
        }
        proof {
            assert forall|q: int| 0 <= q < n implies #[trigger] mat_vec(self.spec_rows(), row_values(b@), F::modulus())[q]
                == row_values(rhs@)[q] by {
                assert(product@[q]@ == rhs@[q]@);
            }
            assert(mat_vec(self.spec_rows(), row_values(b@), F::modulus()) =~= row_values(rhs@));
        }
        Some(b)
    }

    /// The matrix-vector product with a vector of expressions, one entry per column.
    pub fn mul_expressions(&self, rhs: &[Expression<F>]) -> (r: Vec<Expression<F>>)
        requires
            rhs@.len() == self.spec_cols(),
        ensures
            r@.len() == self.spec_rows().len(),
            forall|i: int, vals: Map<u32, nat>|
                0 <= i < r@.len() ==> #[trigger] r@[i].eval(vals) == dot(
                    self.spec_rows()[i],
                    expression_values(rhs@, vals),
                    F::modulus(),
                ),
    {
        proof {
            use_type_invariant(self);
        }
        let n = self.rows.len();
        let mut out: Vec<Expression<F>> = Vec::new();
        let mut i: usize = 0;
        while i < n
            invariant
                i <= n,
                n == self.rows@.len(),
                rhs@.len() == self.spec_cols(),
                forall|k: int| 0 <= k < self.rows@.len() ==> #[trigger] self.rows@[k]@.len() == self.rows@[0]@.len(),
                out@.len() == i,
                forall|k: int, vals: Map<u32, nat>|
                    0 <= k < i ==> #[trigger] out@[k].eval(vals) == dot(
                        self.spec_rows()[k],
                        expression_values(rhs@, vals),
                        F::modulus(),
                    ),
            decreases n - i,
        {
            let row = &self.rows[i];
            let ghost rv = row_values(row@);
            let mut sum = Expression::zero();
            let mut j: usize = 0;
            proof {
                use_type_invariant(&sum);
                assert(rv.take(0) =~= Seq::<nat>::empty());
                assert forall|vals: Map<u32, nat>| #[trigger] sum.eval(vals) == dot(
                    rv.take(0),
                    expression_values(rhs@, vals),
                    F::modulus(),
                ) by {
                    vstd::arithmetic::div_mod::lemma_small_mod(0, F::modulus());
                }
            }
            while j < row.len()
                invariant
                    j <= row@.len(),
                    row@.len() == rhs@.len(),
                    rv == row_values(row@),
                    forall|vals: Map<u32, nat>|
                        #[trigger] sum.eval(vals) == dot(
                            rv.take(j as int),
                            expression_values(rhs@, vals),
                            F::modulus(),
                        ),
                decreases row@.len() - j,
            {
                let term = rhs[j].scale(&row[j]);
                let ghost before = sum;
                sum = sum.add(&term);
                proof {
                    assert(rv.take(j + 1).drop_last() =~= rv.take(j as int));
                    assert(rv.take(j + 1).last() == row@[j as int]@);
                    assert forall|vals: Map<u32, nat>| #[trigger] sum.eval(vals) == dot(
                        rv.take(j + 1),
                        expression_values(rhs@, vals),
                        F::modulus(),
                    ) by {
                        let ev = expression_values(rhs@, vals);
                        assert(before.eval(vals) == dot(rv.take(j as int), ev, F::modulus()));
                        assert(term.eval(vals) == (row@[j as int]@ * rhs@[j as int].eval(vals)) % F::modulus());
                        assert(ev[j as int] == rhs@[j as int].eval(vals));
                    }
                }
                j += 1;
            }
            proof {
                assert(rv.take(row@.len() as int) =~= rv);
                assert(self.spec_rows()[i as int] == rv);
            }
            out.push(sum);
            i += 1;
        }
        out
    }
}

/// A Maximum Distance Separable matrix.
#[derive(Debug)]
pub struct MdsMatrix<F: Field> {
    matrix: ElementMatrix<F>,
}

impl<F: Field> MdsMatrix<F> {
    /// The rows, as values.
    pub closed spec fn spec_rows(&self) -> Seq<Seq<nat>> {
        self.matrix.spec_rows()
    }

    /// The number of columns.
    pub closed spec fn spec_cols(&self) -> nat {
        self.matrix.spec_cols()
    }

    /// A matrix with the given rows, which must be at least one and of uniform length. The MDS property is not checked.
    pub fn new(rows: Vec<Vec<Element<F>>>) -> (r: Self)
        requires
            rows@.len() > 0,
            forall|i: int| 0 <= i < rows@.len() ==> #[trigger] rows@[i]@.len() == rows@[0]@.len(),
        ensures
            r.spec_rows() == rows@.map_values(|row: Vec<Element<F>>| row_values(row@)),
            r.spec_cols() == rows@[0]@.len(),
    {
        MdsMatrix { matrix: ElementMatrix::new(rows) }
    }

    /// The number of rows.
    pub fn num_rows(&self) -> (r: usize)
        ensures
            r == self.spec_rows().len(),
    {
        self.matrix.num_rows()
    }

    pub fn copy(&self) -> (r: Self)
        ensures
            r.spec_rows() == self.spec_rows(),
            r.spec_cols() == self.spec_cols(),
    {
        MdsMatrix { matrix: self.matrix.copy() }
    }

    /// The matrix-vector product with a vector of elements (see `ElementMatrix::mul_elements`).
    pub fn mul_elements(&self, rhs: &[Element<F>]) -> (r: Vec<Element<F>>)
        requires
            rhs@.len() == self.spec_cols(),
        ensures
            r@.len() == self.spec_rows().len(),
            forall|i: int|
                0 <= i < r@.len() ==> #[trigger] r@[i]@ == dot(
                    self.spec_rows()[i],
                    row_values(rhs@),
                    F::modulus(),
                ),
    {
        self.matrix.mul_elements(rhs)
    }

    /// A vector `y` with `self * y = rhs` (see `ElementMatrix::solve`).
    pub fn solve(&self, rhs: &[Element<F>]) -> (r: Option<Vec<Element<F>>>)
        ensures
            r matches Some(y) ==> y@.len() == self.spec_cols() && mat_vec(
                self.spec_rows(),
                row_values(y@),
                F::modulus(),
            ) == row_values(rhs@),
    {
        self.matrix.solve(rhs)
    }

    /// The matrix-vector product with a vector of expressions (see
    /// `ElementMatrix::mul_expressions`).
    pub fn mul_expressions(&self, rhs: &[Expression<F>]) -> (r: Vec<Expression<F>>)
        requires
            rhs@.len() == self.spec_cols(),
        ensures
            r@.len() == self.spec_rows().len(),
            forall|i: int, vals: Map<u32, nat>|
                0 <= i < r@.len() ==> #[trigger] r@[i].eval(vals) == dot(
                    self.spec_rows()[i],
                    expression_values(rhs@, vals),
                    F::modulus(),
                ),
    {
        self.matrix.mul_expressions(rhs)
    }
}

impl<F: Field> Clone for MdsMatrix<F> {
    fn clone(&self) -> (r: Self)
        ensures
            r.spec_rows() == self.spec_rows(),
            r.spec_cols() == self.spec_cols(),
    {
        self.copy()
    }
}

} // verus!
