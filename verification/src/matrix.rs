//! Square matrices of any kind of entry, and the operations on them that move
//! entries without computing with them.

use crate::canvas::Canvas;
use vstd::prelude::*;

verus! {

/// A square matrix. The entry in row `i` and column `j` is addressed as
/// `(i, j)`, both counted from 0.
#[derive(Debug)]
pub struct Matrix<T: Copy> {
    /// Row `i` of the matrix is row `i` of the canvas.
    cells: Canvas<T>,
}

/// The place in a matrix that place `i` of the matrix without row or column
/// `gap` comes from.
pub open spec fn skip(i: int, gap: int) -> int {
    if i < gap {
        i
    } else {
        i + 1
    }
}

/// Whether the minor at `(i, j)` enters a determinant with its sign changed:
/// it does where `i + j` is odd.
pub open spec fn is_odd_place(i: int, j: int) -> bool {
    (i + j) % 2 == 1
}

/// Whether the minor at `(i, j)` enters a determinant with its sign changed.
pub fn cofactor_changes_sign(i: usize, j: usize) -> (r: bool)
    ensures
        r == is_odd_place(i as int, j as int),
{
    (i % 2) != (j % 2)
}

impl<T: Copy> Clone for Matrix<T> {
    /// A matrix of the same size with the same entries.
    fn clone(&self) -> (m: Self)
        ensures
            m.spec_size() == self.spec_size(),
            forall|i: int, j: int| self.holds(i, j) ==> m.entry(i, j) == self.entry(i, j),
    {
        proof {
            use_type_invariant(self);
        }
        Matrix { cells: self.cells.clone() }
    }
}

impl<T: Copy> Matrix<T> {
    #[verifier::type_invariant]
    spec fn is_square(self) -> bool {
        self.cells.spec_width() == self.cells.spec_height()
    }

    /// Number of rows, and of columns.
    pub closed spec fn spec_size(&self) -> usize {
        self.cells.spec_height()
    }

    /// The entry in row `i` and column `j`.
    pub closed spec fn entry(&self, i: int, j: int) -> T {
        self.cells.pixel(j, i)
    }

    /// `(i, j)` addresses an entry of this matrix.
    pub open spec fn holds(&self, i: int, j: int) -> bool {
        0 <= i < self.spec_size() && 0 <= j < self.spec_size()
    }

    /// The rows of the matrix.
    pub open spec fn view_rows(&self) -> Seq<Seq<T>> {
        Seq::new(
            self.spec_size() as nat,
            |i: int| Seq::new(self.spec_size() as nat, |j: int| self.entry(i, j)),
        )
    }

    /// `self` is `other` mirrored at its diagonal.
    pub open spec fn is_transpose_of(&self, other: &Matrix<T>) -> bool {
        &&& self.spec_size() == other.spec_size()
        &&& forall|i: int, j: int| self.holds(i, j) ==> self.entry(i, j) == other.entry(j, i)
    }

    /// `self` is `other` without its row `row` and its column `col`.
    pub open spec fn is_sub_matrix_of(&self, other: &Matrix<T>, row: int, col: int) -> bool {
        &&& self.spec_size() + 1 == other.spec_size()
        &&& forall|i: int, j: int|
            self.holds(i, j) ==> self.entry(i, j) == other.entry(skip(i, row), skip(j, col))
    }

    /// A matrix with `fill` at every entry.
    pub fn new(size: usize, fill: T) -> (m: Matrix<T>)
        requires
            size * size <= usize::MAX,
        ensures
            m.spec_size() == size,
            forall|i: int, j: int| m.holds(i, j) ==> m.entry(i, j) == fill,
    {
        Matrix { cells: Canvas::new(size, size, fill) }
    }

    /// The matrix with `one` on the diagonal and `zero` everywhere else.
    pub fn identity(size: usize, zero: T, one: T) -> (m: Matrix<T>)
        requires
            size * size <= usize::MAX,
        ensures
            m.spec_size() == size,
            forall|i: int, j: int|
                m.holds(i, j) ==> m.entry(i, j) == (if i == j {
                    one
                } else {
                    zero
                }),
    {
        let mut m = Matrix::new(size, zero);
        let mut k: usize = 0;
        while k < size
            invariant
                0 <= k <= size,
                m.spec_size() == size,
                forall|i: int, j: int|
                    m.holds(i, j) ==> m.entry(i, j) == (if i == j && i < k {
                        one
                    } else {
                        zero
                    }),
            decreases size - k,
        {
            m.set(k, k, one);
            k += 1;
        }
        m
    }

    /// The matrix with the rows `rows`, if they make a square.
    pub fn from_rows(rows: &Vec<Vec<T>>) -> (r: Option<Matrix<T>>)
        ensures
            r is Some <==> (rows@.len() * rows@.len() <= usize::MAX && forall|i: int|
                0 <= i < rows@.len() ==> (#[trigger] rows@[i])@.len() == rows@.len()),
            r matches Some(m) ==> {
                &&& m.spec_size() == rows@.len()
                &&& forall|i: int, j: int| m.holds(i, j) ==> m.entry(i, j) == rows@[i]@[j]
            },
    {
        let n = rows.len();
        if n.checked_mul(n).is_none() {
            return None;
        }
        let mut i: usize = 0;
        while i < n
            invariant
                0 <= i <= n,
                n == rows@.len(),
                forall|k: int| 0 <= k < i ==> (#[trigger] rows@[k])@.len() == n,
            decreases n - i,
        {
            if rows[i].len() != n {
                return None;
            }
            i += 1;
        }
        if n == 0 {
            return Some(Matrix { cells: Canvas::empty() });
        }
        let mut m = Matrix::new(n, rows[0][0]);
        let mut i: usize = 0;
        while i < n
            invariant
                0 <= i <= n,
                n == rows@.len(),
                m.spec_size() == n,
                forall|k: int| 0 <= k < n ==> (#[trigger] rows@[k])@.len() == n,
                forall|a: int, b: int| m.holds(a, b) && a < i ==> m.entry(a, b) == rows@[a]@[b],
            decreases n - i,
        {
            let mut j: usize = 0;
            while j < n
                invariant
                    0 <= j <= n,
                    i < n,
                    n == rows@.len(),
                    m.spec_size() == n,
                    forall|k: int| 0 <= k < n ==> (#[trigger] rows@[k])@.len() == n,
                    forall|a: int, b: int|
                        m.holds(a, b) && (a < i || (a == i && b < j)) ==> m.entry(a, b)
                            == rows@[a]@[b],
                decreases n - j,
            {
                m.set(i, j, rows[i][j]);
                j += 1;
            }
            i += 1;
        }
        Some(m)
    }

    /// Number of rows, and of columns.
    #[verifier::when_used_as_spec(spec_size)]
    pub fn size(&self) -> (n: usize)
        ensures
            n == self.spec_size(),
    {
        self.cells.height()
    }

    /// The entry in row `i` and column `j`.
    pub fn get(&self, i: usize, j: usize) -> (val: T)
        requires
            self.holds(i as int, j as int),
        ensures
            val == self.entry(i as int, j as int),
    {
        proof {
            use_type_invariant(self);
        }
        self.cells.get_pixel(j, i)
    }

    /// Sets the entry in row `i` and column `j` and leaves every other entry as
    /// it was.
    pub fn set(&mut self, i: usize, j: usize, val: T)
        requires
            old(self).holds(i as int, j as int),
        ensures
            final(self).spec_size() == old(self).spec_size(),
            final(self).entry(i as int, j as int) == val,
            forall|a: int, b: int|
                old(self).holds(a, b) && (a != i || b != j) ==> final(self).entry(a, b) == old(
                    self,
                ).entry(a, b),
    {
        proof {
            use_type_invariant(&*self);
        }
        self.cells.write_pixel(j, i, val);
    }

    /// The entries above the diagonal in the rows before `i`, and in row `i`
    /// before column `j`, have changed places with their mirror images.
    spec fn mirrored_up_to(&self, start: &Matrix<T>, i: int, j: int) -> bool {
        &&& self.spec_size() == start.spec_size()
        &&& forall|a: int, b: int|
            self.holds(a, b) ==> self.entry(a, b) == (if (a < i && a <= b) || (b < i && b <= a) || (
            a == i && i < b < j) || (b == i && i < a < j) {
                start.entry(b, a)
            } else {
                start.entry(a, b)
            })
    }

    /// Mirrors the matrix at its diagonal: rows become columns.
    pub fn transpose(&mut self)
        ensures
            final(self).is_transpose_of(old(self)),
    {
        let n = self.size();
        let mut i: usize = 0;
        while i < n
            invariant
                0 <= i <= n,
                n == old(self).spec_size(),
                self.mirrored_up_to(old(self), i as int, 0),
            decreases n - i,
        {
            let mut j: usize = i + 1;
            while j < n
                invariant
                    i < j <= n,
                    n == old(self).spec_size(),
                    self.mirrored_up_to(old(self), i as int, j as int),
                decreases n - j,
            {
                let upper = self.get(i, j);
                let lower = self.get(j, i);
                self.set(i, j, lower);
                self.set(j, i, upper);
                j += 1;
            }
            i += 1;
        }
    }

    /// The matrix without its row `row` and its column `col`.
    pub fn sub_matrix(&self, row: usize, col: usize) -> (m: Matrix<T>)
        requires
            self.holds(row as int, col as int),
        ensures
            m.is_sub_matrix_of(self, row as int, col as int),
    {
        let n = self.size() - 1;
        let entries = self.cells.len();
        proof {
            use_type_invariant(self);
            assert(n * n <= (n + 1) * (n + 1)) by (nonlinear_arith)
                requires
                    0 <= n,
            ;
        }
        let mut m = Matrix::new(n, self.get(row, col));
        let mut i: usize = 0;
        while i < n
            invariant
                0 <= i <= n,
                n + 1 == self.spec_size(),
                row <= n,
                col <= n,
                m.spec_size() == n,
                forall|a: int, b: int|
                    m.holds(a, b) && a < i ==> m.entry(a, b) == self.entry(
                        skip(a, row as int),
                        skip(b, col as int),
                    ),
            decreases n - i,
        {
            let from_row = if i < row {
                i
            } else {
                i + 1
            };
            let mut j: usize = 0;
            while j < n
                invariant
                    0 <= j <= n,
                    i < n,
                    n + 1 == self.spec_size(),
                    row <= n,
                    col <= n,
                    from_row == skip(i as int, row as int),
                    m.spec_size() == n,
                    forall|a: int, b: int|
                        m.holds(a, b) && (a < i || (a == i && b < j)) ==> m.entry(a, b)
                            == self.entry(skip(a, row as int), skip(b, col as int)),
                decreases n - j,
            {
                let from_col = if j < col {
                    j
                } else {
                    j + 1
                };
                m.set(i, j, self.get(from_row, from_col));
                j += 1;
            }
            i += 1;
        }
        m
    }
}

/// Mirroring twice gives the matrix back.
pub proof fn lemma_transpose_twice<T: Copy>(a: Matrix<T>, b: Matrix<T>, c: Matrix<T>)
    requires
        b.is_transpose_of(&a),
        c.is_transpose_of(&b),
    ensures
        c.view_rows() == a.view_rows(),
{
    assert forall|i: int| 0 <= i < a.spec_size() implies c.view_rows()[i] == a.view_rows()[i] by {
        assert forall|j: int| 0 <= j < a.spec_size() implies c.entry(i, j) == a.entry(i, j) by {
            assert(c.holds(i, j));
            assert(b.holds(j, i));
        }
        assert(c.view_rows()[i] =~= a.view_rows()[i]);
    }
    assert(c.view_rows() =~= a.view_rows());
}

} // verus!
