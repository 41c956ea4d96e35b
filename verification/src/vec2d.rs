//! A two-dimensional table stored as one row-major buffer with a fixed
//! column count.

use vstd::prelude::*;
use vstd::slice::slice_index_get;
use vstd::slice::slice_subrange;

verus! {

/// A walker over the rows of a [`Vec2d`]; it owns its own copy of the table.
#[derive(Debug, Clone)]
pub struct Iter<T> {
    container: Vec2d<T>,
    pos: usize,
}

/// A row-major table: a flat element buffer plus the number of columns, `dim`.
#[derive(Debug, Clone)]
pub struct Vec2d<T> {
    vec: Vec<T>,
    dim: usize,
}

impl<T> Vec2d<T> {
    /// The flat element buffer, in row-major order.
    pub closed spec fn entries(&self) -> Seq<T> {
        self.vec@
    }

    /// The number of columns.
    pub closed spec fn width(&self) -> nat {
        self.dim as nat
    }

    /// The number of complete rows held by the buffer.
    pub open spec fn rows(&self) -> nat
        recommends
            self.width() > 0,
    {
        self.entries().len() / self.width()
    }

    /// The element in row `i`, column `j` of the row-major buffer.
    pub open spec fn cell(&self, i: int, j: int) -> T {
        self.entries()[i * self.width() as int + j]
    }

    /// The buffer always fits the machine's address range.
    pub proof fn lemma_entries_len(&self)
        ensures
            self.entries().len() <= usize::MAX,
    {
        broadcast use vstd::std_specs::vec::axiom_spec_len;

        assert(vstd::std_specs::vec::spec_vec_len(&self.vec) == self.vec@.len());
    }
}

/// A row index below the row count leaves the whole row inside the buffer.
pub proof fn lemma_row_end_in_bounds(len: int, w: int, i: int)
    requires
        w > 0,
        0 <= i,
        i < len / w,
    ensures
        i * w + w <= len,
{
    vstd::arithmetic::div_mod::lemma_fundamental_div_mod(len, w);
    vstd::arithmetic::div_mod::lemma_mod_bound(len, w);
    assert((i + 1) * w <= (len / w) * w) by (nonlinear_arith)
        requires
            i + 1 <= len / w,
            w > 0,
    ;
    assert(i * w + w == (i + 1) * w) by (nonlinear_arith);
}

impl<T: Copy> Iter<T> {
    pub fn new(container: Vec2d<T>) -> (r: Iter<T>)
        ensures
            r.container().entries() == container.entries(),
            r.container().width() == container.width(),
            r.pos() == 0,
    {
        Iter { container, pos: 0 }
    }
}

impl<T> Iter<T> {
    /// The table being walked.
    pub closed spec fn container(&self) -> Vec2d<T> {
        self.container
    }

    /// How many rows have been handed out so far.
    pub closed spec fn pos(&self) -> nat {
        self.pos as nat
    }
}

impl<T: Copy> Iter<T> {
    /// Hands out the first row of the container, advancing only the
    /// position counter.
    pub fn next(&mut self) -> (r: Option<Vec<T>>)
        requires
            old(self).pos() < usize::MAX,
        ensures
            final(self).container() == old(self).container(),
            final(self).pos() == old(self).pos() + 1 || (r is None && final(self).pos()
                == old(self).pos()),
            r is Some <==> old(self).container().width() <= old(self).container().entries().len(),
            r is Some ==> r->0@ == old(self).container().entries().take(
                old(self).container().width() as int,
            ),
    {
        let row = match self.container.get_row(0) {
            Some(s) => s,
            None => {
                return None;
            },
        };
        let mut item: Vec<T> = Vec::new();
        let mut i: usize = 0;
        while i < row.len()
            invariant
                i <= row.len(),
                item@ == row@.take(i as int),
            decreases row.len() - i,
        {
            item.push(row[i]);
            proof {
                assert(item@ =~= row@.take(i + 1 as int));
            }
            i += 1;
        }
        proof {
            assert(item@ =~= row@);
        }
        self.pos += 1;
        Some(item)
    }
}

impl<T: Copy> Vec2d<T> {
    /// An empty table with `dim` columns.
    pub fn new(dim: usize) -> (r: Vec2d<T>)
        ensures
            r.entries() == Seq::<T>::empty(),
            r.width() == dim,
    {
        Vec2d { vec: Vec::new(), dim }
    }

    /// Reads the buffer at the transposed offset `col * dim + row`.
    pub fn idx(&self, row: usize, col: usize) -> (r: T)
        requires
            col * self.width() + row < self.entries().len(),
        ensures
            r == self.entries()[col as int * self.width() as int + row as int],
    {
        let n = self.vec.len();
        proof {
            assert(col as int * self.width() as int <= col as int * self.width() as int
                + row as int);
        }
        let i = col * self.dim + row;
        self.vec[i]
    }

    /// Borrows row `idx`, or `None` when the buffer holds no complete such
    /// row.
    pub fn get_row(&self, idx: usize) -> (r: Option<&[T]>)
        ensures
            r is Some <==> idx * self.width() + self.width() <= self.entries().len(),
            r is Some ==> r->0@ == self.entries().subrange(
                idx as int * self.width() as int,
                idx as int * self.width() as int + self.width() as int,
            ),
    {
        let n = self.vec.len();
        let row_start = match idx.checked_mul(self.dim) {
            Some(s) => s,
            None => {
                proof {
                    assert(idx * self.width() + self.width() > usize::MAX);
                }
                return None;
            },
        };
        let row_end = match row_start.checked_add(self.dim) {
            Some(e) => e,
            None => {
                return None;
            },
        };
        if row_end > n {
            return None;
        }
        Some(slice_subrange(self.vec.as_slice(), row_start, row_end))
    }

    /// Copies out column `idx`, one element per complete row, or `None`
    /// when `idx` is no column.
    pub fn get_col(&self, idx: usize) -> (r: Option<Vec<T>>)
        requires
            self.width() > 0,
        ensures
            r is Some <==> idx < self.width(),
            r is Some ==> r->0@.len() == self.rows(),
            r is Some ==> forall|i: int|
                0 <= i < self.rows() ==> r->0@[i] == #[trigger] self.cell(i, idx as int),
    {
        if idx >= self.dim {
            return None;
        }
        let mut res: Vec<T> = Vec::new();
        let (rows, _cols) = self.shape();

        let mut i: usize = 0;
        while i < rows
            invariant
                idx < self.width(),
                0 < self.width(),
                rows == self.rows(),
                i <= rows,
                res@.len() == i,
                forall|k: int| 0 <= k < i ==> res@[k] == #[trigger] self.cell(k, idx as int),
            decreases rows - i,
        {
            proof {
                lemma_row_end_in_bounds(
                    self.entries().len() as int,
                    self.width() as int,
                    i as int,
                );
            }
            let row = match self.get_row(i) {
                Some(rw) => rw,
                None => {
                    proof {
                        assert(false);
                    }
                    return None;
                },
            };
            let e = row[idx];
            res.push(e);
            i += 1;
        }
        Some(res)
    }

    /// The pair `(rows, columns)`.
    pub fn shape(&self) -> (r: (usize, usize))
        requires
            self.width() > 0,
        ensures
            r.0 == self.rows(),
            r.1 == self.width(),
    {
        (self.vec.len() / self.dim, self.dim)
    }

    /// Appends one element to the buffer.
    pub fn push(&mut self, item: T)
        ensures
            final(self).entries() == old(self).entries().push(item),
            final(self).width() == old(self).width(),
    {
        self.vec.push(item);
    }

    /// Removes and returns the last element of the buffer.
    pub fn pop(&mut self) -> (r: Option<T>)
        ensures
            final(self).width() == old(self).width(),
            old(self).entries().len() == 0 ==> r is None && final(self).entries() == old(
                self,
            ).entries(),
            old(self).entries().len() > 0 ==> r == Some(old(self).entries().last())
                && final(self).entries() == old(self).entries().drop_last(),
    {
        self.vec.pop()
    }

    /// Removes the first row from the buffer and returns its elements in
    /// reverse order.
    pub fn pop_head(&mut self) -> (r: Vec<T>)
        requires
            0 < old(self).width() <= old(self).entries().len(),
        ensures
            final(self).width() == old(self).width(),
            final(self).entries() == old(self).entries().skip(old(self).width() as int),
            r@ == old(self).entries().take(old(self).width() as int).reverse(),
    {
        let (_rows, cols) = self.shape();
        let mut res: Vec<T> = Vec::new();
        let ghost orig = self.vec@;
        let mut i: usize = cols;
        while i > 0
            invariant
                cols == old(self).width(),
                cols <= orig.len(),
                i <= cols,
                self.dim == old(self).width(),
                self.vec@ == orig.take(i as int) + orig.skip(cols as int),
                res@.len() == cols - i,
                forall|k: int| 0 <= k < cols - i ==> res@[k] == orig[cols - 1 - k],
            decreases i,
        {
            i -= 1;
            let e = self.vec.remove(i);
            proof {
                assert(self.vec@ =~= orig.take(i as int) + orig.skip(cols as int));
            }
            res.push(e);
        }
        proof {
            assert(self.vec@ =~= orig.skip(cols as int));
            assert(res@ =~= orig.take(cols as int).reverse());
        }
        res
    }

    /// Appends every element of `items` to the buffer.
    pub fn push_slice(&mut self, items: &[T])
        ensures
            final(self).width() == old(self).width(),
            final(self).entries() == old(self).entries() + items@,
    {
        let mut i: usize = 0;
        while i < items.len()
            invariant
                i <= items@.len(),
                self.dim == old(self).width(),
                self.vec@ == old(self).entries() + items@.take(i as int),
            decreases items@.len() - i,
        {
            self.vec.push(*slice_index_get(items, i));
            proof {
                assert(self.vec@ =~= old(self).entries() + items@.take(i + 1 as int));
            }
            i += 1;
        }
        proof {
            assert(self.vec@ =~= old(self).entries() + items@);
        }
    }

    /// A fresh row walker over a copy of this table.
    pub fn into_iter(&self) -> (r: Iter<T>)
        ensures
            r.container().entries() == self.entries(),
            r.container().width() == self.width(),
            r.pos() == 0,
    {
        let mut copy: Vec2d<T> = Vec2d::new(self.dim);
        let mut i: usize = 0;
        while i < self.vec.len()
            invariant
                i <= self.entries().len(),
                copy.width() == self.width(),
                copy.entries() == self.entries().take(i as int),
            decreases self.entries().len() - i,
        {
            copy.push(self.vec[i]);
            proof {
                assert(copy.entries() =~= self.entries().take(i + 1 as int));
            }
            i += 1;
        }
        proof {
            assert(copy.entries() =~= self.entries());
        }
        Iter::new(copy)
    }

    /// Splits the table into all columns but the last, and the last column.
    pub fn split_right(&self) -> (r: (Vec2d<T>, Vec<T>))
        requires
            self.width() > 1,
        ensures
            r.0.width() == self.width() - 1,
            r.0.entries().len() == self.rows() * (self.width() - 1),
            r.1@.len() == self.rows(),
            forall|i: int, j: int|
                0 <= i < self.rows() && 0 <= j < self.width() - 1 ==> #[trigger] r.0.cell(i, j)
                    == self.cell(i, j),
            forall|i: int| 0 <= i < self.rows() ==> r.1@[i] == #[trigger] self.cell(i, self.width() - 1),
    {
        let (rows, cols) = self.shape();
        let mut left_cols: Vec2d<T> = Vec2d::<T>::new(cols - 1);
        let mut right_col: Vec<T> = Vec::new();

        let mut i: usize = 0;
        while i < rows
            invariant
                rows == self.rows(),
                cols == self.width(),
                cols > 1,
                i <= rows,
                left_cols.width() == cols - 1,
                left_cols.entries().len() == i * (cols - 1),
                right_col@.len() == i,
                forall|k: int, j: int|
                    0 <= k < i && 0 <= j < cols - 1 ==> #[trigger] left_cols.cell(k, j)
                        == self.cell(k, j),
                forall|k: int| 0 <= k < i ==> right_col@[k] == #[trigger] self.cell(k, cols - 1),
            decreases rows - i,
        {
            proof {
                lemma_row_end_in_bounds(self.entries().len() as int, cols as int, i as int);
            }
            let row = match self.get_row(i) {
                Some(rw) => rw,
                None => {
                    proof {
                        assert(false);
                    }
                    unreached()
                },
            };
            let ghost left_old = left_cols;
            let lefts = slice_subrange(row, 0, cols - 1);
            let right = *slice_index_get(row, cols - 1);
            left_cols.push_slice(lefts);
            right_col.push(right);
            proof {
                assert((i as int) * (cols as int - 1) + (cols as int - 1) == (i as int + 1) * (
                cols as int - 1)) by (nonlinear_arith);
                assert forall|k: int, j: int|
                    0 <= k < i + 1 && 0 <= j < cols - 1 implies #[trigger] left_cols.cell(k, j)
                    == self.cell(k, j) by {
                    if k < i {
                        assert(left_old.cell(k, j) == self.cell(k, j));
                        assert(0 <= k * (cols as int - 1) + j < i as int * (cols as int - 1)) by (
                        nonlinear_arith)
                            requires
                                0 <= k < i as int,
                                0 <= j < cols as int - 1,
                        ;
                        assert(left_cols.entries()[k * (cols as int - 1) + j]
                            == left_old.entries()[k * (cols as int - 1) + j]);
                    } else {
                        assert(k == i);
                        assert(left_cols.entries()[i as int * (cols as int - 1) + j] == lefts@[j]);
                    }
                }
            }
            i += 1;
        }
        (left_cols, right_col)
    }

    /// Splits the table into the first column, and all columns after it.
    pub fn split_left(&self) -> (r: (Vec<T>, Vec2d<T>))
        requires
            self.width() > 1,
        ensures
            r.1.width() == self.width() - 1,
            r.1.entries().len() == self.rows() * (self.width() - 1),
            r.0@.len() == self.rows(),
            forall|i: int, j: int|
                0 <= i < self.rows() && 0 <= j < self.width() - 1 ==> #[trigger] r.1.cell(i, j)
                    == self.cell(i, j + 1),
            forall|i: int| 0 <= i < self.rows() ==> r.0@[i] == #[trigger] self.cell(i, 0),
    {
        let (rows, cols) = self.shape();
        let mut right_cols: Vec2d<T> = Vec2d::<T>::new(cols - 1);
        let mut left_col: Vec<T> = Vec::new();

        let mut i: usize = 0;
        while i < rows
            invariant
                rows == self.rows(),
                cols == self.width(),
                cols > 1,
                i <= rows,
                right_cols.width() == cols - 1,
                right_cols.entries().len() == i * (cols - 1),
                left_col@.len() == i,
                forall|k: int, j: int|
                    0 <= k < i && 0 <= j < cols - 1 ==> #[trigger] right_cols.cell(k, j)
                        == self.cell(k, j + 1),
                forall|k: int| 0 <= k < i ==> left_col@[k] == #[trigger] self.cell(k, 0),
            decreases rows - i,
        {
            proof {
                lemma_row_end_in_bounds(self.entries().len() as int, cols as int, i as int);
            }
            let row = match self.get_row(i) {
                Some(rw) => rw,
                None => {
                    proof {
                        assert(false);
                    }
                    unreached()
                },
            };
            let ghost right_old = right_cols;
            let rights = slice_subrange(row, 1, cols);
            let left = *slice_index_get(row, 0);
            right_cols.push_slice(rights);
            left_col.push(left);
            proof {
                assert((i as int) * (cols as int - 1) + (cols as int - 1) == (i as int + 1) * (
                cols as int - 1)) by (nonlinear_arith);
                assert forall|k: int, j: int|
                    0 <= k < i + 1 && 0 <= j < cols - 1 implies #[trigger] right_cols.cell(k, j)
                    == self.cell(k, j + 1) by {
                    if k < i {
                        assert(right_old.cell(k, j) == self.cell(k, j + 1));
                        assert(0 <= k * (cols as int - 1) + j < i as int * (cols as int - 1)) by (
                        nonlinear_arith)
                            requires
                                0 <= k < i as int,
                                0 <= j < cols as int - 1,
                        ;
                        assert(right_cols.entries()[k * (cols as int - 1) + j]
                            == right_old.entries()[k * (cols as int - 1) + j]);
                    } else {
                        assert(k == i);
                        assert(right_cols.entries()[i as int * (cols as int - 1) + j] == rights@[j]);
                    }
                }
            }
            i += 1;
        }
        (left_col, right_cols)
    }
}

} // verus!
