//! A matrix stored column by column.
//!
//! A column holds one frame of a signal: one number per channel.

use crate::num::{lawful, zeros, Scalar};
use vstd::arithmetic::div_mod::*;
use vstd::arithmetic::mul::*;
use vstd::prelude::*;

verus! {

/// A column-major matrix.
pub struct Mat<S> {
    /// Numbers per column.
    pub rows: usize,
    /// Number of columns.
    pub cols: usize,
    /// The columns, one after the other.
    pub data: Vec<S>,
}

/// Where column `c` of a matrix with `rows` rows holds row `r`.
pub open spec fn cell(rows: int, c: int, r: int) -> int {
    c * rows + r
}

/// The frames that a flat buffer of `cols` columns holds.
pub open spec fn unflatten<S>(data: Seq<S>, rows: nat, cols: nat) -> Seq<Seq<S>> {
    Seq::new(cols, |c: int| Seq::new(rows, |r: int| data[cell(rows as int, c, r)]))
}

/// `cols` frames of `rows` zeros each.
pub open spec fn silence<S: Scalar>(rows: nat, cols: nat) -> Seq<Seq<S>> {
    Seq::new(cols, |c: int| zeros::<S>(rows))
}

/// Every place of a buffer is that of a cell.
pub proof fn lemma_place(rows: int, cols: int, p: int)
    requires
        0 <= p < cols * rows,
        0 <= rows,
    ensures
        0 < rows,
        0 <= p / rows < cols,
        0 <= p % rows < rows,
        cell(rows, p / rows, p % rows) == p,
{
    lemma_mul_basics(cols);
    lemma_fundamental_div_mod(p, rows);
    lemma_mul_is_commutative(rows, p / rows);
    lemma_div_pos_is_pos(p, rows);
    assert(p / rows < cols) by (nonlinear_arith)
        requires
            0 < rows,
            p / rows * rows <= p,
            p < cols * rows,
    ;
}

/// A cell lies inside the buffer, and different cells lie at different places.
pub proof fn lemma_cell(rows: int, cols: int, c: int, r: int)
    requires
        0 <= c < cols,
        0 <= r < rows,
    ensures
        0 <= cell(rows, c, r) < cols * rows,
        c * rows <= cell(rows, c, r) < (c + 1) * rows,
        (c + 1) * rows <= cols * rows,
        cell(rows, c, r) / rows == c,
        cell(rows, c, r) % rows == r,
{
    lemma_mul_inequality(c + 1, cols, rows);
    lemma_mul_is_distributive_add_other_way(rows, c, 1);
    lemma_mul_nonnegative(c, rows);
    vstd::arithmetic::div_mod::lemma_fundamental_div_mod_converse(c * rows + r, rows, c, r);
}

impl<S> Mat<S> {
    /// The buffer holds exactly the columns.
    pub open spec fn wf(&self) -> bool {
        self.data@.len() == self.cols * self.rows
    }

    /// The matrix has this shape.
    pub open spec fn shaped(&self, rows: nat, cols: nat) -> bool {
        &&& self.wf()
        &&& self.rows == rows
        &&& self.cols == cols
    }

    /// The first `n` frames.
    pub open spec fn left(&self, n: int) -> Seq<Seq<S>> {
        self@.take(n)
    }

    /// The frames from the `n`-th on.
    pub open spec fn right(&self, n: int) -> Seq<Seq<S>> {
        self@.skip(n)
    }
}

impl<S> View for Mat<S> {
    type V = Seq<Seq<S>>;

    open spec fn view(&self) -> Seq<Seq<S>> {
        unflatten(self.data@, self.rows as nat, self.cols as nat)
    }
}

impl<S: Scalar> Mat<S> {
    /// A matrix of zeros.
    pub fn new(rows: usize, cols: usize) -> (r: Self)
        requires
            lawful::<S>(),
            cols * rows <= usize::MAX,
        ensures
            r.shaped(rows as nat, cols as nat),
            r@ == silence::<S>(rows as nat, cols as nat),
    {
        let mut data: Vec<S> = Vec::new();
        proof {
            lemma_mul_is_commutative(cols as int, rows as int);
        }
        fill_zeros(&mut data, rows * cols);
        let r = Mat { rows, cols, data };
        proof {
            lemma_silent(r.data@, rows as nat, cols as nat);
        }
        r
    }

    /// Number of rows.
    pub fn rows(&self) -> (r: usize)
        ensures
            r == self.rows,
    {
        self.rows
    }

    /// Resize and zero.
    pub fn reset(&mut self, rows: usize, cols: usize)
        requires
            lawful::<S>(),
            cols * rows <= usize::MAX,
        ensures
            final(self).shaped(rows as nat, cols as nat),
            final(self)@ == silence::<S>(rows as nat, cols as nat),
    {
        self.rows = rows;
        self.cols = cols;
        proof {
            lemma_mul_is_commutative(cols as int, rows as int);
        }
        fill_zeros(&mut self.data, rows * cols);
        proof {
            lemma_silent(self.data@, rows as nat, cols as nat);
        }
    }

    /// Zero every entry.
    pub fn zero(&mut self)
        requires
            lawful::<S>(),
            old(self).wf(),
        ensures
            final(self).shaped(old(self).rows as nat, old(self).cols as nat),
            final(self)@ == silence::<S>(old(self).rows as nat, old(self).cols as nat),
    {
        let n = self.data.len();
        fill_zeros(&mut self.data, n);
        proof {
            lemma_silent(self.data@, self.rows as nat, self.cols as nat);
        }
    }

    /// Read row `r` of column `c`.
    pub fn get(&self, r: usize, c: usize) -> (v: S)
        requires
            self.wf(),
            r < self.rows,
            c < self.cols,
        ensures
            v == self@[c as int][r as int],
    {
        proof {
            lemma_cell(self.rows as int, self.cols as int, c as int, r as int);
            assert(self.data.len() <= usize::MAX);
        }
        self.data[c * self.rows + r]
    }

    /// Write row `r` of column `c`.
    pub fn set(&mut self, r: usize, c: usize, v: S)
        requires
            old(self).wf(),
            r < old(self).rows,
            c < old(self).cols,
        ensures
            final(self).shaped(old(self).rows as nat, old(self).cols as nat),
            final(self)@ == old(self)@.update(
                c as int,
                old(self)@[c as int].update(r as int, v),
            ),
    {
        proof {
            lemma_cell(self.rows as int, self.cols as int, c as int, r as int);
            assert(self.data.len() <= usize::MAX);
        }
        self.data.set(c * self.rows + r, v);
        proof {
            let rows = self.rows as int;
            let cols = self.cols as int;
            let want = old(self)@.update(c as int, old(self)@[c as int].update(r as int, v));
            assert forall|i: int| 0 <= i < cols implies #[trigger] self@[i] == want[i] by {
                assert forall|j: int| 0 <= j < rows implies self@[i][j] == want[i][j] by {
                    lemma_cell(rows, cols, i, j);
                    lemma_cell(rows, cols, c as int, r as int);
                }
                assert(self@[i] =~= want[i]);
            }
            assert(self@ =~= want);
        }
    }

    /// One full column.
    pub fn col(&self, c: usize) -> (r: &[S])
        requires
            self.wf(),
            c < self.cols,
        ensures
            r@ == self@[c as int],
            r@.len() == self.rows,
    {
        proof {
            lemma_mul_inequality(c + 1, self.cols as int, self.rows as int);
            lemma_mul_is_distributive_add_other_way(self.rows as int, c as int, 1);
            lemma_mul_nonnegative(c as int, self.rows as int);
            assert(self.data.len() <= usize::MAX);
        }
        let start = c * self.rows;
        let r = vstd::slice::slice_subrange(self.data.as_slice(), start, start + self.rows);
        assert(r@ =~= self@[c as int]);
        r
    }

    /// Replace one column.
    pub fn put_col(&mut self, c: usize, x: &[S])
        requires
            old(self).wf(),
            c < old(self).cols,
            x@.len() == old(self).rows,
        ensures
            final(self).shaped(old(self).rows as nat, old(self).cols as nat),
            final(self)@ == old(self)@.update(c as int, x@),
    {
        let mut r: usize = 0;
        assert(self@ =~~= old(self)@.update(
            c as int,
            Seq::new(
                self.rows as nat,
                |j: int| if j < r { x@[j] } else { old(self)@[c as int][j] },
            ),
        ));
        while r < self.rows
            invariant
                self.shaped(old(self).rows as nat, old(self).cols as nat),
                c < self.cols,
                r <= self.rows,
                x@.len() == self.rows,
                self@ == old(self)@.update(
                    c as int,
                    Seq::new(
                        self.rows as nat,
                        |j: int| if j < r { x@[j] } else { old(self)@[c as int][j] },
                    ),
                ),
            decreases self.rows - r,
        {
            self.set(r, c, x[r]);
            r += 1;
            proof {
                assert(self@ =~~= old(self)@.update(
                    c as int,
                    Seq::new(
                        self.rows as nat,
                        |j: int| if j < r { x@[j] } else { old(self)@[c as int][j] },
                    ),
                ));
            }
        }
        assert(self@ =~~= old(self)@.update(c as int, x@));
    }

    /// The first `n` columns, one after the other.
    pub fn left_cols_mut(&mut self, n: usize) -> (r: &mut [S])
        requires
            old(self).wf(),
            n <= old(self).cols,
        ensures
            n * old(self).rows <= old(self).data@.len(),
            r@ == old(self).data@.take(n * old(self).rows),
            final(self).rows == old(self).rows,
            final(self).cols == old(self).cols,
            final(self).data@ == final(r)@ + old(self).data@.skip(n * old(self).rows),
    {
        proof {
            lemma_mul_inequality(n as int, self.cols as int, self.rows as int);
            lemma_mul_nonnegative(n as int, self.rows as int);
            assert(self.data.len() <= usize::MAX);
        }
        let (r, _) = self.data.as_mut_slice().split_at_mut(n * self.rows);
        r
    }

    /// Copy column `from` onto column `to`.
    pub fn copy_col(&mut self, from: usize, to: usize)
        requires
            old(self).wf(),
            from < old(self).cols,
            to < old(self).cols,
        ensures
            final(self).shaped(old(self).rows as nat, old(self).cols as nat),
            final(self)@ == old(self)@.update(to as int, old(self)@[from as int]),
    {
        let mut r: usize = 0;
        let ghost x = old(self)@[from as int];
        assert(self@ =~~= old(self)@.update(
            to as int,
            Seq::new(
                self.rows as nat,
                |j: int| if j < r { x[j] } else { old(self)@[to as int][j] },
            ),
        ));
        while r < self.rows
            invariant
                self.shaped(old(self).rows as nat, old(self).cols as nat),
                from < self.cols,
                to < self.cols,
                r <= self.rows,
                x == old(self)@[from as int],
                self@ == old(self)@.update(
                    to as int,
                    Seq::new(
                        self.rows as nat,
                        |j: int| if j < r { x[j] } else { old(self)@[to as int][j] },
                    ),
                ),
            decreases self.rows - r,
        {
            let v = self.get(r, from);
            self.set(r, to, v);
            r += 1;
            proof {
                assert(self@ =~~= old(self)@.update(
                    to as int,
                    Seq::new(
                        self.rows as nat,
                        |j: int| if j < r { x[j] } else { old(self)@[to as int][j] },
                    ),
                ));
            }
        }
        assert(self@ =~~= old(self)@.update(to as int, x));
    }
}

/// Make a buffer hold `n` zeros.
fn fill_zeros<S: Scalar>(data: &mut Vec<S>, n: usize)
    requires
        lawful::<S>(),
    ensures
        final(data)@ == zeros::<S>(n as nat),
{
    data.clear();
    let mut i: usize = 0;
    while i < n
        invariant
            lawful::<S>(),
            i <= n,
            data@ == zeros::<S>(i as nat),
        decreases n - i,
    {
        data.push(S::zero());
        i += 1;
        assert(data@ =~= zeros::<S>(i as nat));
    }
}

/// A buffer of zeros holds silent frames.
proof fn lemma_silent<S: Scalar>(data: Seq<S>, rows: nat, cols: nat)
    requires
        data == zeros::<S>(cols * rows),
    ensures
        unflatten(data, rows, cols) == silence::<S>(rows, cols),
{
    let a = unflatten(data, rows, cols);
    let b = silence::<S>(rows, cols);
    assert forall|c: int| 0 <= c < cols implies #[trigger] a[c] == b[c] by {
        assert forall|r: int| 0 <= r < rows implies a[c][r] == b[c][r] by {
            lemma_cell(rows as int, cols as int, c, r);
        }
        assert(a[c] =~= b[c]);
    }
    assert(a =~= b);
}

} // verus!
