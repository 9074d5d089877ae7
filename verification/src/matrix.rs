//! Rectangular matrices, addressed by row and column.
//!
//! The transforms of the renderer are square matrices of numbers; their
//! arithmetic — determinants, cofactors, inversion, products — is the
//! caller's numeric concern. What lives here is the shape of a matrix:
//! the row-by-row store, the identity layout, transposition, and the
//! submatrix that drops one row and one column, each pinned entry by
//! entry. The element type is left open; the renderer instantiates it
//! with its scalars.

use vstd::prelude::*;

verus! {

/// A `height x width` matrix addressed by `(row, column)`, stored row by
/// row in one flat block.
#[derive(Debug, Clone)]
pub struct Matrix<T> {
    width: usize,
    height: usize,
    value: Vec<T>,
}

impl<T> View for Matrix<T> {
    type V = Seq<T>;

    /// The flat store, row by row.
    closed spec fn view(&self) -> Seq<T> {
        self.value@
    }
}

impl<T: Copy> Matrix<T> {
    /// The number of columns.
    pub closed spec fn spec_width(self) -> int {
        self.width as int
    }

    /// The number of rows.
    pub closed spec fn spec_height(self) -> int {
        self.height as int
    }

    /// The store holds exactly one slot per position.
    pub closed spec fn wf(self) -> bool {
        self.value@.len() == self.spec_width() * self.spec_height()
    }

    /// The slot of row `y`, column `x` in the flat row-by-row store.
    pub open spec fn slot(self, y: int, x: int) -> int {
        y * self.spec_width() + x
    }

    /// The element at row `y`, column `x`.
    pub open spec fn entry(self, y: int, x: int) -> T {
        self@[self.slot(y, x)]
    }

    /// Every position addresses a slot inside the flat store.
    pub proof fn lemma_slot_in_store(self, y: int, x: int)
        requires
            self.wf(),
            0 <= x < self.spec_width(),
            0 <= y < self.spec_height(),
        ensures
            0 <= self.slot(y, x) < self@.len(),
    {
        assert(0 <= y * self.spec_width() + x < self.spec_width() * self.spec_height())
            by (nonlinear_arith)
            requires
                0 <= x < self.spec_width(),
                0 <= y < self.spec_height(),
        ;
    }

    /// Distinct positions address distinct slots.
    pub proof fn lemma_slot_distinct(self, y1: int, x1: int, y2: int, x2: int)
        requires
            0 <= x1 < self.spec_width(),
            0 <= y1 < self.spec_height(),
            0 <= x2 < self.spec_width(),
            0 <= y2 < self.spec_height(),
            !(y1 == y2 && x1 == x2),
        ensures
            self.slot(y1, x1) != self.slot(y2, x2),
    {
        assert(y1 * self.spec_width() + x1 != y2 * self.spec_width() + x2) by (nonlinear_arith)
            requires
                0 <= x1 < self.spec_width(),
                0 <= y1,
                0 <= x2 < self.spec_width(),
                0 <= y2,
                !(y1 == y2 && x1 == x2),
        ;
    }

    /// A fresh matrix with every element set to `fill`.
    pub fn new(width: usize, height: usize, fill: T) -> (m: Self)
        requires
            width * height <= usize::MAX,
        ensures
            m.wf(),
            m.spec_width() == width,
            m.spec_height() == height,
            forall|y: int, x: int|
                0 <= y < height && 0 <= x < width ==> #[trigger] m.entry(y, x) == fill,
    {
        let total: usize = width * height;
        let mut value: Vec<T> = Vec::new();
        let mut n: usize = 0;
        while n < total
            invariant
                n <= total,
                value@.len() == n,
                forall|t: int| 0 <= t < n ==> value@[t] == fill,
            decreases total - n,
        {
            value.push(fill);
            n = n + 1;
        }
        let m = Matrix { width, height, value };
        proof {
            assert forall|y: int, x: int|
                0 <= y < height && 0 <= x < width implies #[trigger] m.entry(y, x) == fill by {
                m.lemma_slot_in_store(y, x);
            }
        }
        m
    }

    /// The number of columns.
    pub fn width(&self) -> (w: usize)
        ensures
            w == self.spec_width(),
    {
        self.width
    }

    /// The number of rows.
    pub fn height(&self) -> (h: usize)
        ensures
            h == self.spec_height(),
    {
        self.height
    }

    /// The element at row `y`, column `x`.
    pub fn get(&self, y: usize, x: usize) -> (v: T)
        requires
            self.wf(),
            y < self.spec_height(),
            x < self.spec_width(),
        ensures
            v == self.entry(y as int, x as int),
    {
        proof {
            self.lemma_slot_in_store(y as int, x as int);
        }
        // The store length read as a `usize` bounds the slot arithmetic.
        let n: usize = self.value.len();
        self.value[y * self.width + x]
    }

    /// Replace the element at row `y`, column `x`, leaving every other
    /// element as it was.
    pub fn set(&mut self, y: usize, x: usize, v: T)
        requires
            old(self).wf(),
            y < old(self).spec_height(),
            x < old(self).spec_width(),
        ensures
            final(self).wf(),
            final(self).spec_width() == old(self).spec_width(),
            final(self).spec_height() == old(self).spec_height(),
            final(self).entry(y as int, x as int) == v,
            forall|yy: int, xx: int|
                0 <= yy < old(self).spec_height() && 0 <= xx < old(self).spec_width() && !(yy == y
                    && xx == x) ==> #[trigger] final(self).entry(yy, xx) == old(self).entry(yy, xx),
    {
        proof {
            self.lemma_slot_in_store(y as int, x as int);
        }
        // The store length read as a `usize` bounds the slot arithmetic.
        let n: usize = self.value.len();
        let idx: usize = y * self.width + x;
        self.value.set(idx, v);
        proof {
            assert forall|yy: int, xx: int|
                0 <= yy < old(self).spec_height() && 0 <= xx < old(self).spec_width() && !(yy
                    == y && xx == x) implies #[trigger] self.entry(yy, xx) == old(self).entry(
                yy,
                xx,
            ) by {
                old(self).lemma_slot_in_store(yy, xx);
                old(self).lemma_slot_distinct(yy, xx, y as int, x as int);
            }
        }
    }

    /// The square matrix with `one` on the diagonal and `zero` elsewhere.
    pub fn identity(dimension: usize, zero: T, one: T) -> (m: Self)
        requires
            dimension * dimension <= usize::MAX,
        ensures
            m.wf(),
            m.spec_width() == dimension,
            m.spec_height() == dimension,
            forall|y: int, x: int|
                0 <= y < dimension && 0 <= x < dimension ==> #[trigger] m.entry(y, x) == (if y == x {
                    one
                } else {
                    zero
                }),
    {
        let mut m = Matrix::new(dimension, dimension, zero);
        let mut i: usize = 0;
        while i < dimension
            invariant
                i <= dimension,
                m.wf(),
                m.spec_width() == dimension,
                m.spec_height() == dimension,
                forall|y: int, x: int|
                    0 <= y < dimension && 0 <= x < dimension ==> #[trigger] m.entry(y, x) == (
                    if y == x && y < i {
                        one
                    } else {
                        zero
                    }),
            decreases dimension - i,
        {
            m.set(i, i, one);
            i = i + 1;
        }
        m
    }

    /// The elements of row `y`, left to right.
    pub fn row(&self, y: usize) -> (r: Vec<T>)
        requires
            self.wf(),
            y < self.spec_height(),
        ensures
            r@.len() == self.spec_width(),
            forall|x: int| 0 <= x < self.spec_width() ==> #[trigger] r@[x] == self.entry(y as int, x),
    {
        let mut r: Vec<T> = Vec::new();
        let mut x: usize = 0;
        while x < self.width
            invariant
                x <= self.spec_width(),
                self.wf(),
                y < self.spec_height(),
                r@.len() == x,
                forall|t: int| 0 <= t < x ==> #[trigger] r@[t] == self.entry(y as int, t),
            decreases self.spec_width() - x,
        {
            let v = self.get(y, x);
            r.push(v);
            x = x + 1;
        }
        r
    }

    /// The elements of column `x`, top to bottom.
    pub fn column(&self, x: usize) -> (c: Vec<T>)
        requires
            self.wf(),
            x < self.spec_width(),
        ensures
            c@.len() == self.spec_height(),
            forall|y: int|
                0 <= y < self.spec_height() ==> #[trigger] c@[y] == self.entry(y, x as int),
    {
        let mut c: Vec<T> = Vec::new();
        let mut y: usize = 0;
        while y < self.height
            invariant
                y <= self.spec_height(),
                self.wf(),
                x < self.spec_width(),
                c@.len() == y,
                forall|t: int| 0 <= t < y ==> #[trigger] c@[t] == self.entry(t, x as int),
            decreases self.spec_height() - y,
        {
            let v = self.get(y, x);
            c.push(v);
            y = y + 1;
        }
        c
    }

    /// The matrix with rows and columns exchanged: element `(y, x)` of
    /// the result is element `(x, y)` of `self`.
    pub fn transpose(&self) -> (r: Self)
        requires
            self.wf(),
        ensures
            r.wf(),
            r.spec_width() == self.spec_height(),
            r.spec_height() == self.spec_width(),
            forall|y: int, x: int|
                0 <= y < self.spec_width() && 0 <= x < self.spec_height() ==> #[trigger] r.entry(
                    y,
                    x,
                ) == self.entry(x, y),
    {
        if self.width == 0 || self.height == 0 {
            let r = Matrix { width: self.height, height: self.width, value: Vec::<T>::new() };
            proof {
                assert(r.spec_width() * r.spec_height() == 0) by (nonlinear_arith)
                    requires
                        r.spec_width() == 0 || r.spec_height() == 0,
                ;
            }
            return r;
        }
        proof {
            assert(self.spec_height() * self.spec_width() == self.spec_width()
                * self.spec_height()) by (nonlinear_arith);
        }
        let fill = self.get(0, 0);
        // The store length read as a `usize` bounds the new store's size.
        let n: usize = self.value.len();
        let mut r = Matrix::new(self.height, self.width, fill);
        let mut y: usize = 0;
        while y < self.width
            invariant
                y <= self.spec_width(),
                self.wf(),
                r.wf(),
                r.spec_width() == self.spec_height(),
                r.spec_height() == self.spec_width(),
                forall|yy: int, xx: int|
                    0 <= yy < y && 0 <= xx < self.spec_height() ==> #[trigger] r.entry(yy, xx)
                        == self.entry(xx, yy),
            decreases self.spec_width() - y,
        {
            let mut x: usize = 0;
            while x < self.height
                invariant
                    x <= self.spec_height(),
                    y < self.spec_width(),
                    self.wf(),
                    r.wf(),
                    r.spec_width() == self.spec_height(),
                    r.spec_height() == self.spec_width(),
                    forall|yy: int, xx: int|
                        0 <= yy < y && 0 <= xx < self.spec_height() ==> #[trigger] r.entry(yy, xx)
                            == self.entry(xx, yy),
                    forall|xx: int|
                        0 <= xx < x ==> #[trigger] r.entry(y as int, xx) == self.entry(xx, y as int),
                decreases self.spec_height() - x,
            {
                let v = self.get(x, y);
                r.set(y, x, v);
                x = x + 1;
            }
            y = y + 1;
        }
        r
    }

    /// The matrix with row `row` and column `column` removed; the
    /// remaining elements keep their relative order.
    pub fn sub_matrix(&self, row: usize, column: usize) -> (r: Self)
        requires
            self.wf(),
            row < self.spec_height(),
            column < self.spec_width(),
        ensures
            r.wf(),
            r.spec_width() == self.spec_width() - 1,
            r.spec_height() == self.spec_height() - 1,
            forall|y: int, x: int|
                0 <= y < self.spec_height() - 1 && 0 <= x < self.spec_width() - 1
                    ==> #[trigger] r.entry(y, x) == self.entry(
                    if y >= row {
                        y + 1
                    } else {
                        y
                    },
                    if x >= column {
                        x + 1
                    } else {
                        x
                    },
                ),
    {
        proof {
            assert((self.spec_width() - 1) * (self.spec_height() - 1) <= self.spec_width()
                * self.spec_height()) by (nonlinear_arith)
                requires
                    1 <= self.spec_width(),
                    1 <= self.spec_height(),
            ;
        }
        let fill = self.get(0, 0);
        // The store length read as a `usize` bounds the new store's size.
        let n: usize = self.value.len();
        let w: usize = self.width - 1;
        let h: usize = self.height - 1;
        let mut r = Matrix::new(w, h, fill);
        let mut y: usize = 0;
        while y < h
            invariant
                y <= h,
                w == self.spec_width() - 1,
                h == self.spec_height() - 1,
                row < self.spec_height(),
                column < self.spec_width(),
                self.wf(),
                r.wf(),
                r.spec_width() == w,
                r.spec_height() == h,
                forall|yy: int, xx: int|
                    0 <= yy < y && 0 <= xx < w ==> #[trigger] r.entry(yy, xx) == self.entry(
                        if yy >= row {
                            yy + 1
                        } else {
                            yy
                        },
                        if xx >= column {
                            xx + 1
                        } else {
                            xx
                        },
                    ),
            decreases h - y,
        {
            let src_y: usize = if y >= row {
                y + 1
            } else {
                y
            };
            let mut x: usize = 0;
            while x < w
                invariant
                    x <= w,
                    y < h,
                    w == self.spec_width() - 1,
                    h == self.spec_height() - 1,
                    row < self.spec_height(),
                    column < self.spec_width(),
                    src_y == if y >= row {
                        y + 1
                    } else {
                        y as int
                    },
                    self.wf(),
                    r.wf(),
                    r.spec_width() == w,
                    r.spec_height() == h,
                    forall|yy: int, xx: int|
                        0 <= yy < y && 0 <= xx < w ==> #[trigger] r.entry(yy, xx) == self.entry(
                            if yy >= row {
                                yy + 1
                            } else {
                                yy
                            },
                            if xx >= column {
                                xx + 1
                            } else {
                                xx
                            },
                        ),
                    forall|xx: int|
                        0 <= xx < x ==> #[trigger] r.entry(y as int, xx) == self.entry(
                            if y >= row {
                                y + 1
                            } else {
                                y as int
                            },
                            if xx >= column {
                                xx + 1
                            } else {
                                xx
                            },
                        ),
                decreases w - x,
            {
                let src_x: usize = if x >= column {
                    x + 1
                } else {
                    x
                };
                let v = self.get(src_y, src_x);
                r.set(y, x, v);
                x = x + 1;
            }
            y = y + 1;
        }
        r
    }
}

} // verus!
