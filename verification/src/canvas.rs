//! The pixel buffer a render writes into.
//!
//! A canvas is a rectangular grid addressed by `(x, y)`, stored row by
//! row in one flat block. The renderer colors pixels independently and
//! writes each into its own slot; the image encoder later walks the rows
//! in order. The pixel type is left open: the canvas only moves values
//! around, the color arithmetic belongs to the caller.

use vstd::prelude::*;

verus! {

/// A `width x height` grid of pixels, stored row by row.
pub struct Canvas<P> {
    width: usize,
    height: usize,
    pixels: Vec<P>,
}

impl<P> View for Canvas<P> {
    type V = Seq<P>;

    /// The flat pixel store, row by row.
    closed spec fn view(&self) -> Seq<P> {
        self.pixels@
    }
}

impl<P: Copy> Canvas<P> {
    /// The number of pixels in one row.
    pub closed spec fn spec_width(self) -> int {
        self.width as int
    }

    /// The number of rows.
    pub closed spec fn spec_height(self) -> int {
        self.height as int
    }

    /// The store holds exactly one slot per grid position.
    pub closed spec fn wf(self) -> bool {
        self.pixels@.len() == self.spec_width() * self.spec_height()
    }

    /// The slot of position `(x, y)` in the flat row-by-row store.
    pub open spec fn slot(self, x: int, y: int) -> int {
        y * self.spec_width() + x
    }

    /// A fresh canvas with every pixel set to `fill`.
    pub fn new(width: usize, height: usize, fill: P) -> (c: Self)
        requires
            width * height <= usize::MAX,
        ensures
            c.wf(),
            c.spec_width() == width,
            c.spec_height() == height,
            c@ == Seq::new((width * height) as nat, |i: int| fill),
    {
        let total: usize = width * height;
        let mut pixels: Vec<P> = Vec::new();
        let mut n: usize = 0;
        while n < total
            invariant
                n <= total,
                pixels@.len() == n,
                forall|t: int| 0 <= t < n ==> pixels@[t] == fill,
            decreases total - n,
        {
            pixels.push(fill);
            n = n + 1;
        }
        proof {
            assert(pixels@ =~= Seq::new((width * height) as nat, |i: int| fill));
        }
        Canvas { width, height, pixels }
    }

    /// The number of pixels in one row.
    pub fn width(&self) -> (w: usize)
        ensures
            w == self.spec_width(),
    {
        self.width
    }

    /// The number of rows.
    pub fn height(&self) -> (h: usize)
        ensures
            h == self.spec_height(),
    {
        self.height
    }

    /// The pixel at position `(x, y)`.
    pub fn pixel_at(&self, x: usize, y: usize) -> (p: P)
        requires
            self.wf(),
            x < self.spec_width(),
            y < self.spec_height(),
        ensures
            p == self@[self.slot(x as int, y as int)],
    {
        proof {
            self.lemma_slot_in_store(x as int, y as int);
        }
        // The store length read as a `usize` bounds the slot arithmetic.
        let n: usize = self.pixels.len();
        self.pixels[y * self.width + x]
    }

    /// Color the pixel at position `(x, y)`, leaving every other pixel
    /// as it was.
    pub fn write_pixel(&mut self, x: usize, y: usize, p: P)
        requires
            old(self).wf(),
            x < old(self).spec_width(),
            y < old(self).spec_height(),
        ensures
            final(self).wf(),
            final(self).spec_width() == old(self).spec_width(),
            final(self).spec_height() == old(self).spec_height(),
            final(self)@ == old(self)@.update(old(self).slot(x as int, y as int), p),
    {
        proof {
            self.lemma_slot_in_store(x as int, y as int);
        }
        // The store length read as a `usize` bounds the slot arithmetic.
        let n: usize = self.pixels.len();
        let idx: usize = y * self.width + x;
        self.pixels.set(idx, p);
    }

    /// Every grid position addresses a slot inside the flat store, and
    /// positions in row order address consecutive slots.
    pub proof fn lemma_slot_in_store(self, x: int, y: int)
        requires
            self.wf(),
            0 <= x < self.spec_width(),
            0 <= y < self.spec_height(),
        ensures
            0 <= self.slot(x, y) < self@.len(),
    {
        assert(y * self.spec_width() + x < self.spec_width() * self.spec_height())
            by (nonlinear_arith)
            requires
                0 <= x < self.spec_width(),
                0 <= y < self.spec_height(),
        ;
        assert(0 <= y * self.spec_width() + x) by (nonlinear_arith)
            requires
                0 <= x,
                0 <= y,
                0 <= self.spec_width(),
        ;
    }
}

} // verus!
