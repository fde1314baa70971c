//! A two-dimensional pixel grid.

use vstd::prelude::*;

verus! {

/// A `width` x `height` grid of pixels, stored row-major: the pixel at
/// column `x` and row `y` sits at index `y * width + x`. The pixel type is
/// generic; the renderer keeps its working colors here and the serializer
/// works on a grid of quantized channels.
pub struct Canvas<T> {
    width: usize,
    height: usize,
    pixels: Vec<T>,
}

impl<T> Canvas<T> {
    /// The number of columns.
    pub closed spec fn spec_width(&self) -> usize {
        self.width
    }

    /// The number of rows.
    pub closed spec fn spec_height(&self) -> usize {
        self.height
    }

    /// The pixels in row-major order.
    pub closed spec fn pixel_seq(&self) -> Seq<T> {
        self.pixels@
    }

    /// The pixel at column `x`, row `y`.
    pub open spec fn spec_at(&self, x: int, y: int) -> T {
        self.pixel_seq()[y * self.spec_width() + x]
    }

    /// Whether `(x, y)` addresses a pixel of the grid.
    pub open spec fn in_bounds(&self, x: int, y: int) -> bool {
        0 <= x < self.spec_width() && 0 <= y < self.spec_height()
    }

    #[verifier::type_invariant]
    spec fn grid_inv(&self) -> bool {
        self.width * self.height <= usize::MAX && self.pixels@.len() == self.width * self.height
    }

    /// The number of columns.
    pub fn width(&self) -> (w: usize)
        ensures
            w == self.spec_width(),
    {
        self.width
    }

    /// The number of rows.
    pub fn height(&self) -> (h: usize)
        ensures
            h == self.spec_height(),
    {
        self.height
    }

    /// The number of pixels, which is exactly `width * height`.
    pub fn pixel_count(&self) -> (n: usize)
        ensures
            n == self.pixel_seq().len(),
            n == self.spec_width() * self.spec_height(),
    {
        proof {
            use_type_invariant(self);
        }
        self.pixels.len()
    }
}

impl<T: Copy> Canvas<T> {
    /// A grid whose every pixel is `fill`.
    pub fn new(width: usize, height: usize, fill: T) -> (c: Canvas<T>)
        requires
            width * height <= usize::MAX,
        ensures
            c.spec_width() == width,
            c.spec_height() == height,
            c.pixel_seq().len() == width * height,
            forall|i: int| 0 <= i < c.pixel_seq().len() ==> c.pixel_seq()[i] == fill,
    {
        let n = width * height;
        let mut pixels: Vec<T> = Vec::new();
        let mut i: usize = 0;
        while i < n
            invariant
                i <= n,
                pixels@.len() == i,
                forall|k: int| 0 <= k < i ==> pixels@[k] == fill,
            decreases n - i,
        {
            pixels.push(fill);
            i = i + 1;
        }
        Canvas { width, height, pixels }
    }

    /// The pixel at column `x`, row `y`.
    pub fn get(&self, x: usize, y: usize) -> (p: T)
        requires
            self.in_bounds(x as int, y as int),
        ensures
            p == self.spec_at(x as int, y as int),
    {
        proof {
            use_type_invariant(self);
            lemma_row_major_index_in_range(
                x as int,
                y as int,
                self.spec_width() as int,
                self.spec_height() as int,
            );
        }
        self.pixels[y * self.width + x]
    }

    /// The pixel at row-major position `i`.
    pub fn pixel_at(&self, i: usize) -> (p: T)
        requires
            i < self.pixel_seq().len(),
        ensures
            p == self.pixel_seq()[i as int],
    {
        proof {
            use_type_invariant(self);
        }
        self.pixels[i]
    }

    /// Replaces the pixel at column `x`, row `y` with `p`; every other pixel
    /// and the dimensions stay as they were.
    pub fn set(&mut self, x: usize, y: usize, p: T)
        requires
            old(self).in_bounds(x as int, y as int),
        ensures
            final(self).spec_width() == old(self).spec_width(),
            final(self).spec_height() == old(self).spec_height(),
            final(self).pixel_seq() == old(self).pixel_seq().update(
                y * old(self).spec_width() + x,
                p,
            ),
    {
        proof {
            use_type_invariant(&*self);
            lemma_row_major_index_in_range(
                x as int,
                y as int,
                self.spec_width() as int,
                self.spec_height() as int,
            );
        }
        let i = y * self.width + x;
        self.pixels[i] = p;
    }
}

/// A row-major index stays inside a `w` x `h` grid.
proof fn lemma_row_major_index_in_range(x: int, y: int, w: int, h: int)
    requires
        0 <= x < w,
        0 <= y < h,
    ensures
        0 <= y * w + x < w * h,
{
    assert(y * w + x < w * h) by (nonlinear_arith)
        requires
            0 <= x < w,
            0 <= y < h,
    ;
}

} // verus!
