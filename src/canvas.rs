use vstd::prelude::*;

verus! {

/// A rectangular grid of pixels stored row by row.
///
/// The pixel type is left open: a renderer keeps its own colour type here, and an
/// exporter reads a grid of 8-bit samples.
#[derive(Clone, Debug)]
pub struct Canvas<P> {
    width: usize,
    height: usize,
    pixels: Vec<P>,
}

impl<P> View for Canvas<P> {
    type V = Seq<P>;

    /// The pixels in row-major order.
    closed spec fn view(&self) -> Seq<P> {
        self.pixels@
    }
}

impl<P: Copy> Canvas<P> {
    pub closed spec fn spec_width(&self) -> nat {
        self.width as nat
    }

    pub closed spec fn spec_height(&self) -> nat {
        self.height as nat
    }

    /// Holds one pixel for each of the `width * height` positions.
    pub open spec fn wf(&self) -> bool {
        &&& self@.len() == self.spec_width() * self.spec_height()
        &&& self.spec_width() * self.spec_height() <= usize::MAX
    }

    /// Position in the row-major sequence of the pixel at column `x`, row `y`.
    pub open spec fn offset(&self, x: int, y: int) -> int {
        y * self.spec_width() + x
    }

    pub open spec fn pixel(&self, x: int, y: int) -> P {
        self@[self.offset(x, y)]
    }

    /// A canvas of `width` by `height` pixels, each set to `fill`.
    pub fn new(width: usize, height: usize, fill: P) -> (r: Self)
        requires
            width * height <= usize::MAX,
        ensures
            r.wf(),
            r.spec_width() == width,
            r.spec_height() == height,
            forall|i: int| 0 <= i < r@.len() ==> r@[i] == fill,
    {
        let n: usize = width * height;
        let mut pixels: Vec<P> = Vec::with_capacity(n);
        let mut i: usize = 0;
        while i < n
            invariant
                i <= n,
                pixels@.len() == i,
                forall|k: int| 0 <= k < i ==> pixels@[k] == fill,
            decreases n - i,
        {
            pixels.push(fill);
            i = i + 1;
        }
        Canvas { width, height, pixels }
    }

    pub fn width(&self) -> (r: usize)
        ensures
            r == self.spec_width(),
    {
        self.width
    }

    pub fn height(&self) -> (r: usize)
        ensures
            r == self.spec_height(),
    {
        self.height
    }

    /// Sets the pixel at column `x`, row `y`; every other pixel is kept.
    pub fn write_pixel(&mut self, x: usize, y: usize, pixel: P)
        requires
            old(self).wf(),
            x < old(self).spec_width(),
            y < old(self).spec_height(),
        ensures
            final(self).wf(),
            final(self).spec_width() == old(self).spec_width(),
            final(self).spec_height() == old(self).spec_height(),
            final(self)@ == old(self)@.update(old(self).offset(x as int, y as int), pixel),
    {
        proof {
            lemma_offset_in_grid(x as int, y as int, self.width as int, self.height as int);
        }
        let i: usize = y * self.width + x;
        self.pixels.set(i, pixel);
    }

    /// The pixel at column `x`, row `y`.
    pub fn pixel_at(&self, x: usize, y: usize) -> (r: P)
        requires
            self.wf(),
            x < self.spec_width(),
            y < self.spec_height(),
        ensures
            r == self.pixel(x as int, y as int),
            0 <= self.offset(x as int, y as int) < self@.len(),
    {
        proof {
            lemma_offset_in_grid(x as int, y as int, self.width as int, self.height as int);
        }
        self.pixels[y * self.width + x]
    }

    /// All pixels, row by row.
    pub fn pixels(&self) -> (r: &Vec<P>)
        ensures
            r@ == self@,
    {
        &self.pixels
    }
}

/// The row-major offset of a position inside a `width` by `height` grid lies inside the grid.
pub proof fn lemma_offset_in_grid(x: int, y: int, width: int, height: int)
    requires
        0 <= x < width,
        0 <= y < height,
    ensures
        0 <= y * width + x < width * height,
        y * width + x + 1 <= width * height,
{
    assert(0 <= y * width + x < width * height) by (nonlinear_arith)
        requires
            0 <= x < width,
            0 <= y < height,
    ;
}

} // verus!
