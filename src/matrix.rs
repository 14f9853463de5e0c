use vstd::prelude::*;

use vstd::arithmetic::div_mod::lemma_fundamental_div_mod_converse;

use crate::canvas::lemma_offset_in_grid;

verus! {

/// A `height` by `width` grid of cells stored row by row.
///
/// This type carries the shape of a matrix: its construction, indexing, transposition
/// and the removal of a row and a column. Arithmetic on the cells is left to the
/// number type they hold.
#[derive(Clone, Debug, PartialEq)]
pub struct Matrix<T> {
    height: usize,
    width: usize,
    values: Vec<T>,
}

impl<T> View for Matrix<T> {
    type V = Seq<T>;

    /// The cells in row-major order.
    closed spec fn view(&self) -> Seq<T> {
        self.values@
    }
}

/// The row of the source matrix that row `i` of a submatrix comes from, when row `skip`
/// was left out.
pub open spec fn source_index(i: int, skip: int) -> int {
    if i < skip {
        i
    } else {
        i + 1
    }
}

impl<T: Copy> Matrix<T> {
    pub closed spec fn spec_height(&self) -> nat {
        self.height as nat
    }

    pub closed spec fn spec_width(&self) -> nat {
        self.width as nat
    }

    /// Holds one cell for each of the `height * width` positions.
    pub open spec fn wf(&self) -> bool {
        &&& self@.len() == self.spec_height() * self.spec_width()
        &&& self.spec_height() * self.spec_width() <= usize::MAX
    }

    /// The cell in row `row`, column `col`.
    pub open spec fn cell(&self, row: int, col: int) -> T {
        self@[row * self.spec_width() + col]
    }

    /// A `height` by `width` matrix with every cell set to `fill`.
    pub fn new(height: usize, width: usize, fill: T) -> (r: Self)
        requires
            height * width <= usize::MAX,
        ensures
            r.wf(),
            r.spec_height() == height,
            r.spec_width() == width,
            forall|i: int| 0 <= i < r@.len() ==> r@[i] == fill,
    {
        let n: usize = height * width;
        let mut values: Vec<T> = Vec::with_capacity(n);
        let mut i: usize = 0;
        while i < n
            invariant
                i <= n,
                values@.len() == i,
                forall|k: int| 0 <= k < i ==> values@[k] == fill,
            decreases n - i,
        {
            values.push(fill);
            i = i + 1;
        }
        Matrix { height, width, values }
    }

    /// A `height` by `width` matrix whose cells, row by row, are `values`.
    pub fn from_values(height: usize, width: usize, values: Vec<T>) -> (r: Self)
        requires
            values@.len() == height * width,
        ensures
            r.wf(),
            r.spec_height() == height,
            r.spec_width() == width,
            r@ == values@,
    {
        let _n: usize = values.len();
        Matrix { height, width, values }
    }

    /// `one` on the main diagonal and `zero` everywhere else.
    pub fn identity(height: usize, width: usize, zero: T, one: T) -> (r: Self)
        requires
            height * width <= usize::MAX,
        ensures
            r.wf(),
            r.spec_height() == height,
            r.spec_width() == width,
            forall|i: int, j: int|
                0 <= i < height && 0 <= j < width ==> #[trigger] r.cell(i, j) == if i == j {
                    one
                } else {
                    zero
                },
    {
        let mut values: Vec<T> = Vec::with_capacity(height * width);
        let mut i: usize = 0;
        while i < height
            invariant
                i <= height,
                height * width <= usize::MAX,
                values@.len() == i * width,
                forall|k: int|
                    0 <= k < values@.len() ==> #[trigger] values@[k] == if k / width as int == k
                        % width as int {
                        one
                    } else {
                        zero
                    },
            decreases height - i,
        {
            let mut j: usize = 0;
            while j < width
                invariant
                    i < height,
                    j <= width,
                    height * width <= usize::MAX,
                    values@.len() == i * width + j,
                    forall|k: int|
                        0 <= k < values@.len() ==> #[trigger] values@[k] == if k / width as int
                            == k % width as int {
                            one
                        } else {
                            zero
                        },
                decreases width - j,
            {
                proof {
                    lemma_offset_in_grid(j as int, i as int, width as int, height as int);
                    lemma_fundamental_div_mod_converse(
                        values@.len() as int,
                        width as int,
                        i as int,
                        j as int,
                    );
                }
                if i == j {
                    values.push(one);
                } else {
                    values.push(zero);
                }
                j = j + 1;
            }
            proof {
                assert((i + 1) * width == i * width + width) by (nonlinear_arith);
            }
            i = i + 1;
        }
        let r = Matrix { height, width, values };
        proof {
            assert forall|a: int, b: int| 0 <= a < height && 0 <= b < width implies #[trigger] r.cell(
                a,
                b,
            ) == if a == b {
                one
            } else {
                zero
            } by {
                lemma_offset_in_grid(b, a, width as int, height as int);
                assert(height * width == width * height) by (nonlinear_arith);
                lemma_fundamental_div_mod_converse(a * width + b, width as int, a, b);
            }
        }
        r
    }

    pub fn height(&self) -> (r: usize)
        ensures
            r == self.spec_height(),
    {
        self.height
    }

    pub fn width(&self) -> (r: usize)
        ensures
            r == self.spec_width(),
    {
        self.width
    }

    /// The cell in row `row`, column `col`.
    pub fn get(&self, row: usize, col: usize) -> (r: T)
        requires
            self.wf(),
            row < self.spec_height(),
            col < self.spec_width(),
        ensures
            r == self.cell(row as int, col as int),
    {
        proof {
            lemma_offset_in_grid(col as int, row as int, self.width as int, self.height as int);
        }
        self.values[row * self.width + col]
    }

    /// Sets the cell in row `row`, column `col` to `value`; every other cell is kept.
    pub fn set(&mut self, row: usize, col: usize, value: T)
        requires
            old(self).wf(),
            row < old(self).spec_height(),
            col < old(self).spec_width(),
        ensures
            final(self).wf(),
            final(self).spec_height() == old(self).spec_height(),
            final(self).spec_width() == old(self).spec_width(),
            final(self)@ == old(self)@.update(
                row * old(self).spec_width() + col,
                value,
            ),
    {
        proof {
            lemma_offset_in_grid(col as int, row as int, self.width as int, self.height as int);
        }
        let i: usize = row * self.width + col;
        self.values.set(i, value);
    }

    /// All cells, row by row.
    pub fn values(&self) -> (r: &Vec<T>)
        ensures
            r@ == self@,
    {
        &self.values
    }

    /// The matrix with rows and columns swapped.
    pub fn transpose(&self) -> (r: Self)
        requires
            self.wf(),
        ensures
            r.wf(),
            r.spec_height() == self.spec_width(),
            r.spec_width() == self.spec_height(),
            forall|i: int, j: int|
                0 <= i < r.spec_height() && 0 <= j < r.spec_width() ==> #[trigger] r.cell(i, j)
                    == self.cell(j, i),
    {
        let h = self.height;
        let w = self.width;
        let mut values: Vec<T> = Vec::with_capacity(h * w);
        let mut i: usize = 0;
        while i < w
            invariant
                self.wf(),
                h == self.spec_height(),
                w == self.spec_width(),
                i <= w,
                values@.len() == i * h,
                forall|k: int|
                    0 <= k < values@.len() ==> #[trigger] values@[k] == self.cell(
                        k % h as int,
                        k / h as int,
                    ),
            decreases w - i,
        {
            let mut j: usize = 0;
            while j < h
                invariant
                    self.wf(),
                    h == self.spec_height(),
                    w == self.spec_width(),
                    i < w,
                    j <= h,
                    values@.len() == i * h + j,
                    forall|k: int|
                        0 <= k < values@.len() ==> #[trigger] values@[k] == self.cell(
                            k % h as int,
                            k / h as int,
                        ),
                decreases h - j,
            {
                proof {
                    lemma_offset_in_grid(j as int, i as int, h as int, w as int);
                    assert(h * w == w * h) by (nonlinear_arith);
                    lemma_fundamental_div_mod_converse(values@.len() as int, h as int, i as int, j as int);
                }
                let v = self.get(j, i);
                values.push(v);
                j = j + 1;
            }
            proof {
                assert((i + 1) * h == i * h + h) by (nonlinear_arith);
            }
            i = i + 1;
        }
        proof {
            assert(w * h == h * w) by (nonlinear_arith);
        }
        let r = Matrix { height: w, width: h, values };
        proof {
            assert forall|a: int, b: int| 0 <= a < w && 0 <= b < h implies #[trigger] r.cell(a, b)
                == self.cell(b, a) by {
                lemma_offset_in_grid(b, a, h as int, w as int);
                lemma_fundamental_div_mod_converse(a * h + b, h as int, a, b);
            }
        }
        r
    }

    /// The matrix without row `row` and column `col`.
    pub fn submatrix(&self, row: usize, col: usize) -> (r: Self)
        requires
            self.wf(),
            row < self.spec_height(),
            col < self.spec_width(),
        ensures
            r.wf(),
            r.spec_height() == self.spec_height() - 1,
            r.spec_width() == self.spec_width() - 1,
            forall|i: int, j: int|
                0 <= i < r.spec_height() && 0 <= j < r.spec_width() ==> #[trigger] r.cell(i, j)
                    == self.cell(source_index(i, row as int), source_index(j, col as int)),
    {
        let h = self.height;
        let w = self.width;
        let sh: usize = h - 1;
        let sw: usize = w - 1;
        proof {
            assert(sh * sw <= h * w) by (nonlinear_arith)
                requires
                    sh < h,
                    sw < w,
            ;
        }
        let mut values: Vec<T> = Vec::with_capacity(sh * sw);
        let mut i: usize = 0;
        while i < h
            invariant
                self.wf(),
                h == self.spec_height(),
                w == self.spec_width(),
                sh == h - 1,
                sw == w - 1,
                row < h,
                col < w,
                i <= h,
                values@.len() == (if i <= row { i } else { (i - 1) as usize }) * sw,
                forall|k: int|
                    0 <= k < values@.len() ==> #[trigger] values@[k] == self.cell(
                        source_index(k / sw as int, row as int),
                        source_index(k % sw as int, col as int),
                    ),
            decreases h - i,
        {
            if i != row {
                let ghost ri: int = if i < row { i as int } else { i - 1 };
                let mut j: usize = 0;
                while j < w
                    invariant
                        self.wf(),
                        h == self.spec_height(),
                        w == self.spec_width(),
                        sw == w - 1,
                        row < h,
                        col < w,
                        i < h,
                        i != row,
                        ri == if i < row { i as int } else { i - 1 },
                        j <= w,
                        values@.len() == ri * sw + (if j <= col { j as int } else { j - 1 }),
                        forall|k: int|
                            0 <= k < values@.len() ==> #[trigger] values@[k] == self.cell(
                                source_index(k / sw as int, row as int),
                                source_index(k % sw as int, col as int),
                            ),
                    decreases w - j,
                {
                    if j != col {
                        proof {
                            let cj: int = if j < col { j as int } else { j - 1 };
                            lemma_fundamental_div_mod_converse(values@.len() as int, sw as int, ri, cj);
                        }
                        let v = self.get(i, j);
                        values.push(v);
                    }
                    j = j + 1;
                }
                proof {
                    assert((ri + 1) * sw == ri * sw + sw) by (nonlinear_arith);
                }
            }
            i = i + 1;
        }
        let r = Matrix { height: sh, width: sw, values };
        proof {
            assert forall|a: int, b: int| 0 <= a < sh && 0 <= b < sw implies #[trigger] r.cell(a, b)
                == self.cell(source_index(a, row as int), source_index(b, col as int)) by {
                lemma_offset_in_grid(b, a, sw as int, sh as int);
                lemma_fundamental_div_mod_converse(a * sw + b, sw as int, a, b);
            }
        }
        r
    }
}

} // verus!
