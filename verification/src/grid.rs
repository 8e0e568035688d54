//! A rectangular grid of pixels stored in row-major order.

use vstd::prelude::*;

verus! {

/// A `width` by `height` rectangle of pixels.
///
/// The pixel at column `x` and row `y` is stored at position `y * width + x`.
#[derive(Debug, Clone, PartialEq, Eq)]
pub struct Grid<P> {
    width: u32,
    height: u32,
    data: Vec<P>,
}

/// Positions in a row-major layout are in range and distinct for distinct coordinates.
pub proof fn lemma_row_major(w: int, h: int, x: int, y: int)
    requires
        0 <= x < w,
        0 <= y < h,
    ensures
        0 <= y * w <= y * w + x < w * h,
        (y * w + x) % w == x,
        (y * w + x) / w == y,
{
    assert(y * w + x < w * h) by (nonlinear_arith)
        requires
            0 <= x < w,
            0 <= y < h,
    {
        assert(y * w + w <= h * w) by {
            assert((y + 1) * w <= h * w);
        }
    }
    assert(0 <= y * w) by (nonlinear_arith)
        requires
            0 <= w,
            0 <= y,
    ;
    vstd::arithmetic::div_mod::lemma_fundamental_div_mod_converse(y * w + x, w, y, x);
}

impl<P> Grid<P> {
    /// The stored pixels fill the rectangle exactly.
    pub closed spec fn well_formed(&self) -> bool {
        self.data@.len() == self.width as int * self.height as int
    }

    /// Number of columns.
    pub closed spec fn spec_width(&self) -> u32 {
        self.width
    }

    /// Number of rows.
    pub closed spec fn spec_height(&self) -> u32 {
        self.height
    }

    /// Whether `(x, y)` names a pixel of the grid.
    pub open spec fn contains(&self, x: int, y: int) -> bool {
        0 <= x < self.spec_width() && 0 <= y < self.spec_height()
    }

    /// The pixel at column `x` of row `y`.
    pub closed spec fn pixel(&self, x: int, y: int) -> P {
        self.data@[y * self.width as int + x]
    }

    /// Whether the position `p`, a column and a row, names a pixel of the grid.
    pub open spec fn inside(&self, p: (int, int)) -> bool {
        self.contains(p.0, p.1)
    }

    /// The pixel at the position `p`, a column and a row.
    pub open spec fn at(&self, p: (int, int)) -> P {
        self.pixel(p.0, p.1)
    }

    /// Builds a grid from its pixels given row by row. Succeeds exactly when
    /// `data` holds `width * height` pixels.
    pub fn from_raw(width: u32, height: u32, data: Vec<P>) -> (r: Option<Self>)
        ensures
            r is Some <==> data@.len() == width as int * height as int,
            r matches Some(g) ==> {
                &&& g.well_formed()
                &&& g.spec_width() == width
                &&& g.spec_height() == height
                &&& g@ == data@
                &&& forall|x: int, y: int|
                    g.contains(x, y) ==> #[trigger] g.pixel(x, y) == data@[y * width + x]
            },
    {
        assert(width * height <= 0xffff_ffff * 0xffff_ffff) by (nonlinear_arith)
            requires
                0 <= width <= 0xffff_ffff,
                0 <= height <= 0xffff_ffff,
        ;
        let size: u64 = (width as u64) * (height as u64);
        if data.len() as u64 == size {
            Some(Grid { width, height, data })
        } else {
            None
        }
    }

    /// Number of columns.
    #[verifier::when_used_as_spec(spec_width)]
    pub fn width(&self) -> (w: u32)
        ensures
            w == self.spec_width(),
    {
        self.width
    }

    /// Number of rows.
    #[verifier::when_used_as_spec(spec_height)]
    pub fn height(&self) -> (h: u32)
        ensures
            h == self.spec_height(),
    {
        self.height
    }

    /// Width and height, in this order.
    pub fn dimensions(&self) -> (d: (u32, u32))
        ensures
            d.0 == self.spec_width(),
            d.1 == self.spec_height(),
    {
        (self.width, self.height)
    }

    /// The pixel at column `x` of row `y`.
    pub fn get_pixel(&self, x: u32, y: u32) -> (p: &P)
        requires
            self.well_formed(),
            self.contains(x as int, y as int),
        ensures
            *p == self.pixel(x as int, y as int),
    {
        proof {
            lemma_row_major(self.width as int, self.height as int, x as int, y as int);
            assert(self.data@.len() == self.data.len());
        }
        &self.data[(y as usize) * (self.width as usize) + (x as usize)]
    }

    /// Replaces the pixel at column `x` of row `y` and leaves every other pixel as it was.
    pub fn put_pixel(&mut self, x: u32, y: u32, value: P)
        requires
            old(self).well_formed(),
            old(self).contains(x as int, y as int),
        ensures
            final(self).well_formed(),
            final(self).spec_width() == old(self).spec_width(),
            final(self).spec_height() == old(self).spec_height(),
            final(self).pixel(x as int, y as int) == value,
            forall|i: int, j: int|
                old(self).contains(i, j) && (i != x || j != y) ==> #[trigger] final(self).pixel(i, j)
                    == old(self).pixel(i, j),
            final(self)@ == old(self)@.update(y * old(self).spec_width() + x, value),
    {
        proof {
            lemma_row_major(self.width as int, self.height as int, x as int, y as int);
            assert(self.data@.len() == self.data.len());
        }
        let ghost w = self.width as int;
        let ghost h = self.height as int;
        let index = (y as usize) * (self.width as usize) + (x as usize);
        self.data.set(index, value);
        proof {
            assert forall|i: int, j: int| old(self).contains(i, j) && (i != x || j != y) implies
                #[trigger] self.pixel(i, j) == old(self).pixel(i, j) by {
                lemma_row_major(w, h, i, j);
            }
        }
    }

    /// The pixels, row by row.
    pub fn as_raw(&self) -> (data: &Vec<P>)
        ensures
            data@ == self@,
    {
        &self.data
    }

    /// Gives up the grid for its pixels, row by row.
    pub fn into_raw(self) -> (data: Vec<P>)
        ensures
            data@ == self@,
    {
        self.data
    }

    /// The row-major sequence holds `width * height` pixels, and the pixel at
    /// `(x, y)` is its element `y * width + x`.
    pub proof fn lemma_view(&self)
        requires
            self.well_formed(),
        ensures
            self@.len() == self.spec_width() * self.spec_height(),
            forall|x: int, y: int|
                self.contains(x, y) ==> #[trigger] self.pixel(x, y) == self@[y * self.spec_width() + x],
    {
    }
}

impl<P> View for Grid<P> {
    type V = Seq<P>;

    /// The pixels, row by row.
    closed spec fn view(&self) -> Seq<P> {
        self.data@
    }
}

impl<P: Copy> Grid<P> {
    /// A grid in which every pixel is `value`.
    pub fn new(width: u32, height: u32, value: P) -> (g: Self)
        requires
            width * height <= usize::MAX,
        ensures
            g.well_formed(),
            g.spec_width() == width,
            g.spec_height() == height,
            forall|x: int, y: int| g.contains(x, y) ==> #[trigger] g.pixel(x, y) == value,
    {
        let size: usize = (width as usize) * (height as usize);
        let mut data: Vec<P> = Vec::with_capacity(size);
        let mut i: usize = 0;
        while i < size
            invariant
                i <= size,
                data@.len() == i,
                forall|k: int| 0 <= k < i ==> data@[k] == value,
            decreases size - i,
        {
            data.push(value);
            i += 1;
        }
        let g = Grid { width, height, data };
        proof {
            assert forall|x: int, y: int| g.contains(x, y) implies #[trigger] g.pixel(x, y)
                == value by {
                lemma_row_major(width as int, height as int, x, y);
            }
        }
        g
    }
}

} // verus!
