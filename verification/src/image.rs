//! The image buffer: a fixed `width x height` grid of RGB pixels, stored
//! row-major, one cell per pixel. Cells hold one of two colours in the
//! rendered output: black for points kept by the escape test (treated as
//! members of the Mandelbrot set) and white for points that escaped.

use vstd::prelude::*;

verus! {

/// One RGB cell of the image, each channel in `0..=255`.
#[derive(Clone, Copy, Debug, PartialEq, Eq, Structural)]
pub struct Pixel {
    pub r: u8,
    pub g: u8,
    pub b: u8,
}

impl Pixel {
    /// The colour written for points kept by the escape test.
    pub open spec fn black_spec() -> Pixel {
        Pixel { r: 0, g: 0, b: 0 }
    }

    /// The colour written for points that escaped.
    pub open spec fn white_spec() -> Pixel {
        Pixel { r: 255, g: 255, b: 255 }
    }

    /// The pixel counts as a member of the rendered set: its colour is not
    /// white.
    pub open spec fn spec_is_mandelbrot(self) -> bool {
        self != Pixel::white_spec()
    }

    /// Create a new `Pixel` given the RGB values `r`, `g`, and `b`.
    pub fn new(r: u8, g: u8, b: u8) -> (p: Pixel)
        ensures
            p == (Pixel { r, g, b }),
    {
        Pixel { r, g, b }
    }

    /// Create a new `Pixel` that is set to the colour black.
    pub fn black() -> (p: Pixel)
        ensures
            p == Pixel::black_spec(),
    {
        Pixel::new(0, 0, 0)
    }

    /// Create a new `Pixel` that is set to the colour white.
    pub fn white() -> (p: Pixel)
        ensures
            p == Pixel::white_spec(),
    {
        Pixel::new(255, 255, 255)
    }

    /// Check whether the pixel is mandelbrot, that is, it has a colour other
    /// than white.
    pub fn is_mandelbrot(&self) -> (m: bool)
        ensures
            m == self.spec_is_mandelbrot(),
    {
        !(self.r == 255 && self.g == 255 && self.b == 255)
    }
}

impl Default for Pixel {
    /// A black pixel.
    fn default() -> (p: Pixel)
        ensures
            p == Pixel::black_spec(),
    {
        Pixel { r: 0, g: 0, b: 0 }
    }
}

/// How many cells of `s` count as members of the rendered set.
pub open spec fn count_mandelbrot(s: Seq<Pixel>) -> nat
    decreases s.len(),
{
    if s.len() == 0 {
        0
    } else {
        count_mandelbrot(s.drop_last()) + if s.last().spec_is_mandelbrot() {
            1nat
        } else {
            0nat
        }
    }
}

/// A buffer whose every cell counts as a member has as many members as
/// cells.
pub proof fn lemma_count_mandelbrot_full(s: Seq<Pixel>)
    requires
        forall|i: int| 0 <= i < s.len() ==> (#[trigger] s[i]).spec_is_mandelbrot(),
    ensures
        count_mandelbrot(s) == s.len(),
    decreases s.len(),
{
    if s.len() > 0 {
        lemma_count_mandelbrot_full(s.drop_last());
        assert(s.last().spec_is_mandelbrot());
    }
}

/// A two-dimensional grid of `width x height` pixels, row-major: the cell at
/// column `x` of row `y` is `data[y * width + x]`.
pub struct Image {
    pub width: usize,
    pub height: usize,
    pub data: Vec<Pixel>,
}

impl Image {
    /// The buffer holds exactly one cell per grid position.
    pub open spec fn wf(self) -> bool {
        self.data@.len() == self.width * self.height
    }

    /// The cell at column `x` of row `y`.
    pub open spec fn pixel_at(self, x: int, y: int) -> Pixel {
        self.data@[y * self.width + x]
    }

    /// Create a new `Image` with the given `width` and `height`, every cell
    /// black.
    pub fn new(width: usize, height: usize) -> (img: Image)
        requires
            width * height <= usize::MAX,
        ensures
            img.wf(),
            img.width == width,
            img.height == height,
            forall|i: int|
                0 <= i < width * height ==> img.data@[i] == Pixel::black_spec(),
    {
        let len = width * height;
        let mut data: Vec<Pixel> = Vec::new();
        let mut i: usize = 0;
        while i < len
            invariant
                i <= len,
                data@.len() == i,
                forall|j: int| 0 <= j < i ==> data@[j] == Pixel::black_spec(),
            decreases len - i,
        {
            data.push(Pixel::black());
            i = i + 1;
        }
        Image { width, height, data }
    }

    /// Return an immutable reference to a [`Pixel`] at a given `x` and `y`
    /// position, or `None` where the position falls outside the
    /// `width x height` grid.
    pub fn get(&self, x: usize, y: usize) -> (r: Option<&Pixel>)
        requires
            self.wf(),
        ensures
            x < self.width && y < self.height ==> (r matches Some(p) && *p == self.pixel_at(
                x as int,
                y as int,
            )),
            !(x < self.width && y < self.height) ==> r is None,
    {
        if x < self.width && y < self.height {
            let n = self.data.len();
            proof {
                assert((y as int) * self.width + x < self.width * self.height)
                    by (nonlinear_arith)
                    requires
                        0 <= (x as int) < self.width,
                        0 <= (y as int) < self.height,
                ;
                assert((y as int) * self.width + x < n);
            }
            let i = y * self.width + x;
            Some(&self.data[i])
        } else {
            None
        }
    }

    /// Return a mutable reference to the [`Pixel`] at a given `x` and `y`
    /// position. Afterwards the buffer is the old buffer with the cell
    /// `y * width + x` replaced by whatever the caller leaves behind the
    /// returned reference.
    pub fn get_mut(&mut self, x: usize, y: usize) -> (p: &mut Pixel)
        requires
            y * old(self).width + x < old(self).data@.len(),
        ensures
            *p == old(self).data@[y * old(self).width + x],
            final(self).width == old(self).width,
            final(self).height == old(self).height,
            final(self).data@ == old(self).data@.update(
                y * old(self).width + x,
                *final(p),
            ),
    {
        let n = self.data.len();
        proof {
            assert(y * self.width + x < n);
        }
        let i = y * self.width + x;
        &mut self.data[i]
    }

    /// Return the count of mandelbrot pixels in the [`Image`], that is, the
    /// [`Pixel`] cells whose colour is not white.
    pub fn get_mandelbrot_pixels(&self) -> (n: usize)
        ensures
            n == count_mandelbrot(self.data@),
    {
        let mut n: usize = 0;
        let mut i: usize = 0;
        while i < self.data.len()
            invariant
                i <= self.data@.len(),
                n <= i,
                n == count_mandelbrot(self.data@.take(i as int)),
            decreases self.data@.len() - i,
        {
            if self.data[i].is_mandelbrot() {
                n = n + 1;
            }
            proof {
                assert(self.data@.take(i + 1).drop_last() =~= self.data@.take(i as int));
                assert(self.data@.take(i + 1).last() == self.data@[i as int]);
            }
            i = i + 1;
        }
        proof {
            assert(self.data@.take(self.data@.len() as int) =~= self.data@);
        }
        n
    }
}

impl Default for Image {
    /// An empty image with zero width and height.
    fn default() -> (img: Image)
        ensures
            img.wf(),
            img.width == 0,
            img.height == 0,
            img.data@.len() == 0,
    {
        Image { width: 0, height: 0, data: Vec::new() }
    }
}

} // verus!
