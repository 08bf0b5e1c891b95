//! The grayscale raster that every stage reads and produces.
//!
//! A [`GrayImage`] keeps its samples in an `image::ImageBuffer`. The verifier
//! cannot look inside that buffer, so this module describes it by two
//! uninterpreted functions, its width and its rows of samples, and reaches it
//! through four small functions whose contracts are taken on trust:
//! [`dimensions`], [`sample_at`], [`set_sample`] and [`blank`]. Everything
//! else in the crate is proved against those four.

use crate::window::rectangular;
use image::{ImageBuffer, Luma};
use vstd::prelude::*;

verus! {

/// A rectangular grid of 8-bit intensity samples, addressed by `(x, y)` with
/// `x` counting columns from the left and `y` counting rows from the top.
///
/// The samples live in an `image::ImageBuffer<Luma<u8>, Vec<u8>>`, which the
/// verifier treats as opaque. The dimensions are fixed when the image is
/// made. The view of an image is its rows of samples.
#[verifier::external_body]
#[derive(Debug)]
pub struct GrayImage {
    buffer: ImageBuffer<Luma<u8>, Vec<u8>>,
}

/// The width of an image: what `ImageBuffer::width` returns for its buffer.
pub uninterp spec fn buffer_width(img: GrayImage) -> nat;

/// The samples of an image, one sequence per row from top to bottom, each
/// row from left to right: there are as many rows as `ImageBuffer::height`
/// returns, and entry `[y][x]` is the sample of the pixel that
/// `ImageBuffer::get_pixel(x, y)` returns.
pub uninterp spec fn buffer_rows(img: GrayImage) -> Seq<Seq<u8>>;

impl View for GrayImage {
    type V = Seq<Seq<u8>>;

    open spec fn view(&self) -> Seq<Seq<u8>> {
        buffer_rows(*self)
    }
}

impl GrayImage {
    /// The number of columns.
    pub open spec fn spec_width(&self) -> nat {
        buffer_width(*self)
    }

    /// The number of rows.
    pub open spec fn spec_height(&self) -> nat {
        buffer_rows(*self).len()
    }
}

/// Calls `ImageBuffer::dimensions`, which returns the width and the height
/// that the buffer was made with.
///
/// Taken on trust: the pair is the image's width and its number of rows;
/// every row has as many samples as the width says; and the product of the
/// two is at most `isize::MAX`, because the buffer was allocated as one
/// `Vec<u8>` of that many samples.
#[verifier::external_body]
pub(crate) fn dimensions(img: &GrayImage) -> (dims: (u32, u32))
    ensures
        dims.0 == buffer_width(*img),
        dims.1 == buffer_rows(*img).len(),
        forall|y: int| 0 <= y < dims.1 ==> (#[trigger] buffer_rows(*img)[y]).len() == dims.0,
        dims.0 * dims.1 <= isize::MAX,
{
    img.buffer.dimensions()
}

/// Calls `ImageBuffer::get_pixel`, which panics outside the image: the
/// caller has to stay inside.
///
/// Taken on trust: the result is the sample in row `y`, column `x`.
#[verifier::external_body]
pub(crate) fn sample_at(img: &GrayImage, x: u32, y: u32) -> (sample: u8)
    requires
        x < buffer_width(*img),
        y < buffer_rows(*img).len(),
    ensures
        sample == buffer_rows(*img)[y as int][x as int],
{
    img.buffer.get_pixel(x, y).0[0]
}

/// Calls `ImageBuffer::put_pixel`, which panics outside the image: the
/// caller has to stay inside.
///
/// Taken on trust: afterwards the sample in row `y`, column `x` is `sample`,
/// and the width, the number of rows, the length of every row and every
/// other sample are what they were.
#[verifier::external_body]
pub(crate) fn set_sample(img: &mut GrayImage, x: u32, y: u32, sample: u8)
    requires
        x < buffer_width(*old(img)),
        y < buffer_rows(*old(img)).len(),
    ensures
        buffer_width(*final(img)) == buffer_width(*old(img)),
        buffer_rows(*final(img)) == buffer_rows(*old(img)).update(
            y as int,
            buffer_rows(*old(img))[y as int].update(x as int, sample),
        ),
{
    img.buffer.put_pixel(x, y, Luma([sample]))
}

/// Calls `ImageBuffer::new`, which panics when the samples do not fit in one
/// allocation: the caller has to keep `width * height` within `isize::MAX`.
///
/// Taken on trust: the image has the given width and `height` rows of
/// `width` samples each, all of them 0.
#[verifier::external_body]
pub(crate) fn blank(width: u32, height: u32) -> (img: GrayImage)
    requires
        width * height <= isize::MAX,
    ensures
        buffer_width(img) == width,
        buffer_rows(img).len() == height,
        forall|y: int| 0 <= y < height ==> (#[trigger] buffer_rows(img)[y]).len() == width,
        forall|x: int, y: int| 0 <= y < height && 0 <= x < width ==> #[trigger] buffer_rows(img)[y][x] == 0,
{
    GrayImage { buffer: ImageBuffer::new(width, height) }
}

/// The raster index of `(x, y)` in a grid of `width` by `height` samples
/// lies below `width * height`, and so does the index of the row's start.
pub proof fn lemma_raster_index(width: int, height: int, x: int, y: int)
    requires
        0 <= x < width,
        0 <= y < height,
    ensures
        0 <= y * width <= y * width + x < width * height,
{
    assert(0 <= y * width) by (nonlinear_arith)
        requires
            0 <= y,
            0 <= width,
    ;
    assert((y + 1) * width <= height * width) by (nonlinear_arith)
        requires
            y + 1 <= height,
            0 <= width,
    ;
    assert((y + 1) * width == y * width + width) by (nonlinear_arith);
    assert(height * width == width * height) by (nonlinear_arith);
}

/// Every raster index below `width * height` is the index of exactly the
/// position `(k % width, k / width)`.
pub proof fn lemma_raster_position(width: int, height: int, k: int)
    requires
        0 <= k < width * height,
        0 <= height,
        0 <= width,
    ensures
        width > 0,
        0 <= k % width < width,
        0 <= k / width < height,
        k == (k / width) * width + k % width,
{
    assert(width > 0) by (nonlinear_arith)
        requires
            0 <= k < width * height,
            0 <= width,
    ;
    vstd::arithmetic::div_mod::lemma_fundamental_div_mod(k, width);
    vstd::arithmetic::div_mod::lemma_mod_bound(k, width);
    assert(width * (k / width) == (k / width) * width) by (nonlinear_arith);
    assert(0 <= k / width < height) by (nonlinear_arith)
        requires
            0 <= k < width * height,
            width > 0,
            k == (k / width) * width + k % width,
            0 <= k % width < width,
    ;
}

/// In a grid whose rows all have `width` samples, the samples in raster
/// order number `rows * width`, and the one at raster index `y * width + x`
/// is the sample at `(x, y)`.
pub proof fn lemma_flatten_by_index(g: Seq<Seq<u8>>, width: nat)
    requires
        rectangular(g, width),
    ensures
        g.flatten().len() == g.len() * width,
        forall|x: int, y: int|
            0 <= y < g.len() && 0 <= x < width ==> #[trigger] g.flatten()[y * width + x]
                == g[y][x],
    decreases g.len(),
{
    g.lemma_flatten_and_flatten_alt_are_equivalent();
    if g.len() == 0 {
        assert(g.len() * width == 0) by (nonlinear_arith)
            requires
                g.len() == 0,
        ;
    } else {
        let upper = g.drop_last();
        lemma_flatten_by_index(upper, width);
        upper.lemma_flatten_and_flatten_alt_are_equivalent();
        assert(g.flatten_alt() == upper.flatten_alt() + g.last());
        assert(upper.len() * width + width == g.len() * width) by (nonlinear_arith)
            requires
                upper.len() + 1 == g.len(),
        ;
        assert forall|x: int, y: int| 0 <= y < g.len() && 0 <= x < width implies #[trigger] g.flatten()[y
            * width + x] == g[y][x] by {
            lemma_raster_index(width as int, g.len() as int, x, y);
            if y < upper.len() {
                lemma_raster_index(width as int, upper.len() as int, x, y);
                assert(upper.flatten()[y * width + x] == upper[y][x]);
            } else {
                assert(y * width == upper.len() * width) by (nonlinear_arith)
                    requires
                        y == upper.len(),
                ;
            }
        }
    }
}

impl GrayImage {
    /// The number of columns.
    pub fn width(&self) -> (w: u32)
        ensures
            w == self.spec_width(),
            rectangular(self@, w as nat),
    {
        let (w, _) = dimensions(self);
        w
    }

    /// The number of rows.
    pub fn height(&self) -> (h: u32)
        ensures
            h == self.spec_height(),
    {
        let (_, h) = dimensions(self);
        h
    }

    /// The sample at `(x, y)`, or nothing where `(x, y)` lies outside the
    /// image.
    pub fn get(&self, x: u32, y: u32) -> (sample: Option<u8>)
        ensures
            sample == if x < self.spec_width() && y < self.spec_height() {
                Some(self@[y as int][x as int])
            } else {
                None
            },
    {
        let (width, height) = dimensions(self);
        if x < width && y < height {
            Some(sample_at(self, x, y))
        } else {
            None
        }
    }

    /// Makes the image of the given dimensions whose samples, in raster
    /// order, are `samples`. There is none unless `samples` holds exactly
    /// `width * height` samples and that many fit in one allocation.
    pub fn from_samples(width: u32, height: u32, samples: &Vec<u8>) -> (made: Option<GrayImage>)
        ensures
            made is Some <==> samples@.len() == width * height && width * height <= isize::MAX,
            made matches Some(img) ==> {
                &&& img.spec_width() == width
                &&& img.spec_height() == height
                &&& rectangular(img@, width as nat)
                &&& img@.flatten() == samples@
                &&& forall|x: int, y: int|
                    0 <= y < height && 0 <= x < width ==> #[trigger] img@[y][x] == samples@[y
                        * width + x]
            },
    {
        proof {
            assert(width * height <= 0xffff_ffff * 0xffff_ffff) by (nonlinear_arith)
                requires
                    0 <= width <= 0xffff_ffff,
                    0 <= height <= 0xffff_ffff,
            ;
        }
        let count: u64 = width as u64 * height as u64;
        if count > isize::MAX as u64 || samples.len() as u64 != count {
            return None;
        }
        let mut img = blank(width, height);
        let mut y: u32 = 0;
        while y < height
            invariant
                y <= height,
                samples@.len() == width * height,
                width * height <= isize::MAX,
                img.spec_width() == width,
                img@.len() == height,
                rectangular(img@, width as nat),
                forall|c: int, r: int|
                    0 <= r < y && 0 <= c < width ==> #[trigger] img@[r][c] == samples@[r * width
                        + c],
            decreases height - y,
        {
            let mut x: u32 = 0;
            while x < width
                invariant
                    y < height,
                    x <= width,
                    samples@.len() == width * height,
                    width * height <= isize::MAX,
                    img.spec_width() == width,
                    img@.len() == height,
                    rectangular(img@, width as nat),
                    forall|c: int, r: int|
                        0 <= r < y && 0 <= c < width ==> #[trigger] img@[r][c] == samples@[r
                            * width + c],
                    forall|c: int|
                        0 <= c < x ==> #[trigger] img@[y as int][c] == samples@[y * width + c],
                decreases width - x,
            {
                proof {
                    lemma_raster_index(width as int, height as int, x as int, y as int);
                }
                let index = y as usize * width as usize + x as usize;
                set_sample(&mut img, x, y, samples[index]);
                x = x + 1;
            }
            y = y + 1;
        }
        proof {
            lemma_flatten_by_index(img@, width as nat);
            let flat = img@.flatten();
            assert forall|k: int| 0 <= k < flat.len() implies flat[k] == samples@[k] by {
                lemma_raster_position(width as int, height as int, k);
                let r = k / (width as int);
                let c = k % (width as int);
                assert(flat[r * width + c] == img@[r][c]);
            }
            assert(flat =~= samples@);
        }
        Some(img)
    }

    /// The samples in raster order: the rows from top to bottom, one after
    /// the other, each from left to right.
    pub fn to_samples(&self) -> (samples: Vec<u8>)
        ensures
            samples@ == self@.flatten(),
    {
        let (width, height) = dimensions(self);
        let mut samples: Vec<u8> = Vec::new();
        let mut y: u32 = 0;
        while y < height
            invariant
                y <= height,
                width == self.spec_width(),
                height == self@.len(),
                rectangular(self@, width as nat),
                samples@ == self@.take(y as int).flatten_alt(),
            decreases height - y,
        {
            let mut x: u32 = 0;
            while x < width
                invariant
                    y < height,
                    x <= width,
                    width == self.spec_width(),
                    height == self@.len(),
                    rectangular(self@, width as nat),
                    samples@ == self@.take(y as int).flatten_alt() + self@[y as int].take(
                        x as int,
                    ),
                decreases width - x,
            {
                let sample = sample_at(self, x, y);
                samples.push(sample);
                proof {
                    assert(self@[y as int].take(x as int).push(sample) =~= self@[y as int].take(
                        x + 1,
                    ));
                }
                x = x + 1;
            }
            proof {
                let upto = self@.take(y + 1);
                assert(upto.drop_last() =~= self@.take(y as int));
                assert(self@[y as int].take(width as int) =~= upto.last());
            }
            y = y + 1;
        }
        proof {
            assert(self@.take(height as int) =~= self@);
            self@.lemma_flatten_and_flatten_alt_are_equivalent();
        }
        samples
    }
}

} // verus!
