//! Dilation, erosion and the operators built from them.

use crate::fold::{fold_over_structuring_element, folds_to};
use crate::raster::{blank, dimensions, sample_at, set_sample, GrayImage};
use crate::window::{in_grid, rectangular, window};
use vstd::prelude::*;

verus! {

/// The larger of two samples.
pub open spec fn higher(a: u8, b: u8) -> u8 {
    if a >= b {
        a
    } else {
        b
    }
}

/// The smaller of two samples.
pub open spec fn lower(a: u8, b: u8) -> u8 {
    if a <= b {
        a
    } else {
        b
    }
}

/// The largest of `samples`, or 0 when there are none.
pub open spec fn highest(samples: Seq<u8>) -> u8
    decreases samples.len(),
{
    if samples.len() == 0 {
        0
    } else {
        higher(highest(samples.drop_last()), samples.last())
    }
}

/// The smallest of `samples`, or 255 when there are none.
pub open spec fn lowest(samples: Seq<u8>) -> u8
    decreases samples.len(),
{
    if samples.len() == 0 {
        255
    } else {
        lower(lowest(samples.drop_last()), samples.last())
    }
}

/// The dilated sample at `(x, y)`: the largest sample that the kernel
/// selects around it.
pub open spec fn dilate_at(g: Seq<Seq<u8>>, kernel: [[bool; 3]; 3], x: int, y: int) -> u8 {
    highest(window(g, kernel, x, y))
}

/// The eroded sample at `(x, y)`: the smallest sample that the kernel
/// selects around it.
pub open spec fn erode_at(g: Seq<Seq<u8>>, kernel: [[bool; 3]; 3], x: int, y: int) -> u8 {
    lowest(window(g, kernel, x, y))
}

/// The dilation of a grid.
pub open spec fn dilated(g: Seq<Seq<u8>>, kernel: [[bool; 3]; 3]) -> Seq<Seq<u8>> {
    Seq::new(g.len(), |y: int| Seq::new(g[y].len(), |x: int| dilate_at(g, kernel, x, y)))
}

/// The erosion of a grid.
pub open spec fn eroded(g: Seq<Seq<u8>>, kernel: [[bool; 3]; 3]) -> Seq<Seq<u8>> {
    Seq::new(g.len(), |y: int| Seq::new(g[y].len(), |x: int| erode_at(g, kernel, x, y)))
}

/// The opening of a grid: erosion, then dilation.
pub open spec fn opening(g: Seq<Seq<u8>>, kernel: [[bool; 3]; 3]) -> Seq<Seq<u8>> {
    dilated(eroded(g, kernel), kernel)
}

/// The closing of a grid: dilation, then erosion.
pub open spec fn closing(g: Seq<Seq<u8>>, kernel: [[bool; 3]; 3]) -> Seq<Seq<u8>> {
    eroded(dilated(g, kernel), kernel)
}

/// A fold whose combine function returns the larger of its arguments, seeded
/// with 0, ends in the largest sample.
pub proof fn lemma_fold_higher<F: Fn(u8, u8) -> u8>(f: F, samples: Seq<u8>, result: u8)
    requires
        forall|a: u8, s: u8, r: u8| call_ensures(f, (a, s), r) ==> r == higher(a, s),
        folds_to(f, 0, samples, result),
    ensures
        result == highest(samples),
    decreases samples.len(),
{
    if samples.len() > 0 {
        let mid = choose|mid: u8|
            folds_to(f, 0, samples.drop_last(), mid) && #[trigger] call_ensures(
                f,
                (mid, samples.last()),
                result,
            );
        lemma_fold_higher(f, samples.drop_last(), mid);
    }
}

/// A fold whose combine function returns the smaller of its arguments,
/// seeded with 255, ends in the smallest sample.
pub proof fn lemma_fold_lower<F: Fn(u8, u8) -> u8>(f: F, samples: Seq<u8>, result: u8)
    requires
        forall|a: u8, s: u8, r: u8| call_ensures(f, (a, s), r) ==> r == lower(a, s),
        folds_to(f, 255, samples, result),
    ensures
        result == lowest(samples),
    decreases samples.len(),
{
    if samples.len() > 0 {
        let mid = choose|mid: u8|
            folds_to(f, 255, samples.drop_last(), mid) && #[trigger] call_ensures(
                f,
                (mid, samples.last()),
                result,
            );
        lemma_fold_lower(f, samples.drop_last(), mid);
    }
}

/// Dilates an image: every sample becomes the largest sample among the
/// neighbours that the structuring element enables and that lie inside the
/// image, or 0 where there is no such neighbour.
pub fn dilate(img: &GrayImage, structuring_element: [[bool; 3]; 3]) -> (out: GrayImage)
    ensures
        out.spec_width() == img.spec_width(),
        out@.len() == img@.len(),
        out@ == dilated(img@, structuring_element),
{
    let f = |local_max: u8, current_val: u8| -> (r: u8)
        ensures
            r == higher(local_max, current_val),
        { local_max.max(current_val) };
    let out = fold_over_structuring_element(img, structuring_element, u8::MIN, f);
    proof {
        assert forall|x: int, y: int| in_grid(img@, x, y) implies #[trigger] out@[y][x]
            == dilate_at(img@, structuring_element, x, y) by {
            lemma_fold_higher(f, window(img@, structuring_element, x, y), out@[y][x]);
        }
        assert(out@ =~~= dilated(img@, structuring_element));
    }
    out
}

/// Erodes an image: every sample becomes the smallest sample among the
/// neighbours that the structuring element enables and that lie inside the
/// image, or 255 where there is no such neighbour.
pub fn erode(img: &GrayImage, structuring_element: [[bool; 3]; 3]) -> (out: GrayImage)
    ensures
        out.spec_width() == img.spec_width(),
        out@.len() == img@.len(),
        out@ == eroded(img@, structuring_element),
{
    let f = |local_min: u8, current_val: u8| -> (r: u8)
        ensures
            r == lower(local_min, current_val),
        { local_min.min(current_val) };
    let out = fold_over_structuring_element(img, structuring_element, u8::MAX, f);
    proof {
        assert forall|x: int, y: int| in_grid(img@, x, y) implies #[trigger] out@[y][x]
            == erode_at(img@, structuring_element, x, y) by {
            lemma_fold_lower(f, window(img@, structuring_element, x, y), out@[y][x]);
        }
        assert(out@ =~~= eroded(img@, structuring_element));
    }
    out
}

/// Opens an image: erosion followed by dilation.
pub fn open(img: &GrayImage, structuring_element: [[bool; 3]; 3]) -> (out: GrayImage)
    ensures
        out.spec_width() == img.spec_width(),
        out@.len() == img@.len(),
        out@ == opening(img@, structuring_element),
{
    dilate(&erode(img, structuring_element), structuring_element)
}

/// Closes an image: dilation followed by erosion.
pub fn close(img: &GrayImage, structuring_element: [[bool; 3]; 3]) -> (out: GrayImage)
    ensures
        out.spec_width() == img.spec_width(),
        out@.len() == img@.len(),
        out@ == closing(img@, structuring_element),
{
    erode(&dilate(img, structuring_element), structuring_element)
}

/// The dilated sample minus the eroded sample at `(x, y)`, or 0 where the
/// eroded sample is the larger one.
pub open spec fn dilate_sub_erode_at(g: Seq<Seq<u8>>, kernel: [[bool; 3]; 3], x: int, y: int) -> u8 {
    let high = dilate_at(g, kernel, x, y);
    let low = erode_at(g, kernel, x, y);
    if high >= low {
        (high - low) as u8
    } else {
        0
    }
}

/// The dilation of a grid minus its erosion, sample by sample.
pub open spec fn dilated_sub_eroded(g: Seq<Seq<u8>>, kernel: [[bool; 3]; 3]) -> Seq<Seq<u8>> {
    Seq::new(
        g.len(),
        |y: int| Seq::new(g[y].len(), |x: int| dilate_sub_erode_at(g, kernel, x, y)),
    )
}

/// Subtracts the erosion of an image from its dilation, sample by sample.
/// Both are taken of `img` itself. Where the eroded sample is larger than
/// the dilated one, which a structuring element without its centre allows,
/// the result is 0.
pub fn dilate_sub_erode(img: &GrayImage, structuring_element: [[bool; 3]; 3]) -> (out:
    GrayImage)
    ensures
        out.spec_width() == img.spec_width(),
        out@.len() == img@.len(),
        out@ == dilated_sub_eroded(img@, structuring_element),
{
    let (width, height) = dimensions(img);
    let mut buffer = blank(width, height);

    let dilated_img = dilate(img, structuring_element);
    let eroded_img = erode(img, structuring_element);

    let mut y: u32 = 0;
    while y < height
        invariant
            y <= height,
            width == img.spec_width(),
            height == img@.len(),
            rectangular(img@, width as nat),
            dilated_img.spec_width() == width,
            eroded_img.spec_width() == width,
            dilated_img@ == dilated(img@, structuring_element),
            eroded_img@ == eroded(img@, structuring_element),
            buffer.spec_width() == width,
            buffer@.len() == height,
            rectangular(buffer@, width as nat),
            forall|c: int, r: int|
                0 <= r < y && 0 <= c < width ==> #[trigger] buffer@[r][c] == dilate_sub_erode_at(
                    img@,
                    structuring_element,
                    c,
                    r,
                ),
        decreases height - y,
    {
        let mut x: u32 = 0;
        while x < width
            invariant
                y < height,
                x <= width,
                width == img.spec_width(),
                height == img@.len(),
                rectangular(img@, width as nat),
                dilated_img.spec_width() == width,
                eroded_img.spec_width() == width,
                dilated_img@ == dilated(img@, structuring_element),
                eroded_img@ == eroded(img@, structuring_element),
                buffer.spec_width() == width,
                buffer@.len() == height,
                rectangular(buffer@, width as nat),
                forall|c: int, r: int|
                    0 <= r < y && 0 <= c < width ==> #[trigger] buffer@[r][c]
                        == dilate_sub_erode_at(img@, structuring_element, c, r),
                forall|c: int|
                    0 <= c < x ==> #[trigger] buffer@[y as int][c] == dilate_sub_erode_at(
                        img@,
                        structuring_element,
                        c,
                        y as int,
                    ),
            decreases width - x,
        {
            let dilated_val = sample_at(&dilated_img, x, y);
            let eroded_val = sample_at(&eroded_img, x, y);
            set_sample(&mut buffer, x, y, dilated_val.saturating_sub(eroded_val));
            x = x + 1;
        }
        y = y + 1;
    }
    proof {
        assert(buffer@ =~~= dilated_sub_eroded(img@, structuring_element));
    }
    buffer
}

} // verus!
