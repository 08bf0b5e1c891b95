//! The windowed fold engine.

use crate::raster::{blank, dimensions, sample_at, set_sample, GrayImage};
use crate::window::{cell, clamp_axis, in_grid, rectangular, same_shape, window, window_row};
use vstd::prelude::*;

verus! {

/// Whether folding `f` over `samples` from left to right, starting from
/// `seed`, can end in `result`: there is a chain of accumulators, one per
/// sample, each of which `f` may return for the one before it and the sample.
pub open spec fn folds_to<F: Fn(u8, u8) -> u8>(
    f: F,
    seed: u8,
    samples: Seq<u8>,
    result: u8,
) -> bool
    decreases samples.len(),
{
    if samples.len() == 0 {
        result == seed
    } else {
        exists|mid: u8|
            folds_to(f, seed, samples.drop_last(), mid) && #[trigger] call_ensures(
                f,
                (mid, samples.last()),
                result,
            )
    }
}

/// One more step of a fold: if the fold over `samples` can end in `acc` and
/// `f` may return `next` for `acc` and `sample`, the fold over `samples`
/// followed by `sample` can end in `next`.
pub proof fn lemma_folds_to_push<F: Fn(u8, u8) -> u8>(
    f: F,
    seed: u8,
    samples: Seq<u8>,
    acc: u8,
    sample: u8,
    next: u8,
)
    requires
        folds_to(f, seed, samples, acc),
        call_ensures(f, (acc, sample), next),
    ensures
        folds_to(f, seed, samples.push(sample), next),
{
    let longer = samples.push(sample);
    assert(longer.drop_last() =~= samples);
    assert(call_ensures(f, (acc, longer.last()), next));
}

/// Where the combine function computes `op`, the fold can end in one value
/// only: `op` folded over the samples from the left.
pub proof fn lemma_fold_of_function<F: Fn(u8, u8) -> u8>(
    f: F,
    op: spec_fn(u8, u8) -> u8,
    seed: u8,
    samples: Seq<u8>,
    result: u8,
)
    requires
        forall|a: u8, s: u8, r: u8| call_ensures(f, (a, s), r) ==> r == op(a, s),
        folds_to(f, seed, samples, result),
    ensures
        result == samples.fold_left(seed, op),
    decreases samples.len(),
{
    if samples.len() > 0 {
        let mid = choose|mid: u8|
            folds_to(f, seed, samples.drop_last(), mid) && #[trigger] call_ensures(
                f,
                (mid, samples.last()),
                result,
            );
        lemma_fold_of_function(f, op, seed, samples.drop_last(), mid);
    }
}

/// The contributions of kernel row `i` at `(x, y)` from the columns before
/// `j`.
spec fn row_upto(g: Seq<Seq<u8>>, kernel: [[bool; 3]; 3], x: int, y: int, i: int, j: int) -> Seq<
    u8,
>
    decreases j,
{
    if j <= 0 {
        Seq::empty()
    } else {
        row_upto(g, kernel, x, y, i, j - 1) + cell(g, kernel, x, y, i, j - 1)
    }
}

/// The contributions at `(x, y)` of the kernel rows before `i`.
spec fn rows_upto(g: Seq<Seq<u8>>, kernel: [[bool; 3]; 3], x: int, y: int, i: int) -> Seq<u8>
    decreases i,
{
    if i <= 0 {
        Seq::empty()
    } else {
        rows_upto(g, kernel, x, y, i - 1) + window_row(g, kernel, x, y, i - 1)
    }
}

/// The contributions of all three columns of a kernel row are that row of
/// the window.
proof fn lemma_row_upto_all(g: Seq<Seq<u8>>, kernel: [[bool; 3]; 3], x: int, y: int, i: int)
    ensures
        row_upto(g, kernel, x, y, i, 3) == window_row(g, kernel, x, y, i),
{
    reveal_with_fuel(row_upto, 4);
    assert(row_upto(g, kernel, x, y, i, 3) =~= window_row(g, kernel, x, y, i));
}

/// The contributions of all three kernel rows are the window.
proof fn lemma_rows_upto_all(g: Seq<Seq<u8>>, kernel: [[bool; 3]; 3], x: int, y: int)
    ensures
        rows_upto(g, kernel, x, y, 3) == window(g, kernel, x, y),
{
    reveal_with_fuel(rows_upto, 4);
    assert(rows_upto(g, kernel, x, y, 3) =~= window(g, kernel, x, y));
}

/// Folds `f` over the window at `(x, y)`.
fn fold_at<F: Fn(u8, u8) -> u8>(
    img: &GrayImage,
    kernel: [[bool; 3]; 3],
    seed: u8,
    f: &F,
    width: u32,
    height: u32,
    x: u32,
    y: u32,
) -> (acc: u8)
    requires
        width == img.spec_width(),
        height == img@.len(),
        rectangular(img@, width as nat),
        x < width,
        y < height,
        forall|a: u8, s: u8| call_requires(*f, (a, s)),
    ensures
        folds_to(*f, seed, window(img@, kernel, x as int, y as int), acc),
{
    let ghost g = img@;
    let ghost gx = x as int;
    let ghost gy = y as int;
    let span_x = clamp_axis(x, width);
    let span_y = clamp_axis(y, height);
    let mut acc = seed;
    let mut orig_y = span_y.lo;
    let mut i = span_y.el_lo;
    proof {
        reveal_with_fuel(rows_upto, 2);
        assert(rows_upto(g, kernel, gx, gy, i as int) =~= Seq::<u8>::empty());
    }
    while orig_y < span_y.hi
        invariant
            g == img@,
            gx == x as int,
            gy == y as int,
            width == img.spec_width(),
            height == img@.len(),
            rectangular(g, width as nat),
            x < width,
            y < height,
            forall|a: u8, s: u8| call_requires(*f, (a, s)),
            span_x.lo == if x == 0 { 0 } else { x - 1 },
            span_x.hi == if x + 1 == width { width as int } else { x + 2 },
            span_x.el_lo == span_x.lo + 1 - x,
            span_x.el_hi == span_x.hi + 1 - x,
            span_y.hi == if y + 1 == height { height as int } else { y + 2 },
            span_y.el_hi == span_y.hi + 1 - y,
            span_y.lo <= orig_y <= span_y.hi,
            i == orig_y + 1 - y,
            folds_to(*f, seed, rows_upto(g, kernel, gx, gy, i as int), acc),
        decreases span_y.hi - orig_y,
    {
        let mut orig_x = span_x.lo;
        let mut j = span_x.el_lo;
        proof {
            reveal_with_fuel(row_upto, 2);
            assert(row_upto(g, kernel, gx, gy, i as int, j as int) =~= Seq::<u8>::empty());
            assert(rows_upto(g, kernel, gx, gy, i as int) + row_upto(
                g,
                kernel,
                gx,
                gy,
                i as int,
                j as int,
            ) =~= rows_upto(g, kernel, gx, gy, i as int));
        }
        while orig_x < span_x.hi
            invariant
                g == img@,
                gx == x as int,
                gy == y as int,
                width == img.spec_width(),
                height == img@.len(),
                rectangular(g, width as nat),
                x < width,
                y < height,
                forall|a: u8, s: u8| call_requires(*f, (a, s)),
                span_x.hi == if x + 1 == width { width as int } else { x + 2 },
                span_x.el_hi == span_x.hi + 1 - x,
                span_x.lo <= orig_x <= span_x.hi,
                j == orig_x + 1 - x,
                orig_y < height,
                i == orig_y + 1 - y,
                i < 3,
                folds_to(
                    *f,
                    seed,
                    rows_upto(g, kernel, gx, gy, i as int) + row_upto(
                        g,
                        kernel,
                        gx,
                        gy,
                        i as int,
                        j as int,
                    ),
                    acc,
                ),
            decreases span_x.hi - orig_x,
        {
            let ghost before = rows_upto(g, kernel, gx, gy, i as int) + row_upto(
                g,
                kernel,
                gx,
                gy,
                i as int,
                j as int,
            );
            let ghost after = rows_upto(g, kernel, gx, gy, i as int) + row_upto(
                g,
                kernel,
                gx,
                gy,
                i as int,
                j + 1,
            );
            if kernel[i][j] {
                let sample = sample_at(img, orig_x, orig_y);
                let next = f(acc, sample);
                proof {
                    assert(cell(g, kernel, gx, gy, i as int, j as int) =~= seq![sample]);
                    assert(after =~= before.push(sample));
                    lemma_folds_to_push(*f, seed, before, acc, sample, next);
                }
                acc = next;
            } else {
                proof {
                    assert(after =~= before);
                }
            }
            orig_x = orig_x + 1;
            j = j + 1;
        }
        proof {
            reveal_with_fuel(row_upto, 2);
            assert(row_upto(g, kernel, gx, gy, i as int, j as int) =~= row_upto(
                g,
                kernel,
                gx,
                gy,
                i as int,
                3,
            ));
            lemma_row_upto_all(g, kernel, gx, gy, i as int);
        }
        orig_y = orig_y + 1;
        i = i + 1;
    }
    proof {
        reveal_with_fuel(rows_upto, 2);
        assert(rows_upto(g, kernel, gx, gy, i as int) =~= rows_upto(g, kernel, gx, gy, 3));
        lemma_rows_upto_all(g, kernel, gx, gy);
    }
    acc
}

/// Folds `f` over the 3x3 neighbourhood of every pixel.
///
/// The sample of the result at `(x, y)` is what folding `f` from
/// `initial_value` over [`window`]`(img, structuring_element, x, y)` gives:
/// the samples at the offsets that the structuring element enables and that
/// lie inside the image, taken row by row from the top and left to right
/// within a row. A corner pixel of an image at least two samples wide and
/// high therefore folds over four samples under the full kernel, not nine.
/// The result has the dimensions of `img`, which is left unchanged.
pub fn fold_over_structuring_element<F>(
    img: &GrayImage,
    structuring_element: [[bool; 3]; 3],
    initial_value: u8,
    f: F,
) -> (out: GrayImage) where F: Fn(u8, u8) -> u8
    requires
        forall|acc: u8, sample: u8| call_requires(f, (acc, sample)),
    ensures
        out.spec_width() == img.spec_width(),
        same_shape(out@, img@),
        forall|x: int, y: int|
            in_grid(img@, x, y) ==> folds_to(
                f,
                initial_value,
                window(img@, structuring_element, x, y),
                #[trigger] out@[y][x],
            ),
{
    let (width, height) = dimensions(img);
    let mut buffer = blank(width, height);
    let mut y: u32 = 0;
    while y < height
        invariant
            y <= height,
            width == img.spec_width(),
            height == img@.len(),
            rectangular(img@, width as nat),
            buffer.spec_width() == width,
            buffer@.len() == height,
            rectangular(buffer@, width as nat),
            forall|acc: u8, sample: u8| call_requires(f, (acc, sample)),
            forall|c: int, r: int|
                0 <= r < y && 0 <= c < width ==> folds_to(
                    f,
                    initial_value,
                    window(img@, structuring_element, c, r),
                    #[trigger] buffer@[r][c],
                ),
        decreases height - y,
    {
        let mut x: u32 = 0;
        while x < width
            invariant
                y < height,
                x <= width,
                width == img.spec_width(),
                height == img@.len(),
                rectangular(img@, width as nat),
                buffer.spec_width() == width,
                buffer@.len() == height,
                rectangular(buffer@, width as nat),
                forall|acc: u8, sample: u8| call_requires(f, (acc, sample)),
                forall|c: int, r: int|
                    0 <= r < y && 0 <= c < width ==> folds_to(
                        f,
                        initial_value,
                        window(img@, structuring_element, c, r),
                        #[trigger] buffer@[r][c],
                    ),
                forall|c: int|
                    0 <= c < x ==> folds_to(
                        f,
                        initial_value,
                        window(img@, structuring_element, c, y as int),
                        #[trigger] buffer@[y as int][c],
                    ),
            decreases width - x,
        {
            let acc = fold_at(img, structuring_element, initial_value, &f, width, height, x, y);
            set_sample(&mut buffer, x, y, acc);
            x = x + 1;
        }
        y = y + 1;
    }
    buffer
}

} // verus!
