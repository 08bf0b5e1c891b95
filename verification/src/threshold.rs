//! Thresholding: turning a grayscale image into a black-and-white one.
//!
//! A cutoff is taken from the samples, their mean or their median, and every
//! sample becomes 0 if it is at most the cutoff and 255 otherwise.

use crate::raster::{blank, dimensions, sample_at, set_sample, GrayImage};
use crate::window::rectangular;
use vstd::prelude::*;
use vstd::seq_lib::lemma_sorted_unique;

verus! {

/// The sum of the samples.
pub open spec fn total(samples: Seq<u8>) -> nat
    decreases samples.len(),
{
    if samples.len() == 0 {
        0
    } else {
        total(samples.drop_last()) + samples.last() as nat
    }
}

/// The mean of the samples, rounded towards zero.
pub open spec fn mean_of(samples: Seq<u8>) -> int {
    total(samples) as int / samples.len() as int
}

/// The order by which samples are sorted: `a` comes no later than `b`.
pub open spec fn at_most() -> spec_fn(u8, u8) -> bool {
    |a: u8, b: u8| a <= b
}

/// The samples in ascending order.
pub open spec fn ascending(samples: Seq<u8>) -> Seq<u8> {
    samples.sort_by(at_most())
}

/// The median of the samples: the one in the middle when they are put in
/// ascending order, the upper of the two middle ones when their number is
/// even.
pub open spec fn median_of(samples: Seq<u8>) -> u8 {
    ascending(samples)[samples.len() as int / 2]
}

/// The black-or-white value of a sample under a cutoff.
pub open spec fn binarize(sample: u8, cutoff: u8) -> u8 {
    if sample <= cutoff {
        0
    } else {
        255
    }
}

/// The grid with every sample made black or white under `cutoff`.
pub open spec fn binarized(g: Seq<Seq<u8>>, cutoff: u8) -> Seq<Seq<u8>> {
    Seq::new(g.len(), |y: int| Seq::new(g[y].len(), |x: int| binarize(g[y][x], cutoff)))
}

/// The mean of at least one sample is itself a sample value: it lies between
/// 0 and 255.
pub proof fn lemma_mean_in_range(samples: Seq<u8>)
    requires
        samples.len() > 0,
    ensures
        0 <= mean_of(samples) <= 255,
{
    lemma_total_bound(samples);
    let sum = total(samples) as int;
    let count = samples.len() as int;
    assert(0 <= sum / count <= 255) by (nonlinear_arith)
        requires
            0 <= sum <= 255 * count,
            count > 0,
    ;
}

/// The sum of the samples is at most 255 times their number.
proof fn lemma_total_bound(samples: Seq<u8>)
    ensures
        total(samples) <= 255 * samples.len(),
    decreases samples.len(),
{
    if samples.len() > 0 {
        lemma_total_bound(samples.drop_last());
    }
}

/// Calls `slice::sort`.
///
/// Taken on trust, from its documentation: afterwards the vector holds the
/// values it held before, each as often as before, in ascending order.
#[verifier::external_body]
fn sort_ascending(values: &mut Vec<u8>)
    ensures
        final(values)@.to_multiset() == old(values)@.to_multiset(),
        forall|i: int, j: int|
            0 <= i <= j < final(values)@.len() ==> final(values)@[i] <= final(values)@[j],
{
    values.sort();
}

/// The mean of the samples, rounded towards zero.
pub fn mean_cutoff(samples: &Vec<u8>) -> (cutoff: u8)
    requires
        samples@.len() > 0,
    ensures
        cutoff == mean_of(samples@),
{
    let count = samples.len();
    let mut sum: u128 = 0;
    let mut i: usize = 0;
    while i < count
        invariant
            i <= count,
            count == samples@.len(),
            sum == total(samples@.take(i as int)),
        decreases count - i,
    {
        proof {
            assert(samples@.take(i + 1).drop_last() =~= samples@.take(i as int));
            lemma_total_bound(samples@.take(i as int));
        }
        sum = sum + samples[i] as u128;
        i = i + 1;
    }
    proof {
        assert(samples@.take(count as int) =~= samples@);
        lemma_mean_in_range(samples@);
    }
    (sum / count as u128) as u8
}

/// The median of the samples: the one at index `len / 2` once they are in
/// ascending order.
pub fn median_cutoff(samples: Vec<u8>) -> (cutoff: u8)
    requires
        samples@.len() > 0,
    ensures
        cutoff == median_of(samples@),
{
    let mut values = samples;
    let ghost unsorted = values@;
    sort_ascending(&mut values);
    proof {
        unsorted.lemma_sort_by_ensures(at_most());
        lemma_sorted_unique(values@, ascending(unsorted), at_most());
        unsorted.to_multiset_ensures();
        values@.to_multiset_ensures();
    }
    values[values.len() / 2]
}

/// Makes every sample black or white: 0 where it is at most `cutoff`, 255
/// where it is above.
pub fn apply_cutoff(img: &GrayImage, cutoff: u8) -> (out: GrayImage)
    ensures
        out.spec_width() == img.spec_width(),
        out@.len() == img@.len(),
        out@ == binarized(img@, cutoff),
{
    let (width, height) = dimensions(img);
    let mut out = blank(width, height);
    let mut y: u32 = 0;
    while y < height
        invariant
            y <= height,
            width == img.spec_width(),
            height == img@.len(),
            rectangular(img@, width as nat),
            out.spec_width() == width,
            out@.len() == height,
            rectangular(out@, width as nat),
            forall|c: int, r: int|
                0 <= r < y && 0 <= c < width ==> #[trigger] out@[r][c] == binarize(
                    img@[r][c],
                    cutoff,
                ),
        decreases height - y,
    {
        let mut x: u32 = 0;
        while x < width
            invariant
                y < height,
                x <= width,
                width == img.spec_width(),
                height == img@.len(),
                rectangular(img@, width as nat),
                out.spec_width() == width,
                out@.len() == height,
                rectangular(out@, width as nat),
                forall|c: int, r: int|
                    0 <= r < y && 0 <= c < width ==> #[trigger] out@[r][c] == binarize(
                        img@[r][c],
                        cutoff,
                    ),
                forall|c: int|
                    0 <= c < x ==> #[trigger] out@[y as int][c] == binarize(
                        img@[y as int][c],
                        cutoff,
                    ),
            decreases width - x,
        {
            let val = sample_at(img, x, y);
            if val <= cutoff {
                set_sample(&mut out, x, y, 0);
            } else {
                set_sample(&mut out, x, y, 255);
            }
            x = x + 1;
        }
        y = y + 1;
    }
    proof {
        assert(out@ =~~= binarized(img@, cutoff));
    }
    out
}

/// A grid with at least one row and one column has at least one sample.
pub proof fn lemma_samples_nonempty(g: Seq<Seq<u8>>, width: nat)
    requires
        rectangular(g, width),
        g.len() > 0,
        width > 0,
    ensures
        g.flatten().len() > 0,
{
    g.lemma_flatten_length_ge_single_element_length(0);
    g.lemma_flatten_and_flatten_alt_are_equivalent();
}

/// Thresholds an image at the median of its samples.
pub fn median_threshold(img: &GrayImage) -> (out: GrayImage)
    requires
        img.spec_width() > 0,
        img.spec_height() > 0,
    ensures
        out.spec_width() == img.spec_width(),
        out@.len() == img@.len(),
        out@ == binarized(img@, median_of(img@.flatten())),
{
    let width = img.width();
    let values = img.to_samples();
    proof {
        lemma_samples_nonempty(img@, width as nat);
    }
    let median = median_cutoff(values);
    apply_cutoff(img, median)
}

/// Thresholds an image at the mean of its samples, rounded towards zero.
pub fn average_threshold(img: &GrayImage) -> (out: GrayImage)
    requires
        img.spec_width() > 0,
        img.spec_height() > 0,
    ensures
        out.spec_width() == img.spec_width(),
        out@.len() == img@.len(),
        0 <= mean_of(img@.flatten()) <= 255,
        out@ == binarized(img@, mean_of(img@.flatten()) as u8),
{
    let width = img.width();
    let values = img.to_samples();
    proof {
        lemma_samples_nonempty(img@, width as nat);
        lemma_mean_in_range(img@.flatten());
    }
    let average = mean_cutoff(&values);
    apply_cutoff(img, average)
}

/// The statistic from which a threshold takes its cutoff.
#[derive(Clone, Copy, Debug, PartialEq, Eq, Structural)]
pub enum ThresholdMode {
    /// The mean of the samples, rounded towards zero.
    Mean,
    /// The median of the samples.
    Median,
}

/// Why an image could not be thresholded.
#[derive(Clone, Copy, Debug, PartialEq, Eq, Structural)]
pub enum ThresholdError {
    /// The image has no samples, so it has neither a mean nor a median.
    EmptyImage,
}

/// The cutoff that `mode` takes from the samples.
pub open spec fn cutoff_of(samples: Seq<u8>, mode: ThresholdMode) -> u8 {
    match mode {
        ThresholdMode::Mean => mean_of(samples) as u8,
        ThresholdMode::Median => median_of(samples),
    }
}

/// Thresholds an image by the given mode, or hands it back untouched when
/// there is none. An image without samples cannot be thresholded.
pub fn threshold(img: GrayImage, mode: Option<ThresholdMode>) -> (result: Result<
    GrayImage,
    ThresholdError,
>)
    ensures
        mode is None ==> result == Ok::<GrayImage, ThresholdError>(img),
        mode is Some && (img.spec_width() == 0 || img.spec_height() == 0) ==> result == Err::<
            GrayImage,
            ThresholdError,
        >(ThresholdError::EmptyImage),
        mode is Some && img.spec_width() > 0 && img.spec_height() > 0 ==> {
            &&& result matches Ok(out)
            &&& out.spec_width() == img.spec_width()
            &&& out@.len() == img@.len()
            &&& out@ == binarized(img@, cutoff_of(img@.flatten(), mode->Some_0))
        },
{
    match mode {
        None => Ok(img),
        Some(chosen) => {
            if img.width() == 0 || img.height() == 0 {
                return Err(ThresholdError::EmptyImage);
            }
            match chosen {
                ThresholdMode::Mean => Ok(average_threshold(&img)),
                ThresholdMode::Median => Ok(median_threshold(&img)),
            }
        },
    }
}

} // verus!
