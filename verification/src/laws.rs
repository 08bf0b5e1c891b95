//! Properties of the morphological operators, proved once and for all.

use crate::morphology::{
    closing, dilate_at, dilate_sub_erode_at, dilated, erode_at, eroded, higher, highest, lower,
    lowest, opening,
};
use crate::window::{
    cell, full_kernel, in_grid, includes_center, rectangular, same_shape, takes_part, window,
    window_row,
};
use vstd::prelude::*;

verus! {

/// The largest sample of two sequences put together is the larger of their
/// largest samples.
pub proof fn lemma_highest_concat(a: Seq<u8>, b: Seq<u8>)
    ensures
        highest(a + b) == higher(highest(a), highest(b)),
    decreases b.len(),
{
    if b.len() == 0 {
        assert(a + b =~= a);
    } else {
        assert((a + b).drop_last() =~= a + b.drop_last());
        lemma_highest_concat(a, b.drop_last());
    }
}

/// The smallest sample of two sequences put together is the smaller of their
/// smallest samples.
pub proof fn lemma_lowest_concat(a: Seq<u8>, b: Seq<u8>)
    ensures
        lowest(a + b) == lower(lowest(a), lowest(b)),
    decreases b.len(),
{
    if b.len() == 0 {
        assert(a + b =~= a);
    } else {
        assert((a + b).drop_last() =~= a + b.drop_last());
        lemma_lowest_concat(a, b.drop_last());
    }
}

/// What kernel entry `[i][j]` offers to a dilation at `(x, y)`: the sample it
/// points at, or 0 where it takes no part.
pub open spec fn peak(g: Seq<Seq<u8>>, kernel: [[bool; 3]; 3], x: int, y: int, i: int, j: int) -> u8 {
    if takes_part(g, kernel, x, y, i, j) {
        g[y + i - 1][x + j - 1]
    } else {
        0
    }
}

/// What kernel entry `[i][j]` offers to an erosion at `(x, y)`: the sample
/// it points at, or 255 where it takes no part.
pub open spec fn trough(g: Seq<Seq<u8>>, kernel: [[bool; 3]; 3], x: int, y: int, i: int, j: int) -> u8 {
    if takes_part(g, kernel, x, y, i, j) {
        g[y + i - 1][x + j - 1]
    } else {
        255
    }
}

/// The largest offer of kernel row `i`.
pub open spec fn row_peak(g: Seq<Seq<u8>>, kernel: [[bool; 3]; 3], x: int, y: int, i: int) -> u8 {
    higher(
        higher(peak(g, kernel, x, y, i, 0), peak(g, kernel, x, y, i, 1)),
        peak(g, kernel, x, y, i, 2),
    )
}

/// The smallest offer of kernel row `i`.
pub open spec fn row_trough(g: Seq<Seq<u8>>, kernel: [[bool; 3]; 3], x: int, y: int, i: int) -> u8 {
    lower(
        lower(trough(g, kernel, x, y, i, 0), trough(g, kernel, x, y, i, 1)),
        trough(g, kernel, x, y, i, 2),
    )
}

/// The largest and the smallest of what one kernel entry contributes are
/// what it offers to a dilation and to an erosion.
proof fn lemma_cell_extremes(g: Seq<Seq<u8>>, kernel: [[bool; 3]; 3], x: int, y: int, i: int, j: int)
    ensures
        highest(cell(g, kernel, x, y, i, j)) == peak(g, kernel, x, y, i, j),
        lowest(cell(g, kernel, x, y, i, j)) == trough(g, kernel, x, y, i, j),
{
    let c = cell(g, kernel, x, y, i, j);
    if takes_part(g, kernel, x, y, i, j) {
        assert(c.drop_last() =~= Seq::<u8>::empty());
        assert(highest(c.drop_last()) == 0);
        assert(lowest(c.drop_last()) == 255);
    }
}

/// The largest and the smallest of what one kernel row contributes are the
/// largest and the smallest offer of its three entries.
proof fn lemma_row_extremes(g: Seq<Seq<u8>>, kernel: [[bool; 3]; 3], x: int, y: int, i: int)
    ensures
        highest(window_row(g, kernel, x, y, i)) == row_peak(g, kernel, x, y, i),
        lowest(window_row(g, kernel, x, y, i)) == row_trough(g, kernel, x, y, i),
{
    let c0 = cell(g, kernel, x, y, i, 0);
    let c1 = cell(g, kernel, x, y, i, 1);
    let c2 = cell(g, kernel, x, y, i, 2);
    lemma_cell_extremes(g, kernel, x, y, i, 0);
    lemma_cell_extremes(g, kernel, x, y, i, 1);
    lemma_cell_extremes(g, kernel, x, y, i, 2);
    lemma_highest_concat(c0, c1);
    lemma_highest_concat(c0 + c1, c2);
    lemma_lowest_concat(c0, c1);
    lemma_lowest_concat(c0 + c1, c2);
}

/// The dilated sample is the largest of the nine offers, and the eroded
/// sample the smallest.
pub proof fn lemma_extremes_by_entry(g: Seq<Seq<u8>>, kernel: [[bool; 3]; 3], x: int, y: int)
    ensures
        dilate_at(g, kernel, x, y) == higher(
            higher(row_peak(g, kernel, x, y, 0), row_peak(g, kernel, x, y, 1)),
            row_peak(g, kernel, x, y, 2),
        ),
        erode_at(g, kernel, x, y) == lower(
            lower(row_trough(g, kernel, x, y, 0), row_trough(g, kernel, x, y, 1)),
            row_trough(g, kernel, x, y, 2),
        ),
{
    let r0 = window_row(g, kernel, x, y, 0);
    let r1 = window_row(g, kernel, x, y, 1);
    let r2 = window_row(g, kernel, x, y, 2);
    lemma_row_extremes(g, kernel, x, y, 0);
    lemma_row_extremes(g, kernel, x, y, 1);
    lemma_row_extremes(g, kernel, x, y, 2);
    lemma_highest_concat(r0, r1);
    lemma_highest_concat(r0 + r1, r2);
    lemma_lowest_concat(r0, r1);
    lemma_lowest_concat(r0 + r1, r2);
}

/// Every sample that takes part in the fold at `(x, y)` lies between the
/// eroded and the dilated sample there.
pub proof fn lemma_extremes_bound(
    g: Seq<Seq<u8>>,
    kernel: [[bool; 3]; 3],
    x: int,
    y: int,
    i: int,
    j: int,
)
    requires
        takes_part(g, kernel, x, y, i, j),
    ensures
        erode_at(g, kernel, x, y) <= g[y + i - 1][x + j - 1] <= dilate_at(g, kernel, x, y),
{
    lemma_extremes_by_entry(g, kernel, x, y);
}

/// The dilated sample at `(x, y)` is one of the samples that take part
/// there, or 0 where none does.
pub proof fn lemma_dilate_at_attained(g: Seq<Seq<u8>>, kernel: [[bool; 3]; 3], x: int, y: int)
    ensures
        dilate_at(g, kernel, x, y) == 0 || exists|i: int, j: int|
            #[trigger] takes_part(g, kernel, x, y, i, j) && g[y + i - 1][x + j - 1] == dilate_at(
                g,
                kernel,
                x,
                y,
            ),
{
    lemma_extremes_by_entry(g, kernel, x, y);
    let d = dilate_at(g, kernel, x, y);
    if d != 0 {
        assert(exists|i: int, j: int|
            0 <= i < 3 && 0 <= j < 3 && #[trigger] peak(g, kernel, x, y, i, j) == d) by {
            let p00 = peak(g, kernel, x, y, 0, 0);
            let p01 = peak(g, kernel, x, y, 0, 1);
            let p02 = peak(g, kernel, x, y, 0, 2);
            let p10 = peak(g, kernel, x, y, 1, 0);
            let p11 = peak(g, kernel, x, y, 1, 1);
            let p12 = peak(g, kernel, x, y, 1, 2);
            let p20 = peak(g, kernel, x, y, 2, 0);
            let p21 = peak(g, kernel, x, y, 2, 1);
            let p22 = peak(g, kernel, x, y, 2, 2);
            assert(d == p00 || d == p01 || d == p02 || d == p10 || d == p11 || d == p12 || d
                == p20 || d == p21 || d == p22);
        }
        let (i, j) = choose|i: int, j: int|
            0 <= i < 3 && 0 <= j < 3 && #[trigger] peak(g, kernel, x, y, i, j) == d;
        assert(takes_part(g, kernel, x, y, i, j));
    }
}

/// The eroded sample at `(x, y)` is one of the samples that take part
/// there, or 255 where none does.
pub proof fn lemma_erode_at_attained(g: Seq<Seq<u8>>, kernel: [[bool; 3]; 3], x: int, y: int)
    ensures
        erode_at(g, kernel, x, y) == 255 || exists|i: int, j: int|
            #[trigger] takes_part(g, kernel, x, y, i, j) && g[y + i - 1][x + j - 1] == erode_at(
                g,
                kernel,
                x,
                y,
            ),
{
    lemma_extremes_by_entry(g, kernel, x, y);
    let e = erode_at(g, kernel, x, y);
    if e != 255 {
        assert(exists|i: int, j: int|
            0 <= i < 3 && 0 <= j < 3 && #[trigger] trough(g, kernel, x, y, i, j) == e) by {
            let t00 = trough(g, kernel, x, y, 0, 0);
            let t01 = trough(g, kernel, x, y, 0, 1);
            let t02 = trough(g, kernel, x, y, 0, 2);
            let t10 = trough(g, kernel, x, y, 1, 0);
            let t11 = trough(g, kernel, x, y, 1, 1);
            let t12 = trough(g, kernel, x, y, 1, 2);
            let t20 = trough(g, kernel, x, y, 2, 0);
            let t21 = trough(g, kernel, x, y, 2, 1);
            let t22 = trough(g, kernel, x, y, 2, 2);
            assert(e == t00 || e == t01 || e == t02 || e == t10 || e == t11 || e == t12 || e
                == t20 || e == t21 || e == t22);
        }
        let (i, j) = choose|i: int, j: int|
            0 <= i < 3 && 0 <= j < 3 && #[trigger] trough(g, kernel, x, y, i, j) == e;
        assert(takes_part(g, kernel, x, y, i, j));
    }
}

/// At the only pixel of a one-pixel image, the dilated and the eroded sample
/// under the full kernel are the pixel's own sample.
proof fn lemma_single_pixel_at(g: Seq<Seq<u8>>)
    requires
        g.len() == 1,
        g[0].len() == 1,
    ensures
        dilate_at(g, full_kernel(), 0, 0) == g[0][0],
        erode_at(g, full_kernel(), 0, 0) == g[0][0],
{
    let k = full_kernel();
    lemma_extremes_by_entry(g, k, 0, 0);
    assert(takes_part(g, k, 0, 0, 1, 1));
    assert forall|i: int, j: int| 0 <= i < 3 && 0 <= j < 3 && !(i == 1 && j == 1) implies !takes_part(
        g,
        k,
        0,
        0,
        i,
        j,
    ) by {}
}

/// On an image of a single pixel, dilation and erosion under the full kernel
/// both give the image back: only the centre offset lies inside it.
pub proof fn lemma_single_pixel(g: Seq<Seq<u8>>)
    requires
        g.len() == 1,
        g[0].len() == 1,
    ensures
        dilated(g, full_kernel()) == g,
        eroded(g, full_kernel()) == g,
{
    lemma_single_pixel_at(g);
    let d = dilated(g, full_kernel());
    let e = eroded(g, full_kernel());
    assert(d[0] =~= g[0]);
    assert(e[0] =~= g[0]);
    assert(d =~= g);
    assert(e =~= g);
}

/// Whether `pos` is the first or the last coordinate of an axis of `extent`
/// samples.
pub open spec fn on_border(pos: int, extent: int) -> bool {
    pos == 0 || pos == extent - 1
}

/// Under the full kernel, on an image at least two samples wide and high,
/// the fold at a corner takes in four samples, at any other border pixel six
/// and at an interior pixel nine, the pixel itself included.
pub proof fn lemma_window_size(g: Seq<Seq<u8>>, width: nat, x: int, y: int)
    requires
        rectangular(g, width),
        width >= 2,
        g.len() >= 2,
        in_grid(g, x, y),
    ensures
        on_border(x, width as int) && on_border(y, g.len() as int) ==> window(
            g,
            full_kernel(),
            x,
            y,
        ).len() == 4,
        on_border(x, width as int) != on_border(y, g.len() as int) ==> window(
            g,
            full_kernel(),
            x,
            y,
        ).len() == 6,
        !on_border(x, width as int) && !on_border(y, g.len() as int) ==> window(
            g,
            full_kernel(),
            x,
            y,
        ).len() == 9,
{
}

/// Dilation and erosion keep the shape of the grid.
pub proof fn lemma_shape_kept(g: Seq<Seq<u8>>, kernel: [[bool; 3]; 3])
    ensures
        same_shape(dilated(g, kernel), g),
        same_shape(eroded(g, kernel), g),
        same_shape(opening(g, kernel), g),
        same_shape(closing(g, kernel), g),
{
    let d = dilated(g, kernel);
    let e = eroded(g, kernel);
    assert(same_shape(d, g));
    assert(same_shape(e, g));
    assert(same_shape(dilated(e, kernel), e));
    assert(same_shape(eroded(d, kernel), d));
}

/// The grid with every sample `s` replaced by `255 - s`.
pub open spec fn complement(g: Seq<Seq<u8>>) -> Seq<Seq<u8>> {
    Seq::new(g.len(), |y: int| Seq::new(g[y].len(), |x: int| (255 - g[y][x]) as u8))
}

/// What a kernel entry offers to an erosion of the complement is the
/// complement of what it offers to a dilation of the image, and the other
/// way round.
proof fn lemma_complement_entry(
    g: Seq<Seq<u8>>,
    kernel: [[bool; 3]; 3],
    x: int,
    y: int,
    i: int,
    j: int,
)
    ensures
        trough(complement(g), kernel, x, y, i, j) == 255 - peak(g, kernel, x, y, i, j),
        peak(complement(g), kernel, x, y, i, j) == 255 - trough(g, kernel, x, y, i, j),
{
    let c = complement(g);
    if takes_part(g, kernel, x, y, i, j) {
        assert(takes_part(c, kernel, x, y, i, j));
        assert(c[y + i - 1][x + j - 1] == 255 - g[y + i - 1][x + j - 1]);
    } else {
        assert(!takes_part(c, kernel, x, y, i, j));
    }
}

/// The same for the smallest and the largest offer of a kernel row.
proof fn lemma_complement_row(g: Seq<Seq<u8>>, kernel: [[bool; 3]; 3], x: int, y: int, i: int)
    ensures
        row_trough(complement(g), kernel, x, y, i) == 255 - row_peak(g, kernel, x, y, i),
        row_peak(complement(g), kernel, x, y, i) == 255 - row_trough(g, kernel, x, y, i),
{
    lemma_complement_entry(g, kernel, x, y, i, 0);
    lemma_complement_entry(g, kernel, x, y, i, 1);
    lemma_complement_entry(g, kernel, x, y, i, 2);
}

/// At every pixel, eroding the complement gives the complement of the
/// dilated sample, and dilating it the complement of the eroded sample.
pub proof fn lemma_duality_at(g: Seq<Seq<u8>>, kernel: [[bool; 3]; 3], x: int, y: int)
    ensures
        erode_at(complement(g), kernel, x, y) == 255 - dilate_at(g, kernel, x, y),
        dilate_at(complement(g), kernel, x, y) == 255 - erode_at(g, kernel, x, y),
{
    lemma_extremes_by_entry(g, kernel, x, y);
    lemma_extremes_by_entry(complement(g), kernel, x, y);
    lemma_complement_row(g, kernel, x, y, 0);
    lemma_complement_row(g, kernel, x, y, 1);
    lemma_complement_row(g, kernel, x, y, 2);
}

/// Eroding the complement of an image gives the complement of its dilation,
/// and dilating the complement gives the complement of its erosion, under
/// any kernel.
pub proof fn lemma_duality(g: Seq<Seq<u8>>, kernel: [[bool; 3]; 3])
    ensures
        eroded(complement(g), kernel) == complement(dilated(g, kernel)),
        dilated(complement(g), kernel) == complement(eroded(g, kernel)),
{
    let c = complement(g);
    let ec = eroded(c, kernel);
    let cd = complement(dilated(g, kernel));
    let dc = dilated(c, kernel);
    let ce = complement(eroded(g, kernel));
    lemma_shape_kept(g, kernel);
    lemma_shape_kept(c, kernel);
    assert forall|y: int| 0 <= y < g.len() implies #[trigger] ec[y] == cd[y] by {
        assert(c[y].len() == g[y].len());
        assert(ec[y].len() == g[y].len());
        assert(cd[y].len() == g[y].len());
        assert forall|x: int| 0 <= x < g[y].len() implies #[trigger] ec[y][x] == cd[y][x] by {
            lemma_duality_at(g, kernel, x, y);
        }
        assert(ec[y] =~= cd[y]);
    }
    assert forall|y: int| 0 <= y < g.len() implies #[trigger] dc[y] == ce[y] by {
        assert(c[y].len() == g[y].len());
        assert(dc[y].len() == g[y].len());
        assert(ce[y].len() == g[y].len());
        assert forall|x: int| 0 <= x < g[y].len() implies #[trigger] dc[y][x] == ce[y][x] by {
            lemma_duality_at(g, kernel, x, y);
        }
        assert(dc[y] =~= ce[y]);
    }
    assert(ec =~= cd);
    assert(dc =~= ce);
}

/// Closing the complement of an image gives the complement of its opening,
/// and opening the complement gives the complement of its closing.
pub proof fn lemma_duality_open_close(g: Seq<Seq<u8>>, kernel: [[bool; 3]; 3])
    ensures
        closing(complement(g), kernel) == complement(opening(g, kernel)),
        opening(complement(g), kernel) == complement(closing(g, kernel)),
{
    lemma_duality(g, kernel);
    lemma_duality(eroded(g, kernel), kernel);
    lemma_duality(dilated(g, kernel), kernel);
}

/// Under a kernel that includes the centre, a dilated sample is never below
/// the sample it replaces, and an eroded sample never above it.
pub proof fn lemma_monotone(g: Seq<Seq<u8>>, kernel: [[bool; 3]; 3], x: int, y: int)
    requires
        includes_center(kernel),
        in_grid(g, x, y),
    ensures
        dilated(g, kernel)[y][x] >= g[y][x] >= eroded(g, kernel)[y][x],
{
    lemma_extremes_bound(g, kernel, x, y, 1, 1);
}

/// Under a kernel that includes the centre, the dilated sample is never
/// below the eroded one, so dilate-minus-erode is their plain difference:
/// the subtraction never goes below zero.
pub proof fn lemma_dilate_sub_erode_exact(g: Seq<Seq<u8>>, kernel: [[bool; 3]; 3], x: int, y: int)
    requires
        includes_center(kernel),
        in_grid(g, x, y),
    ensures
        dilate_at(g, kernel, x, y) - erode_at(g, kernel, x, y) >= 0,
        dilate_sub_erode_at(g, kernel, x, y) == dilate_at(g, kernel, x, y) - erode_at(
            g,
            kernel,
            x,
            y,
        ),
{
    lemma_extremes_bound(g, kernel, x, y, 1, 1);
}

/// Whether the kernel is unchanged by a half turn: it enables an offset
/// exactly when it enables the opposite one.
pub open spec fn symmetric(kernel: [[bool; 3]; 3]) -> bool {
    &&& kernel[0][0] == kernel[2][2]
    &&& kernel[0][1] == kernel[2][1]
    &&& kernel[0][2] == kernel[2][0]
    &&& kernel[1][0] == kernel[1][2]
}

/// Under a symmetric kernel, neighbours see each other: if entry `[i][j]`
/// takes part at `(x, y)`, then at the pixel it points at the opposite entry
/// takes part and points back at `(x, y)`.
pub proof fn lemma_neighbours_mutual(
    g: Seq<Seq<u8>>,
    kernel: [[bool; 3]; 3],
    x: int,
    y: int,
    i: int,
    j: int,
)
    requires
        symmetric(kernel),
        in_grid(g, x, y),
        takes_part(g, kernel, x, y, i, j),
    ensures
        takes_part(g, kernel, x + j - 1, y + i - 1, 2 - i, 2 - j),
{
}

/// Under a symmetric kernel, opening never raises a sample.
pub proof fn lemma_opening_below(g: Seq<Seq<u8>>, kernel: [[bool; 3]; 3], x: int, y: int)
    requires
        symmetric(kernel),
        in_grid(g, x, y),
    ensures
        opening(g, kernel)[y][x] <= g[y][x],
{
    let e = eroded(g, kernel);
    lemma_shape_kept(g, kernel);
    lemma_dilate_at_attained(e, kernel, x, y);
    let d = dilate_at(e, kernel, x, y);
    assert(opening(g, kernel)[y][x] == d);
    if d != 0 {
        let (i, j) = choose|i: int, j: int|
            #[trigger] takes_part(e, kernel, x, y, i, j) && e[y + i - 1][x + j - 1] == d;
        assert(takes_part(g, kernel, x, y, i, j));
        lemma_neighbours_mutual(g, kernel, x, y, i, j);
        lemma_extremes_bound(g, kernel, x + j - 1, y + i - 1, 2 - i, 2 - j);
    }
}

/// Under a symmetric kernel, closing never lowers a sample.
pub proof fn lemma_closing_above(g: Seq<Seq<u8>>, kernel: [[bool; 3]; 3], x: int, y: int)
    requires
        symmetric(kernel),
        in_grid(g, x, y),
    ensures
        closing(g, kernel)[y][x] >= g[y][x],
{
    let d = dilated(g, kernel);
    lemma_shape_kept(g, kernel);
    lemma_erode_at_attained(d, kernel, x, y);
    let e = erode_at(d, kernel, x, y);
    assert(closing(g, kernel)[y][x] == e);
    if e != 255 {
        let (i, j) = choose|i: int, j: int|
            #[trigger] takes_part(d, kernel, x, y, i, j) && d[y + i - 1][x + j - 1] == e;
        assert(takes_part(g, kernel, x, y, i, j));
        lemma_neighbours_mutual(g, kernel, x, y, i, j);
        lemma_extremes_bound(g, kernel, x + j - 1, y + i - 1, 2 - i, 2 - j);
    }
}

/// Whether `a` and `b` have the same shape and no sample of `a` is above the
/// sample of `b` in its place.
pub open spec fn nowhere_above(a: Seq<Seq<u8>>, b: Seq<Seq<u8>>) -> bool {
    &&& same_shape(a, b)
    &&& forall|x: int, y: int| in_grid(a, x, y) ==> #[trigger] a[y][x] <= b[y][x]
}

/// Dilation and erosion keep the order of images: if no sample of `a` is
/// above its counterpart in `b`, the same holds of their dilations and of
/// their erosions.
pub proof fn lemma_order_kept(a: Seq<Seq<u8>>, b: Seq<Seq<u8>>, kernel: [[bool; 3]; 3])
    requires
        nowhere_above(a, b),
    ensures
        nowhere_above(dilated(a, kernel), dilated(b, kernel)),
        nowhere_above(eroded(a, kernel), eroded(b, kernel)),
{
    lemma_shape_kept(a, kernel);
    lemma_shape_kept(b, kernel);
    let da = dilated(a, kernel);
    let db = dilated(b, kernel);
    let ea = eroded(a, kernel);
    let eb = eroded(b, kernel);
    assert forall|x: int, y: int| in_grid(da, x, y) implies #[trigger] da[y][x] <= db[y][x] by {
        lemma_dilate_at_attained(a, kernel, x, y);
        let d = dilate_at(a, kernel, x, y);
        if d != 0 {
            let (i, j) = choose|i: int, j: int|
                #[trigger] takes_part(a, kernel, x, y, i, j) && a[y + i - 1][x + j - 1] == d;
            assert(takes_part(b, kernel, x, y, i, j));
            lemma_extremes_bound(b, kernel, x, y, i, j);
        }
    }
    assert forall|x: int, y: int| in_grid(ea, x, y) implies #[trigger] ea[y][x] <= eb[y][x] by {
        lemma_erode_at_attained(b, kernel, x, y);
        let e = erode_at(b, kernel, x, y);
        if e != 255 {
            let (i, j) = choose|i: int, j: int|
                #[trigger] takes_part(b, kernel, x, y, i, j) && b[y + i - 1][x + j - 1] == e;
            assert(takes_part(a, kernel, x, y, i, j));
            lemma_extremes_bound(a, kernel, x, y, i, j);
        }
    }
}

/// Two grids of the same shape, neither of which has a sample above its
/// counterpart in the other, are equal.
proof fn lemma_squeeze(a: Seq<Seq<u8>>, b: Seq<Seq<u8>>)
    requires
        nowhere_above(a, b),
        nowhere_above(b, a),
    ensures
        a == b,
{
    assert forall|y: int| 0 <= y < a.len() implies #[trigger] a[y] == b[y] by {
        assert forall|x: int| 0 <= x < a[y].len() implies #[trigger] a[y][x] == b[y][x] by {
            assert(in_grid(a, x, y));
            assert(in_grid(b, x, y));
        }
        assert(a[y] =~= b[y]);
    }
    assert(a =~= b);
}

/// Under a symmetric kernel, opening an opened image and closing a closed
/// image change nothing.
pub proof fn lemma_idempotent(g: Seq<Seq<u8>>, kernel: [[bool; 3]; 3])
    requires
        symmetric(kernel),
    ensures
        opening(opening(g, kernel), kernel) == opening(g, kernel),
        closing(closing(g, kernel), kernel) == closing(g, kernel),
{
    let e = eroded(g, kernel);
    let d = dilated(g, kernel);
    let o = opening(g, kernel);
    let c = closing(g, kernel);
    lemma_shape_kept(g, kernel);
    lemma_shape_kept(e, kernel);
    lemma_shape_kept(d, kernel);
    lemma_shape_kept(o, kernel);
    lemma_shape_kept(c, kernel);

    // Opening again cannot raise a sample ...
    assert forall|x: int, y: int| in_grid(opening(o, kernel), x, y) implies #[trigger] opening(
        o,
        kernel,
    )[y][x] <= o[y][x] by {
        lemma_opening_below(o, kernel, x, y);
    }
    // ... nor lower one: eroding the opened image gives at least the erosion
    // it was dilated from.
    assert forall|x: int, y: int| in_grid(e, x, y) implies #[trigger] e[y][x] <= eroded(o, kernel)[y][x] by {
        lemma_closing_above(e, kernel, x, y);
    }
    lemma_order_kept(e, eroded(o, kernel), kernel);
    lemma_squeeze(opening(o, kernel), o);

    // The same for closing, the other way round.
    assert forall|x: int, y: int| in_grid(c, x, y) implies #[trigger] c[y][x] <= closing(c, kernel)[y][x] by {
        lemma_closing_above(c, kernel, x, y);
    }
    assert forall|x: int, y: int| in_grid(dilated(c, kernel), x, y) implies #[trigger] dilated(
        c,
        kernel,
    )[y][x] <= d[y][x] by {
        lemma_opening_below(d, kernel, x, y);
    }
    lemma_order_kept(dilated(c, kernel), d, kernel);
    lemma_squeeze(closing(c, kernel), c);
}

/// Under the full kernel, opening an opened image and closing a closed image
/// change nothing.
pub proof fn lemma_idempotent_full_kernel(g: Seq<Seq<u8>>)
    ensures
        opening(opening(g, full_kernel()), full_kernel()) == opening(g, full_kernel()),
        closing(closing(g, full_kernel()), full_kernel()) == closing(g, full_kernel()),
{
    lemma_idempotent(g, full_kernel());
}

} // verus!
