//! The neighbourhood that a 3x3 structuring element selects around a pixel.
//!
//! Kernel entry `[i][j]` stands for the offset `(dx, dy) = (j - 1, i - 1)`.
//! An entry takes part in the fold at `(x, y)` when it is enabled and the
//! pixel `(x + dx, y + dy)` lies inside the image. Offsets that leave the
//! image are skipped; nothing is padded, wrapped or replicated.

use vstd::prelude::*;

verus! {

/// Whether `(x, y)` addresses a sample of the grid `g`.
pub open spec fn in_grid(g: Seq<Seq<u8>>, x: int, y: int) -> bool {
    0 <= y < g.len() && 0 <= x < g[y].len()
}

/// Whether every row of `g` has `width` samples.
pub open spec fn rectangular(g: Seq<Seq<u8>>, width: nat) -> bool {
    forall|y: int| 0 <= y < g.len() ==> (#[trigger] g[y]).len() == width
}

/// Whether two grids have the same number of rows and, row by row, the same
/// number of samples.
pub open spec fn same_shape(a: Seq<Seq<u8>>, b: Seq<Seq<u8>>) -> bool {
    &&& a.len() == b.len()
    &&& forall|y: int| 0 <= y < a.len() ==> (#[trigger] a[y]).len() == b[y].len()
}

/// The kernel with all nine entries enabled: the 8-connected neighbourhood
/// and the centre.
pub open spec fn full_kernel() -> [[bool; 3]; 3] {
    [[true, true, true], [true, true, true], [true, true, true]]
}

/// Whether the kernel enables the centre offset `(0, 0)`.
pub open spec fn includes_center(kernel: [[bool; 3]; 3]) -> bool {
    kernel[1][1]
}

/// Whether kernel entry `[i][j]` takes part in the fold at `(x, y)`: it is
/// enabled and the pixel it points at lies inside the grid.
pub open spec fn takes_part(
    g: Seq<Seq<u8>>,
    kernel: [[bool; 3]; 3],
    x: int,
    y: int,
    i: int,
    j: int,
) -> bool {
    &&& 0 <= i < 3
    &&& 0 <= j < 3
    &&& kernel[i][j]
    &&& in_grid(g, x + j - 1, y + i - 1)
}

/// What kernel entry `[i][j]` contributes at `(x, y)`: the sample it points
/// at, or nothing.
pub open spec fn cell(
    g: Seq<Seq<u8>>,
    kernel: [[bool; 3]; 3],
    x: int,
    y: int,
    i: int,
    j: int,
) -> Seq<u8> {
    if takes_part(g, kernel, x, y, i, j) {
        seq![g[y + i - 1][x + j - 1]]
    } else {
        Seq::empty()
    }
}

/// The contributions of kernel row `i` at `(x, y)`, left to right.
pub open spec fn window_row(
    g: Seq<Seq<u8>>,
    kernel: [[bool; 3]; 3],
    x: int,
    y: int,
    i: int,
) -> Seq<u8> {
    cell(g, kernel, x, y, i, 0) + cell(g, kernel, x, y, i, 1) + cell(g, kernel, x, y, i, 2)
}

/// The samples folded at `(x, y)`, in the order they are folded: kernel rows
/// top to bottom, and within a row left to right.
pub open spec fn window(g: Seq<Seq<u8>>, kernel: [[bool; 3]; 3], x: int, y: int) -> Seq<u8> {
    window_row(g, kernel, x, y, 0) + window_row(g, kernel, x, y, 1) + window_row(
        g,
        kernel,
        x,
        y,
        2,
    )
}

/// The part of one image axis that a 3-wide kernel centred on `pos` covers,
/// and the kernel indices that go with it.
#[derive(Clone, Copy, Debug)]
pub struct AxisSpan {
    /// First image coordinate covered.
    pub lo: u32,
    /// One past the last image coordinate covered.
    pub hi: u32,
    /// Kernel index that goes with `lo`.
    pub el_lo: usize,
    /// One past the kernel index that goes with the last coordinate.
    pub el_hi: usize,
}

/// Clamps the span `pos - 1 ..= pos + 1` to an axis of `extent` samples, on
/// the low and on the high side independently, and clamps the kernel indices
/// `0..3` alongside so that kernel index `e` keeps pointing at coordinate
/// `pos + e - 1`.
pub fn clamp_axis(pos: u32, extent: u32) -> (span: AxisSpan)
    requires
        pos < extent,
    ensures
        span.lo == if pos == 0 { 0 } else { pos - 1 },
        span.hi == if pos + 1 == extent { extent as int } else { pos + 2 },
        span.el_lo == span.lo + 1 - pos,
        span.el_hi == span.hi + 1 - pos,
{
    let (lo, el_lo): (u32, usize) = if pos < 1 {
        (0, 1 - pos as usize)
    } else {
        (pos - 1, 0)
    };
    let (hi, el_hi): (u32, usize) = if pos + 1 >= extent {
        (extent, 3 - (pos + 1 - extent + 1) as usize)
    } else {
        (pos + 2, 3)
    };
    AxisSpan { lo, hi, el_lo, el_hi }
}

} // verus!
