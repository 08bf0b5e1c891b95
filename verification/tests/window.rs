use imageproc::{clamp_axis, AxisSpan};

fn parts(span: AxisSpan) -> (u32, u32, usize, usize) {
    (span.lo, span.hi, span.el_lo, span.el_hi)
}

#[test]
fn clamp_axis_in_the_interior_covers_three() {
    assert_eq!(parts(clamp_axis(2, 5)), (1, 4, 0, 3));
}

#[test]
fn clamp_axis_at_the_low_end_drops_the_first_kernel_index() {
    assert_eq!(parts(clamp_axis(0, 5)), (0, 2, 1, 3));
}

#[test]
fn clamp_axis_at_the_high_end_drops_the_last_kernel_index() {
    assert_eq!(parts(clamp_axis(4, 5)), (3, 5, 0, 2));
}

#[test]
fn clamp_axis_on_a_single_sample_keeps_only_the_centre() {
    assert_eq!(parts(clamp_axis(0, 1)), (0, 1, 1, 2));
}

#[test]
fn clamp_axis_on_two_samples() {
    assert_eq!(parts(clamp_axis(0, 2)), (0, 2, 1, 3));
    assert_eq!(parts(clamp_axis(1, 2)), (0, 2, 0, 2));
}

#[test]
fn clamp_axis_keeps_both_ranges_aligned() {
    for extent in 1..7u32 {
        for pos in 0..extent {
            let span = clamp_axis(pos, extent);
            assert_eq!((span.hi - span.lo) as usize, span.el_hi - span.el_lo);
            assert_eq!(span.lo as usize + 1, pos as usize + span.el_lo);
            assert!(span.hi <= extent);
            assert!(span.el_hi <= 3);
        }
    }
}

#[test]
fn clamp_axis_at_the_largest_coordinate() {
    assert_eq!(
        parts(clamp_axis(u32::MAX - 1, u32::MAX)),
        (u32::MAX - 2, u32::MAX, 0, 2)
    );
}
