
const W: usize = 16;
const H: usize = 16;
const COL: u32 = 0x00FF_FFFF;

fn canvas() -> Vec<u32> {
    vec![0u32; W * H]
}

fn count_set(buf: &[u32]) -> usize {
    buf.iter().filter(|&&p| p != 0).count()
}

#[test]
fn zero_length_segment_plots_one_pixel() {
    let mut buf = canvas();
    rtgx::geometry::line(2, 3, 2, 3, &mut buf, W, H, COL);
    assert_eq!(count_set(&buf), 1);
    // Y flips: input row 3 lands on buffer row H - 3
    assert_eq!(buf[(H - 3) * W + 2], COL);
}

#[test]
fn zero_length_segment_on_flip_border_is_off_canvas() {
    // (0, 0) flips to row H, one past the last buffer row: the single
    // plotted position is discarded, never written out of bounds.
    let mut buf = canvas();
    rtgx::geometry::line(0, 0, 0, 0, &mut buf, W, H, COL);
    assert_eq!(count_set(&buf), 0);
}

#[test]
fn horizontal_segment_plots_eleven_pixels_one_row() {
    let mut buf = canvas();
    rtgx::geometry::line(0, 1, 10, 1, &mut buf, W, H, COL);
    assert_eq!(count_set(&buf), 11);
    // all on the one flipped row, monotonically increasing x
    for x in 0..=10usize {
        assert_eq!(buf[(H - 1) * W + x], COL);
    }
}

#[test]
fn horizontal_segment_right_to_left_matches() {
    let mut ltr = canvas();
    let mut rtl = canvas();
    rtgx::geometry::line(0, 1, 10, 1, &mut ltr, W, H, COL);
    rtgx::geometry::line(10, 1, 0, 1, &mut rtl, W, H, COL);
    assert_eq!(ltr, rtl);
}

#[test]
fn vertical_segment_is_steep_case() {
    let mut buf = canvas();
    rtgx::geometry::line(4, 1, 4, 6, &mut buf, W, H, COL);
    assert_eq!(count_set(&buf), 6);
    for y in 1..=6usize {
        assert_eq!(buf[(H - y) * W + 4], COL);
    }
}

#[test]
fn diagonal_segment_steps_once_per_column() {
    let mut buf = canvas();
    rtgx::geometry::line(0, 1, 5, 6, &mut buf, W, H, COL);
    assert_eq!(count_set(&buf), 6);
    for x in 0..=5usize {
        assert_eq!(buf[(H - 1 - x) * W + x], COL);
    }
}

#[test]
fn off_canvas_pixels_are_skipped_without_panic() {
    let mut buf = canvas();
    rtgx::geometry::line(-5, 1, 20, 1, &mut buf, W, H, COL);
    // only the 16 on-canvas columns of the row are written
    assert_eq!(count_set(&buf), W);
}
