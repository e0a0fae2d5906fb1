use rtgx::fixed::SCALE;
use rtgx::geometry::point::Point;
use rtgx::geometry::{barycentric, old_skool_triangle, triangle};

const W: usize = 16;
const H: usize = 16;
const COL: u32 = 0x0000_FF00;
const S: i64 = SCALE;

fn canvas() -> Vec<u32> {
    vec![0u32; W * H]
}

fn count_eq(buf: &[u32], c: u32) -> usize {
    buf.iter().filter(|&&p| p == c).count()
}

#[test]
fn barycentric_weights_exact() {
    let pts = [
        Point::new(0, 0, 0),
        Point::new(10 * S, 0, 0),
        Point::new(0, 10 * S, 0),
    ];
    let w = barycentric(&pts, Point::new(2 * S, 2 * S, 0));
    // the point sits at (0.2, 0.2) of the triangle: weights (0.6, 0.2, 0.2)
    assert_eq!(w, Point::new(600_000, 200_000, 200_000));
    assert_eq!(w.x + w.y + w.z, S);
}

#[test]
fn barycentric_outside_is_negative() {
    let pts = [
        Point::new(0, 0, 0),
        Point::new(10 * S, 0, 0),
        Point::new(0, 10 * S, 0),
    ];
    let w = barycentric(&pts, Point::new(8 * S, 8 * S, 0));
    assert!(w.x < 0 || w.y < 0 || w.z < 0);
}

#[test]
fn barycentric_degenerate_gives_sentinel() {
    // collinear corners: zero area at this resolution
    let pts = [
        Point::new(0, 0, 0),
        Point::new(5 * S, 0, 0),
        Point::new(10 * S, 0, 0),
    ];
    let w = barycentric(&pts, Point::new(1 * S, 0, 0));
    assert_eq!(w, Point::new(-S, S, S));
}

#[test]
fn right_triangle_fills_expected_pixel_count() {
    // (0,0) (10,0) (0,10): every pixel with x >= 0, y >= 1 (row 0 flips
    // off canvas), x + y <= 10 is covered: 10 + 9 + ... + 1 = 55
    let mut buf = canvas();
    let pts = [
        Point::new(0, 0, 0),
        Point::new(10 * S, 0, 0),
        Point::new(0, 10 * S, 0),
    ];
    triangle(&pts, &mut buf, W, H, COL);
    assert_eq!(count_eq(&buf, COL), 55);
    // nothing outside the bounding box is touched
    for py in 0..H {
        for px in 0..W {
            if px > 10 || py < H - 10 {
                assert_eq!(buf[py * W + px], 0);
            }
        }
    }
}

#[test]
fn degenerate_triangle_fills_nothing() {
    let mut buf = canvas();
    let pts = [
        Point::new(0, 0, 0),
        Point::new(5 * S, 0, 0),
        Point::new(10 * S, 0, 0),
    ];
    triangle(&pts, &mut buf, W, H, COL);
    assert_eq!(count_eq(&buf, COL), 0);
}

#[test]
fn adjacent_triangles_cover_their_square() {
    // the two halves of the square [0,10]x[0,10] leave no hole along the
    // shared diagonal (both may claim its pixels; the fill is opaque)
    let mut buf = canvas();
    let lower = [
        Point::new(0, 0, 0),
        Point::new(10 * S, 0, 0),
        Point::new(0, 10 * S, 0),
    ];
    let upper = [
        Point::new(10 * S, 0, 0),
        Point::new(0, 10 * S, 0),
        Point::new(10 * S, 10 * S, 0),
    ];
    triangle(&lower, &mut buf, W, H, COL);
    triangle(&upper, &mut buf, W, H, COL);
    // rows 1..=10 of the square are on canvas: 11 * 10 pixels
    assert_eq!(count_eq(&buf, COL), 110);
}

#[test]
fn scanline_triangle_exact_pixels() {
    // vertices sorted by y: (0,1) (10,6) (0,11); rows widen to the middle
    // and narrow again: 1,3,5,7,9,11,9,7,5,3,1 pixels = 61
    let mut buf = canvas();
    old_skool_triangle((0, 1), (10, 6), (0, 11), &mut buf, W, H, COL);
    assert_eq!(count_eq(&buf, COL), 61);
    // the middle row spans the full base
    for x in 0..=10usize {
        assert_eq!(buf[(H - 6) * W + x], COL);
    }
}

#[test]
fn scanline_triangle_vertex_order_does_not_matter() {
    let mut a = canvas();
    let mut b = canvas();
    old_skool_triangle((0, 1), (10, 6), (0, 11), &mut a, W, H, COL);
    old_skool_triangle((0, 11), (0, 1), (10, 6), &mut b, W, H, COL);
    assert_eq!(a, b);
}
