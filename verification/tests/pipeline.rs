use rtgx::fixed::SCALE;
use rtgx::geometry::point::Point;
use rtgx::geometry::{canvas_to_three, three_to_canvas};
use rtgx::render::{face_normal, render, ShadeMode};

const S: i64 = SCALE;
const W: usize = 16;
const H: usize = 16;

fn canvas() -> Vec<u32> {
    vec![0u32; W * H]
}

#[test]
fn projection_centers_the_origin() {
    let p = Point::new(0, 0, 0);
    let t = three_to_canvas(&p, 720, 720);
    assert_eq!(t, Point::new(360 * S, 360 * S, 0));
}

#[test]
fn projection_maps_corners_and_keeps_z() {
    let p = Point::new(-S, S, 7);
    let t = three_to_canvas(&p, 720, 480);
    assert_eq!(t.x, 0);
    assert_eq!(t.y, 480 * S);
    assert_eq!(t.z, 7);
}

#[test]
fn projection_roundtrip_recovers_coordinate() {
    // forward then inverse stays within one fixed-point step
    let samples: [i64; 7] = [-S, -250_000, -1, 0, 1, 250_000, S];
    for &x in samples.iter() {
        let sx = three_to_canvas(&Point::new(x, 0, 0), 720, 720).x;
        let back = canvas_to_three(sx, 720);
        assert!(x - 1 <= back && back <= x);
    }
}

#[test]
fn projection_roundtrip_is_exact_on_even_products() {
    // (0.25 + 1) * 720 is even, so nothing is lost either way
    let sx = three_to_canvas(&Point::new(250_000, 0, 0), 720, 720).x;
    assert_eq!(sx, 450 * S);
    assert_eq!(canvas_to_three(sx, 720), 250_000);
}

#[test]
fn face_normal_of_front_face_points_backward() {
    let p0 = Point::new(0, 0, 0);
    let p1 = Point::new(S, 0, 0);
    let p2 = Point::new(0, S, 0);
    let n = face_normal(p0, p1, p2);
    assert_eq!(n, Point::new(0, 0, -S));
}

#[test]
fn backfacing_face_writes_no_pixel() {
    // same corners, opposite winding: normal.z > 0, culled entirely
    let verts = vec![Point::new(0, 0, 0), Point::new(S, 0, 0), Point::new(0, S, 0)];
    let faces = vec![vec![0usize, 2, 1]];
    let light = [0i64, 0, -S];
    let mut buf = canvas();
    render(&verts, &faces, &mut buf, W, H, &light, ShadeMode::ClampToBlack);
    assert!(buf.iter().all(|&p| p == 0));
}

#[test]
fn frontfacing_face_fills_white() {
    let verts = vec![Point::new(0, 0, 0), Point::new(S, 0, 0), Point::new(0, S, 0)];
    let faces = vec![vec![0usize, 1, 2]];
    let light = [0i64, 0, -S];
    let mut buf = canvas();
    render(&verts, &faces, &mut buf, W, H, &light, ShadeMode::ClampToBlack);
    let lit = buf.iter().filter(|&&p| p != 0).count();
    assert!(lit > 0);
    for &p in buf.iter() {
        assert!(p == 0 || p == 0x00FF_FFFF);
    }
}

#[test]
fn unlit_face_is_skipped_under_skip_mode() {
    let verts = vec![Point::new(0, 0, 0), Point::new(S, 0, 0), Point::new(0, S, 0)];
    let faces = vec![vec![0usize, 1, 2]];
    // light shining along +Z: the front face (normal -Z) gets negative intensity
    let light = [0i64, 0, S];
    let mut base = canvas();
    for p in base.iter_mut() {
        *p = 0x0012_3456;
    }
    let mut skipped = base.clone();
    render(&verts, &faces, &mut skipped, W, H, &light, ShadeMode::SkipUnlit);
    assert_eq!(skipped, base);

    // under the clamping policy the same face is drawn, in black
    let mut clamped = base.clone();
    render(&verts, &faces, &mut clamped, W, H, &light, ShadeMode::ClampToBlack);
    let black = clamped.iter().filter(|&&p| p == 0).count();
    assert!(black > 0);
}

#[test]
fn render_is_a_per_face_fold() {
    let verts = vec![
        Point::new(0, 0, 0),
        Point::new(S, 0, 0),
        Point::new(0, S, 0),
        Point::new(-S, -S, 0),
    ];
    let faces = vec![vec![0usize, 1, 2], vec![0usize, 3, 1]];
    let light = [0i64, 0, -S];
    let mut all = canvas();
    render(&verts, &faces, &mut all, W, H, &light, ShadeMode::ClampToBlack);
    let mut stepped = canvas();
    render(&verts, &vec![faces[0].clone()], &mut stepped, W, H, &light, ShadeMode::ClampToBlack);
    render(&verts, &vec![faces[1].clone()], &mut stepped, W, H, &light, ShadeMode::ClampToBlack);
    assert_eq!(all, stepped);
}
