//! The geometric pipeline around the rasterizers: projection from object
//! space to canvas space (and its inverse), the per-face shading and
//! back-face culling pass, and the render loop over a whole mesh.

use crate::color::{spec_rgb, u8_rgb_color};
use crate::fixed::{div_floor_i128, MAX_COORD, SCALE};
use crate::geometry::point::{spec_cross, spec_normalize, spec_sub, within, Point};
use crate::geometry::{pix, spec_project, three_to_canvas, tri_painted, triangle, RASTER_COORD};
use vstd::arithmetic::div_mod::{
    lemma_fundamental_div_mod, lemma_mod_division_less_than_divisor, lemma_multiply_divide_lt,
};
use vstd::prelude::*;

verus! {

/// Shading policy for faces the light does not reach (nonpositive
/// intensity): keep them and let the gray clamp to black, or drop them
/// entirely. Both policies appear in rasterizers of this kind, so the
/// choice is an explicit argument rather than a built-in.
#[derive(Clone, Copy, Debug, PartialEq, Eq, Structural)]
pub enum ShadeMode {
    /// Keep the face; its grayscale level clamps to black.
    ClampToBlack,
    /// Draw only faces with positive light intensity.
    SkipUnlit,
}

/// Grayscale level of a light intensity: `intensity * 255` scaled back
/// to channel units, clamped to the 8-bit range rather than overflowing
/// into adjacent channels; nonpositive intensity clamps to black.
pub open spec fn spec_gray(intensity: int) -> int {
    let v = intensity * 255 / (SCALE * SCALE);
    if v < 0 {
        0
    } else if v > 255 {
        255
    } else {
        v
    }
}

/// Map a light intensity (un-rescaled dot product of two unit vectors,
/// about `SCALE * SCALE` at full brightness) to its grayscale level.
pub fn intensity_to_gray(intensity: i64) -> (g: u8)
    ensures
        g as int == spec_gray(intensity as int),
{
    proof {
        assert(-3_000_000_000_000_000_000_000int <= (intensity as int) * 255
            <= 3_000_000_000_000_000_000_000int) by (nonlinear_arith)
            requires
                -10_000_000_000_000_000_000 <= intensity as int <= 10_000_000_000_000_000_000,
        ;
        assert(1_000_000_000_000int == SCALE * SCALE);
    }
    let v = div_floor_i128((intensity as i128) * 255, 1_000_000_000_000);
    if v < 0 {
        0
    } else if v > 255 {
        255
    } else {
        v as u8
    }
}

/// The unit surface normal of the face `(p0, p1, p2)`:
/// `normalize(cross(p2 - p0, p1 - p0))`.
pub open spec fn spec_face_normal(p0: Point, p1: Point, p2: Point) -> Point {
    spec_normalize(spec_cross(spec_sub(p2, p0), spec_sub(p1, p0)))
}

/// Compute the unit surface normal of a face.
pub fn face_normal(p0: Point, p1: Point, p2: Point) -> (n: Point)
    requires
        within(p0, MAX_COORD as int),
        within(p1, MAX_COORD as int),
        within(p2, MAX_COORD as int),
    ensures
        n == spec_face_normal(p0, p1, p2),
        within(n, SCALE as int),
{
    p2.sub(p0).cross(p1.sub(p0)).normalize()
}

/// Everything rendering one face leaves in the buffer: nothing for a
/// back-facing triangle (`normal.z > 0`), nothing for an unlit face
/// under [`ShadeMode::SkipUnlit`], and otherwise the triangle fill of
/// its three projected vertices in the intensity's gray.
pub open spec fn spec_render_face(
    buf: Seq<u32>,
    vertices: Seq<Point>,
    face: Seq<usize>,
    width: int,
    height: int,
    light: Seq<i64>,
    mode: ShadeMode,
) -> Seq<u32> {
    if face.len() != 3 || face[0] >= vertices.len() || face[1] >= vertices.len() || face[2]
        >= vertices.len() {
        buf
    } else {
        let p0 = vertices[face[0] as int];
        let p1 = vertices[face[1] as int];
        let p2 = vertices[face[2] as int];
        let n = spec_face_normal(p0, p1, p2);
        if n.z > 0 {
            buf
        } else {
            let intensity = n.x * light[0] + n.y * light[1] + n.z * light[2];
            if mode == ShadeMode::SkipUnlit && intensity <= 0 {
                buf
            } else {
                let t0 = spec_project(p0, width, height);
                let t1 = spec_project(p1, width, height);
                let t2 = spec_project(p2, width, height);
                let g = spec_gray(intensity) as u8;
                let col = spec_rgb(g, g, g) as u32;
                Seq::new(
                    buf.len(),
                    |i: int|
                        if width >= 1 && tri_painted(t0, t1, t2, width, height, i % width, i / width) {
                            col
                        } else {
                            buf[i]
                        },
                )
            }
        }
    }
}

/// Shade and draw one face: compute its normal, discard it if it faces
/// away from the viewer (`normal.z > 0`), derive the grayscale color
/// from the light intensity, project the three vertices and fill the
/// triangle.
pub fn render_face(
    vertices: &Vec<Point>,
    face: &Vec<usize>,
    canvas_buf: &mut Vec<u32>,
    width: usize,
    height: usize,
    light_dir: &[i64; 3],
    mode: ShadeMode,
)
    requires
        old(canvas_buf).len() == width * height,
        width <= 100_000,
        height <= 100_000,
        forall|i: int| 0 <= i < vertices@.len() ==> within(#[trigger] vertices@[i], MAX_COORD as int),
        face@.len() == 3,
        forall|i: int| 0 <= i < 3 ==> #[trigger] face@[i] < vertices@.len(),
        forall|i: int| 0 <= i < 3 ==> -MAX_COORD <= #[trigger] light_dir@[i] <= MAX_COORD,
    ensures
        final(canvas_buf)@.len() == old(canvas_buf)@.len(),
        final(canvas_buf)@ == spec_render_face(
            old(canvas_buf)@,
            vertices@,
            face@,
            width as int,
            height as int,
            light_dir@,
            mode,
        ),
        spec_face_normal(
            vertices@[face@[0] as int],
            vertices@[face@[1] as int],
            vertices@[face@[2] as int],
        ).z > 0 ==> final(canvas_buf)@ == old(canvas_buf)@,
{
    let ghost buf0 = canvas_buf@;
    let p0 = vertices[face[0]];
    let p1 = vertices[face[1]];
    let p2 = vertices[face[2]];

    // Back-face culling: skip triangles that face away from the viewer
    let n = face_normal(p0, p1, p2);
    if n.z > 0 {
        return ;
    }
    // Light intensity: dot product of the unit normal and the light
    let intensity = n.dot(light_dir);
    if mode == ShadeMode::SkipUnlit && intensity <= 0 {
        return ;
    }
    // Project the three corners to canvas space
    let t0 = three_to_canvas(&p0, width, height);
    let t1 = three_to_canvas(&p1, width, height);
    let t2 = three_to_canvas(&p2, width, height);
    let triangle_pts = [t0, t1, t2];

    // Grayscale color from the intensity
    let g = intensity_to_gray(intensity);
    let color = u8_rgb_color(g, g, g);

    triangle(&triangle_pts, canvas_buf, width, height, color);
    proof {
        let target = spec_render_face(
            buf0,
            vertices@,
            face@,
            width as int,
            height as int,
            light_dir@,
            mode,
        );
        assert(triangle_pts@[0] == t0 && triangle_pts@[1] == t1 && triangle_pts@[2] == t2);
        assert(canvas_buf@.len() == target.len());
        assert forall|i: int| 0 <= i < canvas_buf@.len() implies canvas_buf@[i] == target[i] by {
            let w = width as int;
            let h = height as int;
            assert(w >= 1 && h >= 1) by (nonlinear_arith)
                requires
                    0 <= i,
                    i < w * h,
                    w >= 0,
                    h >= 0,
            ;
            lemma_fundamental_div_mod(i, w);
            lemma_mod_division_less_than_divisor(i, w);
            lemma_multiply_divide_lt(i, w, h);
            let qy = i / w;
            let qx = i % w;
            assert(0 <= qx < w && 0 <= qy < h);
            assert(pix(qy, qx, w) == i) by (nonlinear_arith)
                requires
                    i == w * qy + qx,
            ;
        }
        assert(canvas_buf@ =~= target);
    }
}

/// Everything rendering the first `k` faces leaves in the buffer,
/// in face order.
pub open spec fn spec_render(
    buf: Seq<u32>,
    vertices: Seq<Point>,
    faces: Seq<Seq<usize>>,
    k: int,
    width: int,
    height: int,
    light: Seq<i64>,
    mode: ShadeMode,
) -> Seq<u32>
    decreases k,
{
    if k <= 0 {
        buf
    } else {
        spec_render_face(
            spec_render(buf, vertices, faces, k - 1, width, height, light, mode),
            vertices,
            faces[k - 1],
            width,
            height,
            light,
            mode,
        )
    }
}

/// Render a whole mesh: one shading, culling and fill pass per face, in
/// face order, into the caller's canvas buffer.
pub fn render(
    vertices: &Vec<Point>,
    faces: &Vec<Vec<usize>>,
    canvas_buf: &mut Vec<u32>,
    width: usize,
    height: usize,
    light_dir: &[i64; 3],
    mode: ShadeMode,
)
    requires
        old(canvas_buf).len() == width * height,
        width <= 100_000,
        height <= 100_000,
        forall|i: int| 0 <= i < vertices@.len() ==> within(#[trigger] vertices@[i], MAX_COORD as int),
        forall|i: int| 0 <= i < faces@.len() ==> (#[trigger] faces@[i])@.len() == 3,
        forall|i: int, j: int|
            0 <= i < faces@.len() && 0 <= j < (faces@[i])@.len() ==> #[trigger] (faces@[i])@[j]
                < vertices@.len(),
        forall|i: int| 0 <= i < 3 ==> -MAX_COORD <= #[trigger] light_dir@[i] <= MAX_COORD,
    ensures
        final(canvas_buf)@.len() == old(canvas_buf)@.len(),
        final(canvas_buf)@ == spec_render(
            old(canvas_buf)@,
            vertices@,
            faces.deep_view(),
            faces@.len() as int,
            width as int,
            height as int,
            light_dir@,
            mode,
        ),
{
    let ghost buf0 = canvas_buf@;
    let n_faces = faces.len();
    let mut i: usize = 0;
    while i < n_faces
        invariant
            canvas_buf@.len() == width * height,
            buf0.len() == width * height,
            width <= 100_000,
            height <= 100_000,
            n_faces == faces@.len(),
            i <= n_faces,
            forall|k: int|
                0 <= k < vertices@.len() ==> within(#[trigger] vertices@[k], MAX_COORD as int),
            forall|k: int| 0 <= k < faces@.len() ==> (#[trigger] faces@[k])@.len() == 3,
            forall|k: int, j: int|
                0 <= k < faces@.len() && 0 <= j < (faces@[k])@.len() ==> #[trigger] (faces@[k])@[j]
                    < vertices@.len(),
            forall|k: int| 0 <= k < 3 ==> -MAX_COORD <= #[trigger] light_dir@[k] <= MAX_COORD,
            canvas_buf@ == spec_render(
                buf0,
                vertices@,
                faces.deep_view(),
                i as int,
                width as int,
                height as int,
                light_dir@,
                mode,
            ),
        decreases n_faces - i,
    {
        render_face(vertices, &faces[i], canvas_buf, width, height, light_dir, mode);
        proof {
            assert(faces.deep_view()[i as int] == faces@[i as int]@);
        }
        i = i + 1;
    }
}

} // verus!
