//! Geometry processing: vector math, projection helpers, and the two
//! scan-conversion primitives (Bresenham line and barycentric triangle fill).
//!
//! Screen-space convention: the pixel buffer is row-major with the origin at
//! the top-left, and input geometry Y grows upward, so both rasterizers flip
//! Y once (`y = height - y`) before touching the buffer.

pub mod point;

use crate::fixed::{div_floor_i128, div_floor_i64, div_trunc, sat64, sat_i64, tdiv, MAX_COORD, SCALE};
use crate::geometry::point::{within, Point};
use vstd::arithmetic::div_mod::{
    lemma_div_multiples_vanish, lemma_div_nonincreasing, lemma_div_pos_is_pos,
    lemma_fundamental_div_mod, lemma_fundamental_div_mod_converse,
    lemma_mod_division_less_than_divisor,
};
use vstd::prelude::*;

verus! {

/// Magnitude of an integer.
pub open spec fn iabs(a: int) -> int {
    if a >= 0 {
        a
    } else {
        -a
    }
}

/// Smaller of two integers.
pub open spec fn imin(a: int, b: int) -> int {
    if a <= b {
        a
    } else {
        b
    }
}

/// Larger of two integers.
pub open spec fn imax(a: int, b: int) -> int {
    if a >= b {
        a
    } else {
        b
    }
}

/// Row-major index of the pixel in column `qx` of row `qy`.
pub open spec fn pix(qy: int, qx: int, width: int) -> int {
    qy * width + qx
}

/// Segment endpoints as the line walk sees them: after the Y flip
/// (`y = height - y`), after transposing steep segments, and after
/// swapping the endpoints so the walk runs left to right.
/// Returns `(steep, x0, y0, x1, y1)`.
pub open spec fn line_setup(x0: int, y0: int, x1: int, y1: int, height: int) -> (
    bool,
    int,
    int,
    int,
    int,
) {
    let fy0 = height - y0;
    let fy1 = height - y1;
    let steep = iabs(x0 - x1) < iabs(fy0 - fy1);
    let a0 = if steep {
        fy0
    } else {
        x0
    };
    let b0 = if steep {
        x0
    } else {
        fy0
    };
    let a1 = if steep {
        fy1
    } else {
        x1
    };
    let b1 = if steep {
        x1
    } else {
        fy1
    };
    if a0 > a1 {
        (steep, a1, b1, a0, b0)
    } else {
        (steep, a0, b0, a1, b1)
    }
}

/// One pixel write: `color` lands at `(x, y)` when that spot is on the
/// canvas; out-of-bounds writes are silently discarded.
pub open spec fn plot_at(buf: Seq<u32>, x: int, y: int, width: int, height: int, color: u32) -> Seq<
    u32,
> {
    if 0 <= x < width && 0 <= y < height {
        buf.update(y * width + x, color)
    } else {
        buf
    }
}

/// The positions the error-accumulator walk visits, in order, in walk
/// coordinates: the first coordinate advances by one per step, the second
/// by `ystep` whenever the accumulator `err + dy2` exceeds `dx`.
pub open spec fn bres_trace(
    x: int,
    y: int,
    x1: int,
    dx: int,
    dy2: int,
    ystep: int,
    err: int,
) -> Seq<(int, int)>
    decreases x1 + 1 - x,
{
    if x > x1 {
        Seq::empty()
    } else {
        let e = err + dy2;
        let ny = if e > dx {
            y + ystep
        } else {
            y
        };
        let ne = if e > dx {
            e - 2 * dx
        } else {
            e
        };
        seq![(x, y)].add(bres_trace(x + 1, ny, x1, dx, dy2, ystep, ne))
    }
}

/// Paint every visited position in order, swapping the two coordinates
/// back when the walk ran transposed.
pub open spec fn paint(
    buf: Seq<u32>,
    pts: Seq<(int, int)>,
    steep: bool,
    width: int,
    height: int,
    color: u32,
) -> Seq<u32>
    decreases pts.len(),
{
    if pts.len() == 0 {
        buf
    } else {
        let px = if steep {
            pts[0].1
        } else {
            pts[0].0
        };
        let py = if steep {
            pts[0].0
        } else {
            pts[0].1
        };
        paint(plot_at(buf, px, py, width, height, color), pts.skip(1), steep, width, height, color)
    }
}

/// Everything `line` does to the buffer.
pub open spec fn spec_line(
    buf: Seq<u32>,
    x0: int,
    y0: int,
    x1: int,
    y1: int,
    width: int,
    height: int,
    color: u32,
) -> Seq<u32> {
    let setup = line_setup(x0, y0, x1, y1, height);
    let steep = setup.0;
    let a0 = setup.1;
    let b0 = setup.2;
    let a1 = setup.3;
    let b1 = setup.4;
    let ystep = if b1 > b0 {
        1int
    } else {
        -1int
    };
    paint(
        buf,
        bres_trace(a0, b0, a1, a1 - a0, 2 * iabs(b1 - b0), ystep, 0),
        steep,
        width,
        height,
        color,
    )
}

/// Write `color` at `(x, y)` if it is on the canvas; never panics and
/// never wraps into an adjacent row.
fn plot(canvas_buf: &mut Vec<u32>, width: usize, height: usize, x: i32, y: i32, color: u32)
    requires
        old(canvas_buf).len() == width * height,
    ensures
        final(canvas_buf)@ == plot_at(
            old(canvas_buf)@,
            x as int,
            y as int,
            width as int,
            height as int,
            color,
        ),
        final(canvas_buf)@.len() == old(canvas_buf)@.len(),
{
    if 0 <= x && 0 <= y {
        let xu = x as usize;
        let yu = y as usize;
        if xu < width && yu < height {
            proof {
                lemma_rowmajor_index_bound(yu as int, xu as int, width as int, height as int);
            }
            let idx = yu * width + xu;
            canvas_buf.set(idx, color);
        }
    }
}

/// A row-major index of an on-canvas pixel lies inside the buffer.
proof fn lemma_rowmajor_index_bound(y: int, x: int, width: int, height: int)
    requires
        0 <= x < width,
        0 <= y < height,
    ensures
        0 <= y * width + x < width * height,
{
    assert(0 <= y * width + x < width * height) by (nonlinear_arith)
        requires
            0 <= x < width,
            0 <= y < height,
    ;
}

/// Two distinct on-canvas pixels have distinct row-major indices.
proof fn lemma_rowmajor_injective(y0: int, x0: int, y1: int, x1: int, width: int)
    requires
        0 <= x0 < width,
        0 <= x1 < width,
        y0 * width + x0 == y1 * width + x1,
    ensures
        y0 == y1 && x0 == x1,
{
    assert(y0 == y1 && x0 == x1) by (nonlinear_arith)
        requires
            0 <= x0 < width,
            0 <= x1 < width,
            y0 * width + x0 == y1 * width + x1,
    ;
}

/// A walk with no vertical deviation stays on its row: its trace is the
/// run `(x, y), (x + 1, y), ..., (x1, y)`.
proof fn lemma_trace_horizontal(x: int, y: int, x1: int, dx: int, ystep: int)
    requires
        dx >= 0,
    ensures
        bres_trace(x, y, x1, dx, 0, ystep, 0).len() == if x <= x1 {
            x1 - x + 1
        } else {
            0
        },
        forall|i: int|
            0 <= i < bres_trace(x, y, x1, dx, 0, ystep, 0).len() ==> bres_trace(
                x,
                y,
                x1,
                dx,
                0,
                ystep,
                0,
            )[i] == (x + i, y),
    decreases x1 + 1 - x,
{
    if x <= x1 {
        lemma_trace_horizontal(x + 1, y, x1, dx, ystep);
    }
}

/// Painting a single-row run colors exactly the canvas pixels of that row
/// whose column lies inside the run, and nothing else.
proof fn lemma_paint_hrun(
    buf: Seq<u32>,
    pts: Seq<(int, int)>,
    xs: int,
    y: int,
    width: int,
    height: int,
    color: u32,
)
    requires
        buf.len() == width * height,
        forall|i: int| 0 <= i < pts.len() ==> pts[i] == (xs + i, y),
    ensures
        paint(buf, pts, false, width, height, color).len() == buf.len(),
        forall|qx: int, qy: int|
            0 <= qx < width && 0 <= qy < height ==> paint(buf, pts, false, width, height, color)[
                #[trigger] pix(qy, qx, width)
            ] == (if qy == y && xs <= qx < xs + pts.len() {
                color
            } else {
                buf[pix(qy, qx, width)]
            }),
    decreases pts.len(),
{
    if pts.len() > 0 {
        let buf1 = plot_at(buf, xs, y, width, height, color);
        let tail = pts.skip(1);
        assert(pts[0] == (xs + 0, y));
        assert(forall|i: int| 0 <= i < tail.len() ==> tail[i] == (xs + 1 + i, y));
        if 0 <= xs < width && 0 <= y < height {
            lemma_rowmajor_index_bound(y, xs, width, height);
        }
        lemma_paint_hrun(buf1, tail, xs + 1, y, width, height, color);
        let res = paint(buf, pts, false, width, height, color);
        assert forall|qx: int, qy: int| 0 <= qx < width && 0 <= qy < height implies res[#[trigger] pix(
            qy,
            qx,
            width,
        )] == (if qy == y && xs <= qx < xs + pts.len() {
            color
        } else {
            buf[pix(qy, qx, width)]
        }) by {
            lemma_rowmajor_index_bound(qy, qx, width, height);
            if qy == y && qx == xs {
                assert(buf1[pix(qy, qx, width)] == color);
            } else {
                if 0 <= xs < width && 0 <= y < height && qy * width + qx == y * width + xs {
                    lemma_rowmajor_injective(qy, qx, y, xs, width);
                }
                assert(buf1[pix(qy, qx, width)] == buf[pix(qy, qx, width)]);
            }
        }
    }
}

/// Law: a horizontal segment (`y0 == y1`) paints exactly the canvas
/// pixels of row `height - y0` whose column lies between the endpoints,
/// inclusive: `|x1 - x0| + 1` positions on one single row, and no other
/// pixel changes.
pub proof fn lemma_line_horizontal(
    buf: Seq<u32>,
    x0: int,
    y0: int,
    x1: int,
    width: int,
    height: int,
    color: u32,
)
    requires
        buf.len() == width * height,
    ensures
        spec_line(buf, x0, y0, x1, y0, width, height, color).len() == buf.len(),
        forall|qx: int, qy: int|
            0 <= qx < width && 0 <= qy < height ==> spec_line(
                buf,
                x0,
                y0,
                x1,
                y0,
                width,
                height,
                color,
            )[#[trigger] pix(qy, qx, width)] == (if qy == height - y0 && imin(x0, x1) <= qx <= imax(
                x0,
                x1,
            ) {
                color
            } else {
                buf[pix(qy, qx, width)]
            }),
{
    let setup = line_setup(x0, y0, x1, y0, height);
    let a0 = imin(x0, x1);
    let a1 = imax(x0, x1);
    assert(!setup.0);
    assert(setup == (false, a0, height - y0, a1, height - y0));
    lemma_trace_horizontal(a0, height - y0, a1, a1 - a0, -1);
    lemma_paint_hrun(
        buf,
        bres_trace(a0, height - y0, a1, a1 - a0, 0, -1, 0),
        a0,
        height - y0,
        width,
        height,
        color,
    );
}

/// Law: a zero-length segment still plots its single pixel. Drawing
/// from `(x0, y0)` to `(x0, y0)` colors exactly the one canvas pixel in
/// column `x0` of row `height - y0`, and nothing else (and nothing at
/// all when that spot lies off the canvas).
pub proof fn lemma_line_single_point(
    buf: Seq<u32>,
    x0: int,
    y0: int,
    width: int,
    height: int,
    color: u32,
)
    requires
        buf.len() == width * height,
    ensures
        spec_line(buf, x0, y0, x0, y0, width, height, color).len() == buf.len(),
        forall|qx: int, qy: int|
            0 <= qx < width && 0 <= qy < height ==> spec_line(
                buf,
                x0,
                y0,
                x0,
                y0,
                width,
                height,
                color,
            )[#[trigger] pix(qy, qx, width)] == (if qx == x0 && qy == height - y0 {
                color
            } else {
                buf[pix(qy, qx, width)]
            }),
{
    lemma_line_horizontal(buf, x0, y0, x0, width, height, color);
}

/// Bresenham line.
///
/// Writes a single-pixel-wide 8-connected approximation of the segment
/// from `(x0, y0)` to `(x1, y1)` into the canvas buffer. Both endpoints
/// are first Y-flipped (`y = height - y`); steep segments are walked
/// transposed; the walk itself is integer-only. Pixels that fall outside
/// the canvas are skipped, never an error. A zero-length segment still
/// plots its single pixel.
pub fn line(
    x0: i32,
    y0: i32,
    x1: i32,
    y1: i32,
    canvas_buf: &mut Vec<u32>,
    width: usize,
    height: usize,
    color: u32,
)
    requires
        old(canvas_buf).len() == width * height,
        width <= 1_000_000,
        height <= 1_000_000,
        -10_000_000 <= x0 <= 10_000_000,
        -10_000_000 <= y0 <= 10_000_000,
        -10_000_000 <= x1 <= 10_000_000,
        -10_000_000 <= y1 <= 10_000_000,
    ensures
        final(canvas_buf)@ == spec_line(
            old(canvas_buf)@,
            x0 as int,
            y0 as int,
            x1 as int,
            y1 as int,
            width as int,
            height as int,
            color,
        ),
        final(canvas_buf)@.len() == old(canvas_buf)@.len(),
{
    let ghost buf0 = canvas_buf@;
    let ghost goal = spec_line(
        buf0,
        x0 as int,
        y0 as int,
        x1 as int,
        y1 as int,
        width as int,
        height as int,
        color,
    );
    // Flip Y-axis to match screen space
    let fy0 = height as i32 - y0;
    let fy1 = height as i32 - y1;

    let adx = if x0 > x1 {
        x0 - x1
    } else {
        x1 - x0
    };
    let ady = if fy0 > fy1 {
        fy0 - fy1
    } else {
        fy1 - fy0
    };
    // If the segment is steep, transpose the walk
    let steep = adx < ady;
    let (mut ax0, mut ay0, mut ax1, mut ay1) = if steep {
        (fy0, x0, fy1, x1)
    } else {
        (x0, fy0, x1, fy1)
    };
    // Make the walk left to right
    if ax0 > ax1 {
        let t0 = ax0;
        ax0 = ax1;
        ax1 = t0;
        let t1 = ay0;
        ay0 = ay1;
        ay1 = t1;
    }
    proof {
        assert(line_setup(x0 as int, y0 as int, x1 as int, y1 as int, height as int) == (
            steep,
            ax0 as int,
            ay0 as int,
            ax1 as int,
            ay1 as int,
        ));
    }

    let mut x = ax0;  // Walk position
    let mut y = ay0;
    let dx = ax1 - ax0;  // Total deviation, nonnegative after the swap
    let dy = ay1 - ay0;
    let derror2 = 2 * (if dy < 0 {
        -dy
    } else {
        dy
    });  // Integer error step: no floats inside the loop
    let mut error2: i32 = 0;  // Error accumulator
    let ystep: i32 = if ay1 > ay0 {
        1
    } else {
        -1
    };
    proof {
        assert(goal == paint(
            buf0,
            bres_trace(
                ax0 as int,
                ay0 as int,
                ax1 as int,
                dx as int,
                derror2 as int,
                ystep as int,
                0,
            ),
            steep,
            width as int,
            height as int,
            color,
        ));
    }

    while x <= ax1
        invariant
            canvas_buf@.len() == width * height,
            buf0.len() == width * height,
            0 <= dx <= 22_000_000,
            ax1 == ax0 + dx,
            0 <= derror2 <= 2 * dx,
            ystep == 1 || ystep == -1,
            ax0 <= x,
            -11_000_000 <= ax0 <= 11_000_000,
            ay0 - (x - ax0) <= y <= ay0 + (x - ax0),
            -11_000_000 <= ay0 <= 11_000_000,
            -dx <= error2 <= dx,
            paint(
                canvas_buf@,
                bres_trace(
                    x as int,
                    y as int,
                    ax1 as int,
                    dx as int,
                    derror2 as int,
                    ystep as int,
                    error2 as int,
                ),
                steep,
                width as int,
                height as int,
                color,
            ) == goal,
        decreases ax1 + 1 - x,
    {
        let ghost pre_trace = bres_trace(
            x as int,
            y as int,
            ax1 as int,
            dx as int,
            derror2 as int,
            ystep as int,
            error2 as int,
        );
        let ghost pre_buf = canvas_buf@;
        let ghost pre_y = y as int;
        // Un-transpose to true buffer coordinates and draw
        if steep {
            plot(canvas_buf, width, height, y, x, color);
        } else {
            plot(canvas_buf, width, height, x, y, color);
        }
        error2 = error2 + derror2;
        if error2 > dx {
            y = y + ystep;
            error2 = error2 - 2 * dx;
        }
        proof {
            let post_trace = bres_trace(
                x as int + 1,
                y as int,
                ax1 as int,
                dx as int,
                derror2 as int,
                ystep as int,
                error2 as int,
            );
            assert(pre_trace[0] == (x as int, pre_y));
            assert(pre_trace.skip(1) =~= post_trace);
            assert(paint(
                canvas_buf@,
                post_trace,
                steep,
                width as int,
                height as int,
                color,
            ) == paint(pre_buf, pre_trace, steep, width as int, height as int, color));
        }
        x = x + 1;
    }
}

/// Working range of the triangle rasterizer's coordinates: generous
/// enough for any projected vertex this library produces, small enough
/// that the barycentric cross products fit in `i128`.
pub const RASTER_COORD: i64 = 100_000_000_000_000;

/// First un-rescaled cross component of the barycentric test.
pub open spec fn bary_ux(a: Point, b: Point, c: Point, p: Point) -> int {
    (b.x - a.x) * (a.y - p.y) - (a.x - p.x) * (b.y - a.y)
}

/// Second un-rescaled cross component of the barycentric test.
pub open spec fn bary_uy(a: Point, b: Point, c: Point, p: Point) -> int {
    (a.x - p.x) * (c.y - a.y) - (c.x - a.x) * (a.y - p.y)
}

/// Third un-rescaled cross component: the triangle's doubled signed area.
pub open spec fn bary_uz(a: Point, b: Point, c: Point, p: Point) -> int {
    (c.x - a.x) * (b.y - a.y) - (b.x - a.x) * (c.y - a.y)
}

/// The fixed-point barycentric weights of `p` with respect to the
/// triangle `(a, b, c)`, in the order `(1 - u - v, v, u)`.
///
/// Weights are `SCALE`-scaled and rounded toward negative infinity, so a
/// stored weight is nonnegative exactly when the real weight is; they
/// saturate at the `i64` range, which keeps their sign. A triangle whose
/// doubled signed area is smaller than one squared unit is degenerate at
/// this resolution: the sentinel `(-1, 1, 1)` (scaled) then marks every
/// pixel as outside through its negative first component.
pub open spec fn spec_barycentric(a: Point, b: Point, c: Point, p: Point) -> Point {
    let ux = bary_ux(a, b, c, p);
    let uy = bary_uy(a, b, c, p);
    let uz = bary_uz(a, b, c, p);
    if -(SCALE * SCALE) < uz < SCALE * SCALE {
        Point { x: (-SCALE) as i64, y: SCALE, z: SCALE }
    } else if uz < 0 {
        Point {
            x: sat64((-(uz - ux - uy) * SCALE) / -uz) as i64,
            y: sat64((-uy * SCALE) / -uz) as i64,
            z: sat64((-ux * SCALE) / -uz) as i64,
        }
    } else {
        Point {
            x: sat64(((uz - ux - uy) * SCALE) / uz) as i64,
            y: sat64((uy * SCALE) / uz) as i64,
            z: sat64((ux * SCALE) / uz) as i64,
        }
    }
}

/// Calculate the barycentric coordinates of `p` for the screen-space
/// triangle `pts`, used by the triangle rasterizer's per-pixel test.
pub fn barycentric(pts: &[Point; 3], p: Point) -> (r: Point)
    requires
        within(pts@[0], RASTER_COORD as int),
        within(pts@[1], RASTER_COORD as int),
        within(pts@[2], RASTER_COORD as int),
        within(p, RASTER_COORD as int),
    ensures
        r == spec_barycentric(pts@[0], pts@[1], pts@[2], p),
{
    let a = pts[0];
    let b = pts[1];
    let c = pts[2];
    let x0 = (c.x as i128) - (a.x as i128);
    let x1 = (b.x as i128) - (a.x as i128);
    let x2 = (a.x as i128) - (p.x as i128);
    let y0 = (c.y as i128) - (a.y as i128);
    let y1 = (b.y as i128) - (a.y as i128);
    let y2 = (a.y as i128) - (p.y as i128);
    proof {
        lemma_bary_products(x0 as int, x1 as int, x2 as int, y0 as int, y1 as int, y2 as int);
    }
    let ux = x1 * y2 - x2 * y1;
    let uy = x2 * y0 - x0 * y2;
    let uz = x0 * y1 - x1 * y0;
    let s2: i128 = 1_000_000_000_000;
    proof {
        assert(s2 as int == SCALE * SCALE);
    }
    if -s2 < uz && uz < s2 {
        Point::new(-SCALE, SCALE, SCALE)
    } else {
        let nx = if uz < 0 {
            -(uz - ux - uy)
        } else {
            uz - ux - uy
        };
        let ny = if uz < 0 {
            -uy
        } else {
            uy
        };
        let nz = if uz < 0 {
            -ux
        } else {
            ux
        };
        let den = if uz < 0 {
            -uz
        } else {
            uz
        };
        proof {
            lemma_bary_weight_products(nx as int, ny as int, nz as int);
        }
        let sc: i128 = 1_000_000;
        proof {
            assert(sc as int == SCALE as int);
        }
        let wx = div_floor_i128(nx * sc, den);
        let wy = div_floor_i128(ny * sc, den);
        let wz = div_floor_i128(nz * sc, den);
        Point::new(sat_i64(wx), sat_i64(wy), sat_i64(wz))
    }
}

/// The six barycentric edge differences multiply without leaving `i128`.
proof fn lemma_bary_products(x0: int, x1: int, x2: int, y0: int, y1: int, y2: int)
    requires
        -200_000_000_000_000 <= x0 <= 200_000_000_000_000,
        -200_000_000_000_000 <= x1 <= 200_000_000_000_000,
        -200_000_000_000_000 <= x2 <= 200_000_000_000_000,
        -200_000_000_000_000 <= y0 <= 200_000_000_000_000,
        -200_000_000_000_000 <= y1 <= 200_000_000_000_000,
        -200_000_000_000_000 <= y2 <= 200_000_000_000_000,
    ensures
        -40_000_000_000_000_000_000_000_000_000 <= x1 * y2 <= 40_000_000_000_000_000_000_000_000_000,
        -40_000_000_000_000_000_000_000_000_000 <= x2 * y1 <= 40_000_000_000_000_000_000_000_000_000,
        -40_000_000_000_000_000_000_000_000_000 <= x2 * y0 <= 40_000_000_000_000_000_000_000_000_000,
        -40_000_000_000_000_000_000_000_000_000 <= x0 * y2 <= 40_000_000_000_000_000_000_000_000_000,
        -40_000_000_000_000_000_000_000_000_000 <= x0 * y1 <= 40_000_000_000_000_000_000_000_000_000,
        -40_000_000_000_000_000_000_000_000_000 <= x1 * y0 <= 40_000_000_000_000_000_000_000_000_000,
{
    assert(-40_000_000_000_000_000_000_000_000_000 <= x1 * y2 <= 40_000_000_000_000_000_000_000_000_000
        && -40_000_000_000_000_000_000_000_000_000 <= x2 * y1 <= 40_000_000_000_000_000_000_000_000_000
        && -40_000_000_000_000_000_000_000_000_000 <= x2 * y0 <= 40_000_000_000_000_000_000_000_000_000
        && -40_000_000_000_000_000_000_000_000_000 <= x0 * y2 <= 40_000_000_000_000_000_000_000_000_000
        && -40_000_000_000_000_000_000_000_000_000 <= x0 * y1 <= 40_000_000_000_000_000_000_000_000_000
        && -40_000_000_000_000_000_000_000_000_000 <= x1 * y0 <= 40_000_000_000_000_000_000_000_000_000)
        by (nonlinear_arith)
        requires
            -200_000_000_000_000 <= x0 <= 200_000_000_000_000,
            -200_000_000_000_000 <= x1 <= 200_000_000_000_000,
            -200_000_000_000_000 <= x2 <= 200_000_000_000_000,
            -200_000_000_000_000 <= y0 <= 200_000_000_000_000,
            -200_000_000_000_000 <= y1 <= 200_000_000_000_000,
            -200_000_000_000_000 <= y2 <= 200_000_000_000_000,
    ;
}

/// Weight numerators scaled by `SCALE` stay inside `i128`.
proof fn lemma_bary_weight_products(nx: int, ny: int, nz: int)
    requires
        -240_000_000_000_000_000_000_000_000_000 <= nx <= 240_000_000_000_000_000_000_000_000_000,
        -240_000_000_000_000_000_000_000_000_000 <= ny <= 240_000_000_000_000_000_000_000_000_000,
        -240_000_000_000_000_000_000_000_000_000 <= nz <= 240_000_000_000_000_000_000_000_000_000,
    ensures
        -240_000_000_000_000_000_000_000_000_000_000_000 <= nx * 1_000_000
            <= 240_000_000_000_000_000_000_000_000_000_000_000,
        -240_000_000_000_000_000_000_000_000_000_000_000 <= ny * 1_000_000
            <= 240_000_000_000_000_000_000_000_000_000_000_000,
        -240_000_000_000_000_000_000_000_000_000_000_000 <= nz * 1_000_000
            <= 240_000_000_000_000_000_000_000_000_000_000_000,
{
    assert(-240_000_000_000_000_000_000_000_000_000_000_000 <= nx * 1_000_000
        <= 240_000_000_000_000_000_000_000_000_000_000_000
        && -240_000_000_000_000_000_000_000_000_000_000_000 <= ny * 1_000_000
        <= 240_000_000_000_000_000_000_000_000_000_000_000
        && -240_000_000_000_000_000_000_000_000_000_000_000 <= nz * 1_000_000
        <= 240_000_000_000_000_000_000_000_000_000_000_000) by (nonlinear_arith)
        requires
            -240_000_000_000_000_000_000_000_000_000 <= nx
                <= 240_000_000_000_000_000_000_000_000_000,
            -240_000_000_000_000_000_000_000_000_000 <= ny
                <= 240_000_000_000_000_000_000_000_000_000,
            -240_000_000_000_000_000_000_000_000_000 <= nz
                <= 240_000_000_000_000_000_000_000_000_000,
    ;
}

/// Smallest of three integers.
pub open spec fn imin3(a: int, b: int, c: int) -> int {
    imin(imin(a, b), c)
}

/// Largest of three integers.
pub open spec fn imax3(a: int, b: int, c: int) -> int {
    imax(imax(a, b), c)
}

/// First pixel column of the triangle's clamped bounding box.
pub open spec fn tri_px_lo(a: Point, b: Point, c: Point) -> int {
    imax(0, imin3(a.x as int, b.x as int, c.x as int)) / (SCALE as int)
}

/// Last pixel column of the triangle's clamped bounding box.
pub open spec fn tri_px_hi(a: Point, b: Point, c: Point, width: int) -> int {
    imax(0, imin((width - 1) * SCALE, imax3(a.x as int, b.x as int, c.x as int))) / (SCALE as int)
}

/// First pixel row of the clamped bounding box (after the Y flip).
pub open spec fn tri_py_lo(a: Point, b: Point, c: Point, height: int) -> int {
    imax(0, imin3(height * SCALE - a.y, height * SCALE - b.y, height * SCALE - c.y)) / (
    SCALE as int)
}

/// Last pixel row of the clamped bounding box (after the Y flip).
pub open spec fn tri_py_hi(a: Point, b: Point, c: Point, height: int) -> int {
    imax(
        0,
        imin(
            (height - 1) * SCALE,
            imax3(height * SCALE - a.y, height * SCALE - b.y, height * SCALE - c.y),
        ),
    ) / (SCALE as int)
}

/// The query point the rasterizer hands to the barycentric test for the
/// canvas pixel `(px, py)`: pixel units scaled to fixed point, with the
/// Y flip undone.
pub open spec fn tri_query(height: int, px: int, py: int) -> Point {
    Point { x: (px * SCALE) as i64, y: ((height - py) * SCALE) as i64, z: 0 }
}

/// Whether the triangle fill colors canvas pixel `(px, py)`: the pixel
/// lies in the clamped bounding box, on the canvas, and all three of its
/// barycentric weights are nonnegative.
pub open spec fn tri_painted(
    a: Point,
    b: Point,
    c: Point,
    width: int,
    height: int,
    px: int,
    py: int,
) -> bool {
    let w = spec_barycentric(a, b, c, tri_query(height, px, py));
    &&& tri_px_lo(a, b, c) <= px <= tri_px_hi(a, b, c, width)
    &&& tri_py_lo(a, b, c, height) <= py <= tri_py_hi(a, b, c, height)
    &&& 0 <= px < width
    &&& 0 <= py < height
    &&& w.x >= 0
    &&& w.y >= 0
    &&& w.z >= 0
}

/// Smallest of three fixed-point values.
fn min3_i64(a: i64, b: i64, c: i64) -> (r: i64)
    ensures
        r == imin3(a as int, b as int, c as int),
{
    let m = if a < b {
        a
    } else {
        b
    };
    if c < m {
        c
    } else {
        m
    }
}

/// Largest of three fixed-point values.
fn max3_i64(a: i64, b: i64, c: i64) -> (r: i64)
    ensures
        r == imax3(a as int, b as int, c as int),
{
    let m = if a > b {
        a
    } else {
        b
    };
    if c > m {
        c
    } else {
        m
    }
}

/// Divide a nonnegative fixed-point value by `SCALE`: its pixel number.
fn fixed_to_pixel(v: i64) -> (r: usize)
    requires
        0 <= v <= 200_000_000_000_000,
    ensures
        r == v as int / SCALE as int,
{
    ((v as u64) / 1_000_000u64) as usize
}

/// Triangle fill by bounding box plus per-pixel barycentric test.
///
/// The three vertices are screen-space fixed-point coordinates (still
/// Y-up; the fill flips Y the same way `line` does). Every canvas pixel
/// inside the clamped bounding box whose barycentric weights are all
/// nonnegative is colored, unconditionally overwriting; no other pixel
/// changes. Degenerate (zero-area at this resolution) triangles render
/// nothing.
pub fn triangle(
    pts: &[Point; 3],
    canvas_buf: &mut Vec<u32>,
    width: usize,
    height: usize,
    color: u32,
)
    requires
        within(pts@[0], RASTER_COORD as int),
        within(pts@[1], RASTER_COORD as int),
        within(pts@[2], RASTER_COORD as int),
        old(canvas_buf).len() == width * height,
        width <= 100_000,
        height <= 100_000,
    ensures
        final(canvas_buf)@.len() == old(canvas_buf)@.len(),
        forall|qx: int, qy: int|
            0 <= qx < width && 0 <= qy < height ==> final(canvas_buf)@[#[trigger] pix(
                qy,
                qx,
                width as int,
            )] == (if tri_painted(
                pts@[0],
                pts@[1],
                pts@[2],
                width as int,
                height as int,
                qx,
                qy,
            ) {
                color
            } else {
                old(canvas_buf)@[pix(qy, qx, width as int)]
            }),
{
    let ghost buf0 = canvas_buf@;
    let a = pts[0];
    let b = pts[1];
    let c = pts[2];
    let wi = width as i64;
    let hi = height as i64;

    // Bounding box over the three vertices, Y flipped per vertex
    let sya = hi * SCALE - a.y;
    let syb = hi * SCALE - b.y;
    let syc = hi * SCALE - c.y;
    let minx = min3_i64(a.x, b.x, c.x);
    let maxx = max3_i64(a.x, b.x, c.x);
    let miny = min3_i64(sya, syb, syc);
    let maxy = max3_i64(sya, syb, syc);

    // Clamp to the canvas
    let lox = if minx < 0 {
        0
    } else {
        minx
    };
    let limx = (wi - 1) * SCALE;
    let hix_raw = if maxx < limx {
        maxx
    } else {
        limx
    };
    let hix = if hix_raw < 0 {
        0
    } else {
        hix_raw
    };
    let loy = if miny < 0 {
        0
    } else {
        miny
    };
    let limy = (hi - 1) * SCALE;
    let hiy_raw = if maxy < limy {
        maxy
    } else {
        limy
    };
    let hiy = if hiy_raw < 0 {
        0
    } else {
        hiy_raw
    };

    // Pixel ranges of the box
    let px_lo = fixed_to_pixel(lox);
    let px_hi = fixed_to_pixel(hix);
    let py_lo = fixed_to_pixel(loy);
    let py_hi = fixed_to_pixel(hiy);
    proof {
        assert(px_lo == tri_px_lo(a, b, c));
        assert(px_hi == tri_px_hi(a, b, c, width as int));
        assert(py_lo == tri_py_lo(a, b, c, height as int));
        assert(py_hi == tri_py_hi(a, b, c, height as int));
        lemma_box_hi_on_canvas(hix as int, wi as int);
        lemma_box_hi_on_canvas(hiy as int, hi as int);
    }

    let mut px = px_lo;
    while px <= px_hi
        invariant
            canvas_buf@.len() == width * height,
            buf0.len() == width * height,
            width <= 100_000,
            height <= 100_000,
            within(a, RASTER_COORD as int),
            within(b, RASTER_COORD as int),
            within(c, RASTER_COORD as int),
            a == pts@[0] && b == pts@[1] && c == pts@[2],
            px_lo == tri_px_lo(a, b, c),
            px_hi == tri_px_hi(a, b, c, width as int),
            py_lo == tri_py_lo(a, b, c, height as int),
            py_hi == tri_py_hi(a, b, c, height as int),
            px_hi <= imax(0, width as int - 1),
            py_hi <= imax(0, height as int - 1),
            wi == width as i64,
            hi == height as i64,
            px_lo <= px,
            forall|qx: int, qy: int|
                0 <= qx < width && 0 <= qy < height ==> canvas_buf@[#[trigger] pix(
                    qy,
                    qx,
                    width as int,
                )] == (if tri_painted(a, b, c, width as int, height as int, qx, qy) && qx < px {
                    color
                } else {
                    buf0[pix(qy, qx, width as int)]
                }),
        decreases px_hi + 1 - px,
    {
        let mut py = py_lo;
        while py <= py_hi
            invariant
                canvas_buf@.len() == width * height,
                buf0.len() == width * height,
                width <= 100_000,
                height <= 100_000,
                within(a, RASTER_COORD as int),
                within(b, RASTER_COORD as int),
                within(c, RASTER_COORD as int),
                a == pts@[0] && b == pts@[1] && c == pts@[2],
                px_lo == tri_px_lo(a, b, c),
                px_hi == tri_px_hi(a, b, c, width as int),
                py_lo == tri_py_lo(a, b, c, height as int),
                py_hi == tri_py_hi(a, b, c, height as int),
                px_hi <= imax(0, width as int - 1),
                py_hi <= imax(0, height as int - 1),
                wi == width as i64,
                hi == height as i64,
                px_lo <= px <= px_hi,
                py_lo <= py,
                forall|qx: int, qy: int|
                    0 <= qx < width && 0 <= qy < height ==> canvas_buf@[#[trigger] pix(
                        qy,
                        qx,
                        width as int,
                    )] == (if tri_painted(a, b, c, width as int, height as int, qx, qy) && (qx < px
                        || (qx == px && qy < py)) {
                        color
                    } else {
                        buf0[pix(qy, qx, width as int)]
                    }),
            decreases py_hi + 1 - py,
        {
            // Convert back to the Y-up convention for the barycentric test
            let qxf = (px as i64) * SCALE;
            let qyf = (hi - py as i64) * SCALE;
            let q = Point::new(qxf, qyf, 0);
            proof {
                assert(q == tri_query(height as int, px as int, py as int));
            }
            let bc = barycentric(pts, q);
            let ghost pre_buf = canvas_buf@;
            if !(bc.x < 0 || bc.y < 0 || bc.z < 0) {
                proof {
                    lemma_idx_in_usize(
                        py as int,
                        px as int,
                        width as int,
                        height as int,
                        canvas_buf@.len() as int,
                    );
                }
                let cap = canvas_buf.len();
                let idx = py * width + px;
                // Defensive guard: never index past the buffer
                if idx < cap {
                    canvas_buf.set(idx, color);
                }
            }
            proof {
                assert forall|qx: int, qy: int|
                    0 <= qx < width && 0 <= qy < height implies canvas_buf@[#[trigger] pix(
                    qy,
                    qx,
                    width as int,
                )] == (if tri_painted(a, b, c, width as int, height as int, qx, qy) && (qx < px || (
                qx == px && qy < py + 1)) {
                    color
                } else {
                    buf0[pix(qy, qx, width as int)]
                }) by {
                    lemma_rowmajor_index_bound(qy, qx, width as int, height as int);
                    if qx == px && qy == py {
                        assert(tri_painted(a, b, c, width as int, height as int, qx, qy) <==> !(
                        bc.x < 0 || bc.y < 0 || bc.z < 0));
                    } else {
                        if 0 <= px < width && 0 <= py < height && qy * (width as int) + qx == (
                        py as int) * (width as int) + px {
                            lemma_rowmajor_injective(qy, qx, py as int, px as int, width as int);
                        }
                        assert(canvas_buf@[pix(qy, qx, width as int)] == pre_buf[pix(
                            qy,
                            qx,
                            width as int,
                        )]);
                    }
                }
            }
            py = py + 1;
        }
        proof {
            assert forall|qx: int, qy: int|
                0 <= qx < width && 0 <= qy < height implies canvas_buf@[#[trigger] pix(
                qy,
                qx,
                width as int,
            )] == (if tri_painted(a, b, c, width as int, height as int, qx, qy) && qx < px + 1 {
                color
            } else {
                buf0[pix(qy, qx, width as int)]
            }) by {
            }
        }
        px = px + 1;
    }
}

/// Where the per-pixel write of the triangle fill lands: inside the
/// buffer whenever the canvas has any pixels at all, and at a small
/// index (never wrapping) when it has none.
proof fn lemma_idx_in_usize(py: int, px: int, w: int, h: int, len: int)
    requires
        len == w * h,
        0 <= w,
        0 <= h,
        0 <= px <= imax(0, w - 1),
        0 <= py <= imax(0, h - 1),
        w <= 100_000,
    ensures
        0 <= py * w + px,
        py * w + px < len || py * w + px <= 100_000,
        py * w + px < len ==> px < w && py < h,
{
    if w >= 1 && h >= 1 {
        lemma_rowmajor_index_bound(py, px, w, h);
    } else {
        assert(py * w + px <= 100_000) by (nonlinear_arith)
            requires
                w == 0 || h == 0,
                0 <= px <= imax(0, w - 1),
                0 <= py <= imax(0, h - 1),
                w <= 100_000,
        ;
        assert(len == 0) by (nonlinear_arith)
            requires
                len == w * h,
                w == 0 || h == 0,
        ;
    }
}

/// A clamped box end divides down to the last canvas column or row.
proof fn lemma_box_hi_on_canvas(hi_fixed: int, extent: int)
    requires
        0 <= hi_fixed,
        extent >= 0,
        hi_fixed <= imax(0, (extent - 1) * SCALE),
    ensures
        hi_fixed / (SCALE as int) <= imax(0, extent - 1),
{
    if extent >= 1 {
        vstd::arithmetic::div_mod::lemma_div_is_ordered(
            hi_fixed,
            (extent - 1) * SCALE,
            SCALE as int,
        );
        vstd::arithmetic::div_mod::lemma_div_multiples_vanish(extent - 1, SCALE as int);
    } else {
        vstd::arithmetic::div_mod::lemma_basic_div(hi_fixed, SCALE as int);
    }
}

/// A screen vertex as a pair of mathematical integers.
pub open spec fn vtx(v: (i32, i32)) -> (int, int) {
    (v.0 as int, v.1 as int)
}

/// The three vertices ordered by ascending y, the way the scanline fill
/// orders them (three conditional swaps).
pub open spec fn sort3_by_y(v0: (int, int), v1: (int, int), v2: (int, int)) -> (
    (int, int),
    (int, int),
    (int, int),
) {
    let (a0, a1) = if v0.1 > v1.1 {
        (v1, v0)
    } else {
        (v0, v1)
    };
    let (b0, b2) = if a0.1 > v2.1 {
        (v2, a0)
    } else {
        (a0, v2)
    };
    let (c1, c2) = if a1.1 > b2.1 {
        (b2, a1)
    } else {
        (a1, b2)
    };
    (b0, c1, c2)
}

/// Linear interpolation of an edge's x at `dy` rows above its start,
/// truncating toward zero as the fill does.
pub open spec fn interp_x(x0: int, x1: int, dy: int, dh: int) -> int {
    x0 + tdiv((x1 - x0) * dy, dh)
}

/// Whether the bottom half of the scanline fill covers canvas pixel
/// `(px, py)`: with the vertices sorted ascending by y into
/// `(s0, s1, s2)` and the pixel's input-space row `y = height - py`,
/// the row satisfies `s0.1 <= y <= s1.1` and the column lies between
/// the edges `s0-s2` and `s0-s1`, inclusive.
pub open spec fn oldskool_bottom(
    v0: (int, int),
    v1: (int, int),
    v2: (int, int),
    width: int,
    height: int,
    px: int,
    py: int,
) -> bool {
    let s = sort3_by_y(v0, v1, v2);
    let s0 = s.0;
    let s1 = s.1;
    let s2 = s.2;
    let y = height - py;
    let xa = interp_x(s0.0, s2.0, y - s0.1, s2.1 - s0.1);
    let xb = interp_x(s0.0, s1.0, y - s0.1, s1.1 - s0.1);
    &&& 0 <= px < width
    &&& 0 <= py < height
    &&& s0.1 <= y <= s1.1
    &&& imin(xa, xb) <= px <= imax(xa, xb)
}

/// Whether the top half of the scanline fill covers canvas pixel
/// `(px, py)`: the row satisfies `s1.1 <= y <= s2.1` and the column lies
/// between the edges `s0-s2` and `s1-s2`, inclusive.
pub open spec fn oldskool_top(
    v0: (int, int),
    v1: (int, int),
    v2: (int, int),
    width: int,
    height: int,
    px: int,
    py: int,
) -> bool {
    let s = sort3_by_y(v0, v1, v2);
    let s0 = s.0;
    let s1 = s.1;
    let s2 = s.2;
    let y = height - py;
    let xa = interp_x(s0.0, s2.0, y - s0.1, s2.1 - s0.1);
    let xb = interp_x(s1.0, s2.0, y - s1.1, s2.1 - s1.1);
    &&& 0 <= px < width
    &&& 0 <= py < height
    &&& s1.1 <= y <= s2.1
    &&& imin(xa, xb) <= px <= imax(xa, xb)
}

/// Whether the scanline fill colors canvas pixel `(px, py)`: one of the
/// two half sweeps covers it (both halves draw their shared row).
pub open spec fn oldskool_painted(
    v0: (int, int),
    v1: (int, int),
    v2: (int, int),
    width: int,
    height: int,
    px: int,
    py: int,
) -> bool {
    ||| oldskool_bottom(v0, v1, v2, width, height, px, py)
    ||| oldskool_top(v0, v1, v2, width, height, px, py)
}

/// The interpolated x of a scanline edge stays within the edge's ends'
/// spread of the start.
proof fn lemma_interp_bound(x0: int, x1: int, dy: int, dh: int)
    requires
        0 <= dy <= dh,
        1 <= dh,
    ensures
        -iabs(x1 - x0) <= tdiv((x1 - x0) * dy, dh) <= iabs(x1 - x0),
{
    let t = (x1 - x0) * dy;
    assert(-(iabs(x1 - x0) * dh) <= t <= iabs(x1 - x0) * dh) by (nonlinear_arith)
        requires
            0 <= dy <= dh,
            1 <= dh,
            t == (x1 - x0) * dy,
    ;
    if t >= 0 {
        vstd::arithmetic::div_mod::lemma_div_pos_is_pos(t, dh);
        vstd::arithmetic::div_mod::lemma_div_is_ordered(t, iabs(x1 - x0) * dh, dh);
        vstd::arithmetic::div_mod::lemma_div_multiples_vanish(iabs(x1 - x0), dh);
        assert(iabs(x1 - x0) * dh == dh * iabs(x1 - x0)) by (nonlinear_arith);
    } else {
        vstd::arithmetic::div_mod::lemma_div_pos_is_pos(-t, dh);
        vstd::arithmetic::div_mod::lemma_div_is_ordered(-t, iabs(x1 - x0) * dh, dh);
        vstd::arithmetic::div_mod::lemma_div_multiples_vanish(iabs(x1 - x0), dh);
        assert(iabs(x1 - x0) * dh == dh * iabs(x1 - x0)) by (nonlinear_arith);
    }
}

/// Interpolated x of one scanline edge: `x0 + (x1 - x0) * dy / dh`,
/// truncating toward zero.
fn interp_edge(x0: i32, x1: i32, dy: i32, dh: i32) -> (r: i32)
    requires
        -1_000_000 <= x0 <= 1_000_000,
        -1_000_000 <= x1 <= 1_000_000,
        0 <= dy <= dh,
        1 <= dh <= 2_000_001,
    ensures
        r == interp_x(x0 as int, x1 as int, dy as int, dh as int),
        -3_000_000 <= r <= 3_000_000,
{
    proof {
        lemma_interp_bound(x0 as int, x1 as int, dy as int, dh as int);
        assert(((x1 - x0) as i64) * (dy as i64) <= 2_000_000i64 * 2_000_001i64 && ((x1
            - x0) as i64) * (dy as i64) >= -(2_000_000i64 * 2_000_001i64)) by (nonlinear_arith)
            requires
                -2_000_000 <= (x1 - x0) as i64 <= 2_000_000,
                0 <= dy as i64 <= 2_000_001,
        ;
    }
    let q = div_trunc(((x1 as i64) - (x0 as i64)) * (dy as i64), dh as i64);
    x0 + (q as i32)
}

/// Triangle fill by line sweeping: the three vertices are sorted by y,
/// then every row of the bottom half (between edges `s0-s2` and `s0-s1`)
/// and of the top half (between `s0-s2` and `s1-s2`) is drawn as one
/// horizontal `line` call.
///
/// The three y coordinates must be pairwise distinct: a flat edge would
/// give one half a zero row span, for which no interpolation step exists.
pub fn old_skool_triangle(
    v0: (i32, i32),
    v1: (i32, i32),
    v2: (i32, i32),
    canvas: &mut Vec<u32>,
    width: usize,
    height: usize,
    color: u32,
)
    requires
        old(canvas).len() == width * height,
        width <= 1_000_000,
        height <= 1_000_000,
        -1_000_000 <= v0.0 <= 1_000_000,
        -1_000_000 <= v0.1 <= 1_000_000,
        -1_000_000 <= v1.0 <= 1_000_000,
        -1_000_000 <= v1.1 <= 1_000_000,
        -1_000_000 <= v2.0 <= 1_000_000,
        -1_000_000 <= v2.1 <= 1_000_000,
        v0.1 != v1.1,
        v0.1 != v2.1,
        v1.1 != v2.1,
    ensures
        final(canvas)@.len() == old(canvas)@.len(),
        forall|qx: int, qy: int|
            0 <= qx < width && 0 <= qy < height ==> final(canvas)@[#[trigger] pix(
                qy,
                qx,
                width as int,
            )] == (if oldskool_painted(
                vtx(v0),
                vtx(v1),
                vtx(v2),
                width as int,
                height as int,
                qx,
                qy,
            ) {
                color
            } else {
                old(canvas)@[pix(qy, qx, width as int)]
            }),
{
    let ghost buf0 = canvas@;
    let ghost gv0 = vtx(v0);
    let ghost gv1 = vtx(v1);
    let ghost gv2 = vtx(v2);
    let (mut s0, mut s1, mut s2) = (v0, v1, v2);
    // Sort the vertices by y, ascending
    if s0.1 > s1.1 {
        let t = s0;
        s0 = s1;
        s1 = t;
    }
    if s0.1 > s2.1 {
        let t = s0;
        s0 = s2;
        s2 = t;
    }
    if s1.1 > s2.1 {
        let t = s1;
        s1 = s2;
        s2 = t;
    }
    proof {
        assert(sort3_by_y(gv0, gv1, gv2) == (vtx(s0), vtx(s1), vtx(s2)));
        assert(s0.1 < s1.1 < s2.1);
    }
    let total_height = s2.1 - s0.1;
    let seg_bottom = s1.1 - s0.1;
    let seg_top = s2.1 - s1.1;

    // Bottom half
    let mut y = s0.1;
    while y <= s1.1
        invariant
            canvas@.len() == width * height,
            buf0.len() == width * height,
            width <= 1_000_000,
            height <= 1_000_000,
            -1_000_000 <= s0.0 <= 1_000_000 && -1_000_000 <= s0.1 <= 1_000_000,
            -1_000_000 <= s1.0 <= 1_000_000 && -1_000_000 <= s1.1 <= 1_000_000,
            -1_000_000 <= s2.0 <= 1_000_000 && -1_000_000 <= s2.1 <= 1_000_000,
            s0.1 < s1.1 < s2.1,
            total_height == s2.1 - s0.1,
            seg_bottom == s1.1 - s0.1,
            sort3_by_y(gv0, gv1, gv2) == (vtx(s0), vtx(s1), vtx(s2)),
            s0.1 <= y <= s1.1 + 1,
            forall|qx: int, qy: int|
                0 <= qx < width && 0 <= qy < height ==> canvas@[#[trigger] pix(
                    qy,
                    qx,
                    width as int,
                )] == (if oldskool_bottom(
                    gv0,
                    gv1,
                    gv2,
                    width as int,
                    height as int,
                    qx,
                    qy,
                ) && height - qy < y {
                    color
                } else {
                    buf0[pix(qy, qx, width as int)]
                }),
        decreases s1.1 + 1 - y,
    {
        let xa = interp_edge(s0.0, s2.0, y - s0.1, total_height);
        let xb = interp_edge(s0.0, s1.0, y - s0.1, seg_bottom);
        let ghost pre_buf = canvas@;
        line(xa, y, xb, y, canvas, width, height, color);
        proof {
            lemma_line_horizontal(
                pre_buf,
                xa as int,
                y as int,
                xb as int,
                width as int,
                height as int,
                color,
            );
            assert forall|qx: int, qy: int|
                0 <= qx < width && 0 <= qy < height implies canvas@[#[trigger] pix(
                qy,
                qx,
                width as int,
            )] == (if oldskool_bottom(
                gv0,
                gv1,
                gv2,
                width as int,
                height as int,
                qx,
                qy,
            ) && height - qy < y + 1 {
                color
            } else {
                buf0[pix(qy, qx, width as int)]
            }) by {
                if qy == height - y {
                    assert(height - qy == y as int);
                }
            }
        }
        y = y + 1;
    }

    // Top half
    let mut y2 = s1.1;
    while y2 <= s2.1
        invariant
            canvas@.len() == width * height,
            buf0.len() == width * height,
            width <= 1_000_000,
            height <= 1_000_000,
            -1_000_000 <= s0.0 <= 1_000_000 && -1_000_000 <= s0.1 <= 1_000_000,
            -1_000_000 <= s1.0 <= 1_000_000 && -1_000_000 <= s1.1 <= 1_000_000,
            -1_000_000 <= s2.0 <= 1_000_000 && -1_000_000 <= s2.1 <= 1_000_000,
            s0.1 < s1.1 < s2.1,
            total_height == s2.1 - s0.1,
            seg_top == s2.1 - s1.1,
            sort3_by_y(gv0, gv1, gv2) == (vtx(s0), vtx(s1), vtx(s2)),
            s1.1 <= y2 <= s2.1 + 1,
            forall|qx: int, qy: int|
                0 <= qx < width && 0 <= qy < height ==> canvas@[#[trigger] pix(
                    qy,
                    qx,
                    width as int,
                )] == (if oldskool_bottom(gv0, gv1, gv2, width as int, height as int, qx, qy) || (
                oldskool_top(gv0, gv1, gv2, width as int, height as int, qx, qy) && height - qy
                    < y2) {
                    color
                } else {
                    buf0[pix(qy, qx, width as int)]
                }),
        decreases s2.1 + 1 - y2,
    {
        let xa = interp_edge(s0.0, s2.0, y2 - s0.1, total_height);
        let xb = interp_edge(s1.0, s2.0, y2 - s1.1, seg_top);
        let ghost pre_buf = canvas@;
        line(xa, y2, xb, y2, canvas, width, height, color);
        proof {
            lemma_line_horizontal(
                pre_buf,
                xa as int,
                y2 as int,
                xb as int,
                width as int,
                height as int,
                color,
            );
            assert forall|qx: int, qy: int|
                0 <= qx < width && 0 <= qy < height implies canvas@[#[trigger] pix(
                qy,
                qx,
                width as int,
            )] == (if oldskool_bottom(gv0, gv1, gv2, width as int, height as int, qx, qy) || (
            oldskool_top(gv0, gv1, gv2, width as int, height as int, qx, qy) && height - qy < y2
                + 1) {
                color
            } else {
                buf0[pix(qy, qx, width as int)]
            }) by {
                if qy == height - y2 {
                    assert(height - qy == y2 as int);
                }
            }
        }
        y2 = y2 + 1;
    }
}

/// One coordinate of the projection: `(coord + 1) * extent / 2`,
/// rounding down.
pub open spec fn project1(x: int, extent: int) -> int {
    (x + SCALE) * extent / 2
}

/// Map a point from [-1, 1]-normalized object space to canvas space;
/// z passes through unchanged (kept for bounding-box math, never used
/// for depth testing).
pub open spec fn spec_project(p: Point, width: int, height: int) -> Point {
    Point {
        x: project1(p.x as int, width) as i64,
        y: project1(p.y as int, height) as i64,
        z: p.z,
    }
}

/// One coordinate of the inverse mapping: `2 * screen / extent - 1`.
pub open spec fn spec_unproject(sx: int, extent: int) -> int {
    2 * sx / extent - SCALE
}

/// Transform 3D coordinates to 2D canvas space.
///
/// Assumes x and y are normalized to [-1, 1]; no clamping happens here.
/// A point outside that range maps outside the canvas, and rejecting its
/// pixels is the rasterizer's job at fill time.
pub fn three_to_canvas(p: &Point, width: usize, height: usize) -> (r: Point)
    requires
        within(*p, MAX_COORD as int),
        width <= 100_000,
        height <= 100_000,
    ensures
        r == spec_project(*p, width as int, height as int),
        within(r, RASTER_COORD as int),
{
    proof {
        lemma_project_bounds(p.x as int, width as int);
        lemma_project_bounds(p.y as int, height as int);
    }
    let sx = div_floor_i64((p.x + SCALE) * (width as i64), 2);
    let sy = div_floor_i64((p.y + SCALE) * (height as i64), 2);
    Point::new(sx, sy, p.z)
}

/// Map one canvas coordinate back to [-1, 1]-normalized object space.
pub fn canvas_to_three(sx: i64, extent: usize) -> (r: i64)
    requires
        1 <= extent <= 100_000,
        -RASTER_COORD <= sx <= RASTER_COORD,
    ensures
        r == spec_unproject(sx as int, extent as int),
{
    proof {
        lemma_div_floor_range(2 * sx as int, extent as int);
    }
    div_floor_i64(2 * sx, extent as i64) - SCALE
}

/// Law: projecting a coordinate already in the canvas-normalized range
/// [-1, 1] and mapping it back through the inverse formula recovers the
/// original within one fixed-point step (the halving may round once).
pub proof fn lemma_project_roundtrip(x: int, extent: int)
    requires
        1 <= extent,
        -SCALE <= x <= SCALE,
    ensures
        x - 1 <= spec_unproject(project1(x, extent), extent) <= x,
{
    let n = (x + SCALE) * extent;
    assert(0 <= n) by (nonlinear_arith)
        requires
            n == (x + SCALE) * extent,
            x + SCALE >= 0,
            extent >= 1,
    ;
    let sx = n / 2;
    lemma_fundamental_div_mod(n, 2);
    lemma_mod_division_less_than_divisor(n, 2);
    let r2 = n % 2;
    assert(2 * sx == n - r2);
    if r2 == 0 {
        assert(n == extent * (x + SCALE)) by (nonlinear_arith)
            requires
                n == (x + SCALE) * extent,
        ;
        lemma_div_multiples_vanish(x + SCALE, extent);
        assert(n / extent == x + SCALE);
    } else {
        assert(n - 1 == (x + SCALE - 1) * extent + (extent - 1)) by (nonlinear_arith)
            requires
                n == (x + SCALE) * extent,
        ;
        lemma_fundamental_div_mod_converse(n - 1, extent, x + SCALE - 1, extent - 1);
        assert((n - 1) / extent == x + SCALE - 1);
    }
}

/// The projected coordinate of an in-range point stays well inside the
/// rasterizer's working range.
proof fn lemma_project_bounds(x: int, extent: int)
    requires
        -1_000_000_000 <= x <= 1_000_000_000,
        0 <= extent <= 100_000,
    ensures
        -100_100_000_000_000 <= (x + SCALE) * extent <= 100_100_000_000_000,
        -100_100_000_000_000 <= (x + SCALE) * extent / 2 <= 100_100_000_000_000,
        project1(x, extent) == (x + SCALE) * extent / 2,
{
    assert(-100_100_000_000_000 <= (x + SCALE) * extent <= 100_100_000_000_000)
        by (nonlinear_arith)
        requires
            -1_001_000_000 <= x + SCALE <= 1_001_000_000,
            0 <= extent <= 100_000,
    ;
    lemma_div_floor_range((x + SCALE) * extent, 2);
}

/// Floor division by a positive divisor keeps the value between the
/// dividend and zero.
proof fn lemma_div_floor_range(a: int, b: int)
    requires
        b >= 1,
    ensures
        a >= 0 ==> 0 <= a / b <= a,
        a < 0 ==> a <= a / b <= 0,
{
    if a >= 0 {
        lemma_div_pos_is_pos(a, b);
        lemma_div_nonincreasing(a, b);
    } else {
        lemma_fundamental_div_mod(a, b);
        lemma_mod_division_less_than_divisor(a, b);
        assert(a <= a / b <= 0) by (nonlinear_arith)
            requires
                a == b * (a / b) + a % b,
                0 <= a % b < b,
                a < 0,
                b >= 1,
        ;
    }
}

} // verus!
