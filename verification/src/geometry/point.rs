//! A 3-component fixed-point vector with cross product, dot product,
//! subtraction and normalization.

use crate::fixed::{div_trunc, div_trunc_i128, isqrt128, lemma_isqrt_exists, lemma_isqrt_unique, spec_isqrt, tdiv, MAX_COORD, SCALE};
use vstd::arithmetic::div_mod::lemma_div_multiples_vanish;
use vstd::prelude::*;

verus! {

/// Stores 3 vertex values (x, y, z) as fixed-point numbers,
/// [`SCALE`] steps per 1.0.
#[derive(Clone, Copy, Debug, PartialEq, Eq, Structural)]
pub struct Point {
    pub x: i64,
    pub y: i64,
    pub z: i64,
}

/// Every component within `m` of zero.
pub open spec fn within(p: Point, m: int) -> bool {
    &&& -m <= p.x <= m
    &&& -m <= p.y <= m
    &&& -m <= p.z <= m
}

/// First component of the un-rescaled cross product.
pub open spec fn cross_num_x(a: Point, b: Point) -> int {
    a.y * b.z - a.z * b.y
}

/// Second component of the un-rescaled cross product.
pub open spec fn cross_num_y(a: Point, b: Point) -> int {
    a.z * b.x - a.x * b.z
}

/// Third component of the un-rescaled cross product.
pub open spec fn cross_num_z(a: Point, b: Point) -> int {
    a.x * b.y - a.y * b.x
}

/// The fixed-point cross product: each un-rescaled component is divided
/// by [`SCALE`] (rounding toward zero) to return to coordinate scale.
pub open spec fn spec_cross(a: Point, b: Point) -> Point {
    Point {
        x: tdiv(cross_num_x(a, b), SCALE as int) as i64,
        y: tdiv(cross_num_y(a, b), SCALE as int) as i64,
        z: tdiv(cross_num_z(a, b), SCALE as int) as i64,
    }
}

/// Componentwise difference as a mathematical value.
pub open spec fn spec_sub(a: Point, b: Point) -> Point {
    Point { x: (a.x - b.x) as i64, y: (a.y - b.y) as i64, z: (a.z - b.z) as i64 }
}

/// Squared Euclidean length, un-rescaled (fixed-point squared units).
pub open spec fn norm_sq(p: Point) -> int {
    p.x * p.x + p.y * p.y + p.z * p.z
}

/// The fixed-point normalization: the zero vector stays zero (never a
/// propagated indeterminate value); otherwise each component is scaled
/// by `SCALE / length` with truncating division, so the result has
/// length as close to 1.0 as the representation allows.
pub open spec fn spec_normalize(p: Point) -> Point {
    if norm_sq(p) == 0 {
        p
    } else {
        let len = spec_isqrt(norm_sq(p));
        Point {
            x: tdiv(p.x * SCALE, len) as i64,
            y: tdiv(p.y * SCALE, len) as i64,
            z: tdiv(p.z * SCALE, len) as i64,
        }
    }
}

impl Point {
    /// New point from three fixed-point components.
    pub fn new(x: i64, y: i64, z: i64) -> (p: Self)
        ensures
            p == (Point { x, y, z }),
    {
        Point { x, y, z }
    }

    /// Componentwise difference.
    pub fn sub(self, other: Self) -> (r: Self)
        requires
            within(self, MAX_COORD as int),
            within(other, MAX_COORD as int),
        ensures
            r == spec_sub(self, other),
            r.x == self.x - other.x,
            r.y == self.y - other.y,
            r.z == self.z - other.z,
            within(r, 2 * MAX_COORD as int),
    {
        Point { x: self.x - other.x, y: self.y - other.y, z: self.z - other.z }
    }

    /// Cross product, rescaled back to coordinate scale.
    pub fn cross(self, other: Self) -> (r: Self)
        requires
            within(self, 2 * MAX_COORD as int),
            within(other, 2 * MAX_COORD as int),
        ensures
            r == spec_cross(self, other),
            within(r, 9_000_000_000_000),
    {
        proof {
            lemma_cross_num_bounds(self, other);
            lemma_tdiv_bounds(cross_num_x(self, other), SCALE as int);
            lemma_tdiv_bounds(cross_num_y(self, other), SCALE as int);
            lemma_tdiv_bounds(cross_num_z(self, other), SCALE as int);
        }
        let nx = self.y * other.z - self.z * other.y;
        let ny = self.z * other.x - self.x * other.z;
        let nz = self.x * other.y - self.y * other.x;
        Point { x: div_trunc(nx, SCALE), y: div_trunc(ny, SCALE), z: div_trunc(nz, SCALE) }
    }

    /// Dot product with a 3-element light vector, un-rescaled: for two
    /// unit-length operands the result is about `SCALE * SCALE`.
    pub fn dot(&self, light: &[i64; 3]) -> (r: i64)
        requires
            within(*self, MAX_COORD as int),
            forall|i: int| 0 <= i < 3 ==> -MAX_COORD <= #[trigger] light@[i] <= MAX_COORD,
        ensures
            r == self.x * light@[0] + self.y * light@[1] + self.z * light@[2],
    {
        proof {
            assert(-(1_000_000_000_000_000_000int) <= self.x * light@[0] <= 1_000_000_000_000_000_000int
                && -(1_000_000_000_000_000_000int) <= self.y * light@[1]
                <= 1_000_000_000_000_000_000int && -(1_000_000_000_000_000_000int) <= self.z
                * light@[2] <= 1_000_000_000_000_000_000int) by (nonlinear_arith)
                requires
                    within(*self, 1_000_000_000int),
                    forall|i: int| 0 <= i < 3 ==> -1_000_000_000 <= #[trigger] light@[i]
                        <= 1_000_000_000,
            ;
        }
        self.x * light[0] + self.y * light[1] + self.z * light[2]
    }

    /// Scale the vector to unit length (truncating toward zero);
    /// the zero vector is returned unchanged.
    pub fn normalize(&self) -> (r: Self)
        requires
            within(*self, 10_000_000_000_000),
        ensures
            r == spec_normalize(*self),
            within(r, SCALE as int),
    {
        proof {
            lemma_norm_sq_bounds(*self);
        }
        let x = self.x as i128;
        let y = self.y as i128;
        let z = self.z as i128;
        let sq = x * x + y * y + z * z;
        if sq == 0 {
            proof {
                lemma_norm_sq_zero(*self);
            }
            *self
        } else {
            let len = isqrt128(sq as u128) as i128;
            proof {
                assert(len >= 1) by (nonlinear_arith)
                    requires
                        sq < (len + 1) * (len + 1),
                        sq >= 1,
                        len >= 0,
                ;
                lemma_normalize_component_bounds(self.x as int, len as int, sq as int);
                lemma_normalize_component_bounds(self.y as int, len as int, sq as int);
                lemma_normalize_component_bounds(self.z as int, len as int, sq as int);
            }
            let sc: i128 = 1_000_000;
            proof {
                assert(sc as int == SCALE as int);
            }
            Point {
                x: div_trunc_i128(x * sc, len) as i64,
                y: div_trunc_i128(y * sc, len) as i64,
                z: div_trunc_i128(z * sc, len) as i64,
            }
        }
    }
}

/// Law: the cross product is anti-commutative. `cross(a, b)` is the
/// componentwise negation of `cross(b, a)`, exactly, for all vectors in
/// the cross product's working range.
pub proof fn lemma_cross_antisymmetric(a: Point, b: Point)
    requires
        within(a, 2 * MAX_COORD as int),
        within(b, 2 * MAX_COORD as int),
    ensures
        spec_cross(a, b).x == -spec_cross(b, a).x,
        spec_cross(a, b).y == -spec_cross(b, a).y,
        spec_cross(a, b).z == -spec_cross(b, a).z,
{
    assert(a.y * b.z - a.z * b.y == -(b.y * a.z - b.z * a.y) && a.z * b.x - a.x * b.z == -(b.z
        * a.x - b.x * a.z) && a.x * b.y - a.y * b.x == -(b.x * a.y - b.y * a.x))
        by (nonlinear_arith);
    lemma_cross_num_bounds(a, b);
    lemma_cross_num_bounds(b, a);
    lemma_tdiv_neg(cross_num_x(b, a), SCALE as int);
    lemma_tdiv_neg(cross_num_y(b, a), SCALE as int);
    lemma_tdiv_neg(cross_num_z(b, a), SCALE as int);
    lemma_tdiv_bounds(cross_num_x(b, a), SCALE as int);
    lemma_tdiv_bounds(cross_num_y(b, a), SCALE as int);
    lemma_tdiv_bounds(cross_num_z(b, a), SCALE as int);
}

/// Law: a vector whose squared length is exactly one unit
/// (`SCALE * SCALE`) normalizes to itself. Normalization is therefore
/// idempotent wherever the first pass lands exactly on the unit sphere;
/// truncation can instead leave it one fixed-point step short, and then
/// a second pass may shrink a component by one step.
pub proof fn lemma_normalize_unit(p: Point)
    requires
        norm_sq(p) == SCALE * SCALE,
    ensures
        spec_normalize(p) == p,
{
    let s = SCALE as int;
    lemma_isqrt_unique(s * s, s);
    assert(-s <= p.x <= s && -s <= p.y <= s && -s <= p.z <= s) by (nonlinear_arith)
        requires
            p.x * p.x + p.y * p.y + p.z * p.z == s * s,
            s == 1_000_000,
    ;
    lemma_tdiv_multiples_vanish(p.x as int, s);
    lemma_tdiv_multiples_vanish(p.y as int, s);
    lemma_tdiv_multiples_vanish(p.z as int, s);
}

/// Law: normalizing any vector at least one unit long lands on the unit
/// sphere up to a few millionths: the squared length of the result lies
/// between `SCALE * SCALE - 6 * SCALE` and `SCALE * SCALE + 2 * SCALE + 3`.
/// Together with [`lemma_normalize_unit`] this is the idempotence claim
/// in fixed point: a second normalization moves each component only by
/// the few steps this slack allows, and not at all when the first pass
/// lands exactly.
pub proof fn lemma_normalize_near_unit(p: Point)
    requires
        norm_sq(p) >= SCALE * SCALE,
        within(p, 10_000_000_000_000),
    ensures
        SCALE * SCALE - 6 * SCALE <= norm_sq(spec_normalize(p)),
        norm_sq(spec_normalize(p)) <= SCALE * SCALE + 2 * SCALE + 3,
{
    let s = SCALE as int;
    let sq = norm_sq(p);
    lemma_isqrt_exists(sq);
    let len = spec_isqrt(sq);
    assert(len >= s) by (nonlinear_arith)
        requires
            sq >= s * s,
            sq < (len + 1) * (len + 1),
            len >= 0,
            s >= 1,
    ;
    let x = p.x as int;
    let y = p.y as int;
    let z = p.z as int;
    assert(x * x <= sq && y * y <= sq && z * z <= sq && 0 <= x * x && 0 <= y * y && 0 <= z * z)
        by (nonlinear_arith)
        requires
            sq == x * x + y * y + z * z,
    ;
    assert(-len <= x <= len && -len <= y <= len && -len <= z <= len) by (nonlinear_arith)
        requires
            x * x <= sq,
            y * y <= sq,
            z * z <= sq,
            sq < (len + 1) * (len + 1),
            len >= 0,
    ;
    lemma_normalize_component_bounds(x, len, sq);
    lemma_normalize_component_bounds(y, len, sq);
    lemma_normalize_component_bounds(z, len, sq);
    let ux = tdiv(x * s, len);
    let uy = tdiv(y * s, len);
    let uz = tdiv(z * s, len);
    let n = spec_normalize(p);
    assert(n.x as int == ux && n.y as int == uy && n.z as int == uz);
    let nn = norm_sq(n);
    assert(nn == ux * ux + uy * uy + uz * uz);

    lemma_tdiv_decomp(x, s, len);
    lemma_tdiv_decomp(y, s, len);
    lemma_tdiv_decomp(z, s, len);
    let tx = x * s - len * ux;
    let ty = y * s - len * uy;
    let tz = z * s - len * uz;

    // expand each component: (len * u)^2 == (x*s)^2 - 2*s*(x*t) + t^2
    assert((len * ux) * (len * ux) == (s * s) * (x * x) - 2 * s * (x * tx) + tx * tx)
        by (nonlinear_arith)
        requires
            len * ux == x * s - tx,
    ;
    assert((len * uy) * (len * uy) == (s * s) * (y * y) - 2 * s * (y * ty) + ty * ty)
        by (nonlinear_arith)
        requires
            len * uy == y * s - ty,
    ;
    assert((len * uz) * (len * uz) == (s * s) * (z * z) - 2 * s * (z * tz) + tz * tz)
        by (nonlinear_arith)
        requires
            len * uz == z * s - tz,
    ;
    assert((len * ux) * (len * ux) == (len * len) * (ux * ux) && (len * uy) * (len * uy) == (len
        * len) * (uy * uy) && (len * uz) * (len * uz) == (len * len) * (uz * uz))
        by (nonlinear_arith);
    let bigt = x * tx + y * ty + z * tz;
    let bigr = tx * tx + ty * ty + tz * tz;
    assert((len * len) * nn == (len * len) * (ux * ux) + (len * len) * (uy * uy) + (len * len) * (
    uz * uz)) by (nonlinear_arith)
        requires
            nn == ux * ux + uy * uy + uz * uz,
    ;
    assert((s * s) * sq == (s * s) * (x * x) + (s * s) * (y * y) + (s * s) * (z * z))
        by (nonlinear_arith)
        requires
            sq == x * x + y * y + z * z,
    ;
    assert(s * bigt == s * (x * tx) + s * (y * ty) + s * (z * tz)) by (nonlinear_arith)
        requires
            bigt == x * tx + y * ty + z * tz,
    ;
    assert(2 * s * (x * tx) == 2 * (s * (x * tx)) && 2 * s * (y * ty) == 2 * (s * (y * ty)) && 2
        * s * (z * tz) == 2 * (s * (z * tz)) && 2 * s * bigt == 2 * (s * bigt))
        by (nonlinear_arith);
    assert((len * len) * nn == (s * s) * sq - 2 * s * bigt + bigr);
    // bound the correction terms
    assert(0 <= x * tx <= len * len && 0 <= y * ty <= len * len && 0 <= z * tz <= len * len)
        by (nonlinear_arith)
        requires
            x * tx >= 0,
            y * ty >= 0,
            z * tz >= 0,
            -len <= x <= len,
            -len <= y <= len,
            -len <= z <= len,
            -len < tx < len,
            -len < ty < len,
            -len < tz < len,
    ;
    assert(0 <= tx * tx <= len * len && 0 <= ty * ty <= len * len && 0 <= tz * tz <= len * len)
        by (nonlinear_arith)
        requires
            -len < tx < len,
            -len < ty < len,
            -len < tz < len,
    ;

    // upper bound: sq <= len^2 + 2*len, so
    // len^2 * nn <= s^2*len^2 + 2*s^2*len + 3*len^2 < len^2 * (s^2 + 2s + 4)
    assert((s * s) * sq <= (s * s) * (len * len) + 2 * ((s * s) * len)) by (nonlinear_arith)
        requires
            sq < (len + 1) * (len + 1),
            s >= 1,
            len >= 1,
    ;
    assert((len * len) * nn < (len * len) * (s * s + 2 * s + 4)) by (nonlinear_arith)
        requires
            (len * len) * nn == (s * s) * sq - 2 * s * bigt + bigr,
            (s * s) * sq <= (s * s) * (len * len) + 2 * ((s * s) * len),
            bigt >= 0,
            bigr <= 3 * (len * len),
            s >= 1,
            len >= s,
    ;
    assert(nn < s * s + 2 * s + 4) by (nonlinear_arith)
        requires
            (len * len) * nn < (len * len) * (s * s + 2 * s + 4),
            len >= 1,
    ;

    // lower bound: len^2 * nn >= s^2*len^2 - 6*s*len^2 = len^2 * (s^2 - 6s)
    assert((s * s) * sq >= (s * s) * (len * len)) by (nonlinear_arith)
        requires
            sq >= len * len,
            s >= 1,
    ;
    assert((len * len) * nn >= (len * len) * (s * s - 6 * s)) by (nonlinear_arith)
        requires
            (len * len) * nn == (s * s) * sq - 2 * s * bigt + bigr,
            (s * s) * sq >= (s * s) * (len * len),
            bigt <= 3 * (len * len),
            bigr >= 0,
            s >= 1,
            len >= 1,
    ;
    assert(nn >= s * s - 6 * s) by (nonlinear_arith)
        requires
            (len * len) * nn >= (len * len) * (s * s - 6 * s),
            len >= 1,
    ;
}

/// Decomposition of the truncating division `tdiv(x * s, len)`: the
/// remainder is smaller than the divisor and shares the sign of `x`.
proof fn lemma_tdiv_decomp(x: int, s: int, len: int)
    requires
        len >= 1,
        s >= 1,
    ensures
        -len < x * s - len * tdiv(x * s, len) < len,
        x * (x * s - len * tdiv(x * s, len)) >= 0,
{
    let a = x * s;
    if a >= 0 {
        vstd::arithmetic::div_mod::lemma_fundamental_div_mod(a, len);
        vstd::arithmetic::div_mod::lemma_mod_division_less_than_divisor(a, len);
        assert(a == len * (a / len) + a % len);
        assert(a - len * tdiv(a, len) == a % len);
        assert(x >= 0) by (nonlinear_arith)
            requires
                x * s >= 0,
                s >= 1,
        ;
        assert(x * (a % len) >= 0) by (nonlinear_arith)
            requires
                x >= 0,
                a % len >= 0,
        ;
    } else {
        vstd::arithmetic::div_mod::lemma_fundamental_div_mod(-a, len);
        vstd::arithmetic::div_mod::lemma_mod_division_less_than_divisor(-a, len);
        assert(-a == len * ((-a) / len) + (-a) % len);
        assert(tdiv(a, len) == -((-a) / len));
        assert(a - len * tdiv(a, len) == -((-a) % len)) by (nonlinear_arith)
            requires
                -a == len * ((-a) / len) + (-a) % len,
                tdiv(a, len) == -((-a) / len),
        ;
        assert(x < 0) by (nonlinear_arith)
            requires
                x * s < 0,
                s >= 1,
        ;
        assert(x * (-((-a) % len)) >= 0) by (nonlinear_arith)
            requires
                x < 0,
                (-a) % len >= 0,
        ;
    }
}

/// Law: normalizing twice gives the same vector as normalizing once,
/// whenever one pass reaches the unit sphere exactly.
pub proof fn lemma_normalize_idempotent(p: Point)
    requires
        norm_sq(spec_normalize(p)) == SCALE * SCALE,
    ensures
        spec_normalize(spec_normalize(p)) == spec_normalize(p),
{
    lemma_normalize_unit(spec_normalize(p));
}

/// Law: normalization is idempotent up to rounding tolerance. For any
/// vector at least one unit long, normalizing its normalization moves
/// each component by at most six fixed-point steps (six millionths of a
/// unit) — and, by [`lemma_normalize_unit`], by none at all where the
/// first pass lands exactly on the unit sphere.
pub proof fn lemma_normalize_idempotent_tolerance(p: Point)
    requires
        norm_sq(p) >= SCALE * SCALE,
        within(p, 10_000_000_000_000),
    ensures
        -6 <= spec_normalize(spec_normalize(p)).x - spec_normalize(p).x <= 6,
        -6 <= spec_normalize(spec_normalize(p)).y - spec_normalize(p).y <= 6,
        -6 <= spec_normalize(spec_normalize(p)).z - spec_normalize(p).z <= 6,
{
    let s = SCALE as int;
    lemma_normalize_near_unit(p);
    let u = spec_normalize(p);
    let nsq = norm_sq(u);
    lemma_isqrt_exists(nsq);
    let len2 = spec_isqrt(nsq);
    assert(s - 4 <= len2 <= s + 1) by (nonlinear_arith)
        requires
            s * s - 6 * s <= nsq <= s * s + 2 * s + 3,
            len2 * len2 <= nsq,
            nsq < (len2 + 1) * (len2 + 1),
            len2 >= 0,
            s == 1_000_000,
    ;
    let ux = u.x as int;
    let uy = u.y as int;
    let uz = u.z as int;
    assert(ux * ux <= nsq && uy * uy <= nsq && uz * uz <= nsq && 0 <= ux * ux && 0 <= uy * uy && 0
        <= uz * uz) by (nonlinear_arith)
        requires
            nsq == ux * ux + uy * uy + uz * uz,
    ;
    assert(-len2 <= ux <= len2 && -len2 <= uy <= len2 && -len2 <= uz <= len2) by (nonlinear_arith)
        requires
            ux * ux <= nsq,
            uy * uy <= nsq,
            uz * uz <= nsq,
            nsq < (len2 + 1) * (len2 + 1),
            len2 >= 0,
    ;
    lemma_normalize_component_bounds(ux, len2, nsq);
    lemma_normalize_component_bounds(uy, len2, nsq);
    lemma_normalize_component_bounds(uz, len2, nsq);
    assert(nsq != 0);
    let w = spec_normalize(u);
    assert(w.x as int == tdiv(ux * s, len2) && w.y as int == tdiv(uy * s, len2) && w.z as int
        == tdiv(uz * s, len2));
    lemma_normalize_step_bound(ux, s, len2);
    lemma_normalize_step_bound(uy, s, len2);
    lemma_normalize_step_bound(uz, s, len2);
}

/// Rescaling a component by `SCALE / len` with `len` within a few steps
/// of `SCALE` moves it by at most six steps.
proof fn lemma_normalize_step_bound(x: int, s: int, len: int)
    requires
        s == 1_000_000,
        s - 4 <= len <= s + 1,
        -len <= x <= len,
    ensures
        -6 <= tdiv(x * s, len) - x <= 6,
{
    lemma_tdiv_decomp(x, s, len);
    let q = tdiv(x * s, len);
    let t = x * s - len * q;
    assert(len * (q - x) == x * (s - len) - t) by (nonlinear_arith)
        requires
            t == x * s - len * q,
    ;
    assert(-4 * (s + 1) <= x * (s - len) <= 4 * (s + 1)) by (nonlinear_arith)
        requires
            -len <= x <= len,
            len <= s + 1,
            -1 <= s - len <= 4,
            s >= 1,
    ;
    assert(-6 <= q - x <= 6) by (nonlinear_arith)
        requires
            len * (q - x) == x * (s - len) - t,
            -4 * (s + 1) <= x * (s - len) <= 4 * (s + 1),
            -len < t < len,
            s - 4 <= len <= s + 1,
            s == 1_000_000,
    ;
}

/// Law: the zero vector normalizes to itself (a defined value, never a
/// propagated indeterminate one).
pub proof fn lemma_normalize_zero()
    ensures
        spec_normalize(Point { x: 0, y: 0, z: 0 }) == (Point { x: 0, y: 0, z: 0 }),
{
}

/// Truncating division of an exact multiple returns the factor:
/// `tdiv(x * d, d) == x`.
proof fn lemma_tdiv_multiples_vanish(x: int, d: int)
    requires
        0 < d,
    ensures
        tdiv(x * d, d) == x,
{
    lemma_div_multiples_vanish(x, d);
    assert(x * d == d * x) by (nonlinear_arith);
    if x * d < 0 {
        lemma_div_multiples_vanish(-x, d);
        assert(-(x * d) == d * -x) by (nonlinear_arith);
    }
}

/// Truncating division commutes with negation: `tdiv(-a, b) == -tdiv(a, b)`.
proof fn lemma_tdiv_neg(a: int, b: int)
    requires
        b >= 1,
    ensures
        tdiv(-a, b) == -tdiv(a, b),
{
    vstd::arithmetic::div_mod::lemma_div_of0(b);
}

/// The un-rescaled cross product of vectors within twice the coordinate
/// range stays within `i64`.
proof fn lemma_cross_num_bounds(a: Point, b: Point)
    requires
        within(a, 2 * MAX_COORD as int),
        within(b, 2 * MAX_COORD as int),
    ensures
        -9_000_000_000_000_000_000 <= cross_num_x(a, b) <= 9_000_000_000_000_000_000,
        -9_000_000_000_000_000_000 <= cross_num_y(a, b) <= 9_000_000_000_000_000_000,
        -9_000_000_000_000_000_000 <= cross_num_z(a, b) <= 9_000_000_000_000_000_000,
        -4_000_000_000_000_000_000 <= a.y * b.z <= 4_000_000_000_000_000_000,
        -4_000_000_000_000_000_000 <= a.z * b.y <= 4_000_000_000_000_000_000,
        -4_000_000_000_000_000_000 <= a.z * b.x <= 4_000_000_000_000_000_000,
        -4_000_000_000_000_000_000 <= a.x * b.z <= 4_000_000_000_000_000_000,
        -4_000_000_000_000_000_000 <= a.x * b.y <= 4_000_000_000_000_000_000,
        -4_000_000_000_000_000_000 <= a.y * b.x <= 4_000_000_000_000_000_000,
{
    assert(-4_000_000_000_000_000_000 <= a.y * b.z <= 4_000_000_000_000_000_000
        && -4_000_000_000_000_000_000 <= a.z * b.y <= 4_000_000_000_000_000_000
        && -4_000_000_000_000_000_000 <= a.z * b.x <= 4_000_000_000_000_000_000
        && -4_000_000_000_000_000_000 <= a.x * b.z <= 4_000_000_000_000_000_000
        && -4_000_000_000_000_000_000 <= a.x * b.y <= 4_000_000_000_000_000_000
        && -4_000_000_000_000_000_000 <= a.y * b.x <= 4_000_000_000_000_000_000)
        by (nonlinear_arith)
        requires
            within(a, 2_000_000_000int),
            within(b, 2_000_000_000int),
    ;
}

/// Truncating division shrinks magnitude: `|tdiv(a, b)| <= |a|` for `b >= 1`.
proof fn lemma_tdiv_bounds(a: int, b: int)
    requires
        b >= 1,
    ensures
        a >= 0 ==> 0 <= tdiv(a, b) <= a,
        a < 0 ==> a <= tdiv(a, b) <= 0,
{
    if a >= 0 {
        vstd::arithmetic::div_mod::lemma_div_nonincreasing(a, b);
        vstd::arithmetic::div_mod::lemma_div_pos_is_pos(a, b);
    } else {
        vstd::arithmetic::div_mod::lemma_div_nonincreasing(-a, b);
        vstd::arithmetic::div_mod::lemma_div_pos_is_pos(-a, b);
    }
}

/// Squares of in-range coordinates sum without overflowing `i128`,
/// and the sum is zero exactly on the zero vector.
proof fn lemma_norm_sq_bounds(p: Point)
    requires
        within(p, 10_000_000_000_000),
    ensures
        0 <= norm_sq(p) <= 300_000_000_000_000_000_000_000_000,
        0 <= p.x * p.x,
        0 <= p.y * p.y,
        0 <= p.z * p.z,
{
    assert(0 <= p.x * p.x <= 100_000_000_000_000_000_000_000_000 && 0 <= p.y * p.y
        <= 100_000_000_000_000_000_000_000_000 && 0 <= p.z * p.z
        <= 100_000_000_000_000_000_000_000_000) by (nonlinear_arith)
        requires
            within(p, 10_000_000_000_000),
    ;
}

/// A vector whose squared length is zero is the zero vector.
proof fn lemma_norm_sq_zero(p: Point)
    requires
        norm_sq(p) == 0,
    ensures
        p.x == 0 && p.y == 0 && p.z == 0,
{
    assert(p.x == 0 && p.y == 0 && p.z == 0) by (nonlinear_arith)
        requires
            p.x * p.x + p.y * p.y + p.z * p.z == 0,
    ;
}

/// A component rescaled by `SCALE / len` keeps `x * SCALE` inside `i128`
/// and lands within one unit of length.
proof fn lemma_normalize_component_bounds(x: int, len: int, sq: int)
    requires
        -10_000_000_000_000 <= x <= 10_000_000_000_000,
        len >= 1,
        x * x <= sq,
        len * len <= sq,
        sq < (len + 1) * (len + 1),
    ensures
        -10_000_000_000_000_000_000 <= x * 1_000_000 <= 10_000_000_000_000_000_000,
        x * 1_000_000 > i128::MIN,
        -1_000_000 <= tdiv(x * 1_000_000, len) <= 1_000_000,
{
    assert(-10_000_000_000_000_000_000 <= x * 1_000_000 <= 10_000_000_000_000_000_000)
        by (nonlinear_arith)
        requires
            -10_000_000_000_000 <= x <= 10_000_000_000_000,
    ;
    // |x| <= len, because x * x <= sq < (len + 1) * (len + 1)
    assert(-len <= x <= len) by (nonlinear_arith)
        requires
            x * x <= sq,
            sq < (len + 1) * (len + 1),
            len >= 1,
    ;
    if x >= 0 {
        assert(x * 1_000_000 <= len * 1_000_000) by (nonlinear_arith)
            requires
                x <= len,
                len >= 1,
        ;
        vstd::arithmetic::div_mod::lemma_div_pos_is_pos(x * 1_000_000, len);
        vstd::arithmetic::div_mod::lemma_div_is_ordered(x * 1_000_000, len * 1_000_000, len);
        lemma_div_multiples_vanish(1_000_000, len);
    } else {
        assert((-x) * 1_000_000 <= len * 1_000_000) by (nonlinear_arith)
            requires
                -x <= len,
                len >= 1,
        ;
        vstd::arithmetic::div_mod::lemma_div_pos_is_pos((-x) * 1_000_000, len);
        vstd::arithmetic::div_mod::lemma_div_is_ordered((-x) * 1_000_000, len * 1_000_000, len);
        lemma_div_multiples_vanish(1_000_000, len);
    }
}

} // verus!
