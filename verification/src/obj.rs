//! Loader for the line-oriented mesh text format (a subset of the
//! Wavefront OBJ format).
//!
//! Each line is tokenized on whitespace. A line whose first token is `v`
//! contributes one vertex: its next three tokens are decimal coordinates
//! (optional sign, integer digits, optional `.` and fraction digits; no
//! exponent), read into fixed point and bounded by [`MAX_COORD`]. A line
//! whose first token is `f` contributes one face: of each remaining
//! token only the part before the first `/` is used, a positive integer,
//! stored decremented by 1 (the format counts vertices from 1). Any
//! other line is skipped. Any failure is fatal: no partial mesh is ever
//! returned, so every stored face index is known to be in range.

use crate::fixed::{MAX_COORD, SCALE};
use crate::geometry::point::{within, Point};
use vstd::prelude::*;

verus! {

/// Why a mesh text failed to load.
#[derive(Clone, Copy, Debug, PartialEq, Eq, Structural)]
pub enum LoadError {
    /// The mesh source could not be opened or read at all.
    Unreadable,
    /// A `v` line has fewer than three coordinate tokens.
    MissingToken,
    /// A numeric token is not a number this format accepts.
    BadNumber,
    /// A face references vertex 0 or a vertex the file never defines.
    BadIndex,
    /// A face with other than three corners.
    BadFaceSize,
}

/// Token separators inside a line: space, tab, carriage return.
pub open spec fn is_space(b: u8) -> bool {
    b == 32 || b == 9 || b == 13
}

/// ASCII decimal digit.
pub open spec fn is_digit(b: u8) -> bool {
    48 <= b <= 57
}

/// First position in `[i, hi)` holding byte `b`, or `hi`.
pub open spec fn find_byte(s: Seq<u8>, b: u8, i: int, hi: int) -> int
    decreases hi - i,
{
    if i >= hi || s[i] == b {
        i
    } else {
        find_byte(s, b, i + 1, hi)
    }
}

/// First non-whitespace position in `[i, hi)`, or `hi`.
pub open spec fn skip_ws_to(s: Seq<u8>, i: int, hi: int) -> int
    decreases hi - i,
{
    if i >= hi || !is_space(s[i]) {
        i
    } else {
        skip_ws_to(s, i + 1, hi)
    }
}

/// First whitespace position in `[i, hi)`, or `hi`: the end of the token
/// starting at `i`.
pub open spec fn token_end_to(s: Seq<u8>, i: int, hi: int) -> int
    decreases hi - i,
{
    if i >= hi || is_space(s[i]) {
        i
    } else {
        token_end_to(s, i + 1, hi)
    }
}

/// Every byte of `[lo, hi)` is a decimal digit.
pub open spec fn all_digits_in(s: Seq<u8>, lo: int, hi: int) -> bool {
    forall|j: int| lo <= j < hi ==> is_digit(#[trigger] s[j])
}

/// Value of the decimal digits in `[lo, hi)`.
pub open spec fn digits_val_in(s: Seq<u8>, lo: int, hi: int) -> int
    decreases hi - lo,
{
    if hi <= lo {
        0
    } else {
        digits_val_in(s, lo, hi - 1) * 10 + (s[hi - 1] - 48)
    }
}

/// Ten to the `k`.
pub open spec fn ten_pow(k: nat) -> int
    decreases k,
{
    if k == 0 {
        1int
    } else {
        10 * ten_pow((k - 1) as nat)
    }
}

/// Value of a fraction's first `k` decimal places, scaled by `10^k`;
/// missing places count as zero, further places are cut off.
pub open spec fn frac_val_in(s: Seq<u8>, lo: int, hi: int, k: nat) -> int
    decreases k,
{
    if k == 0 || lo >= hi {
        0
    } else {
        (s[lo] - 48) * ten_pow((k - 1) as nat) + frac_val_in(s, lo + 1, hi, (k - 1) as nat)
    }
}

/// Position bounds of [`find_byte`], and what its result satisfies.
pub proof fn lemma_find_byte(s: Seq<u8>, b: u8, i: int, hi: int)
    requires
        i <= hi,
    ensures
        i <= find_byte(s, b, i, hi) <= hi,
        find_byte(s, b, i, hi) < hi ==> s[find_byte(s, b, i, hi)] == b,
        forall|j: int| i <= j < find_byte(s, b, i, hi) ==> s[j] != b,
    decreases hi - i,
{
    if i < hi && s[i] != b {
        lemma_find_byte(s, b, i + 1, hi);
    }
}

/// Position bounds of [`skip_ws_to`], and what its result satisfies.
pub proof fn lemma_skip_ws_to(s: Seq<u8>, i: int, hi: int)
    requires
        i <= hi,
    ensures
        i <= skip_ws_to(s, i, hi) <= hi,
        skip_ws_to(s, i, hi) < hi ==> !is_space(s[skip_ws_to(s, i, hi)]),
        forall|j: int| i <= j < skip_ws_to(s, i, hi) ==> is_space(#[trigger] s[j]),
    decreases hi - i,
{
    if i < hi && is_space(s[i]) {
        lemma_skip_ws_to(s, i + 1, hi);
    }
}

/// Position bounds of [`token_end_to`], and what its result satisfies.
pub proof fn lemma_token_end_to(s: Seq<u8>, i: int, hi: int)
    requires
        i <= hi,
    ensures
        i <= token_end_to(s, i, hi) <= hi,
        token_end_to(s, i, hi) < hi ==> is_space(s[token_end_to(s, i, hi)]),
        forall|j: int| i <= j < token_end_to(s, i, hi) ==> !is_space(#[trigger] s[j]),
    decreases hi - i,
{
    if i < hi && !is_space(s[i]) {
        lemma_token_end_to(s, i + 1, hi);
    }
}

/// Whether this byte separates tokens.
fn is_space_b(b: u8) -> (r: bool)
    ensures
        r == is_space(b),
{
    b == 32 || b == 9 || b == 13
}

/// Find byte `b` in `text[i..hi]`, or return `hi`.
fn scan_byte(text: &[u8], b: u8, i: usize, hi: usize) -> (r: usize)
    requires
        i <= hi <= text@.len(),
    ensures
        r == find_byte(text@, b, i as int, hi as int),
        i <= r <= hi,
{
    let mut k = i;
    while k < hi
        invariant
            i <= k <= hi <= text@.len(),
            find_byte(text@, b, i as int, hi as int) == find_byte(text@, b, k as int, hi as int),
        decreases hi - k,
    {
        if text[k] == b {
            return k;
        }
        k = k + 1;
    }
    k
}

/// Skip whitespace in `text[i..hi]`.
fn skip_ws(text: &[u8], i: usize, hi: usize) -> (r: usize)
    requires
        i <= hi <= text@.len(),
    ensures
        r == skip_ws_to(text@, i as int, hi as int),
        i <= r <= hi,
{
    let mut k = i;
    while k < hi
        invariant
            i <= k <= hi <= text@.len(),
            skip_ws_to(text@, i as int, hi as int) == skip_ws_to(text@, k as int, hi as int),
        decreases hi - k,
    {
        if !is_space_b(text[k]) {
            return k;
        }
        k = k + 1;
    }
    k
}

/// Find the end of the token starting at `i` in `text[i..hi]`.
fn token_end(text: &[u8], i: usize, hi: usize) -> (r: usize)
    requires
        i <= hi <= text@.len(),
    ensures
        r == token_end_to(text@, i as int, hi as int),
        i <= r <= hi,
{
    let mut k = i;
    while k < hi
        invariant
            i <= k <= hi <= text@.len(),
            token_end_to(text@, i as int, hi as int) == token_end_to(text@, k as int, hi as int),
        decreases hi - k,
    {
        if is_space_b(text[k]) {
            return k;
        }
        k = k + 1;
    }
    k
}

/// Read the digits of `text[lo..hi]`: their value if every byte is a
/// digit, there is at least one, and the value stays within the format's
/// coordinate magnitude.
fn parse_digits(text: &[u8], lo: usize, hi: usize) -> (r: Option<u64>)
    requires
        lo <= hi <= text@.len(),
    ensures
        r is Some <==> (lo < hi && all_digits_in(text@, lo as int, hi as int) && digits_val_in(
            text@,
            lo as int,
            hi as int,
        ) <= 1_000_000_000),
        r is Some ==> r->Some_0 as int == digits_val_in(text@, lo as int, hi as int),
{
    if lo == hi {
        return None;
    }
    let mut acc: u64 = 0;
    let mut over = false;
    let mut k = lo;
    while k < hi
        invariant
            lo <= k <= hi <= text@.len(),
            all_digits_in(text@, lo as int, k as int),
            !over ==> acc as int == digits_val_in(text@, lo as int, k as int) && acc
                <= 1_000_000_000,
            over ==> digits_val_in(text@, lo as int, k as int) > 1_000_000_000,
        decreases hi - k,
    {
        let c = text[k];
        if !(48 <= c && c <= 57) {
            return None;
        }
        let d = (c - 48) as u64;
        proof {
            lemma_digits_val_monotone_step(text@, lo as int, k as int);
        }
        if !over {
            let v = acc * 10 + d;
            if v > 1_000_000_000 {
                over = true;
            } else {
                acc = v;
            }
        }
        k = k + 1;
    }
    if over {
        None
    } else {
        Some(acc)
    }
}

/// Appending a digit multiplies the prefix value by ten and adds it, so
/// a prefix value beyond a bound keeps every extension beyond it.
proof fn lemma_digits_val_monotone_step(s: Seq<u8>, lo: int, k: int)
    requires
        lo <= k,
    ensures
        digits_val_in(s, lo, k + 1) == digits_val_in(s, lo, k) * 10 + (s[k] - 48),
        digits_val_in(s, lo, k) > 1_000_000_000 && is_digit(s[k]) ==> digits_val_in(s, lo, k + 1)
            > 1_000_000_000,
{
}

/// The fixed-point value of the decimal token `text[lo..hi]`: optional
/// leading `-`, at least one integer digit, optionally `.` and fraction
/// digits (places past the sixth are cut off), magnitude at most
/// [`MAX_COORD`]. Anything else (an exponent, a second dot, an empty
/// part before the dot) is no number of this format.
pub open spec fn parse_fixed_at(s: Seq<u8>, lo: int, hi: int) -> Option<int> {
    let neg = lo < hi && s[lo] == 45;
    let blo = if neg {
        lo + 1
    } else {
        lo
    };
    let d = find_byte(s, 46, blo, hi);
    let flo = if d < hi {
        d + 1
    } else {
        hi
    };
    let mag = digits_val_in(s, blo, d) * 1_000_000 + frac_val_in(s, flo, hi, 6);
    if blo < d && all_digits_in(s, blo, d) && all_digits_in(s, flo, hi) && mag <= 1_000_000_000 {
        if neg {
            Some(-mag)
        } else {
            Some(mag)
        }
    } else {
        None
    }
}

/// The first seven powers of ten, spelled out.
proof fn lemma_ten_pow_table()
    ensures
        ten_pow(0) == 1,
        ten_pow(1) == 10,
        ten_pow(2) == 100,
        ten_pow(3) == 1000,
        ten_pow(4) == 10000,
        ten_pow(5) == 100000,
        ten_pow(6) == 1000000,
{
    assert(ten_pow(0) == 1);
    assert(ten_pow(1) == 10);
    assert(ten_pow(2) == 100);
    assert(ten_pow(3) == 1000);
    assert(ten_pow(4) == 10000);
    assert(ten_pow(5) == 100000);
    assert(ten_pow(6) == 1000000);
}

/// Ten to any power is at least one.
proof fn lemma_ten_pow_pos(k: nat)
    ensures
        ten_pow(k) >= 1,
    decreases k,
{
    if k > 0 {
        lemma_ten_pow_pos((k - 1) as nat);
    }
}

/// Powers of ten grow with the exponent.
proof fn lemma_ten_pow_mono(a: nat, b: nat)
    requires
        a <= b,
    ensures
        ten_pow(a) <= ten_pow(b),
    decreases b,
{
    if a < b {
        lemma_ten_pow_mono(a, (b - 1) as nat);
        lemma_ten_pow_pos((b - 1) as nat);
    }
}

/// Read up to six fraction digits of `text[lo..hi]`, scaled to
/// millionths; returns nothing unless every byte is a digit.
fn parse_frac(text: &[u8], lo: usize, hi: usize) -> (r: Option<u64>)
    requires
        lo <= hi <= text@.len(),
    ensures
        r is Some <==> all_digits_in(text@, lo as int, hi as int),
        r is Some ==> r->Some_0 as int == frac_val_in(text@, lo as int, hi as int, 6),
        r is Some ==> r->Some_0 < 1_000_000,
{
    let mut acc: u64 = 0;
    let mut places: u64 = 6;
    let mut k = lo;
    proof {
        lemma_ten_pow_table();
    }
    while k < hi
        invariant
            lo <= k <= hi <= text@.len(),
            all_digits_in(text@, lo as int, k as int),
            places <= 6,
            acc < ten_pow((6 - places) as nat),
            frac_val_in(text@, lo as int, hi as int, 6) == acc * ten_pow(places as nat)
                + frac_val_in(text@, k as int, hi as int, places as nat),
        decreases hi - k,
    {
        let c = text[k];
        if !(48 <= c && c <= 57) {
            return None;
        }
        if places > 0 {
            let d = (c - 48) as u64;
            proof {
                lemma_ten_pow_table();
                lemma_ten_pow_mono((6 - places) as nat, 5);
                let tp1 = ten_pow((places - 1) as nat);
                assert(ten_pow(places as nat) == 10 * tp1);
                assert(frac_val_in(text@, k as int, hi as int, places as nat) == (text@[k as int]
                    - 48) * tp1 + frac_val_in(text@, k as int + 1, hi as int, (places - 1) as nat));
                assert(acc * (10 * tp1) == (acc * 10) * tp1) by (nonlinear_arith);
                assert((acc * 10) * tp1 + (d as int) * tp1 == (acc * 10 + d) * tp1)
                    by (nonlinear_arith);
                assert(ten_pow((6 - places + 1) as nat) == 10 * ten_pow((6 - places) as nat));
            }
            acc = acc * 10 + d;
            places = places - 1;
        } else {
            proof {
                assert(frac_val_in(text@, k as int, hi as int, 0) == 0);
                assert(frac_val_in(text@, k as int + 1, hi as int, 0) == 0);
            }
        }
        k = k + 1;
    }
    let mut scaled = acc;
    while places > 0
        invariant
            places <= 6,
            scaled < ten_pow((6 - places) as nat),
            frac_val_in(text@, lo as int, hi as int, 6) == scaled * ten_pow(places as nat),
        decreases places,
    {
        proof {
            lemma_ten_pow_table();
            lemma_ten_pow_mono((6 - places) as nat, 5);
            let tp1 = ten_pow((places - 1) as nat);
            assert(ten_pow(places as nat) == 10 * tp1);
            assert(scaled * (10 * tp1) == (scaled * 10) * tp1) by (nonlinear_arith);
            assert(ten_pow((6 - places + 1) as nat) == 10 * ten_pow((6 - places) as nat));
        }
        scaled = scaled * 10;
        places = places - 1;
    }
    proof {
        lemma_ten_pow_table();
        lemma_ten_pow_mono((6 - places) as nat, 6);
    }
    Some(scaled)
}

/// Read the decimal token `text[lo..hi]` into fixed point.
fn parse_fixed_tok(text: &[u8], lo: usize, hi: usize) -> (r: Option<i64>)
    requires
        lo <= hi <= text@.len(),
    ensures
        r is Some <==> parse_fixed_at(text@, lo as int, hi as int) is Some,
        r is Some ==> r->Some_0 as int == parse_fixed_at(text@, lo as int, hi as int)->Some_0,
        r is Some ==> -MAX_COORD <= r->Some_0 <= MAX_COORD,
{
    let neg = lo < hi && text[lo] == 45;
    let blo = if neg {
        lo + 1
    } else {
        lo
    };
    let d = scan_byte(text, 46, blo, hi);
    let flo = if d < hi {
        d + 1
    } else {
        hi
    };
    let ip = parse_digits(text, blo, d);
    let fp = parse_frac(text, flo, hi);
    proof {
        lemma_find_byte(text@, 46, blo as int, hi as int);
    }
    match (ip, fp) {
        (Some(iv), Some(fv)) => {
            if iv > 1_000 {
                // more than MAX_COORD whole units
                proof {
                    assert(iv as int * 1_000_000 + fv as int > 1_000_000_000) by (nonlinear_arith)
                        requires
                            iv as int > 1_000,
                            fv as int >= 0,
                    ;
                }
                None
            } else {
                let mag = iv * 1_000_000 + fv;
                if mag > 1_000_000_000 {
                    None
                } else {
                    if neg {
                        Some(-(mag as i64))
                    } else {
                        Some(mag as i64)
                    }
                }
            }
        },
        _ => None,
    }
}

/// The vertex reference of the face token `text[lo..hi]`: the part
/// before the first `/`, a run of decimal digits, read 1-based as the
/// format writes it.
pub open spec fn parse_index_at(s: Seq<u8>, lo: int, hi: int) -> Option<int> {
    let p = find_byte(s, 47, lo, hi);
    if lo < p && all_digits_in(s, lo, p) && digits_val_in(s, lo, p) <= 1_000_000_000 {
        Some(digits_val_in(s, lo, p))
    } else {
        None
    }
}

/// Read the vertex reference of the face token `text[lo..hi]`.
fn parse_index_tok(text: &[u8], lo: usize, hi: usize) -> (r: Option<u64>)
    requires
        lo <= hi <= text@.len(),
    ensures
        r is Some <==> parse_index_at(text@, lo as int, hi as int) is Some,
        r is Some ==> r->Some_0 as int == parse_index_at(text@, lo as int, hi as int)->Some_0,
        r is Some ==> r->Some_0 <= 1_000_000_000,
{
    let p = scan_byte(text, 47, lo, hi);
    parse_digits(text, lo, p)
}

/// The 0-based vertex indices of a face line's tokens from position `i`
/// on, or the first reason they cannot be read: a malformed reference,
/// or a reference to vertex 0 (the format counts from 1).
pub open spec fn parse_face_from(s: Seq<u8>, i: int, hi: int) -> Result<Seq<usize>, LoadError>
    decreases hi - i,
    via parse_face_from_dec
{
    let j = skip_ws_to(s, i, hi);
    if j >= hi {
        Ok(Seq::empty())
    } else {
        let e = token_end_to(s, j, hi);
        match parse_index_at(s, j, e) {
            Option::None => Err(LoadError::BadNumber),
            Option::Some(v) => {
                if v < 1 {
                    Err(LoadError::BadIndex)
                } else {
                    match parse_face_from(s, e, hi) {
                        Result::Err(err) => Err(err),
                        Result::Ok(rest) => Ok(seq![(v - 1) as usize].add(rest)),
                    }
                }
            },
        }
    }
}

#[via_fn]
proof fn parse_face_from_dec(s: Seq<u8>, i: int, hi: int) {
    if i <= hi {
        lemma_skip_ws_to(s, i, hi);
        let j = skip_ws_to(s, i, hi);
        if j < hi {
            lemma_token_end_to(s, j + 1, hi);
            assert(token_end_to(s, j, hi) >= j + 1);
        }
    }
}

/// What one line `text[lo..hi]` adds to the mesh read so far, or the
/// reason loading stops. A `v` line appends one vertex from its next
/// three tokens; an `f` line appends one face of exactly three 0-based
/// vertex references; a line with any other first token changes nothing.
pub open spec fn line_step(
    s: Seq<u8>,
    lo: int,
    hi: int,
    verts: Seq<Point>,
    faces: Seq<Seq<usize>>,
) -> Result<(Seq<Point>, Seq<Seq<usize>>), LoadError> {
    let j0 = skip_ws_to(s, lo, hi);
    let e0 = token_end_to(s, j0, hi);
    if j0 >= hi {
        Ok((verts, faces))
    } else if e0 == j0 + 1 && s[j0] == 118 {
        let i1 = skip_ws_to(s, e0, hi);
        let e1 = token_end_to(s, i1, hi);
        let i2 = skip_ws_to(s, e1, hi);
        let e2 = token_end_to(s, i2, hi);
        let i3 = skip_ws_to(s, e2, hi);
        let e3 = token_end_to(s, i3, hi);
        if i1 >= hi || i2 >= hi || i3 >= hi {
            Err(LoadError::MissingToken)
        } else {
            let x = parse_fixed_at(s, i1, e1);
            let y = parse_fixed_at(s, i2, e2);
            let z = parse_fixed_at(s, i3, e3);
            if x is None || y is None || z is None {
                Err(LoadError::BadNumber)
            } else {
                Ok(
                    (
                        verts.push(
                            Point {
                                x: x->Some_0 as i64,
                                y: y->Some_0 as i64,
                                z: z->Some_0 as i64,
                            },
                        ),
                        faces,
                    ),
                )
            }
        }
    } else if e0 == j0 + 1 && s[j0] == 102 {
        match parse_face_from(s, e0, hi) {
            Result::Err(e) => Err(e),
            Result::Ok(f) => {
                if f.len() != 3 {
                    Err(LoadError::BadFaceSize)
                } else {
                    Ok((verts, faces.push(f)))
                }
            },
        }
    } else {
        Ok((verts, faces))
    }
}

/// The mesh read from position `i` to the end of the text, line by line,
/// on top of what stands in `verts` and `faces` already; or the first
/// line failure.
pub open spec fn parse_from(
    s: Seq<u8>,
    i: int,
    verts: Seq<Point>,
    faces: Seq<Seq<usize>>,
) -> Result<(Seq<Point>, Seq<Seq<usize>>), LoadError>
    decreases s.len() - i,
    via parse_from_dec
{
    if i >= s.len() {
        Ok((verts, faces))
    } else {
        let nl = find_byte(s, 10, i, s.len() as int);
        match line_step(s, i, nl, verts, faces) {
            Result::Err(e) => Err(e),
            Result::Ok(p) => parse_from(
                s,
                if nl >= s.len() {
                    nl
                } else {
                    nl + 1
                },
                p.0,
                p.1,
            ),
        }
    }
}

#[via_fn]
proof fn parse_from_dec(s: Seq<u8>, i: int, verts: Seq<Point>, faces: Seq<Seq<usize>>) {
    if i < s.len() {
        lemma_find_byte(s, 10, i, s.len() as int);
    }
}

/// Every stored face reference points at a vertex that exists.
pub open spec fn faces_in_range(verts: Seq<Point>, faces: Seq<Seq<usize>>) -> bool {
    forall|i: int, j: int|
        0 <= i < faces.len() && 0 <= j < faces[i].len() ==> #[trigger] faces[i][j] < verts.len()
}

/// The mesh a text loads to: its lines read in order, and every face
/// reference checked against the vertex count (a reference to a vertex
/// the file never defines is fatal, like every other failure).
pub open spec fn spec_parse_obj(s: Seq<u8>) -> Result<(Seq<Point>, Seq<Seq<usize>>), LoadError> {
    match parse_from(s, 0, Seq::empty(), Seq::empty()) {
        Result::Err(e) => Err(e),
        Result::Ok(m) => {
            if faces_in_range(m.0, m.1) {
                Ok(m)
            } else {
                Err(LoadError::BadIndex)
            }
        },
    }
}

/// Read the face references from position `i` on.
fn parse_face(text: &[u8], i: usize, hi: usize) -> (r: Result<Vec<usize>, LoadError>)
    requires
        i <= hi <= text@.len(),
    ensures
        r is Ok ==> parse_face_from(text@, i as int, hi as int) == Ok::<Seq<usize>, LoadError>(
            r->Ok_0@,
        ),
        r is Err ==> parse_face_from(text@, i as int, hi as int) == Err::<Seq<usize>, LoadError>(
            r->Err_0,
        ),
{
    let ghost whole = parse_face_from(text@, i as int, hi as int);
    let mut out: Vec<usize> = Vec::new();
    let mut cur = i;
    proof {
        assert(out@ =~= Seq::<usize>::empty());
    }
    loop
        invariant_except_break
            i <= cur <= hi <= text@.len(),
            whole == parse_face_from(text@, i as int, hi as int),
            parse_face_from(text@, cur as int, hi as int) is Ok ==> whole == Ok::<
                Seq<usize>,
                LoadError,
            >(out@ + parse_face_from(text@, cur as int, hi as int)->Ok_0),
            parse_face_from(text@, cur as int, hi as int) is Err ==> whole == parse_face_from(
                text@,
                cur as int,
                hi as int,
            ),
        ensures
            whole == Ok::<Seq<usize>, LoadError>(out@),
        decreases hi - cur,
    {
        let j = skip_ws(text, cur, hi);
        if j >= hi {
            proof {
                assert(parse_face_from(text@, cur as int, hi as int) == Ok::<
                    Seq<usize>,
                    LoadError,
                >(Seq::<usize>::empty()));
                assert(out@ + Seq::<usize>::empty() =~= out@);
            }
            break ;
        }
        let e = token_end(text, j, hi);
        proof {
            lemma_token_end_to(text@, j as int + 1, hi as int);
        }
        match parse_index_tok(text, j, e) {
            Option::None => {
                return Err(LoadError::BadNumber);
            },
            Option::Some(v) => {
                if v < 1 {
                    return Err(LoadError::BadIndex);
                }
                let ghost rest_before = parse_face_from(text@, e as int, hi as int);
                let ghost out_before = out@;
                let idx = (v - 1) as usize;
                out.push(idx);
                proof {
                    let vi = parse_index_at(text@, j as int, e as int)->Some_0;
                    assert(idx == (vi - 1) as usize);
                    assert(parse_face_from(text@, cur as int, hi as int) == (match rest_before {
                        Result::Err(err) => Err::<Seq<usize>, LoadError>(err),
                        Result::Ok(rs) => Ok(seq![(vi - 1) as usize].add(rs)),
                    }));
                    assert(out@ =~= out_before + seq![idx]);
                    if rest_before is Ok {
                        assert((out_before + seq![idx]) + rest_before->Ok_0 =~= out_before + (seq![
                            idx,
                        ] + rest_before->Ok_0));
                    }
                }
                cur = e;
            },
        }
    }
    Ok(out)
}

/// Read one line `text[lo..hi]` into the mesh being built.
fn parse_one_line(
    text: &[u8],
    lo: usize,
    hi: usize,
    verts: &mut Vec<Point>,
    faces: &mut Vec<Vec<usize>>,
) -> (r: Result<(), LoadError>)
    requires
        lo <= hi <= text@.len(),
    ensures
        r is Ok ==> line_step(text@, lo as int, hi as int, old(verts)@, old(faces).deep_view())
            == Ok::<(Seq<Point>, Seq<Seq<usize>>), LoadError>(
            (final(verts)@, final(faces).deep_view()),
        ),
        r is Err ==> line_step(text@, lo as int, hi as int, old(verts)@, old(faces).deep_view())
            == Err::<(Seq<Point>, Seq<Seq<usize>>), LoadError>(r->Err_0),
{
    let j0 = skip_ws(text, lo, hi);
    if j0 >= hi {
        // blank line
        return Ok(());
    }
    let e0 = token_end(text, j0, hi);
    let c = text[j0];
    if e0 == j0 + 1 && c == 118 {
        // "v": one vertex from the next three coordinate tokens
        let i1 = skip_ws(text, e0, hi);
        let e1 = token_end(text, i1, hi);
        let i2 = skip_ws(text, e1, hi);
        let e2 = token_end(text, i2, hi);
        let i3 = skip_ws(text, e2, hi);
        let e3 = token_end(text, i3, hi);
        if i1 >= hi || i2 >= hi || i3 >= hi {
            return Err(LoadError::MissingToken);
        }
        let x = parse_fixed_tok(text, i1, e1);
        let y = parse_fixed_tok(text, i2, e2);
        let z = parse_fixed_tok(text, i3, e3);
        match (x, y, z) {
            (Option::Some(xv), Option::Some(yv), Option::Some(zv)) => {
                verts.push(Point::new(xv, yv, zv));
                Ok(())
            },
            _ => Err(LoadError::BadNumber),
        }
    } else if e0 == j0 + 1 && c == 102 {
        // "f": one face from the remaining vertex-reference tokens
        match parse_face(text, e0, hi) {
            Result::Ok(f) => {
                if f.len() != 3 {
                    return Err(LoadError::BadFaceSize);
                }
                let ghost f_view = f@;
                let ghost deep_before = faces.deep_view();
                faces.push(f);
                proof {
                    assert(faces.deep_view() =~~= deep_before.push(f_view));
                }
                Ok(())
            },
            Result::Err(e) => Err(e),
        }
    } else {
        // any other first token: skip the line
        Ok(())
    }
}

/// Load a mesh from the bytes of a line-oriented text.
///
/// Returns the vertices in file order (so the first `v` line is vertex
/// 0) and the faces as triples of 0-based vertex indices, or the first
/// failure; nothing is returned of a text that fails anywhere, so all
/// stored indices are in range.
pub fn parse_obj(text: &[u8]) -> (r: Result<(Vec<Point>, Vec<Vec<usize>>), LoadError>)
    ensures
        spec_parse_obj(text@) is Ok ==> r is Ok && r->Ok_0.0@ == spec_parse_obj(text@)->Ok_0.0
            && r->Ok_0.1.deep_view() == spec_parse_obj(text@)->Ok_0.1,
        spec_parse_obj(text@) is Err ==> r is Err && r->Err_0 == spec_parse_obj(text@)->Err_0,
{
    let n = text.len();
    let mut verts: Vec<Point> = Vec::new();
    let mut faces: Vec<Vec<usize>> = Vec::new();
    let ghost goal = parse_from(text@, 0, Seq::empty(), Seq::empty());
    proof {
        assert(verts@ =~= Seq::<Point>::empty());
        assert(faces.deep_view() =~~= Seq::<Seq<usize>>::empty());
    }
    let mut pos: usize = 0;
    while pos < n
        invariant
            pos <= n == text@.len(),
            goal == parse_from(text@, 0, Seq::empty(), Seq::empty()),
            parse_from(text@, pos as int, verts@, faces.deep_view()) == goal,
        decreases n - pos,
    {
        let nl = scan_byte(text, 10, pos, n);
        let res = parse_one_line(text, pos, nl, &mut verts, &mut faces);
        match res {
            Result::Err(e) => {
                return Err(e);
            },
            Result::Ok(()) => {},
        }
        pos = if nl < n {
            nl + 1
        } else {
            nl
        };
    }
    // every face reference must point at a vertex the file defined
    let vcount = verts.len();
    let nf = faces.len();
    let mut i: usize = 0;
    while i < nf
        invariant
            i <= nf == faces@.len(),
            vcount == verts@.len(),
            goal == parse_from(text@, 0, Seq::empty(), Seq::empty()),
            goal == Ok::<(Seq<Point>, Seq<Seq<usize>>), LoadError>((verts@, faces.deep_view())),
            forall|a: int, b: int|
                0 <= a < i && 0 <= b < faces.deep_view()[a].len()
                    ==> #[trigger] faces.deep_view()[a][b] < verts@.len(),
        decreases nf - i,
    {
        let face = &faces[i];
        let fl = face.len();
        let mut j: usize = 0;
        while j < fl
            invariant
                i < nf == faces@.len(),
                vcount == verts@.len(),
                goal == parse_from(text@, 0, Seq::empty(), Seq::empty()),
                goal == Ok::<(Seq<Point>, Seq<Seq<usize>>), LoadError>(
                    (verts@, faces.deep_view()),
                ),
                fl == faces@[i as int]@.len(),
                forall|b: int|
                    0 <= b < j ==> #[trigger] faces@[i as int]@[b] < verts@.len(),
            decreases fl - j,
        {
            if faces[i][j] >= vcount {
                proof {
                    assert(faces.deep_view()[i as int] =~= faces@[i as int]@);
                    assert(!faces_in_range(verts@, faces.deep_view()));
                }
                return Err(LoadError::BadIndex);
            }
            j = j + 1;
        }
        proof {
            assert(faces.deep_view()[i as int] =~= faces@[i as int]@);
        }
        i = i + 1;
    }
    proof {
        assert forall|a: int, b: int|
            0 <= a < faces.deep_view().len() && 0 <= b < faces.deep_view()[a].len()
                implies #[trigger] faces.deep_view()[a][b] < verts@.len() by {
            assert(faces.deep_view()[a] =~= faces@[a]@);
        }
        assert(faces_in_range(verts@, faces.deep_view()));
    }
    Ok((verts, faces))
}

/// The fraction's first `k` places stay below `10^k`.
proof fn lemma_frac_val_bounds(s: Seq<u8>, lo: int, hi: int, k: nat)
    requires
        all_digits_in(s, lo, hi),
        k <= 6,
    ensures
        0 <= frac_val_in(s, lo, hi, k) < ten_pow(k),
    decreases k,
{
    lemma_ten_pow_pos(k);
    if k > 0 && lo < hi {
        lemma_frac_val_bounds(s, lo + 1, hi, (k - 1) as nat);
        assert(0 <= (s[lo] - 48) * ten_pow((k - 1) as nat) <= 9 * ten_pow((k - 1) as nat))
            by (nonlinear_arith)
            requires
                0 <= s[lo] - 48 <= 9,
                ten_pow((k - 1) as nat) >= 1,
        ;
    }
}

/// Digits have a nonnegative value.
proof fn lemma_digits_val_nonneg(s: Seq<u8>, lo: int, hi: int)
    requires
        all_digits_in(s, lo, hi),
    ensures
        0 <= digits_val_in(s, lo, hi),
    decreases hi - lo,
{
    if hi > lo {
        lemma_digits_val_nonneg(s, lo, hi - 1);
    }
}

/// A number this format accepts lies within the coordinate bound.
proof fn lemma_parse_fixed_range(s: Seq<u8>, lo: int, hi: int)
    requires
        parse_fixed_at(s, lo, hi) is Some,
    ensures
        -MAX_COORD <= parse_fixed_at(s, lo, hi)->Some_0 <= MAX_COORD,
{
    let neg = lo < hi && s[lo] == 45;
    let blo = if neg {
        lo + 1
    } else {
        lo
    };
    let d = find_byte(s, 46, blo, hi);
    let flo = if d < hi {
        d + 1
    } else {
        hi
    };
    lemma_digits_val_nonneg(s, blo, d);
    lemma_frac_val_bounds(s, flo, hi, 6);
}

/// Number of `v` lines from position `i` to the end of the text.
pub open spec fn v_line_count(s: Seq<u8>, i: int) -> int
    decreases s.len() - i,
    via v_line_count_dec
{
    if i >= s.len() {
        0
    } else {
        let nl = find_byte(s, 10, i, s.len() as int);
        let j0 = skip_ws_to(s, i, nl);
        let is_v = j0 < nl && token_end_to(s, j0, nl) == j0 + 1 && s[j0] == 118;
        (if is_v {
            1int
        } else {
            0int
        }) + v_line_count(
            s,
            if nl >= s.len() {
                nl
            } else {
                nl + 1
            },
        )
    }
}

#[via_fn]
proof fn v_line_count_dec(s: Seq<u8>, i: int) {
    if i < s.len() {
        lemma_find_byte(s, 10, i, s.len() as int);
    }
}

/// Reading on from a well-formed partial mesh keeps it well formed:
/// one vertex per `v` line, each within the coordinate bound, and every
/// face a triangle.
proof fn lemma_parse_from_wf(s: Seq<u8>, i: int, verts: Seq<Point>, faces: Seq<Seq<usize>>)
    requires
        parse_from(s, i, verts, faces) is Ok,
        forall|k: int| 0 <= k < verts.len() ==> within(#[trigger] verts[k], MAX_COORD as int),
        forall|k: int| 0 <= k < faces.len() ==> (#[trigger] faces[k]).len() == 3,
    ensures
        parse_from(s, i, verts, faces)->Ok_0.0.len() == verts.len() + v_line_count(s, i),
        forall|k: int|
            0 <= k < parse_from(s, i, verts, faces)->Ok_0.0.len() ==> within(
                #[trigger] parse_from(s, i, verts, faces)->Ok_0.0[k],
                MAX_COORD as int,
            ),
        forall|k: int|
            0 <= k < parse_from(s, i, verts, faces)->Ok_0.1.len() ==> (
            #[trigger] parse_from(s, i, verts, faces)->Ok_0.1[k]).len() == 3,
    decreases s.len() - i,
{
    if i < s.len() {
        let nl = find_byte(s, 10, i, s.len() as int);
        lemma_find_byte(s, 10, i, s.len() as int);
        let step = line_step(s, i, nl, verts, faces);
        let p = step->Ok_0;
        let j0 = skip_ws_to(s, i, nl);
        let e0 = token_end_to(s, j0, nl);
        if j0 < nl && e0 == j0 + 1 && s[j0] == 118 {
            let i1 = skip_ws_to(s, e0, nl);
            let e1 = token_end_to(s, i1, nl);
            let i2 = skip_ws_to(s, e1, nl);
            let e2 = token_end_to(s, i2, nl);
            let i3 = skip_ws_to(s, e2, nl);
            lemma_parse_fixed_range(s, i1, e1);
            lemma_parse_fixed_range(s, i2, e2);
            lemma_parse_fixed_range(s, i3, token_end_to(s, i3, nl));
            assert(p.0.len() == verts.len() + 1);
        }
        lemma_parse_from_wf(
            s,
            if nl >= s.len() {
                nl
            } else {
                nl + 1
            },
            p.0,
            p.1,
        );
    }
}

/// Law: a text that loads successfully yields exactly one vertex per `v`
/// line; every face is a triangle whose three stored indices point at
/// vertices that exist; and every coordinate lies within the loader's
/// magnitude bound.
pub proof fn lemma_parse_obj_wf(s: Seq<u8>)
    requires
        spec_parse_obj(s) is Ok,
    ensures
        spec_parse_obj(s)->Ok_0.0.len() == v_line_count(s, 0),
        forall|k: int|
            0 <= k < spec_parse_obj(s)->Ok_0.0.len() ==> within(
                #[trigger] spec_parse_obj(s)->Ok_0.0[k],
                MAX_COORD as int,
            ),
        forall|k: int|
            0 <= k < spec_parse_obj(s)->Ok_0.1.len() ==> (#[trigger] spec_parse_obj(
                s,
            )->Ok_0.1[k]).len() == 3,
        faces_in_range(spec_parse_obj(s)->Ok_0.0, spec_parse_obj(s)->Ok_0.1),
{
    lemma_parse_from_wf(s, 0, Seq::empty(), Seq::empty());
}

} // verus!
