//! The brush stamp: an antialiased filled disc.
//!
//! A stamp of radius `r` paints full coverage inside the disc of radius
//! `r` around the center and a one-pixel antialiasing ring with linear
//! falloff between `r` and `r + 1`; everything farther is untouched.
//! Distances are measured in fixed-point units of 1/256 pixel, so a
//! cell's coverage is `256 * (r + 1)` minus 256 times its Euclidean
//! distance from the center, capped at full coverage.

use vstd::prelude::*;
use crate::buffer::{lemma_cell_index, PixelBuffer};
use crate::color::{blend, spec_blend, Color};
use crate::damage::DamageRect;

verus! {

/// The largest radius the rasterizer accepts; keeps all the fixed-point
/// distance arithmetic comfortably inside 64 bits.
pub const RADIUS_LIMIT: i32 = 1_000_000;

/// The integer square root, rounded down.
pub open spec fn sqrt_floor(n: nat) -> nat
    decreases n,
{
    if n == 0 {
        0
    } else {
        let r = sqrt_floor((n - 1) as nat);
        if (r + 1) * (r + 1) <= n {
            (r + 1) as nat
        } else {
            r
        }
    }
}

/// `sqrt_floor(n)` is the unique value whose square is at most `n` while
/// the next square is beyond it.
pub proof fn lemma_sqrt_floor_bounds(n: nat)
    ensures
        sqrt_floor(n) * sqrt_floor(n) <= n,
        n < (sqrt_floor(n) + 1) * (sqrt_floor(n) + 1),
    decreases n,
{
    if n == 0 {
        let s = sqrt_floor(n);
        assert(s == 0);
        assert((s + 1) * (s + 1) == 1) by (nonlinear_arith)
            requires
                s == 0,
        ;
    } else {
        lemma_sqrt_floor_bounds((n - 1) as nat);
        let r = sqrt_floor((n - 1) as nat);
        assert(r * r <= n - 1 && n - 1 < (r + 1) * (r + 1));
        if (r + 1) * (r + 1) <= n {
            assert(sqrt_floor(n) == r + 1);
            assert(n <= (r + 1) * (r + 1));
            assert((r + 1) * (r + 1) < (r + 2) * (r + 2)) by (nonlinear_arith)
                requires
                    r >= 0,
            ;
            assert(sqrt_floor(n) * sqrt_floor(n) <= n);
            assert(n < (sqrt_floor(n) + 1) * (sqrt_floor(n) + 1));
        } else {
            assert(sqrt_floor(n) == r);
            assert(sqrt_floor(n) * sqrt_floor(n) <= n);
            assert(n < (sqrt_floor(n) + 1) * (sqrt_floor(n) + 1));
        }
    }
}

pub proof fn lemma_sqrt_floor_unique(n: nat, r: nat)
    requires
        r * r <= n,
        n < (r + 1) * (r + 1),
    ensures
        r == sqrt_floor(n),
{
    lemma_sqrt_floor_bounds(n);
    let s = sqrt_floor(n);
    if r < s {
        assert((r + 1) * (r + 1) <= s * s) by (nonlinear_arith)
            requires
                r + 1 <= s,
                r >= 0,
        ;
    }
    if r > s {
        assert((s + 1) * (s + 1) <= r * r) by (nonlinear_arith)
            requires
                s + 1 <= r,
                s >= 0,
        ;
    }
}

/// The integer square root of `n`, by binary search.
pub fn isqrt(n: u64) -> (r: u64)
    ensures
        r * r <= n,
        n < (r + 1) * (r + 1),
        r == sqrt_floor(n as nat),
{
    let mut lo: u64 = 0;
    let mut hi: u64 = 0x1_0000_0000;
    while hi - lo > 1
        invariant
            lo < hi <= 0x1_0000_0000,
            lo * lo <= n,
            n < hi * hi,
        decreases hi - lo,
    {
        let mid: u64 = lo + (hi - lo) / 2;
        proof {
            assert(mid < hi);
            assert(mid * mid <= 0xFFFF_FFFFu64 * 0xFFFF_FFFFu64) by (nonlinear_arith)
                requires
                    0 <= mid <= 0xFFFF_FFFFu64,
            ;
        }
        if mid * mid <= n {
            lo = mid;
        } else {
            hi = mid;
        }
    }
    proof {
        lemma_sqrt_floor_unique(n as nat, lo as nat);
    }
    lo
}

/// The squared Euclidean distance between a cell and the stamp center.
pub open spec fn dist2(dx: int, dy: int) -> int {
    dx * dx + dy * dy
}

/// 256 times the Euclidean distance, rounded down.
pub open spec fn scaled_dist(dx: int, dy: int) -> int {
    sqrt_floor((dist2(dx, dy) * 65536) as nat) as int
}

/// The coverage a stamp of the given radius paints at offset (dx, dy)
/// from its center: full inside the disc, a linear one-pixel falloff ring
/// just outside it, zero farther out. Fixed-point: 256 is full coverage.
pub open spec fn coverage_of(dx: int, dy: int, radius: int) -> int {
    let d2 = dist2(dx, dy);
    if d2 <= radius * radius {
        256
    } else if d2 >= (radius + 1) * (radius + 1) {
        0
    } else {
        256 * (radius + 1) - scaled_dist(dx, dy)
    }
}

/// Coverage lies in `0 ..= 256` and is positive exactly within distance
/// `radius + 1` of the center.
pub proof fn lemma_coverage_bounds(dx: int, dy: int, radius: int)
    requires
        radius >= 1,
    ensures
        0 <= coverage_of(dx, dy, radius) <= 256,
        coverage_of(dx, dy, radius) > 0 <==> dist2(dx, dy) < (radius + 1) * (radius + 1),
{
    let d2 = dist2(dx, dy);
    assert(dx * dx >= 0 && dy * dy >= 0) by (nonlinear_arith);
    assert(d2 >= 0);
    assert(radius * radius < (radius + 1) * (radius + 1)) by (nonlinear_arith)
        requires
            radius >= 0,
    ;
    if d2 <= radius * radius {
    } else if d2 >= (radius + 1) * (radius + 1) {
    } else {
        lemma_scaled_dist_ring(dx, dy, radius);
    }
}

/// In the antialiasing ring the scaled distance sits between the scaled
/// radius and the scaled outer edge.
pub proof fn lemma_scaled_dist_ring(dx: int, dy: int, radius: int)
    requires
        radius >= 1,
        dist2(dx, dy) > radius * radius,
        dist2(dx, dy) < (radius + 1) * (radius + 1),
    ensures
        256 * radius <= scaled_dist(dx, dy) < 256 * (radius + 1),
        0 < coverage_of(dx, dy, radius) <= 256,
{
    let d2 = dist2(dx, dy);
    assert(radius * radius >= 0) by (nonlinear_arith);
    assert(d2 > 0);
    let m = (d2 * 65536) as nat;
    lemma_sqrt_floor_bounds(m);
    let s = sqrt_floor(m) as int;
    assert(s * s <= m < (s + 1) * (s + 1));
    if s < 256 * radius {
        assert((s + 1) * (s + 1) <= (256 * radius) * (256 * radius)) by (nonlinear_arith)
            requires
                s + 1 <= 256 * radius,
                s >= 0,
        ;
        assert((256 * radius) * (256 * radius) == 65536 * (radius * radius)) by (nonlinear_arith);
        assert(65536 * (radius * radius) < 65536 * d2) by (nonlinear_arith)
            requires
                radius * radius < d2,
        ;
        assert(false);
    }
    if s >= 256 * (radius + 1) {
        assert(s * s >= (256 * (radius + 1)) * (256 * (radius + 1))) by (nonlinear_arith)
            requires
                s >= 256 * (radius + 1),
                radius >= 1,
        ;
        assert((256 * (radius + 1)) * (256 * (radius + 1)) == 65536 * ((radius + 1) * (radius + 1)))
            by (nonlinear_arith);
        assert(65536 * ((radius + 1) * (radius + 1)) > 65536 * d2) by (nonlinear_arith)
            requires
                d2 < (radius + 1) * (radius + 1),
        ;
        assert(false);
    }
}

/// Cells farther than `radius + 1` from the center on either axis get no
/// coverage.
pub proof fn lemma_coverage_zero_far(dx: int, dy: int, radius: int)
    requires
        radius >= 1,
        dx > radius + 1 || dx < -(radius + 1) || dy > radius + 1 || dy < -(radius + 1),
    ensures
        coverage_of(dx, dy, radius) == 0,
{
    assert(dx * dx + dy * dy >= (radius + 1) * (radius + 1)) by (nonlinear_arith)
        requires
            radius >= 1,
            dx > radius + 1 || dx < -(radius + 1) || dy > radius + 1 || dy < -(radius + 1),
    ;
    assert(dist2(dx, dy) >= (radius + 1) * (radius + 1));
    assert(radius * radius < (radius + 1) * (radius + 1)) by (nonlinear_arith)
        requires
            radius >= 0,
    ;
}

/// The coverage the stamp paints at offset (dx, dy), as executable code.
pub fn coverage(dx: i64, dy: i64, radius: i32) -> (c: u32)
    requires
        1 <= radius <= RADIUS_LIMIT,
        -(radius + 1) <= dx <= radius + 1,
        -(radius + 1) <= dy <= radius + 1,
    ensures
        c == coverage_of(dx as int, dy as int, radius as int),
        c <= 256,
{
    proof {
        lemma_coverage_bounds(dx as int, dy as int, radius as int);
        assert(dx * dx <= (radius + 1) * (radius + 1) && dy * dy <= (radius + 1) * (radius + 1)
            && dx * dx >= 0 && dy * dy >= 0) by (nonlinear_arith)
            requires
                -(radius + 1) <= dx <= radius + 1,
                -(radius + 1) <= dy <= radius + 1,
        ;
        assert(radius * radius >= 0 && radius * radius <= (radius + 1) * (radius + 1) && (radius
            + 1) * (radius + 1) <= 1_000_002_000_001i64) by (nonlinear_arith)
            requires
                1 <= radius <= 1_000_000,
        ;
    }
    let r64: i64 = radius as i64;
    let d2: i64 = dx * dx + dy * dy;
    if d2 <= r64 * r64 {
        256
    } else if d2 >= (r64 + 1) * (r64 + 1) {
        0
    } else {
        let s: u64 = isqrt((d2 as u64) * 65536);
        proof {
            lemma_scaled_dist_ring(dx as int, dy as int, radius as int);
        }
        let c64: u64 = 256 * ((r64 + 1) as u64) - s;
        c64 as u32
    }
}

/// The color of one cell after a stamp: blended under the stamp's
/// coverage when the stamp reaches it, untouched otherwise.
pub open spec fn stamped_cell(oldc: Color, fg: Color, dx: int, dy: int, radius: int) -> Color {
    if coverage_of(dx, dy, radius) > 0 {
        spec_blend(oldc, fg, coverage_of(dx, dy, radius))
    } else {
        oldc
    }
}

/// The cells of a width-`w` image after one stamp centered at (cx, cy).
pub open spec fn disc_stamped(
    s: Seq<Color>,
    w: int,
    cx: int,
    cy: int,
    radius: int,
    fg: Color,
) -> Seq<Color> {
    Seq::new(s.len(), |i: int| stamped_cell(s[i], fg, (i % w) - cx, (i / w) - cy, radius))
}

/// The stamped color of the cell at coordinates (x, y).
pub open spec fn stamped_at(
    s: Seq<Color>,
    w: int,
    cx: int,
    cy: int,
    radius: int,
    fg: Color,
    x: int,
    y: int,
) -> Color {
    stamped_cell(s[y * w + x], fg, x - cx, y - cy, radius)
}

/// Whether a stamp at (cx, cy) writes the in-bounds cell (x, y).
pub open spec fn disc_touches(
    w: int,
    h: int,
    cx: int,
    cy: int,
    radius: int,
    x: int,
    y: int,
) -> bool {
    0 <= x < w && 0 <= y < h && coverage_of(x - cx, y - cy, radius) > 0
}

/// `damage` is the bounding rectangle of the cells a stamp writes:
/// `None` when it writes none, else the minimal rectangle — it contains
/// every written cell and each of its four edges holds one.
pub open spec fn disc_bbox(
    w: int,
    h: int,
    cx: int,
    cy: int,
    radius: int,
    damage: Option<DamageRect>,
) -> bool {
    match damage {
        Option::None => forall|x: int, y: int| !disc_touches(w, h, cx, cy, radius, x, y),
        Option::Some(rect) => {
            &&& rect.wf()
            &&& rect.spec_right() <= w
            &&& rect.spec_bottom() <= h
            &&& forall|x: int, y: int|
                disc_touches(w, h, cx, cy, radius, x, y) ==> rect.contains(x, y)
            &&& exists|x: int, y: int| disc_touches(w, h, cx, cy, radius, x, y) && x == rect.x
            &&& exists|x: int, y: int|
                disc_touches(w, h, cx, cy, radius, x, y) && x == rect.spec_right() - 1
            &&& exists|x: int, y: int| disc_touches(w, h, cx, cy, radius, x, y) && y == rect.y
            &&& exists|x: int, y: int|
                disc_touches(w, h, cx, cy, radius, x, y) && y == rect.spec_bottom() - 1
        },
    }
}

/// For an in-bounds cell the flat form and the coordinate form of the
/// stamped image agree.
pub proof fn lemma_disc_stamped_at(
    s: Seq<Color>,
    w: int,
    h: int,
    cx: int,
    cy: int,
    radius: int,
    fg: Color,
    x: int,
    y: int,
)
    requires
        s.len() == w * h,
        0 <= x < w,
        0 <= y < h,
    ensures
        disc_stamped(s, w, cx, cy, radius, fg)[y * w + x] == stamped_at(
            s,
            w,
            cx,
            cy,
            radius,
            fg,
            x,
            y,
        ),
{
    lemma_cell_index(w, h, x, y);
}

/// Law: the coverage profile of a stamp. Cells within the radius get
/// full coverage; cells in the open antialiasing ring get positive
/// partial coverage that strictly decreases with distance; cells at the
/// ring's outer edge or beyond get none. (The strict bounds need the
/// radius below 128: at larger radii a cell just outside the disc can
/// round up to full coverage.)
pub proof fn lemma_coverage_profile(dx: int, dy: int, ex: int, ey: int, radius: int)
    requires
        1 <= radius <= 127,
    ensures
        dist2(dx, dy) <= radius * radius ==> coverage_of(dx, dy, radius) == 256,
        dist2(dx, dy) >= (radius + 1) * (radius + 1) ==> coverage_of(dx, dy, radius) == 0,
        radius * radius < dist2(dx, dy) < (radius + 1) * (radius + 1) ==> 0 < coverage_of(
            dx,
            dy,
            radius,
        ) < 256,
        (radius * radius < dist2(dx, dy) && dist2(dx, dy) < dist2(ex, ey) < (radius + 1) * (radius
            + 1)) ==> coverage_of(dx, dy, radius) > coverage_of(ex, ey, radius),
{
    lemma_coverage_bounds(dx, dy, radius);
    let d2a = dist2(dx, dy);
    let d2b = dist2(ex, ey);
    if radius * radius < d2a < (radius + 1) * (radius + 1) {
        lemma_scaled_dist_ring(dx, dy, radius);
        let sa = scaled_dist(dx, dy);
        // just outside the disc the scaled distance already exceeds the
        // scaled radius, because the radius is below 128
        assert((256 * radius + 1) * (256 * radius + 1) <= 65536 * d2a) by (nonlinear_arith)
            requires
                1 <= radius <= 127,
                radius * radius + 1 <= d2a,
        ;
        assert(sa > 256 * radius) by {
            if sa <= 256 * radius {
                lemma_sqrt_floor_bounds((d2a * 65536) as nat);
                assert((sa + 1) * (sa + 1) <= (256 * radius + 1) * (256 * radius + 1))
                    by (nonlinear_arith)
                    requires
                        0 <= sa,
                        sa + 1 <= 256 * radius + 1,
                ;
            }
        }
        assert(coverage_of(dx, dy, radius) < 256);
    }
    if radius * radius < d2a && d2a < d2b < (radius + 1) * (radius + 1) {
        lemma_scaled_dist_ring(dx, dy, radius);
        lemma_scaled_dist_ring(ex, ey, radius);
        let sa = scaled_dist(dx, dy);
        let sb = scaled_dist(ex, ey);
        lemma_sqrt_floor_bounds((d2a * 65536) as nat);
        lemma_sqrt_floor_bounds((d2b * 65536) as nat);
        // the scaled distance grows strictly with the squared distance
        assert((sa + 1) * (sa + 1) <= 65536 * (d2a + 1)) by (nonlinear_arith)
            requires
                0 <= sa < 256 * 128,
                sa * sa <= 65536 * d2a,
        ;
        assert(sb > sa) by {
            if sb <= sa {
                assert(sb * sb <= 65536 * d2b) by {
                    assert(sb * sb <= (d2b * 65536) as nat);
                }
                assert(65536 * d2b < (sb + 1) * (sb + 1));
                assert((sb + 1) * (sb + 1) <= (sa + 1) * (sa + 1)) by (nonlinear_arith)
                    requires
                        0 <= sb <= sa,
                ;
                assert(65536 * (d2a + 1) <= 65536 * d2b);
            }
        }
    }
}

/// Law: the pixels one stamp writes. An in-bounds cell within the
/// radius of the center holds the opaque foreground afterwards; a cell
/// at the ring's outer edge or beyond keeps its old color.
pub proof fn lemma_stamp_pixels(
    s: Seq<Color>,
    w: int,
    h: int,
    cx: int,
    cy: int,
    radius: int,
    fg: Color,
    x: int,
    y: int,
)
    requires
        s.len() == w * h,
        0 <= x < w,
        0 <= y < h,
        radius >= 1,
    ensures
        dist2(x - cx, y - cy) <= radius * radius ==> disc_stamped(s, w, cx, cy, radius, fg)[y * w
            + x] == fg.spec_opaque(),
        dist2(x - cx, y - cy) >= (radius + 1) * (radius + 1) ==> disc_stamped(
            s,
            w,
            cx,
            cy,
            radius,
            fg,
        )[y * w + x] == s[y * w + x],
{
    lemma_disc_stamped_at(s, w, h, cx, cy, radius, fg, x, y);
    lemma_cell_index(w, h, x, y);
    lemma_coverage_bounds(x - cx, y - cy, radius);
    if dist2(x - cx, y - cy) <= radius * radius {
        crate::color::lemma_blend_ends(s[y * w + x], fg, 256);
    }
}

/// A flat index into a `w` × `h` grid has in-range coordinates.
pub proof fn lemma_flat_coords(w: int, h: int, i: int)
    requires
        w > 0,
        0 <= i < w * h,
    ensures
        0 <= i % w < w,
        0 <= i / w < h,
        (i / w) * w + (i % w) == i,
{
    vstd::arithmetic::div_mod::lemma_fundamental_div_mod(i, w);
    vstd::arithmetic::div_mod::lemma_mod_bound(i, w);
    assert((i / w) * w == w * (i / w)) by (nonlinear_arith);
    if i / w < 0 {
        assert(w * (i / w) <= i / w) by (nonlinear_arith)
            requires
                w > 0,
                i / w < 0,
        ;
    }
    if i / w >= h {
        assert(w * (i / w) >= w * h) by (nonlinear_arith)
            requires
                w > 0,
                i / w >= h,
        ;
    }
}

/// Writes an antialiased filled disc of the given radius and color into
/// the buffer, clipping silently at the edges, and returns the minimal
/// rectangle of cells written, or `None` when none was.
#[verifier::loop_isolation(false)]
#[verifier::rlimit(60)]
pub fn stamp_disc(buf: &mut PixelBuffer, cx: i32, cy: i32, radius: i32, color: Color) -> (damage:
    Option<DamageRect>)
    requires
        old(buf).wf(),
        1 <= radius <= RADIUS_LIMIT,
    ensures
        final(buf).wf(),
        final(buf).spec_width() == old(buf).spec_width(),
        final(buf).spec_height() == old(buf).spec_height(),
        final(buf)@ == disc_stamped(
            old(buf)@,
            old(buf).spec_width(),
            cx as int,
            cy as int,
            radius as int,
            color,
        ),
        disc_bbox(
            old(buf).spec_width(),
            old(buf).spec_height(),
            cx as int,
            cy as int,
            radius as int,
            damage,
        ),
{
    let ghost olds = buf@;
    let ghost w_i = buf.spec_width();
    let ghost h_i = buf.spec_height();
    let ghost cx_i = cx as int;
    let ghost cy_i = cy as int;
    let ghost r_i = radius as int;
    let w: usize = buf.width();
    let h: usize = buf.height();
    if w == 0 || h == 0 {
        proof {
            assert(olds.len() == 0) by (nonlinear_arith)
                requires
                    olds.len() == w_i * h_i,
                    w_i == 0 || h_i == 0,
            ;
            assert(buf@ =~= disc_stamped(olds, w_i, cx_i, cy_i, r_i, color));
        }
        return None;
    }
    let r1: i128 = radius as i128 + 1;
    let cxl: i128 = cx as i128;
    let cyl: i128 = cy as i128;
    let wl: i128 = w as i128;
    let hl: i128 = h as i128;
    let mut lox: i128 = cxl - r1;
    if lox < 0 {
        lox = 0;
    }
    let mut hix: i128 = cxl + r1;
    if hix > wl - 1 {
        hix = wl - 1;
    }
    let mut loy: i128 = cyl - r1;
    if loy < 0 {
        loy = 0;
    }
    let mut hiy: i128 = cyl + r1;
    if hiy > hl - 1 {
        hiy = hl - 1;
    }
    if lox > hix || loy > hiy {
        proof {
            assert forall|x: int, y: int| !disc_touches(w_i, h_i, cx_i, cy_i, r_i, x, y) by {
                if 0 <= x < w_i && 0 <= y < h_i {
                    lemma_coverage_zero_far(x - cx_i, y - cy_i, r_i);
                }
            }
            assert forall|i: int| 0 <= i < olds.len() implies disc_stamped(
                olds,
                w_i,
                cx_i,
                cy_i,
                r_i,
                color,
            )[i] == olds[i] by {
                lemma_flat_coords(w_i, h_i, i);
                assert(!disc_touches(w_i, h_i, cx_i, cy_i, r_i, i % w_i, i / w_i));
            }
            assert(buf@ =~= disc_stamped(olds, w_i, cx_i, cy_i, r_i, color));
        }
        return None;
    }
    let x0: usize = lox as usize;
    let x1: usize = hix as usize;
    let y0: usize = loy as usize;
    let y1: usize = hiy as usize;
    proof {
        assert forall|x: int, y: int|
            !(x0 <= x <= x1 && y0 <= y <= y1) implies !disc_touches(
            w_i,
            h_i,
            cx_i,
            cy_i,
            r_i,
            x,
            y,
        ) by {
            if 0 <= x < w_i && 0 <= y < h_i {
                lemma_coverage_zero_far(x - cx_i, y - cy_i, r_i);
            }
        }
        assert forall|x: int, y: int|
            0 <= x < w_i && 0 <= y < h_i && !(x0 <= x <= x1 && y0 <= y <= y1) implies stamped_at(
            olds,
            w_i,
            cx_i,
            cy_i,
            r_i,
            color,
            x,
            y,
        ) == olds[y * w_i + x] by {
            lemma_coverage_zero_far(x - cx_i, y - cy_i, r_i);
        }
    }
    let mut found: bool = false;
    let mut min_x: usize = 0;
    let mut max_x: usize = 0;
    let mut min_y: usize = 0;
    let mut max_y: usize = 0;
    let mut yy: usize = y0;
    while yy <= y1
        invariant
            y0 <= yy <= y1 + 1,
            buf.wf(),
            buf.spec_width() == w_i,
            buf.spec_height() == h_i,
            forall|x: int, y: int|
                0 <= x < w_i && 0 <= y < h_i ==> buf.color_at(x, y) == (if y < yy {
                    stamped_at(olds, w_i, cx_i, cy_i, r_i, color, x, y)
                } else {
                    olds[y * w_i + x]
                }),
            !found ==> forall|x: int, y: int|
                y < yy ==> !disc_touches(w_i, h_i, cx_i, cy_i, r_i, x, y),
            found ==> {
                &&& min_x <= max_x <= w_i - 1
                &&& min_y <= max_y <= h_i - 1
                &&& forall|x: int, y: int|
                    disc_touches(w_i, h_i, cx_i, cy_i, r_i, x, y) && y < yy ==> min_x <= x <= max_x
                        && min_y <= y <= max_y
                &&& exists|x: int, y: int|
                    disc_touches(w_i, h_i, cx_i, cy_i, r_i, x, y) && x == min_x
                &&& exists|x: int, y: int|
                    disc_touches(w_i, h_i, cx_i, cy_i, r_i, x, y) && x == max_x
                &&& exists|x: int, y: int|
                    disc_touches(w_i, h_i, cx_i, cy_i, r_i, x, y) && y == min_y
                &&& exists|x: int, y: int|
                    disc_touches(w_i, h_i, cx_i, cy_i, r_i, x, y) && y == max_y
            },
        decreases y1 + 1 - yy,
    {
        let mut xx: usize = x0;
        while xx <= x1
            invariant
                x0 <= xx <= x1 + 1,
                y0 <= yy <= y1,
                buf.wf(),
                buf.spec_width() == w_i,
                buf.spec_height() == h_i,
                forall|x: int, y: int|
                    0 <= x < w_i && 0 <= y < h_i ==> buf.color_at(x, y) == (if y < yy || (y == yy
                        && x < xx) {
                        stamped_at(olds, w_i, cx_i, cy_i, r_i, color, x, y)
                    } else {
                        olds[y * w_i + x]
                    }),
                !found ==> forall|x: int, y: int|
                    y < yy || (y == yy && x < xx) ==> !disc_touches(w_i, h_i, cx_i, cy_i, r_i, x, y),
                found ==> {
                    &&& min_x <= max_x <= w_i - 1
                    &&& min_y <= max_y <= h_i - 1
                    &&& forall|x: int, y: int|
                        disc_touches(w_i, h_i, cx_i, cy_i, r_i, x, y) && (y < yy || (y == yy && x
                            < xx)) ==> min_x <= x <= max_x && min_y <= y <= max_y
                    &&& exists|x: int, y: int|
                        disc_touches(w_i, h_i, cx_i, cy_i, r_i, x, y) && x == min_x
                    &&& exists|x: int, y: int|
                        disc_touches(w_i, h_i, cx_i, cy_i, r_i, x, y) && x == max_x
                    &&& exists|x: int, y: int|
                        disc_touches(w_i, h_i, cx_i, cy_i, r_i, x, y) && y == min_y
                    &&& exists|x: int, y: int|
                        disc_touches(w_i, h_i, cx_i, cy_i, r_i, x, y) && y == max_y
                },
            decreases x1 + 1 - xx,
        {
            let dx: i64 = xx as i64 - cx as i64;
            let dy: i64 = yy as i64 - cy as i64;
            let c: u32 = coverage(dx, dy, radius);
            if c > 0 {
                let cur = buf.at(xx, yy);
                let nc = blend(cur, color, c);
                buf.put(xx, yy, nc);
                proof {
                    assert(cur == olds[yy as int * w_i + xx as int]);
                    assert(nc == stamped_at(olds, w_i, cx_i, cy_i, r_i, color, xx as int, yy as int));
                    assert(disc_touches(w_i, h_i, cx_i, cy_i, r_i, xx as int, yy as int));
                }
                if !found {
                    found = true;
                    min_x = xx;
                    max_x = xx;
                    min_y = yy;
                    max_y = yy;
                } else {
                    if xx < min_x {
                        min_x = xx;
                    }
                    if xx > max_x {
                        max_x = xx;
                    }
                    if yy < min_y {
                        min_y = yy;
                    }
                    if yy > max_y {
                        max_y = yy;
                    }
                }
            } else {
                proof {
                    assert(olds[yy as int * w_i + xx as int] == stamped_at(
                        olds,
                        w_i,
                        cx_i,
                        cy_i,
                        r_i,
                        color,
                        xx as int,
                        yy as int,
                    ));
                }
            }
            xx = xx + 1;
        }
        yy = yy + 1;
    }
    proof {
        assert forall|i: int| 0 <= i < olds.len() implies buf@[i] == disc_stamped(
            olds,
            w_i,
            cx_i,
            cy_i,
            r_i,
            color,
        )[i] by {
            lemma_flat_coords(w_i, h_i, i);
            let x = i % w_i;
            let y = i / w_i;
            assert(buf.color_at(x, y) == stamped_at(olds, w_i, cx_i, cy_i, r_i, color, x, y));
            lemma_disc_stamped_at(olds, w_i, h_i, cx_i, cy_i, r_i, color, x, y);
        }
        assert(buf@ =~= disc_stamped(olds, w_i, cx_i, cy_i, r_i, color));
    }
    if found {
        let rect = DamageRect::new(min_x, min_y, max_x - min_x + 1, max_y - min_y + 1);
        proof {
            assert forall|x: int, y: int|
                disc_touches(w_i, h_i, cx_i, cy_i, r_i, x, y) implies rect.contains(x, y) by {
                assert(y <= y1 && x <= x1);
            }
        }
        Some(rect)
    } else {
        proof {
            assert forall|x: int, y: int| !disc_touches(w_i, h_i, cx_i, cy_i, r_i, x, y) by {
                if 0 <= x < w_i && 0 <= y < h_i && x0 <= x <= x1 && y0 <= y <= y1 {
                    assert(y < yy as int);
                }
            }
        }
        None
    }
}

} // verus!
