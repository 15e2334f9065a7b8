//! The stroke rasterizer: walks the 8-connected Bresenham path between
//! two points and stamps an antialiased disc at every visited point, so
//! a thick stroke has no gaps regardless of slope. A stroke whose start
//! equals its end degenerates to a single stamp.
//!
//! This is the one stroke policy of the crate, for every radius: a
//! radius-1 stroke is a chain of small discs, not a single-pixel
//! antialiased line, so overlapping stamps stay idempotent on fully
//! covered cells and the no-gap guarantee below holds uniformly.

use vstd::prelude::*;
use crate::brush::{coverage_of, disc_bbox, disc_stamped, disc_touches, dist2, stamp_disc, RADIUS_LIMIT};
use crate::buffer::{lemma_cell_index, PixelBuffer};
use crate::color::Color;
use crate::damage::DamageRect;

verus! {

pub open spec fn abs_i(v: int) -> int {
    if v >= 0 {
        v
    } else {
        -v
    }
}

/// The direction of one Bresenham axis, toward the endpoint.
pub open spec fn sign_step(from: int, to: int) -> int {
    if from < to {
        1
    } else {
        -1
    }
}

/// One step of the Bresenham walk: from (x, y) with error term `err`,
/// advance x and/or y by one, whichever the doubled error term selects.
/// The result is the next (x, y, err).
pub open spec fn bres_step(
    x: int,
    y: int,
    err: int,
    dx: int,
    dy: int,
    sx: int,
    sy: int,
) -> (int, int, int) {
    let e2 = 2 * err;
    let x2 = if e2 >= dy {
        x + sx
    } else {
        x
    };
    let ex = if e2 >= dy {
        err + dy
    } else {
        err
    };
    let y2 = if e2 <= dx {
        y + sy
    } else {
        y
    };
    let exy = if e2 <= dx {
        ex + dx
    } else {
        ex
    };
    (x2, y2, exy)
}

pub open spec fn bres_measure(x: int, y: int, x1: int, y1: int) -> nat {
    (abs_i(x1 - x) + abs_i(y1 - y)) as nat
}

/// The points the walk visits from (x, y) until it reaches (x1, y1),
/// inclusive on both ends. The walk stops early if a step would not get
/// closer; along a real Bresenham run that never happens.
pub open spec fn bres_path(
    x: int,
    y: int,
    err: int,
    x1: int,
    y1: int,
    dx: int,
    dy: int,
    sx: int,
    sy: int,
) -> Seq<(int, int)>
    decreases bres_measure(x, y, x1, y1),
{
    if x == x1 && y == y1 {
        seq![(x, y)]
    } else {
        let next = bres_step(x, y, err, dx, dy, sx, sy);
        if bres_measure(next.0, next.1, x1, y1) < bres_measure(x, y, x1, y1) {
            seq![(x, y)] + bres_path(next.0, next.1, next.2, x1, y1, dx, dy, sx, sy)
        } else {
            seq![(x, y)]
        }
    }
}

/// The full Bresenham path of a stroke from (x0, y0) to (x1, y1).
pub open spec fn stroke_path(x0: int, y0: int, x1: int, y1: int) -> Seq<(int, int)> {
    bres_path(
        x0,
        y0,
        abs_i(x1 - x0) - abs_i(y1 - y0),
        x1,
        y1,
        abs_i(x1 - x0),
        -abs_i(y1 - y0),
        sign_step(x0, x1),
        sign_step(y0, y1),
    )
}

/// The image after stamping one disc at every point of `pts`, in order.
pub open spec fn stamp_along(
    s: Seq<Color>,
    w: int,
    pts: Seq<(int, int)>,
    radius: int,
    fg: Color,
) -> Seq<Color>
    decreases pts.len(),
{
    if pts.len() == 0 {
        s
    } else {
        stamp_along(
            disc_stamped(s, w, pts[0].0, pts[0].1, radius, fg),
            w,
            pts.drop_first(),
            radius,
            fg,
        )
    }
}

/// Stamping along `pts` and then once more at `p` is stamping along
/// `pts.push(p)`.
pub proof fn lemma_stamp_along_snoc(
    s: Seq<Color>,
    w: int,
    pts: Seq<(int, int)>,
    p: (int, int),
    radius: int,
    fg: Color,
)
    ensures
        stamp_along(s, w, pts.push(p), radius, fg) == disc_stamped(
            stamp_along(s, w, pts, radius, fg),
            w,
            p.0,
            p.1,
            radius,
            fg,
        ),
    decreases pts.len(),
{
    let pts2 = pts.push(p);
    if pts.len() == 0 {
        assert(pts2[0] == p);
        let s1 = disc_stamped(s, w, p.0, p.1, radius, fg);
        assert(stamp_along(s, w, pts2, radius, fg) == stamp_along(
            s1,
            w,
            pts2.drop_first(),
            radius,
            fg,
        ));
        assert(pts2.drop_first() =~= Seq::<(int, int)>::empty());
        assert(stamp_along(s1, w, pts2.drop_first(), radius, fg) == s1);
        assert(stamp_along(s, w, pts, radius, fg) == s);
    } else {
        assert(pts2[0] == pts[0]);
        let s1 = disc_stamped(s, w, pts[0].0, pts[0].1, radius, fg);
        assert(stamp_along(s, w, pts2, radius, fg) == stamp_along(
            s1,
            w,
            pts2.drop_first(),
            radius,
            fg,
        ));
        assert(pts2.drop_first() =~= pts.drop_first().push(p));
        lemma_stamp_along_snoc(s1, w, pts.drop_first(), p, radius, fg);
        assert(stamp_along(s, w, pts, radius, fg) == stamp_along(
            s1,
            w,
            pts.drop_first(),
            radius,
            fg,
        ));
    }
}

/// Whether any stamp along `pts` writes the in-bounds cell (x, y).
pub open spec fn path_touches(
    w: int,
    h: int,
    pts: Seq<(int, int)>,
    radius: int,
    x: int,
    y: int,
) -> bool {
    exists|k: int| 0 <= k < pts.len() && disc_touches(w, h, pts[k].0, pts[k].1, radius, x, y)
}

/// `damage` is the bounding rectangle of the cells the stamps along
/// `pts` write: `None` when they write none, else the minimal rectangle.
pub open spec fn path_bbox(
    w: int,
    h: int,
    pts: Seq<(int, int)>,
    radius: int,
    damage: Option<DamageRect>,
) -> bool {
    match damage {
        Option::None => forall|x: int, y: int| !path_touches(w, h, pts, radius, x, y),
        Option::Some(rect) => {
            &&& rect.wf()
            &&& rect.spec_right() <= w
            &&& rect.spec_bottom() <= h
            &&& forall|x: int, y: int| path_touches(w, h, pts, radius, x, y) ==> rect.contains(x, y)
            &&& exists|x: int, y: int| path_touches(w, h, pts, radius, x, y) && x == rect.x
            &&& exists|x: int, y: int|
                path_touches(w, h, pts, radius, x, y) && x == rect.spec_right() - 1
            &&& exists|x: int, y: int| path_touches(w, h, pts, radius, x, y) && y == rect.y
            &&& exists|x: int, y: int|
                path_touches(w, h, pts, radius, x, y) && y == rect.spec_bottom() - 1
        },
    }
}

/// A cell is written along `pts.push(p)` exactly when it is written
/// along `pts` or by the stamp at `p`.
pub proof fn lemma_path_touches_push(
    w: int,
    h: int,
    pts: Seq<(int, int)>,
    p: (int, int),
    radius: int,
    x: int,
    y: int,
)
    ensures
        path_touches(w, h, pts.push(p), radius, x, y) <==> (path_touches(w, h, pts, radius, x, y)
            || disc_touches(w, h, p.0, p.1, radius, x, y)),
{
    let pts2 = pts.push(p);
    if path_touches(w, h, pts2, radius, x, y) {
        let k = choose|k: int|
            0 <= k < pts2.len() && disc_touches(w, h, pts2[k].0, pts2[k].1, radius, x, y);
        if k < pts.len() {
            assert(pts2[k] == pts[k]);
            assert(path_touches(w, h, pts, radius, x, y));
        } else {
            assert(pts2[k] == p);
        }
    }
    if path_touches(w, h, pts, radius, x, y) {
        let k = choose|k: int|
            0 <= k < pts.len() && disc_touches(w, h, pts[k].0, pts[k].1, radius, x, y);
        assert(pts2[k] == pts[k]);
        assert(0 <= k < pts2.len() && disc_touches(w, h, pts2[k].0, pts2[k].1, radius, x, y));
    }
    if disc_touches(w, h, p.0, p.1, radius, x, y) {
        let k = pts.len() as int;
        assert(pts2[k] == p);
        assert(0 <= k < pts2.len() && disc_touches(w, h, pts2[k].0, pts2[k].1, radius, x, y));
    }
}

/// Merging the bounding rectangle of the stamps along `pts` with the
/// bounding rectangle of one more stamp gives the bounding rectangle of
/// the stamps along `pts.push(p)`.
pub proof fn lemma_merge_bbox(
    w: int,
    h: int,
    pts: Seq<(int, int)>,
    p: (int, int),
    radius: int,
    acc: Option<DamageRect>,
    d: Option<DamageRect>,
    merged: Option<DamageRect>,
)
    requires
        path_bbox(w, h, pts, radius, acc),
        disc_bbox(w, h, p.0, p.1, radius, d),
        acc is None ==> merged == d,
        d is None ==> acc is None ==> merged is None,
        acc is Some && d is None ==> merged == acc,
        acc is Some && d is Some ==> {
            &&& merged is Some
            &&& merged->0.wf()
            &&& merged->0.x == if acc->0.x <= d->0.x { acc->0.x as int } else { d->0.x as int }
            &&& merged->0.y == if acc->0.y <= d->0.y { acc->0.y as int } else { d->0.y as int }
            &&& merged->0.spec_right() == if acc->0.spec_right() >= d->0.spec_right() {
                acc->0.spec_right()
            } else {
                d->0.spec_right()
            }
            &&& merged->0.spec_bottom() == if acc->0.spec_bottom() >= d->0.spec_bottom() {
                acc->0.spec_bottom()
            } else {
                d->0.spec_bottom()
            }
        },
    ensures
        path_bbox(w, h, pts.push(p), radius, merged),
{
    assert forall|x: int, y: int| #![trigger path_touches(w, h, pts.push(p), radius, x, y)]
        path_touches(w, h, pts.push(p), radius, x, y) == (path_touches(w, h, pts, radius, x, y)
            || disc_touches(w, h, p.0, p.1, radius, x, y)) by {
        lemma_path_touches_push(w, h, pts, p, radius, x, y);
    }
    match merged {
        Option::None => {
            assert(acc is None && d is None);
        },
        Option::Some(m) => {
            if acc is None {
                assert(merged == d);
                let (xa, ya) = choose|x: int, y: int|
                    disc_touches(w, h, p.0, p.1, radius, x, y) && x == m.x;
                assert(path_touches(w, h, pts.push(p), radius, xa, ya) && xa == m.x);
                let (xb, yb) = choose|x: int, y: int|
                    disc_touches(w, h, p.0, p.1, radius, x, y) && x == m.spec_right() - 1;
                assert(path_touches(w, h, pts.push(p), radius, xb, yb) && xb == m.spec_right() - 1);
                let (xc, yc) = choose|x: int, y: int|
                    disc_touches(w, h, p.0, p.1, radius, x, y) && y == m.y;
                assert(path_touches(w, h, pts.push(p), radius, xc, yc) && yc == m.y);
                let (xd, yd) = choose|x: int, y: int|
                    disc_touches(w, h, p.0, p.1, radius, x, y) && y == m.spec_bottom() - 1;
                assert(path_touches(w, h, pts.push(p), radius, xd, yd) && yd == m.spec_bottom()
                    - 1);
            } else if d is None {
                assert(merged == acc);
                let (xa, ya) = choose|x: int, y: int|
                    path_touches(w, h, pts, radius, x, y) && x == m.x;
                assert(path_touches(w, h, pts.push(p), radius, xa, ya) && xa == m.x);
                let (xb, yb) = choose|x: int, y: int|
                    path_touches(w, h, pts, radius, x, y) && x == m.spec_right() - 1;
                assert(path_touches(w, h, pts.push(p), radius, xb, yb) && xb == m.spec_right() - 1);
                let (xc, yc) = choose|x: int, y: int|
                    path_touches(w, h, pts, radius, x, y) && y == m.y;
                assert(path_touches(w, h, pts.push(p), radius, xc, yc) && yc == m.y);
                let (xd, yd) = choose|x: int, y: int|
                    path_touches(w, h, pts, radius, x, y) && y == m.spec_bottom() - 1;
                assert(path_touches(w, h, pts.push(p), radius, xd, yd) && yd == m.spec_bottom()
                    - 1);
            } else {
                let ra = acc->0;
                let rd = d->0;
                assert forall|x: int, y: int|
                    path_touches(w, h, pts.push(p), radius, x, y) implies m.contains(x, y) by {
                    if path_touches(w, h, pts, radius, x, y) {
                        assert(ra.contains(x, y));
                    } else {
                        assert(rd.contains(x, y));
                    }
                }
                assert(exists|x: int, y: int|
                    path_touches(w, h, pts.push(p), radius, x, y) && x == m.x) by {
                    if ra.x <= rd.x {
                        let (xa, ya) = choose|x: int, y: int|
                            path_touches(w, h, pts, radius, x, y) && x == ra.x;
                        assert(path_touches(w, h, pts.push(p), radius, xa, ya) && xa == m.x);
                    } else {
                        let (xa, ya) = choose|x: int, y: int|
                            disc_touches(w, h, p.0, p.1, radius, x, y) && x == rd.x;
                        assert(path_touches(w, h, pts.push(p), radius, xa, ya) && xa == m.x);
                    }
                }
                assert(exists|x: int, y: int|
                    path_touches(w, h, pts.push(p), radius, x, y) && x == m.spec_right() - 1) by {
                    if ra.spec_right() >= rd.spec_right() {
                        let (xa, ya) = choose|x: int, y: int|
                            path_touches(w, h, pts, radius, x, y) && x == ra.spec_right() - 1;
                        assert(path_touches(w, h, pts.push(p), radius, xa, ya) && xa
                            == m.spec_right() - 1);
                    } else {
                        let (xa, ya) = choose|x: int, y: int|
                            disc_touches(w, h, p.0, p.1, radius, x, y) && x == rd.spec_right() - 1;
                        assert(path_touches(w, h, pts.push(p), radius, xa, ya) && xa
                            == m.spec_right() - 1);
                    }
                }
                assert(exists|x: int, y: int|
                    path_touches(w, h, pts.push(p), radius, x, y) && y == m.y) by {
                    if ra.y <= rd.y {
                        let (xa, ya) = choose|x: int, y: int|
                            path_touches(w, h, pts, radius, x, y) && y == ra.y;
                        assert(path_touches(w, h, pts.push(p), radius, xa, ya) && ya == m.y);
                    } else {
                        let (xa, ya) = choose|x: int, y: int|
                            disc_touches(w, h, p.0, p.1, radius, x, y) && y == rd.y;
                        assert(path_touches(w, h, pts.push(p), radius, xa, ya) && ya == m.y);
                    }
                }
                assert(exists|x: int, y: int|
                    path_touches(w, h, pts.push(p), radius, x, y) && y == m.spec_bottom() - 1) by {
                    if ra.spec_bottom() >= rd.spec_bottom() {
                        let (xa, ya) = choose|x: int, y: int|
                            path_touches(w, h, pts, radius, x, y) && y == ra.spec_bottom() - 1;
                        assert(path_touches(w, h, pts.push(p), radius, xa, ya) && ya
                            == m.spec_bottom() - 1);
                    } else {
                        let (xa, ya) = choose|x: int, y: int|
                            disc_touches(w, h, p.0, p.1, radius, x, y) && y == rd.spec_bottom()
                                - 1;
                        assert(path_touches(w, h, pts.push(p), radius, xa, ya) && ya
                            == m.spec_bottom() - 1);
                    }
                }
            }
        },
    }
}

/// When one endpoint is reached but not the other, the step the doubled
/// error term selects never walks past an endpoint.
pub proof fn lemma_bres_no_overshoot(dx: int, dy: int, a: int, b: int, err: int)
    requires
        dx >= 0,
        dy <= 0,
        0 <= a <= dx,
        0 <= b <= -dy,
        err == dx + dy + b * dx + a * dy,
        !(a == dx && b == -dy),
    ensures
        2 * err >= dy ==> a < dx,
        2 * err <= dx ==> b < -dy,
{
    if a == dx {
        assert(2 * err < dy) by (nonlinear_arith)
            requires
                err == dx + dy + b * dx + a * dy,
                a == dx,
                dx >= 0,
                0 <= b <= -dy - 1,
        ;
    }
    if b == -dy {
        assert(2 * err > dx) by (nonlinear_arith)
            requires
                err == dx + dy + b * dx + a * dy,
                b == -dy,
                dy <= 0,
                0 <= a <= dx - 1,
        ;
    }
}

/// Rasterizes a stroke: stamps an antialiased disc of the given radius
/// and color at every point of the Bresenham path from (x0, y0) to
/// (x1, y1), and returns the union bounding rectangle of all cells
/// written, or `None` when none was.
#[verifier::loop_isolation(false)]
#[verifier::rlimit(80)]
pub fn rasterize_stroke(
    buf: &mut PixelBuffer,
    x0: i32,
    y0: i32,
    x1: i32,
    y1: i32,
    radius: i32,
    color: Color,
) -> (damage: Option<DamageRect>)
    requires
        old(buf).wf(),
        1 <= radius <= RADIUS_LIMIT,
    ensures
        final(buf).wf(),
        final(buf).spec_width() == old(buf).spec_width(),
        final(buf).spec_height() == old(buf).spec_height(),
        final(buf)@ == stamp_along(
            old(buf)@,
            old(buf).spec_width(),
            stroke_path(x0 as int, y0 as int, x1 as int, y1 as int),
            radius as int,
            color,
        ),
        path_bbox(
            old(buf).spec_width(),
            old(buf).spec_height(),
            stroke_path(x0 as int, y0 as int, x1 as int, y1 as int),
            radius as int,
            damage,
        ),
{
    let ghost olds = buf@;
    let ghost w_i = buf.spec_width();
    let ghost h_i = buf.spec_height();
    let ghost r_i = radius as int;
    let ghost x0_i = x0 as int;
    let ghost y0_i = y0 as int;
    let ghost x1_i = x1 as int;
    let ghost y1_i = y1 as int;
    let ghost path = stroke_path(x0_i, y0_i, x1_i, y1_i);

    let dxw: i64 = if x1 >= x0 {
        x1 as i64 - x0 as i64
    } else {
        x0 as i64 - x1 as i64
    };
    let dyw: i64 = if y1 >= y0 {
        -(y1 as i64 - y0 as i64)
    } else {
        -(y0 as i64 - y1 as i64)
    };
    let sx: i32 = if x0 < x1 {
        1
    } else {
        -1
    };
    let sy: i32 = if y0 < y1 {
        1
    } else {
        -1
    };
    let ghost sx_i = sx as int;
    let ghost sy_i = sy as int;
    proof {
        assert(dxw == abs_i(x1_i - x0_i));
        assert(dyw == -abs_i(y1_i - y0_i));
        assert(sx_i * dxw == if sx_i == 1 { dxw as int } else { -(dxw as int) }) by (nonlinear_arith)
            requires
                sx_i == 1 || sx_i == -1,
        ;
        assert(sy_i * (-dyw) == if sy_i == 1 { -(dyw as int) } else { dyw as int })
            by (nonlinear_arith)
            requires
                sy_i == 1 || sy_i == -1,
        ;
        assert(x1_i == x0_i + sx_i * dxw);
        assert(y1_i == y0_i + sy_i * (-dyw));
    }
    let mut err: i64 = dxw + dyw;
    let mut x: i32 = x0;
    let mut y: i32 = y0;
    let ghost mut a: int = 0;
    let ghost mut b: int = 0;
    let ghost mut done: Seq<(int, int)> = Seq::empty();
    let mut acc: Option<DamageRect> = None;
    proof {
        assert(sx_i * a == 0 && sy_i * b == 0 && a * dyw == 0 && b * dxw == 0) by (nonlinear_arith)
            requires
                a == 0 && b == 0,
        ;
        assert(path == done + bres_path(x as int, y as int, err as int, x1_i, y1_i, dxw as int, dyw as int, sx_i, sy_i))
            by {
            assert(Seq::empty() + bres_path(
                x as int,
                y as int,
                err as int,
                x1_i,
                y1_i,
                dxw as int,
                dyw as int,
                sx_i,
                sy_i,
            ) =~= bres_path(
                x as int,
                y as int,
                err as int,
                x1_i,
                y1_i,
                dxw as int,
                dyw as int,
                sx_i,
                sy_i,
            ));
        }
    }
    while !(x == x1 && y == y1)
        invariant
            buf.wf(),
            buf.spec_width() == w_i,
            buf.spec_height() == h_i,
            buf@ == stamp_along(olds, w_i, done, r_i, color),
            path == done + bres_path(
                x as int,
                y as int,
                err as int,
                x1_i,
                y1_i,
                dxw as int,
                dyw as int,
                sx_i,
                sy_i,
            ),
            path_bbox(w_i, h_i, done, r_i, acc),
            0 <= a <= dxw,
            0 <= b <= -dyw,
            x as int == x0_i + sx_i * a,
            y as int == y0_i + sy_i * b,
            err as int == dxw + dyw + b * dxw + a * dyw,
            3 * dyw <= 2 * err <= 3 * dxw,
        decreases (dxw - a) + (-dyw - b),
    {
        let ghost p = (x as int, y as int);
        let d = stamp_disc(buf, x, y, radius, color);
        proof {
            lemma_stamp_along_snoc(olds, w_i, done, p, r_i, color);
        }
        let merged: Option<DamageRect> = match (acc, d) {
            (None, dd) => dd,
            (Some(ra), None) => Some(ra),
            (Some(ra), Some(rd)) => Some(ra.union(rd)),
        };
        proof {
            lemma_merge_bbox(w_i, h_i, done, p, r_i, acc, d, merged);
            done = done.push(p);
        }
        acc = merged;
        proof {
            // the walk has not reached the endpoint, so it cannot have
            // walked past either coordinate
            assert(!(a == dxw && b == -dyw)) by {
                if a == dxw && b == -dyw {
                    assert(sx_i * a == sx_i * dxw) by (nonlinear_arith)
                        requires
                            a == dxw,
                    ;
                    assert(sy_i * b == sy_i * (-dyw)) by (nonlinear_arith)
                        requires
                            b == -dyw,
                    ;
                }
            }
            lemma_bres_no_overshoot(dxw as int, dyw as int, a, b, err as int);
        }
        let e2: i64 = 2 * err;
        let ghost old_x = x as int;
        let ghost old_y = y as int;
        let ghost old_err = err as int;
        let ghost old_a = a;
        let ghost old_b = b;
        if e2 >= dyw {
            proof {
                assert(a < dxw);
                assert((old_a + 1) * dyw == old_a * dyw + dyw) by (nonlinear_arith);
                assert(sx_i * (old_a + 1) == sx_i * old_a + sx_i) by (nonlinear_arith);
                assert(-0x8000_0000 <= x0_i + sx_i * (old_a + 1) <= 0x7FFF_FFFF) by (nonlinear_arith)
                    requires
                        0 <= old_a + 1 <= dxw,
                        x1_i == x0_i + sx_i * dxw,
                        sx_i == 1 || sx_i == -1,
                        -0x8000_0000 <= x0_i <= 0x7FFF_FFFF,
                        -0x8000_0000 <= x1_i <= 0x7FFF_FFFF,
                ;
            }
            err = err + dyw;
            x = x + sx;
            proof {
                a = a + 1;
            }
        }
        if e2 <= dxw {
            proof {
                assert(b < -dyw);
                assert((old_b + 1) * dxw == old_b * dxw + dxw) by (nonlinear_arith);
                assert(sy_i * (old_b + 1) == sy_i * old_b + sy_i) by (nonlinear_arith);
                assert(-0x8000_0000 <= y0_i + sy_i * (old_b + 1) <= 0x7FFF_FFFF) by (nonlinear_arith)
                    requires
                        0 <= old_b + 1 <= -dyw,
                        y1_i == y0_i + sy_i * (-dyw),
                        sy_i == 1 || sy_i == -1,
                        -0x8000_0000 <= y0_i <= 0x7FFF_FFFF,
                        -0x8000_0000 <= y1_i <= 0x7FFF_FFFF,
                ;
            }
            err = err + dxw;
            y = y + sy;
            proof {
                b = b + 1;
            }
        }
        proof {
            // the spec walk takes the same step
            assert(bres_step(old_x, old_y, old_err, dxw as int, dyw as int, sx_i, sy_i) == (
                x as int,
                y as int,
                err as int,
            ));
            assert(abs_i(x1_i - old_x) == dxw - old_a && abs_i(x1_i - x as int) == dxw - a) by {
                lemma_axis_remaining(x0_i, x1_i, sx_i, dxw as int, old_a);
                lemma_axis_remaining(x0_i, x1_i, sx_i, dxw as int, a);
            }
            assert(abs_i(y1_i - old_y) == -dyw - old_b && abs_i(y1_i - y as int) == -dyw - b) by {
                lemma_axis_remaining(y0_i, y1_i, sy_i, -dyw as int, old_b);
                lemma_axis_remaining(y0_i, y1_i, sy_i, -dyw as int, b);
            }
            assert(bres_measure(x as int, y as int, x1_i, y1_i) < bres_measure(
                old_x,
                old_y,
                x1_i,
                y1_i,
            ));
            assert(bres_path(old_x, old_y, old_err, x1_i, y1_i, dxw as int, dyw as int, sx_i, sy_i)
                == seq![(old_x, old_y)] + bres_path(
                x as int,
                y as int,
                err as int,
                x1_i,
                y1_i,
                dxw as int,
                dyw as int,
                sx_i,
                sy_i,
            ));
            assert(path == done + bres_path(
                x as int,
                y as int,
                err as int,
                x1_i,
                y1_i,
                dxw as int,
                dyw as int,
                sx_i,
                sy_i,
            )) by {
                assert(done.drop_last() + (seq![(old_x, old_y)] + bres_path(
                    x as int,
                    y as int,
                    err as int,
                    x1_i,
                    y1_i,
                    dxw as int,
                    dyw as int,
                    sx_i,
                    sy_i,
                )) =~= done + bres_path(
                    x as int,
                    y as int,
                    err as int,
                    x1_i,
                    y1_i,
                    dxw as int,
                    dyw as int,
                    sx_i,
                    sy_i,
                ));
            }
        }
    }
    // the endpoint still gets its stamp
    let ghost p = (x as int, y as int);
    let d = stamp_disc(buf, x, y, radius, color);
    proof {
        lemma_stamp_along_snoc(olds, w_i, done, p, r_i, color);
    }
    let merged: Option<DamageRect> = match (acc, d) {
        (None, dd) => dd,
        (Some(ra), None) => Some(ra),
        (Some(ra), Some(rd)) => Some(ra.union(rd)),
    };
    proof {
        lemma_merge_bbox(w_i, h_i, done, p, r_i, acc, d, merged);
        done = done.push(p);
        assert(bres_path(
            x as int,
            y as int,
            err as int,
            x1_i,
            y1_i,
            dxw as int,
            dyw as int,
            sx_i,
            sy_i,
        ) =~= seq![p]);
        assert(done =~= path);
    }
    merged
}

/// A cell already holding the opaque foreground keeps it through any
/// number of stamps of that foreground: overlapping stamps are
/// idempotent on fully covered cells.
pub proof fn lemma_stamp_along_keeps_opaque(
    s: Seq<Color>,
    w: int,
    pts: Seq<(int, int)>,
    radius: int,
    fg: Color,
    i: int,
)
    requires
        0 <= i < s.len(),
        s[i] == fg.spec_opaque(),
    ensures
        stamp_along(s, w, pts, radius, fg)[i] == fg.spec_opaque(),
    decreases pts.len(),
{
    if pts.len() > 0 {
        let s1 = disc_stamped(s, w, pts[0].0, pts[0].1, radius, fg);
        assert(s1[i] == fg.spec_opaque()) by {
            crate::color::lemma_blend_over_self(fg, coverage_of((i % w) - pts[0].0, (i / w) - pts[0].1, radius));
        }
        lemma_stamp_along_keeps_opaque(s1, w, pts.drop_first(), radius, fg, i);
    }
}

/// Law: a stroke leaves no gaps. After stamping along a path, every
/// in-bounds cell that is the center of some path point holds the
/// opaque foreground — each center is fully covered by its own stamp,
/// and later overlapping stamps repaint it with the same color.
pub proof fn lemma_path_centers_covered(
    s: Seq<Color>,
    w: int,
    h: int,
    pts: Seq<(int, int)>,
    radius: int,
    fg: Color,
    k: int,
)
    requires
        s.len() == w * h,
        radius >= 1,
        0 <= k < pts.len(),
        0 <= pts[k].0 < w,
        0 <= pts[k].1 < h,
    ensures
        stamp_along(s, w, pts, radius, fg)[pts[k].1 * w + pts[k].0] == fg.spec_opaque(),
    decreases pts.len(),
{
    let s1 = disc_stamped(s, w, pts[0].0, pts[0].1, radius, fg);
    assert(s1.len() == s.len());
    if k == 0 {
        let x = pts[0].0;
        let y = pts[0].1;
        assert(dist2(x - x, y - y) == 0) by (nonlinear_arith);
        assert(radius * radius >= 1) by (nonlinear_arith)
            requires
                radius >= 1,
        ;
        crate::brush::lemma_stamp_pixels(s, w, h, x, y, radius, fg, x, y);
        lemma_cell_index(w, h, x, y);
        lemma_stamp_along_keeps_opaque(s1, w, pts.drop_first(), radius, fg, y * w + x);
    } else {
        assert(pts.drop_first()[k - 1] == pts[k]);
        lemma_path_centers_covered(s1, w, h, pts.drop_first(), radius, fg, k - 1);
    }
}

/// The Bresenham path of a horizontal stroke visits exactly the cells
/// between the endpoints, left to right.
pub proof fn lemma_horizontal_path(x0: int, y: int, x1: int)
    requires
        x0 <= x1,
    ensures
        stroke_path(x0, y, x1, y).len() == x1 - x0 + 1,
        forall|k: int| 0 <= k <= x1 - x0 ==> stroke_path(x0, y, x1, y)[k] == (x0 + k, y),
{
    if x0 == x1 {
        assert(stroke_path(x0, y, x1, y) == seq![(x0, y)]);
    } else {
        lemma_horizontal_bres(x0, x0, y, x1);
        assert(stroke_path(x0, y, x1, y) == Seq::new((x1 - x0 + 1) as nat, |k: int| (x0 + k, y)));
    }
}

/// The horizontal walk from any intermediate x: the error term stays at
/// the full span, so every step moves x alone.
proof fn lemma_horizontal_bres(x0: int, x: int, y: int, x1: int)
    requires
        x0 < x1,
        x0 <= x <= x1,
    ensures
        bres_path(x, y, x1 - x0, x1, y, x1 - x0, 0, 1, -1) == Seq::new(
            (x1 - x + 1) as nat,
            |k: int| (x + k, y),
        ),
    decreases x1 - x,
{
    let d0 = x1 - x0;
    let path = bres_path(x, y, d0, x1, y, d0, 0, 1, -1);
    if x == x1 {
        assert(path == seq![(x, y)]);
        assert(path =~= Seq::new((x1 - x + 1) as nat, |k: int| (x + k, y)));
    } else {
        let next = bres_step(x, y, d0, d0, 0, 1, -1);
        assert(next == (x + 1, y, d0));
        assert(bres_measure(x + 1, y, x1, y) < bres_measure(x, y, x1, y));
        assert(path == seq![(x, y)] + bres_path(x + 1, y, d0, x1, y, d0, 0, 1, -1));
        lemma_horizontal_bres(x0, x + 1, y, x1);
        assert(path =~= Seq::new((x1 - x + 1) as nat, |k: int| (x + k, y)));
    }
}

/// Law: a horizontal stroke leaves every cell between its endpoints
/// holding the opaque foreground — no gaps.
pub proof fn lemma_horizontal_stroke_no_gaps(
    s: Seq<Color>,
    w: int,
    h: int,
    x0: int,
    y: int,
    x1: int,
    radius: int,
    fg: Color,
    xx: int,
)
    requires
        s.len() == w * h,
        radius >= 1,
        x0 <= xx <= x1,
        0 <= xx < w,
        0 <= y < h,
    ensures
        stamp_along(s, w, stroke_path(x0, y, x1, y), radius, fg)[y * w + xx] == fg.spec_opaque(),
{
    lemma_horizontal_path(x0, y, x1);
    let pts = stroke_path(x0, y, x1, y);
    assert(pts[xx - x0] == (x0 + (xx - x0), y));
    lemma_path_centers_covered(s, w, h, pts, radius, fg, xx - x0);
}

/// With `pos = start + step * k` and `stop = start + step * n` for a unit
/// step, the distance left along the axis is `n - k`.
pub proof fn lemma_axis_remaining(start: int, stop: int, step: int, n: int, k: int)
    requires
        step == 1 || step == -1,
        0 <= k <= n,
        stop == start + step * n,
    ensures
        abs_i(stop - (start + step * k)) == n - k,
{
    if step == 1 {
        assert(1 * n == n && 1 * k == k) by (nonlinear_arith);
    } else {
        assert((-1) * n == -n && (-1) * k == -k) by (nonlinear_arith);
    }
}

} // verus!
