//! Facts of integer arithmetic and of the pen's shapes that the rasteriser
//! relies on: bounds on products, and that every pixel a disk or a band
//! covers lies in the box that the search scans.
use vstd::prelude::*;

use crate::pen::{
    band_test, ceil_radius, in_capsule, in_disk, MAX_RADIUS, RADIUS_SCALE, RADIUS_SCALE_SQUARED,
};

verus! {

/// `|a * b| <= ba * bb` when `|a| <= ba` and `|b| <= bb`.
pub(crate) proof fn lemma_mul_abs_bound(a: int, b: int, ba: int, bb: int) by (nonlinear_arith)
    requires
        -ba <= a <= ba,
        -bb <= b <= bb,
    ensures
        -(ba * bb) <= a * b <= ba * bb,
{
}

/// `0 <= border <= len2 * MAX_RADIUS` for a projection inside the segment.
pub(crate) proof fn lemma_border_bound(t: int, len2: int, r1: int, r2: int) by (nonlinear_arith)
    requires
        0 <= t <= len2,
        0 <= r1 <= MAX_RADIUS,
        0 <= r2 <= MAX_RADIUS,
    ensures
        0 <= t * r2 + (len2 - t) * r1 <= len2 * MAX_RADIUS,
{
}

pub(crate) proof fn lemma_ceil_radius(r: int)
    requires
        0 <= r,
    ensures
        ceil_radius(r) * RADIUS_SCALE >= r,
        ceil_radius(r) >= 0,
{
    vstd::arithmetic::div_mod::lemma_fundamental_div_mod(r + RADIUS_SCALE - 1, RADIUS_SCALE as int);
    vstd::arithmetic::div_mod::lemma_mod_bound(r + RADIUS_SCALE - 1, RADIUS_SCALE as int);
    vstd::arithmetic::div_mod::lemma_div_pos_is_pos(r + RADIUS_SCALE - 1, RADIUS_SCALE as int);
    assert(ceil_radius(r) * RADIUS_SCALE == RADIUS_SCALE * ceil_radius(r)) by (nonlinear_arith);
}

/// A pixel inside a disk lies less than its rounded-up radius away on each axis.
pub(crate) proof fn lemma_disk_reach(px: int, py: int, cx: int, cy: int, r: int)
    requires
        0 <= r,
        in_disk(px, py, cx, cy, r),
    ensures
        cx - ceil_radius(r) < px < cx + ceil_radius(r),
        cy - ceil_radius(r) < py < cy + ceil_radius(r),
{
    lemma_ceil_radius(r);
    let c = ceil_radius(r);
    let s = RADIUS_SCALE as int;
    let d = px - cx;
    let e = py - cy;
    assert(d * d * RADIUS_SCALE_SQUARED < r * r && e * e * RADIUS_SCALE_SQUARED < r * r)
        by (nonlinear_arith)
        requires
            (d * d + e * e) * RADIUS_SCALE_SQUARED < r * r,
    ;
    assert(-c < d < c && -c < e < c) by (nonlinear_arith)
        requires
            d * d * (s * s) < r * r,
            e * e * (s * s) < r * r,
            c * s >= r,
            r >= 0,
            s > 0,
    ;
}

/// Along the x axis a pixel of the band lies right of a weighted mean of the
/// disks' left edges: `s * len2 * rx + (len2 - t) * r1 > t * (s * dx - r2)`,
/// where `s` is `RADIUS_SCALE`. Writing `len2 * rx` as `t * dx + h * dy`, the
/// second term is smaller than `border` because `dy * dy <= len2`.
pub(crate) proof fn lemma_capsule_side(dx: int, dy: int, rx: int, ry: int, r1: int, r2: int)
    requires
        0 <= r1,
        0 <= r2,
        band_test(dx, dy, rx, ry, r1, r2),
    ensures
        dx * dx + dy * dy > 0,
        0 <= dx * rx + dy * ry <= dx * dx + dy * dy,
        RADIUS_SCALE * (dx * dx + dy * dy) * rx + (dx * dx + dy * dy - (dx * rx + dy * ry)) * r1
            > (dx * rx + dy * ry) * (RADIUS_SCALE * dx - r2),
{
    let s = RADIUS_SCALE as int;
    let len2 = dx * dx + dy * dy;
    let t = dx * rx + dy * ry;
    let h = dy * rx - dx * ry;
    let border = t * r2 + (len2 - t) * r1;
    assert(border * border > h * h * len2 * (s * s));
    assert(0 <= border) by (nonlinear_arith)
        requires
            0 <= t <= len2,
            0 <= r1,
            0 <= r2,
            border == t * r2 + (len2 - t) * r1,
    ;
    assert(len2 > 0) by (nonlinear_arith)
        requires
            border * border > h * h * len2 * (s * s),
            0 <= t <= len2,
            border == t * r2 + (len2 - t) * r1,
            len2 == dx * dx + dy * dy,
    ;
    assert(len2 * rx == t * dx + h * dy) by (nonlinear_arith)
        requires
            len2 == dx * dx + dy * dy,
            t == dx * rx + dy * ry,
            h == dy * rx - dx * ry,
    ;
    assert(dy * dy <= len2) by (nonlinear_arith)
        requires
            len2 == dx * dx + dy * dy,
    ;
    let k = s * h * dy;
    assert(k * k <= h * h * len2 * (s * s)) by (nonlinear_arith)
        requires
            k == s * h * dy,
            dy * dy <= len2,
    ;
    assert(-border < k) by (nonlinear_arith)
        requires
            k * k < border * border,
            0 <= border,
    ;
    assert(s * len2 * rx == s * t * dx + k) by (nonlinear_arith)
        requires
            len2 * rx == t * dx + h * dy,
            k == s * h * dy,
    ;
    assert(s * len2 * rx + (len2 - t) * r1 > t * (s * dx - r2)) by (nonlinear_arith)
        requires
            s * len2 * rx == s * t * dx + k,
            -border < k,
            border == t * r2 + (len2 - t) * r1,
    ;
}

/// Along one axis, a pixel at `p` right of that weighted mean lies right of
/// one of the disks' rounded-up left edges, `a1 - c1` or `a2 - c2`.
pub(crate) proof fn lemma_capsule_reach(len2: int, t: int, p: int, a1: int, a2: int, r1: int, r2: int)
    requires
        len2 > 0,
        0 <= t <= len2,
        0 <= r1,
        0 <= r2,
        RADIUS_SCALE * len2 * (p - a1) + (len2 - t) * r1 > t * (RADIUS_SCALE * (a2 - a1) - r2),
    ensures
        p > a1 - ceil_radius(r1) || p > a2 - ceil_radius(r2),
{
    lemma_ceil_radius(r1);
    lemma_ceil_radius(r2);
    let s = RADIUS_SCALE as int;
    let c1 = ceil_radius(r1);
    let c2 = ceil_radius(r2);
    assert(p > a1 - c1 || p > a2 - c2) by (nonlinear_arith)
        requires
            len2 > 0,
            0 <= t <= len2,
            s > 0,
            c1 * s >= r1,
            c2 * s >= r2,
            s * len2 * (p - a1) + (len2 - t) * r1 > t * (s * (a2 - a1) - r2),
    ;
}

/// Mirroring the x axis, or swapping the axes, maps the band onto itself.
pub(crate) proof fn lemma_band_symmetry(dx: int, dy: int, rx: int, ry: int, r1: int, r2: int)
    ensures
        band_test(-dx, dy, -rx, ry, r1, r2) == band_test(dx, dy, rx, ry, r1, r2),
        band_test(dy, dx, ry, rx, r1, r2) == band_test(dx, dy, rx, ry, r1, r2),
{
    assert((-dx) * (-dx) == dx * dx) by (nonlinear_arith);
    assert((-dx) * (-rx) == dx * rx) by (nonlinear_arith);
    assert(dy * (-rx) - (-dx) * ry == -(dy * rx - dx * ry)) by (nonlinear_arith);
    assert(dx * ry - dy * rx == -(dy * rx - dx * ry));
    let h = dy * rx - dx * ry;
    assert((-h) * (-h) == h * h) by (nonlinear_arith);
}

/// Every pixel of the band lies strictly inside the box spanned by the two
/// disks' rounded-up extents.
pub(crate) proof fn lemma_band_reach(px: int, py: int, x1: int, y1: int, r1: int, x2: int, y2: int, r2: int)
    requires
        0 <= r1,
        0 <= r2,
        in_capsule(px, py, x1, y1, r1, x2, y2, r2),
    ensures
        px > x1 - ceil_radius(r1) || px > x2 - ceil_radius(r2),
        px < x1 + ceil_radius(r1) || px < x2 + ceil_radius(r2),
        py > y1 - ceil_radius(r1) || py > y2 - ceil_radius(r2),
        py < y1 + ceil_radius(r1) || py < y2 + ceil_radius(r2),
{
    let dx = x2 - x1;
    let dy = y2 - y1;
    let rx = px - x1;
    let ry = py - y1;
    let len2 = dx * dx + dy * dy;
    let t = dx * rx + dy * ry;
    lemma_band_symmetry(dx, dy, rx, ry, r1, r2);
    lemma_band_symmetry(dy, dx, ry, rx, r1, r2);

    lemma_capsule_side(dx, dy, rx, ry, r1, r2);
    lemma_capsule_reach(len2, t, px, x1, x2, r1, r2);

    lemma_capsule_side(-dx, dy, -rx, ry, r1, r2);
    assert((-dx) * (-dx) == dx * dx) by (nonlinear_arith);
    assert((-dx) * (-rx) == dx * rx) by (nonlinear_arith);
    lemma_capsule_reach(len2, t, -px, -x1, -x2, r1, r2);

    lemma_capsule_side(dy, dx, ry, rx, r1, r2);
    lemma_capsule_reach(len2, t, py, y1, y2, r1, r2);

    lemma_capsule_side(-dy, dx, -ry, rx, r1, r2);
    assert((-dy) * (-dy) == dy * dy) by (nonlinear_arith);
    assert((-dy) * (-ry) == dy * ry) by (nonlinear_arith);
    lemma_capsule_reach(len2, t, -py, -y1, -y2, r1, r2);
}

} // verus!
