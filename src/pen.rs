use vstd::prelude::*;

use crate::geometry::{
    lemma_band_reach, lemma_border_bound, lemma_disk_reach, lemma_mul_abs_bound,
};
use crate::image::{lemma_rgb_view_eq, RGB};

verus! {

/// A pressure of `PRESSURE_SCALE` is full contact (1.0).
pub const PRESSURE_SCALE: u32 = 1000;

/// A pen size of `SIZE_SCALE` is one pixel.
pub const SIZE_SCALE: u32 = 1000;

/// A radius of `RADIUS_SCALE` is one pixel: a radius is a pressure times a size.
pub const RADIUS_SCALE: i64 = 1_000_000;

/// `RADIUS_SCALE` squared.
pub const RADIUS_SCALE_SQUARED: i128 = 1_000_000_000_000;

/// The largest pen size, a thousand pixels.
pub const MAX_PEN_SIZE: u32 = 1_000_000;

/// The largest radius a pen can have.
pub const MAX_RADIUS: i64 = 1_000_000_000;

/// Pen samples and pixels lie within this distance of the canvas origin on each axis.
pub const COORD_LIMIT: i32 = 30000;

/// One pointer sample in canvas pixels, its pressure in thousandths.
#[derive(Clone, Copy, Debug)]
pub struct PenInput {
    pub x: i32,
    pub y: i32,
    pub pressure: u32,
}

impl PenInput {
    /// The sample lies in the coordinate range and its pressure is at most 1.
    pub open spec fn wf(&self) -> bool {
        &&& -COORD_LIMIT <= self.x <= COORD_LIMIT
        &&& -COORD_LIMIT <= self.y <= COORD_LIMIT
        &&& self.pressure <= PRESSURE_SCALE
    }
}

/// The pen's base size in thousandths of a pixel: a stroke's radius is its
/// pressure times this size.
#[derive(Clone, Copy, Debug)]
pub struct PenSetting {
    pub size: u32,
}

impl PenSetting {
    pub open spec fn wf(&self) -> bool {
        self.size <= MAX_PEN_SIZE
    }
}

/// The brush radius of a sample, in millionths of a pixel.
pub open spec fn radius(input: PenInput, setting: PenSetting) -> int {
    input.pressure * setting.size
}

/// The pixel `(px, py)` lies strictly inside the disk of radius `r`
/// (millionths of a pixel) around `(cx, cy)`.
pub open spec fn in_disk(px: int, py: int, cx: int, cy: int, r: int) -> bool {
    ((px - cx) * (px - cx) + (py - cy) * (py - cy)) * RADIUS_SCALE_SQUARED < r * r
}

/// The band test on offsets: `(dx, dy)` runs from the first point to the
/// second, `(rx, ry)` from the first point to the pixel. The projection
/// `t / len2` of the pixel onto the segment falls in `[0, 1]`, and its
/// distance from the segment line, `|h| / sqrt(len2)`, is below the radius
/// interpolated at that projection, `border / len2`. Both sides of the last
/// comparison are multiplied by `len2` and squared, so no root is taken; a
/// segment of length zero covers nothing.
pub open spec fn band_test(dx: int, dy: int, rx: int, ry: int, r1: int, r2: int) -> bool {
    let len2 = dx * dx + dy * dy;
    let t = dx * rx + dy * ry;
    let border = t * r2 + (len2 - t) * r1;
    let h = dy * rx - dx * ry;
    0 <= t <= len2 && border * border > h * h * len2 * RADIUS_SCALE_SQUARED
}

/// The pixel `(px, py)` lies inside the tapered band from `(x1, y1)` with
/// radius `r1` to `(x2, y2)` with radius `r2`.
pub open spec fn in_capsule(
    px: int,
    py: int,
    x1: int,
    y1: int,
    r1: int,
    x2: int,
    y2: int,
    r2: int,
) -> bool {
    band_test(x2 - x1, y2 - y1, px - x1, py - y1, r1, r2)
}

/// The pen covers `(px, py)`: the disk of the sample, and where a stroke is
/// under way also the disk of the previous sample and the band between them.
pub open spec fn covers(
    input: PenInput,
    previous: Option<PenInput>,
    setting: PenSetting,
    px: int,
    py: int,
) -> bool {
    let r = radius(input, setting);
    match previous {
        None => in_disk(px, py, input.x as int, input.y as int, r),
        Some(p) => {
            let pr = radius(p, setting);
            ||| in_disk(px, py, p.x as int, p.y as int, pr)
            ||| in_disk(px, py, input.x as int, input.y as int, r)
            ||| in_capsule(
                px,
                py,
                p.x as int,
                p.y as int,
                pr,
                input.x as int,
                input.y as int,
                r,
            )
        },
    }
}

/// The pen paints `(px, py)` on a canvas of `width * height` pixels.
pub open spec fn painted(
    input: PenInput,
    previous: Option<PenInput>,
    setting: PenSetting,
    width: int,
    height: int,
    px: int,
    py: int,
) -> bool {
    0 <= px < width && 0 <= py < height && covers(input, previous, setting, px, py)
}

fn pressure_to_radius(pressure: u32, size: u32) -> (r: i64)
    requires
        pressure <= PRESSURE_SCALE,
        size <= MAX_PEN_SIZE,
    ensures
        r == pressure * size,
        0 <= r <= MAX_RADIUS,
{
    proof {
        lemma_mul_abs_bound(pressure as int, size as int, 1000, 1_000_000);
    }
    pressure as i64 * size as i64
}

/// Tests whether `(px, py)` lies inside the disk of radius `r` around `(cx, cy)`.
pub fn in_circle(px: i64, py: i64, cx: i64, cy: i64, r: i64) -> (b: bool)
    requires
        -COORD_LIMIT <= px <= COORD_LIMIT,
        -COORD_LIMIT <= py <= COORD_LIMIT,
        -COORD_LIMIT <= cx <= COORD_LIMIT,
        -COORD_LIMIT <= cy <= COORD_LIMIT,
        0 <= r <= MAX_RADIUS,
    ensures
        b == in_disk(px as int, py as int, cx as int, cy as int, r as int),
{
    let dx = (px - cx) as i128;
    let dy = (py - cy) as i128;
    proof {
        lemma_mul_abs_bound(dx as int, dx as int, 60000, 60000);
        lemma_mul_abs_bound(dy as int, dy as int, 60000, 60000);
        lemma_mul_abs_bound(r as int, r as int, MAX_RADIUS as int, MAX_RADIUS as int);
    }
    let d2 = dx * dx + dy * dy;
    proof {
        lemma_mul_abs_bound(d2 as int, RADIUS_SCALE_SQUARED as int, 7_200_000_000, RADIUS_SCALE_SQUARED as int);
    }
    let rr = (r as i128) * (r as i128);
    d2 * RADIUS_SCALE_SQUARED < rr
}

/// Above this, `h * h * len2` times `RADIUS_SCALE_SQUARED` exceeds any
/// squared border a pen can have.
const PERPENDICULAR_LIMIT: i128 = 100_000_000_000_000_000_000_000_000;

/// Tests whether `(px, py)` lies inside the band from `(x1, y1)` with radius
/// `r1` to `(x2, y2)` with radius `r2`.
pub fn in_line(px: i64, py: i64, x1: i64, y1: i64, r1: i64, x2: i64, y2: i64, r2: i64) -> (b: bool)
    requires
        -COORD_LIMIT <= px <= COORD_LIMIT,
        -COORD_LIMIT <= py <= COORD_LIMIT,
        -COORD_LIMIT <= x1 <= COORD_LIMIT,
        -COORD_LIMIT <= y1 <= COORD_LIMIT,
        -COORD_LIMIT <= x2 <= COORD_LIMIT,
        -COORD_LIMIT <= y2 <= COORD_LIMIT,
        0 <= r1 <= MAX_RADIUS,
        0 <= r2 <= MAX_RADIUS,
    ensures
        b == in_capsule(
            px as int,
            py as int,
            x1 as int,
            y1 as int,
            r1 as int,
            x2 as int,
            y2 as int,
            r2 as int,
        ),
{
    let dx = (x2 - x1) as i128;
    let dy = (y2 - y1) as i128;
    let rx = (px - x1) as i128;
    let ry = (py - y1) as i128;
    proof {
        lemma_mul_abs_bound(dx as int, dx as int, 60000, 60000);
        lemma_mul_abs_bound(dy as int, dy as int, 60000, 60000);
        lemma_mul_abs_bound(dx as int, rx as int, 60000, 60000);
        lemma_mul_abs_bound(dy as int, ry as int, 60000, 60000);
        lemma_mul_abs_bound(dy as int, rx as int, 60000, 60000);
        lemma_mul_abs_bound(dx as int, ry as int, 60000, 60000);
    }
    let len2 = dx * dx + dy * dy;
    let t = dx * rx + dy * ry;
    if t < 0 || t > len2 {
        return false;
    }
    proof {
        lemma_mul_abs_bound(t as int, r2 as int, 7_200_000_000, MAX_RADIUS as int);
        lemma_mul_abs_bound((len2 - t) as int, r1 as int, 7_200_000_000, MAX_RADIUS as int);
        lemma_border_bound(t as int, len2 as int, r1 as int, r2 as int);
    }
    let border = t * (r2 as i128) + (len2 - t) * (r1 as i128);
    let h = dy * rx - dx * ry;
    proof {
        lemma_mul_abs_bound(h as int, h as int, 7_200_000_000, 7_200_000_000);
        lemma_mul_abs_bound((h * h) as int, len2 as int, 51_840_000_000_000_000_000, 7_200_000_000);
        lemma_mul_abs_bound(border as int, border as int, 7_200_000_000_000_000_000, 7_200_000_000_000_000_000);
    }
    let q = h * h * len2;
    if q > PERPENDICULAR_LIMIT {
        assert(q * RADIUS_SCALE_SQUARED > border * border);
        return false;
    }
    proof {
        assert(0 <= h * h * len2) by (nonlinear_arith)
            requires
                0 <= len2,
        ;
        lemma_mul_abs_bound(q as int, RADIUS_SCALE_SQUARED as int, PERPENDICULAR_LIMIT as int, RADIUS_SCALE_SQUARED as int);
    }
    border * border > q * RADIUS_SCALE_SQUARED
}

/// The radius `r` rounded up to whole pixels.
pub open spec fn ceil_radius(r: int) -> int {
    (r + RADIUS_SCALE - 1) / (RADIUS_SCALE as int)
}

/// The sample or the previous one, where there is one, lies in the coordinate
/// range with a pressure of at most 1.
pub open spec fn samples_wf(input: PenInput, previous: Option<PenInput>) -> bool {
    &&& input.wf()
    &&& previous matches Some(p) ==> p.wf()
}

/// `s` lists each pixel that the pen paints on a `width * height` canvas
/// exactly once, and nothing else.
pub open spec fn is_pen_outline(
    s: Seq<(i32, i32)>,
    input: PenInput,
    previous: Option<PenInput>,
    setting: PenSetting,
    width: int,
    height: int,
) -> bool {
    &&& s.no_duplicates()
    &&& forall|i: int|
        0 <= i < s.len() ==> #[trigger] painted(
            input,
            previous,
            setting,
            width,
            height,
            s[i].0 as int,
            s[i].1 as int,
        )
    &&& forall|px: int, py: int|
        #[trigger] painted(input, previous, setting, width, height, px, py) ==> s.contains(
            (px as i32, py as i32),
        )
}

/// Tests whether the pen covers the pixel `(px, py)`.
fn covers_pixel(
    input: &PenInput,
    previous_input: &Option<PenInput>,
    setting: &PenSetting,
    px: i64,
    py: i64,
) -> (b: bool)
    requires
        samples_wf(*input, *previous_input),
        setting.wf(),
        -COORD_LIMIT <= px <= COORD_LIMIT,
        -COORD_LIMIT <= py <= COORD_LIMIT,
    ensures
        b == covers(*input, *previous_input, *setting, px as int, py as int),
{
    let r = pressure_to_radius(input.pressure, setting.size);
    let x = input.x as i64;
    let y = input.y as i64;
    match previous_input {
        None => in_circle(px, py, x, y, r),
        Some(p) => {
            let pr = pressure_to_radius(p.pressure, setting.size);
            let (px1, py1) = (p.x as i64, p.y as i64);
            in_circle(px, py, px1, py1, pr) || in_circle(px, py, x, y, r) || in_line(
                px,
                py,
                px1,
                py1,
                pr,
                x,
                y,
                r,
            )
        },
    }
}

fn ceil_to_pixels(r: i64) -> (c: i64)
    requires
        0 <= r <= MAX_RADIUS,
    ensures
        c == ceil_radius(r as int),
        0 <= c <= 1000,
{
    (r + RADIUS_SCALE - 1) / RADIUS_SCALE
}

/// The pixels that the pen paints on a canvas of `width * height` pixels,
/// each once: the disk of the sample, and while a stroke is under way also
/// the disk of the previous sample and the band that joins the two. Only
/// the box that holds both disks is searched.
pub fn circle_pen_outline(
    input: &PenInput,
    previous_input: &Option<PenInput>,
    setting: &PenSetting,
    width: usize,
    height: usize,
) -> (out: Vec<(i32, i32)>)
    requires
        samples_wf(*input, *previous_input),
        setting.wf(),
        width <= COORD_LIMIT,
        height <= COORD_LIMIT,
    ensures
        is_pen_outline(out@, *input, *previous_input, *setting, width as int, height as int),
{
    let r = pressure_to_radius(input.pressure, setting.size);
    let c = ceil_to_pixels(r);
    let x = input.x as i64;
    let y = input.y as i64;
    let mut lo_x = x - c;
    let mut hi_x = x + c;
    let mut lo_y = y - c;
    let mut hi_y = y + c;
    if let Some(p) = previous_input {
        let pc = ceil_to_pixels(pressure_to_radius(p.pressure, setting.size));
        let (px1, py1) = (p.x as i64, p.y as i64);
        if px1 - pc < lo_x {
            lo_x = px1 - pc;
        }
        if px1 + pc > hi_x {
            hi_x = px1 + pc;
        }
        if py1 - pc < lo_y {
            lo_y = py1 - pc;
        }
        if py1 + pc > hi_y {
            hi_y = py1 + pc;
        }
    }
    assert forall|px: int, py: int| #[trigger] painted(*input, *previous_input, *setting, width as int, height as int, px, py) implies lo_x <= px <= hi_x && lo_y
        <= py <= hi_y by {
        let ri = radius(*input, *setting);
        if in_disk(px, py, input.x as int, input.y as int, ri) {
            lemma_disk_reach(px, py, input.x as int, input.y as int, ri);
        }
        if let Some(p) = *previous_input {
            let rp = radius(p, *setting);
            if in_disk(px, py, p.x as int, p.y as int, rp) {
                lemma_disk_reach(px, py, p.x as int, p.y as int, rp);
            }
            if in_capsule(px, py, p.x as int, p.y as int, rp, input.x as int, input.y as int, ri) {
                lemma_band_reach(px, py, p.x as int, p.y as int, rp, input.x as int, input.y as int, ri);
            }
        }
    }
    if lo_x < 0 {
        lo_x = 0;
    }
    if hi_x > width as i64 - 1 {
        hi_x = width as i64 - 1;
    }
    if lo_y < 0 {
        lo_y = 0;
    }
    if hi_y > height as i64 - 1 {
        hi_y = height as i64 - 1;
    }
    let mut out: Vec<(i32, i32)> = Vec::new();
    let mut cx = lo_x;
    while cx <= hi_x
        invariant
            0 <= lo_x <= cx,
            hi_x < width,
            0 <= lo_y,
            hi_y < height,
            width <= COORD_LIMIT,
            height <= COORD_LIMIT,
            samples_wf(*input, *previous_input),
            setting.wf(),
            forall|px: int, py: int| #[trigger] painted(*input, *previous_input, *setting, width as int, height as int, px, py) ==> lo_x <= px <= hi_x && lo_y <= py <= hi_y,
            out@.no_duplicates(),
            forall|i: int| 0 <= i < out@.len() ==> #[trigger] painted(*input, *previous_input, *setting, width as int, height as int, out@[i].0 as int, out@[i].1 as int),
            forall|i: int| 0 <= i < out@.len() ==> (#[trigger] out@[i]).0 < cx,
            forall|px: int, py: int| #[trigger] painted(*input, *previous_input, *setting, width as int, height as int, px, py) && px < cx ==> out@.contains((px as i32, py as i32)),
        decreases hi_x + 1 - cx,
    {
        let mut cy = lo_y;
        while cy <= hi_y
            invariant
                0 <= lo_x <= cx <= hi_x,
                hi_x < width,
                0 <= lo_y <= cy,
                hi_y < height,
                width <= COORD_LIMIT,
                height <= COORD_LIMIT,
                samples_wf(*input, *previous_input),
                setting.wf(),
                forall|px: int, py: int| #[trigger] painted(*input, *previous_input, *setting, width as int, height as int, px, py) ==> lo_x <= px <= hi_x && lo_y <= py <= hi_y,
                out@.no_duplicates(),
                forall|i: int| 0 <= i < out@.len() ==> #[trigger] painted(*input, *previous_input, *setting, width as int, height as int, out@[i].0 as int, out@[i].1 as int),
                forall|i: int|
                    0 <= i < out@.len() ==> (#[trigger] out@[i]).0 < cx || (out@[i].0 == cx && out@[i].1 < cy),
                forall|px: int, py: int|
                    #[trigger] painted(*input, *previous_input, *setting, width as int, height as int, px, py) && (px < cx || (px == cx && py < cy)) ==> out@.contains(
                        (px as i32, py as i32),
                    ),
            decreases hi_y + 1 - cy,
        {
            if covers_pixel(input, previous_input, setting, cx, cy) {
                let ghost before = out@;
                let e = (cx as i32, cy as i32);
                out.push(e);
                proof {
                    assert(!before.contains(e));
                    assert forall|i: int, j: int| 0 <= i < j < out@.len() implies out@[i] != out@[j] by {
                        if j < before.len() {
                            assert(before[i] != before[j]);
                        }
                    }
                    assert forall|px: int, py: int|
                        #[trigger] painted(*input, *previous_input, *setting, width as int, height as int, px, py) && (px < cx || (px == cx && py < cy + 1)) implies out@.contains(
                        (px as i32, py as i32),
                    ) by {
                        if px == cx && py == cy {
                            assert(out@[before.len() as int] == e);
                        } else {
                            let k = choose|k: int| 0 <= k < before.len() && before[k] == (px as i32, py as i32);
                            assert(out@[k] == before[k]);
                        }
                    }
                }
            }
            cy = cy + 1;
        }
        cx = cx + 1;
    }
    out
}

/// The colour of the pen: black.
pub open spec fn pen_color() -> Seq<u8> {
    seq![0u8, 0u8, 0u8, 0u8]
}

/// The pixels of `s` without their colours.
pub open spec fn positions(s: Seq<((i32, i32), RGB)>) -> Seq<(i32, i32)> {
    s.map_values(|e: ((i32, i32), RGB)| e.0)
}

/// The pixels that the pen paints, each with the pen's colour.
pub fn circle_pen(
    input: &PenInput,
    previous_input: &Option<PenInput>,
    setting: &PenSetting,
    width: usize,
    height: usize,
) -> (out: Vec<((i32, i32), RGB)>)
    requires
        samples_wf(*input, *previous_input),
        setting.wf(),
        width <= COORD_LIMIT,
        height <= COORD_LIMIT,
    ensures
        is_pen_outline(positions(out@), *input, *previous_input, *setting, width as int, height as int),
        forall|i: int| 0 <= i < out@.len() ==> (#[trigger] out@[i]).1@ == pen_color(),
{
    let h = circle_pen_outline(input, previous_input, setting, width, height);
    let black = RGB::new(0, 0, 0);
    let mut out: Vec<((i32, i32), RGB)> = Vec::new();
    let mut k: usize = 0;
    while k < h.len()
        invariant
            k <= h@.len(),
            black@ == pen_color(),
            out@.len() == k,
            positions(out@) == h@.subrange(0, k as int),
            forall|i: int| 0 <= i < out@.len() ==> (#[trigger] out@[i]).1@ == pen_color(),
        decreases h@.len() - k,
    {
        let ghost before = out@;
        out.push((h[k], black));
        assert forall|i: int| 0 <= i < out@.len() implies #[trigger] positions(out@)[i] == h@.subrange(0, k + 1)[i] by {
            if i < k {
                assert(out@[i] == before[i]);
                assert(positions(before)[i] == h@.subrange(0, k as int)[i]);
            }
        }
        assert(positions(out@) =~= h@.subrange(0, k + 1));
        k = k + 1;
    }
    assert(h@.subrange(0, h@.len() as int) =~= h@);
    out
}

/// `(x1, y1)` comes before `(x2, y2)` in x-major order.
pub open spec fn lex_lt(a: (i32, i32), b: (i32, i32)) -> bool {
    a.0 < b.0 || (a.0 == b.0 && a.1 < b.1)
}

/// Every point of `[x0, x1] x [y0, y1]` once, in x-major order.
pub fn rect(x0: i32, x1: i32, y0: i32, y1: i32) -> (out: Vec<(i32, i32)>)
    ensures
        forall|p: (i32, i32)| out@.contains(p) <==> x0 <= p.0 <= x1 && y0 <= p.1 <= y1,
        forall|i: int, j: int| 0 <= i < j < out@.len() ==> lex_lt(#[trigger] out@[i], #[trigger] out@[j]),
{
    let mut out: Vec<(i32, i32)> = Vec::new();
    let mut x: i64 = x0 as i64;
    while x <= x1 as i64
        invariant
            x0 <= x,
            forall|p: (i32, i32)|
                out@.contains(p) <==> x0 <= p.0 < x && p.0 <= x1 && y0 <= p.1 <= y1,
            forall|i: int| 0 <= i < out@.len() ==> (#[trigger] out@[i]).0 < x,
            forall|i: int, j: int| 0 <= i < j < out@.len() ==> lex_lt(#[trigger] out@[i], #[trigger] out@[j]),
        decreases x1 + 1 - x,
    {
        let mut y: i64 = y0 as i64;
        while y <= y1 as i64
            invariant
                x0 <= x <= x1,
                y0 <= y,
                forall|p: (i32, i32)|
                    out@.contains(p) <==> x0 <= p.0 <= x1 && y0 <= p.1 <= y1 && (p.0 < x || (p.0 == x
                        && p.1 < y)),
                forall|i: int|
                    0 <= i < out@.len() ==> (#[trigger] out@[i]).0 < x || (out@[i].0 == x && out@[i].1
                        < y),
                forall|i: int, j: int| 0 <= i < j < out@.len() ==> lex_lt(#[trigger] out@[i], #[trigger] out@[j]),
            decreases y1 + 1 - y,
        {
            let ghost before = out@;
            let e = (x as i32, y as i32);
            out.push(e);
            proof {
                assert forall|p: (i32, i32)|
                    out@.contains(p) <==> x0 <= p.0 <= x1 && y0 <= p.1 <= y1 && (p.0 < x || (p.0 == x
                        && p.1 < y + 1)) by {
                    if p == e {
                        assert(out@[before.len() as int] == e);
                    } else if before.contains(p) {
                        let k = choose|k: int| 0 <= k < before.len() && before[k] == p;
                        assert(out@[k] == p);
                    } else if out@.contains(p) {
                        let k = choose|k: int| 0 <= k < out@.len() && out@[k] == p;
                        assert(k < before.len());
                        assert(before[k] == p);
                    }
                }
            }
            y = y + 1;
        }
        x = x + 1;
    }
    out
}

/// The offsets `(dx, dy)` with `|dx| <= r` and `|dy| <= r`.
pub fn rectangle(r: i32) -> (out: Vec<(i32, i32)>)
    requires
        r > i32::MIN,
    ensures
        forall|p: (i32, i32)| out@.contains(p) <==> -r <= p.0 <= r && -r <= p.1 <= r,
        forall|i: int, j: int| 0 <= i < j < out@.len() ==> lex_lt(#[trigger] out@[i], #[trigger] out@[j]),
{
    rect(-r, r, -r, r)
}

/// Rasterising is a function of its inputs: any two outlines of one sample,
/// previous sample and pen setting hold the same pixels.
pub proof fn lemma_outline_deterministic(
    a: Seq<(i32, i32)>,
    b: Seq<(i32, i32)>,
    input: PenInput,
    previous: Option<PenInput>,
    setting: PenSetting,
    width: int,
    height: int,
)
    requires
        is_pen_outline(a, input, previous, setting, width, height),
        is_pen_outline(b, input, previous, setting, width, height),
    ensures
        a.to_set() == b.to_set(),
{
    assert forall|p: (i32, i32)| a.contains(p) implies b.contains(p) by {
        let k = choose|k: int| 0 <= k < a.len() && a[k] == p;
        assert(painted(input, previous, setting, width, height, a[k].0 as int, a[k].1 as int));
    }
    assert forall|p: (i32, i32)| b.contains(p) implies a.contains(p) by {
        let k = choose|k: int| 0 <= k < b.len() && b[k] == p;
        assert(painted(input, previous, setting, width, height, b[k].0 as int, b[k].1 as int));
    }
    assert(a.to_set() =~= b.to_set());
}

/// Painting with colours is a function of the inputs too: any two results of
/// `circle_pen` for one sample, previous sample and pen setting hold the same
/// pixels with the same colours.
pub proof fn lemma_pen_deterministic(
    a: Seq<((i32, i32), RGB)>,
    b: Seq<((i32, i32), RGB)>,
    input: PenInput,
    previous: Option<PenInput>,
    setting: PenSetting,
    width: int,
    height: int,
)
    requires
        is_pen_outline(positions(a), input, previous, setting, width, height),
        is_pen_outline(positions(b), input, previous, setting, width, height),
        forall|i: int| 0 <= i < a.len() ==> (#[trigger] a[i]).1@ == pen_color(),
        forall|i: int| 0 <= i < b.len() ==> (#[trigger] b[i]).1@ == pen_color(),
    ensures
        a.to_set() == b.to_set(),
{
    assert forall|e: ((i32, i32), RGB)| a.contains(e) implies b.contains(e) by {
        lemma_pen_in_other(a, b, input, previous, setting, width, height, e);
    }
    assert forall|e: ((i32, i32), RGB)| b.contains(e) implies a.contains(e) by {
        lemma_pen_in_other(b, a, input, previous, setting, width, height, e);
    }
    assert(a.to_set() =~= b.to_set());
}

proof fn lemma_pen_in_other(
    a: Seq<((i32, i32), RGB)>,
    b: Seq<((i32, i32), RGB)>,
    input: PenInput,
    previous: Option<PenInput>,
    setting: PenSetting,
    width: int,
    height: int,
    e: ((i32, i32), RGB),
)
    requires
        is_pen_outline(positions(a), input, previous, setting, width, height),
        is_pen_outline(positions(b), input, previous, setting, width, height),
        forall|i: int| 0 <= i < a.len() ==> (#[trigger] a[i]).1@ == pen_color(),
        forall|i: int| 0 <= i < b.len() ==> (#[trigger] b[i]).1@ == pen_color(),
        a.contains(e),
    ensures
        b.contains(e),
{
    let k = choose|k: int| 0 <= k < a.len() && a[k] == e;
    assert(positions(a)[k] == e.0);
    assert(painted(input, previous, setting, width, height, e.0.0 as int, e.0.1 as int));
    assert(positions(b).contains((e.0.0 as int as i32, e.0.1 as int as i32)));
    let j = choose|j: int| 0 <= j < positions(b).len() && positions(b)[j] == e.0;
    assert(b[j].0 == e.0);
    assert(b[j].1@ == e.1@);
    lemma_rgb_view_eq(b[j].1, e.1);
    assert(b[j] == e);
}

/// A segment of a stroke paints at least what either of its samples paints
/// alone: the band never takes away from the two end disks.
pub proof fn lemma_segment_covers_ends(
    input: PenInput,
    previous: PenInput,
    setting: PenSetting,
    width: int,
    height: int,
    px: int,
    py: int,
)
    ensures
        painted(input, None, setting, width, height, px, py) ==> painted(
            input,
            Some(previous),
            setting,
            width,
            height,
            px,
            py,
        ),
        painted(previous, None, setting, width, height, px, py) ==> painted(
            input,
            Some(previous),
            setting,
            width,
            height,
            px,
            py,
        ),
{
}

/// A sample with a radius above zero paints the pixel it is centred on,
/// where that pixel lies on the canvas.
pub proof fn lemma_center_painted(
    input: PenInput,
    previous: Option<PenInput>,
    setting: PenSetting,
    width: int,
    height: int,
)
    requires
        radius(input, setting) > 0,
        0 <= input.x < width,
        0 <= input.y < height,
    ensures
        painted(input, previous, setting, width, height, input.x as int, input.y as int),
{
    let r = radius(input, setting);
    assert(0 < r * r) by (nonlinear_arith)
        requires
            r > 0,
    ;
}

/// The part `num / den` of the step from `p` to `s` that stays in the
/// coordinate range on one axis: the whole step, `1 / 1`, where `s` is in
/// range, else the part up to the range's edge. `p` is in range.
pub open spec fn exit_fraction(p: int, s: int) -> (int, int) {
    if s > COORD_LIMIT {
        (COORD_LIMIT - p, s - p)
    } else if s < -COORD_LIMIT {
        (p + COORD_LIMIT, p - s)
    } else {
        (1, 1)
    }
}

/// `p` moved `num / den` of the way to `s`, rounded towards `p`.
pub open spec fn step_toward(p: int, s: int, num: int, den: int) -> int {
    if s >= p {
        p + (s - p) * num / den
    } else {
        p - (p - s) * num / den
    }
}

pub open spec fn clamp_coord(v: int) -> int {
    if v > COORD_LIMIT {
        COORD_LIMIT as int
    } else if v < -COORD_LIMIT {
        -COORD_LIMIT
    } else {
        v
    }
}

/// The sample that a stroke uses for `input`. One in the coordinate range is
/// used as it is. Past the range, the segment from the previous sample is cut
/// where it first leaves the range, on the axis whose edge comes first, and the
/// other coordinate is rounded towards the previous sample; with no previous
/// sample each coordinate is clamped to the range.
pub open spec fn clip_sample(input: PenInput, previous: Option<PenInput>) -> PenInput {
    match previous {
        None => PenInput {
            x: clamp_coord(input.x as int) as i32,
            y: clamp_coord(input.y as int) as i32,
            pressure: input.pressure,
        },
        Some(p) => {
            let (nx, dx) = exit_fraction(p.x as int, input.x as int);
            let (ny, dy) = exit_fraction(p.y as int, input.y as int);
            let (n, d) = if nx * dy <= ny * dx {
                (nx, dx)
            } else {
                (ny, dy)
            };
            PenInput {
                x: step_toward(p.x as int, input.x as int, n, d) as i32,
                y: step_toward(p.y as int, input.y as int, n, d) as i32,
                pressure: input.pressure,
            }
        },
    }
}

proof fn lemma_div_at_most(x: int, c: int, d: int)
    requires
        0 <= x,
        0 <= c,
        x <= c * d,
        d > 0,
    ensures
        0 <= x / d <= c,
{
    vstd::arithmetic::div_mod::lemma_fundamental_div_mod(x, d);
    vstd::arithmetic::div_mod::lemma_mod_bound(x, d);
    vstd::arithmetic::div_mod::lemma_div_pos_is_pos(x, d);
    let q = x / d;
    assert(q <= c) by (nonlinear_arith)
        requires
            x == d * q + x % d,
            0 <= x % d,
            x <= c * d,
            d > 0,
    ;
}

/// A step of at most `n / d` of the way, where `n * d_o <= n_o * d` bounds it
/// by this axis's own fraction, ends in the coordinate range.
proof fn lemma_step_in_range(p: int, s: int, n: int, d: int)
    requires
        -COORD_LIMIT <= p <= COORD_LIMIT,
        0 <= n <= d,
        d > 0,
        n * exit_fraction(p, s).1 <= exit_fraction(p, s).0 * d,
    ensures
        -COORD_LIMIT <= step_toward(p, s, n, d) <= COORD_LIMIT,
        (n == 1 && d == 1) ==> step_toward(p, s, n, d) == s,
{
    if n == 1 && d == 1 {
        assert((s - p) * 1 / 1 == s - p);
        assert((p - s) * 1 / 1 == p - s);
    }
    if s >= p {
        assert(0 <= (s - p) * n) by (nonlinear_arith)
            requires
                s >= p,
                n >= 0,
        ;
        if s > COORD_LIMIT {
            assert((s - p) * n <= (COORD_LIMIT - p) * d) by (nonlinear_arith)
                requires
                    n * (s - p) <= (COORD_LIMIT - p) * d,
            ;
            lemma_div_at_most((s - p) * n, COORD_LIMIT - p, d);
        } else {
            assert((s - p) * n <= (s - p) * d) by (nonlinear_arith)
                requires
                    s >= p,
                    n <= d,
            ;
            lemma_div_at_most((s - p) * n, s - p, d);
        }
    } else {
        assert(0 <= (p - s) * n) by (nonlinear_arith)
            requires
                s < p,
                n >= 0,
        ;
        if s < -COORD_LIMIT {
            assert((p - s) * n <= (p + COORD_LIMIT) * d) by (nonlinear_arith)
                requires
                    n * (p - s) <= (p + COORD_LIMIT) * d,
            ;
            lemma_div_at_most((p - s) * n, p + COORD_LIMIT, d);
        } else {
            assert((p - s) * n <= (p - s) * d) by (nonlinear_arith)
                requires
                    s < p,
                    n <= d,
            ;
            lemma_div_at_most((p - s) * n, p - s, d);
        }
    }
}

/// A clipped sample lies in the coordinate range, and a sample already in
/// range is kept.
pub proof fn lemma_clip_sample(input: PenInput, previous: Option<PenInput>)
    requires
        input.pressure <= PRESSURE_SCALE,
        previous matches Some(p) ==> p.wf(),
    ensures
        clip_sample(input, previous).wf(),
        input.wf() ==> clip_sample(input, previous) == input,
{
    if let Some(p) = previous {
        let (nx, dx) = exit_fraction(p.x as int, input.x as int);
        let (ny, dy) = exit_fraction(p.y as int, input.y as int);
        assert(0 <= nx <= dx && dx > 0);
        assert(0 <= ny <= dy && dy > 0);
        if nx * dy <= ny * dx {
            assert(nx * dx <= nx * dx);
            lemma_step_in_range(p.x as int, input.x as int, nx, dx);
            lemma_step_in_range(p.y as int, input.y as int, nx, dx);
        } else {
            assert(ny * dy <= ny * dy);
            lemma_step_in_range(p.x as int, input.x as int, ny, dy);
            lemma_step_in_range(p.y as int, input.y as int, ny, dy);
        }
    }
}

/// `exit_fraction` for one axis.
fn exit_fraction_of(p: i64, s: i64) -> (r: (i64, i64))
    requires
        -COORD_LIMIT <= p <= COORD_LIMIT,
        i32::MIN <= s <= i32::MAX,
    ensures
        r.0 == exit_fraction(p as int, s as int).0,
        r.1 == exit_fraction(p as int, s as int).1,
{
    let limit = COORD_LIMIT as i64;
    if s > limit {
        (limit - p, s - p)
    } else if s < -limit {
        (p + limit, p - s)
    } else {
        (1, 1)
    }
}

/// `step_toward` for one axis.
fn step_toward_of(p: i64, s: i64, n: i64, d: i64) -> (r: i64)
    requires
        -COORD_LIMIT <= p <= COORD_LIMIT,
        i32::MIN <= s <= i32::MAX,
        0 <= n <= d,
        n <= 60000,
        d > 0,
    ensures
        r == step_toward(p as int, s as int, n as int, d as int),
{
    if s >= p {
        proof {
            lemma_mul_abs_bound((s - p) as int, n as int, 0x1_0000_0000, 60000);
            assert(0 <= (s - p) * n <= (s - p) * d) by (nonlinear_arith)
                requires
                    s >= p,
                    0 <= n <= d,
            ;
            lemma_div_at_most((s - p) * n, (s - p) as int, d as int);
        }
        p + ((s - p) * n) / d
    } else {
        proof {
            lemma_mul_abs_bound((p - s) as int, n as int, 0x1_0000_0000, 60000);
            assert(0 <= (p - s) * n <= (p - s) * d) by (nonlinear_arith)
                requires
                    s < p,
                    0 <= n <= d,
            ;
            lemma_div_at_most((p - s) * n, (p - s) as int, d as int);
        }
        p - ((p - s) * n) / d
    }
}

/// The sample that a stroke uses for `input`, as `clip_sample` states it.
pub fn clip_to_range(input: PenInput, previous: Option<PenInput>) -> (r: PenInput)
    requires
        input.pressure <= PRESSURE_SCALE,
        previous matches Some(p) ==> p.wf(),
    ensures
        r == clip_sample(input, previous),
        r.wf(),
        input.wf() ==> r == input,
{
    proof {
        lemma_clip_sample(input, previous);
    }
    match previous {
        None => {
            let x = if input.x > COORD_LIMIT {
                COORD_LIMIT
            } else if input.x < -COORD_LIMIT {
                -COORD_LIMIT
            } else {
                input.x
            };
            let y = if input.y > COORD_LIMIT {
                COORD_LIMIT
            } else if input.y < -COORD_LIMIT {
                -COORD_LIMIT
            } else {
                input.y
            };
            PenInput { x, y, pressure: input.pressure }
        },
        Some(p) => {
            let (px, py) = (p.x as i64, p.y as i64);
            let (sx, sy) = (input.x as i64, input.y as i64);
            let (nx, dx) = exit_fraction_of(px, sx);
            let (ny, dy) = exit_fraction_of(py, sy);
            proof {
                lemma_mul_abs_bound(nx as int, dy as int, 60000, 0x1_0000_0000);
                lemma_mul_abs_bound(ny as int, dx as int, 60000, 0x1_0000_0000);
            }
            let (n, d) = if nx * dy <= ny * dx {
                (nx, dx)
            } else {
                (ny, dy)
            };
            let x = step_toward_of(px, sx, n, d);
            let y = step_toward_of(py, sy, n, d);
            PenInput { x: x as i32, y: y as i32, pressure: input.pressure }
        },
    }
}

} // verus!
