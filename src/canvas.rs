use vstd::prelude::*;

use crate::image::{lemma_pixels_determine_bytes, SingleVecImage, RGB};
use crate::pen::{
    circle_pen, is_pen_outline, painted, pen_color, positions, PenInput, PenSetting, MAX_PEN_SIZE,
};

verus! {

/// The largest width or height of a canvas.
pub const MAX_SIDE: usize = 16384;

/// The pen size a new canvas starts with: twenty pixels.
pub const DEFAULT_PEN_SIZE: u32 = 20000;

/// An axis-aligned area of canvas pixels: columns `x .. x + width`, rows
/// `y .. y + height`.
#[derive(Debug, Clone, Copy, PartialEq, Eq, Structural)]
pub struct Rectangle {
    pub x: usize,
    pub y: usize,
    pub width: usize,
    pub height: usize,
}

/// `r` is the smallest rectangle that holds every pixel that the pen paints.
pub open spec fn is_changed_area(
    r: Rectangle,
    input: PenInput,
    previous: Option<PenInput>,
    setting: PenSetting,
    width: int,
    height: int,
) -> bool {
    &&& forall|x: int, y: int|
        #[trigger] painted(input, previous, setting, width, height, x, y) ==> r.x <= x < r.x + r.width
            && r.y <= y < r.y + r.height
    &&& exists|y: int| #[trigger] painted(input, previous, setting, width, height, r.x as int, y)
    &&& exists|y: int|
        #[trigger] painted(input, previous, setting, width, height, r.x + r.width - 1, y)
    &&& exists|x: int| #[trigger] painted(input, previous, setting, width, height, x, r.y as int)
    &&& exists|x: int|
        #[trigger] painted(input, previous, setting, width, height, x, r.y + r.height - 1)
}

/// A drawing surface: a fixed-size image, the pen that paints on it and the
/// sample a stroke under way last reached.
pub struct Canvas {
    viewport_size: (usize, usize),
    canvas_size: (usize, usize),
    pub image: SingleVecImage,
    background_color: RGB,
    previous_input: Option<PenInput>,
    pen_setting: PenSetting,
}

impl Canvas {
    /// The pixel buffer.
    pub closed spec fn buffer(&self) -> SingleVecImage {
        self.image
    }

    /// The width and height of the canvas in pixels.
    pub closed spec fn size(&self) -> (usize, usize) {
        self.canvas_size
    }

    /// The size of the area the canvas is shown in.
    pub closed spec fn viewport(&self) -> (usize, usize) {
        self.viewport_size
    }

    /// The last sample of the stroke under way, if one is.
    pub closed spec fn previous(&self) -> Option<PenInput> {
        self.previous_input
    }

    pub closed spec fn setting(&self) -> PenSetting {
        self.pen_setting
    }

    /// The colour the canvas is filled with where nothing is painted.
    pub closed spec fn background(&self) -> RGB {
        self.background_color
    }

    pub open spec fn wf(&self) -> bool {
        &&& self.buffer().wf()
        &&& self.buffer().width == self.size().0
        &&& self.buffer().height == self.size().1
        &&& self.size().0 <= MAX_SIDE
        &&& self.size().1 <= MAX_SIDE
        &&& self.setting().wf()
        &&& self.previous() matches Some(p) ==> p.wf()
    }

    /// The pen paints `(x, y)` when the next sample is `input`.
    pub open spec fn stroke_paints(&self, input: PenInput, x: int, y: int) -> bool {
        painted(
            input,
            self.previous(),
            self.setting(),
            self.size().0 as int,
            self.size().1 as int,
            x,
            y,
        )
    }

    /// A white canvas of `canvas_size` pixels, shown in an area of the same
    /// size, with no stroke under way and a pen twenty pixels wide.
    pub fn new(canvas_size: (usize, usize)) -> (c: Canvas)
        requires
            canvas_size.0 <= MAX_SIDE,
            canvas_size.1 <= MAX_SIDE,
        ensures
            c.wf(),
            c.size() == canvas_size,
            c.viewport() == canvas_size,
            c.previous() is None,
            c.setting().size == DEFAULT_PEN_SIZE,
            c.background()@ == seq![0xffu8, 0xffu8, 0xffu8, 0u8],
            forall|x: int, y: int|
                c.buffer().in_bounds(x, y) ==> #[trigger] c.buffer().pixel(x, y) == c.background()@,
    {
        let background_color = RGB::new(0xff, 0xff, 0xff);
        assert(4 * (canvas_size.0 * canvas_size.1) <= 4 * (MAX_SIDE * MAX_SIDE)) by (nonlinear_arith)
            requires
                canvas_size.0 <= MAX_SIDE,
                canvas_size.1 <= MAX_SIDE,
        ;
        Canvas {
            viewport_size: canvas_size,
            canvas_size,
            image: SingleVecImage::new(background_color, canvas_size.0, canvas_size.1),
            background_color,
            previous_input: None,
            pen_setting: PenSetting { size: DEFAULT_PEN_SIZE },
        }
    }
}

/// `after` is `before` with the sample `input` painted, and `changed` is
/// the area to redraw: the smallest rectangle that holds the painted pixels,
/// or `None` when none lies on the canvas.
pub open spec fn stroke_effect(
    before: Canvas,
    after: Canvas,
    input: PenInput,
    changed: Option<Rectangle>,
) -> bool {
    &&& after.wf()
    &&& after.size() == before.size()
    &&& after.viewport() == before.viewport()
    &&& after.setting() == before.setting()
    &&& after.background() == before.background()
    &&& after.previous() == Some(input)
    &&& forall|x: int, y: int|
        #![trigger after.buffer().pixel(x, y)]
        before.buffer().in_bounds(x, y) ==> after.buffer().pixel(x, y) == if before.stroke_paints(
            input,
            x,
            y,
        ) {
            pen_color()
        } else {
            before.buffer().pixel(x, y)
        }
    &&& changed is None <==> forall|x: int, y: int| !#[trigger] before.stroke_paints(input, x, y)
    &&& changed matches Some(r) ==> is_changed_area(
        r,
        input,
        before.previous(),
        before.setting(),
        before.size().0 as int,
        before.size().1 as int,
    )
}

/// Some pixel among the first `n` of `s` is `(x, y)`.
pub open spec fn listed_before(s: Seq<(i32, i32)>, n: int, x: int, y: int) -> bool {
    exists|k: int| 0 <= k < n && #[trigger] s[k] == (x as i32, y as i32)
}

impl Canvas {
    /// Paints the next sample of a stroke: its disk alone when no stroke is
    /// under way, else also the disk of the previous sample and the band
    /// between them. The sample becomes the previous one. Returns the
    /// smallest rectangle that holds the painted pixels, or `None` when none
    /// lies on the canvas and nothing needs to be redrawn.
    pub fn pen_stroke(&mut self, input: PenInput) -> (changed: Option<Rectangle>)
        requires
            old(self).wf(),
            input.wf(),
        ensures
            stroke_effect(*old(self), *final(self), input, changed),
    {
        let w = self.canvas_size.0;
        let h = self.canvas_size.1;
        let pixels = circle_pen(&input, &self.previous_input, &self.pen_setting, w, h);
        let ghost s = positions(pixels@);
        let ghost old_img = self.image;
        let ghost prev = self.previous_input;
        let ghost setting = self.pen_setting;
        let mut min_x: usize = w;
        let mut max_x: usize = 0;
        let mut min_y: usize = h;
        let mut max_y: usize = 0;
        let mut i: usize = 0;
        while i < pixels.len()
            invariant
                self.canvas_size == old(self).canvas_size,
                self.viewport_size == old(self).viewport_size,
                self.background_color == old(self).background_color,
                self.previous_input == old(self).previous_input,
                self.pen_setting == old(self).pen_setting,
                old(self).canvas_size == (w, h),
                prev == old(self).previous_input,
                setting == old(self).pen_setting,
                setting.wf(),
                self.image.wf(),
                self.image.width == w,
                self.image.height == h,
                old_img.wf(),
                old_img.width == w,
                old_img.height == h,
                w <= MAX_SIDE,
                h <= MAX_SIDE,
                i <= pixels@.len(),
                s == positions(pixels@),
                s.len() == pixels@.len(),
                is_pen_outline(s, input, prev, setting, w as int, h as int),
                forall|k: int| 0 <= k < pixels@.len() ==> (#[trigger] pixels@[k]).1@ == pen_color(),
                forall|x: int, y: int|
                    #![trigger self.image.pixel(x, y)]
                    old_img.in_bounds(x, y) ==> self.image.pixel(x, y) == if listed_before(
                        s,
                        i as int,
                        x,
                        y,
                    ) {
                        pen_color()
                    } else {
                        old_img.pixel(x, y)
                    },
                i == 0 ==> min_x == w && max_x == 0 && min_y == h && max_y == 0,
                i > 0 ==> min_x <= max_x < w && min_y <= max_y < h,
                forall|k: int|
                    0 <= k < i ==> min_x <= (#[trigger] s[k]).0 <= max_x && min_y <= s[k].1 <= max_y,
                i > 0 ==> exists|k: int| 0 <= k < i && (#[trigger] s[k]).0 == min_x,
                i > 0 ==> exists|k: int| 0 <= k < i && (#[trigger] s[k]).0 == max_x,
                i > 0 ==> exists|k: int| 0 <= k < i && (#[trigger] s[k]).1 == min_y,
                i > 0 ==> exists|k: int| 0 <= k < i && (#[trigger] s[k]).1 == max_y,
            decreases pixels@.len() - i,
        {
            let (p, color) = pixels[i];
            assert(s[i as int] == p);
            assert(painted(input, prev, setting, w as int, h as int, s[i as int].0 as int, s[i as int].1 as int));
            let x = p.0 as usize;
            let y = p.1 as usize;
            let ghost before = self.image;
            self.image.set(x, y, color);
            proof {
                assert forall|px: int, py: int| #[trigger] old_img.in_bounds(px, py) implies self.image.pixel(px, py)
                    == if listed_before(s, i + 1, px, py) {
                    pen_color()
                } else {
                    old_img.pixel(px, py)
                } by {
                    if px == x && py == y {
                        assert(s[i as int] == (px as i32, py as i32));
                    } else {
                        if listed_before(s, i + 1, px, py) {
                            let k = choose|k: int| 0 <= k < i + 1 && #[trigger] s[k] == (px as i32, py as i32);
                            assert(k != i);
                        }
                        if listed_before(s, i as int, px, py) {
                            let k = choose|k: int| 0 <= k < i && #[trigger] s[k] == (px as i32, py as i32);
                            assert(0 <= k < i + 1);
                        }
                    }
                }
            }
            if x < min_x {
                min_x = x;
            }
            if x > max_x {
                max_x = x;
            }
            if y < min_y {
                min_y = y;
            }
            if y > max_y {
                max_y = y;
            }
            i = i + 1;
        }
        self.previous_input = Some(input);
        proof {
            assert forall|px: int, py: int|
                #[trigger] old_img.in_bounds(px, py) implies (listed_before(s, s.len() as int, px, py)
                <==> painted(input, prev, setting, w as int, h as int, px, py)) by {
                if listed_before(s, s.len() as int, px, py) {
                    let k = choose|k: int| 0 <= k < s.len() && #[trigger] s[k] == (px as i32, py as i32);
                    assert(painted(input, prev, setting, w as int, h as int, s[k].0 as int, s[k].1 as int));
                }
                if painted(input, prev, setting, w as int, h as int, px, py) {
                    assert(s.contains((px as i32, py as i32)));
                    let k = choose|k: int| 0 <= k < s.len() && s[k] == (px as i32, py as i32);
                    assert(s[k] == (px as i32, py as i32));
                }
            }
        }
        if pixels.len() == 0 {
            proof {
                assert forall|x: int, y: int| !#[trigger] painted(input, prev, setting, w as int, h as int, x, y) by {
                    if painted(input, prev, setting, w as int, h as int, x, y) {
                        assert(s.contains((x as i32, y as i32)));
                    }
                }
                assert forall|x: int, y: int| !#[trigger] old(self).stroke_paints(input, x, y) by {
                    assert(!painted(input, prev, setting, w as int, h as int, x, y));
                }
            }
            None
        } else {
            let r = Rectangle { x: min_x, y: min_y, width: max_x - min_x + 1, height: max_y - min_y + 1 };
            proof {
                assert(painted(input, prev, setting, w as int, h as int, s[0].0 as int, s[0].1 as int));
                assert forall|x: int, y: int| #[trigger] painted(input, prev, setting, w as int, h as int, x, y)
                    implies r.x <= x < r.x + r.width && r.y <= y < r.y + r.height by {
                    assert(s.contains((x as i32, y as i32)));
                    let k = choose|k: int| 0 <= k < s.len() && s[k] == (x as i32, y as i32);
                    assert(min_x <= s[k].0 <= max_x);
                }
                assert(old(self).stroke_paints(input, s[0].0 as int, s[0].1 as int));
                let k1 = choose|k: int| 0 <= k < i && (#[trigger] s[k]).0 == min_x;
                assert(painted(input, prev, setting, w as int, h as int, s[k1].0 as int, s[k1].1 as int));
                assert(painted(input, prev, setting, w as int, h as int, r.x as int, s[k1].1 as int));
                let k2 = choose|k: int| 0 <= k < i && (#[trigger] s[k]).0 == max_x;
                assert(painted(input, prev, setting, w as int, h as int, s[k2].0 as int, s[k2].1 as int));
                assert(painted(input, prev, setting, w as int, h as int, r.x + r.width - 1, s[k2].1 as int));
                let k3 = choose|k: int| 0 <= k < i && (#[trigger] s[k]).1 == min_y;
                assert(painted(input, prev, setting, w as int, h as int, s[k3].0 as int, s[k3].1 as int));
                assert(painted(input, prev, setting, w as int, h as int, s[k3].0 as int, r.y as int));
                let k4 = choose|k: int| 0 <= k < i && (#[trigger] s[k]).1 == max_y;
                assert(painted(input, prev, setting, w as int, h as int, s[k4].0 as int, s[k4].1 as int));
                assert(painted(input, prev, setting, w as int, h as int, s[k4].0 as int, r.y + r.height - 1));
            }
            Some(r)
        }
    }
}

impl Canvas {
    /// Ends the stroke under way; the next sample starts a new one.
    pub fn pen_stroke_end(&mut self)
        requires
            old(self).wf(),
        ensures
            final(self).wf(),
            final(self).previous() is None,
            final(self).buffer() == old(self).buffer(),
            final(self).size() == old(self).size(),
            final(self).viewport() == old(self).viewport(),
            final(self).setting() == old(self).setting(),
            final(self).background() == old(self).background(),
    {
        self.previous_input = None;
    }

    /// The area to redraw to show the whole view again: all of it.
    pub fn reflect_all(&self) -> (r: Rectangle)
        ensures
            r == (Rectangle { x: 0, y: 0, width: self.viewport().0, height: self.viewport().1 }),
    {
        Rectangle { x: 0, y: 0, width: self.viewport_size.0, height: self.viewport_size.1 }
    }

    /// Records the size of the area the canvas is shown in. The canvas keeps
    /// its size and its pixels.
    pub fn set_viewport_size(&mut self, width: usize, height: usize)
        requires
            old(self).wf(),
        ensures
            final(self).wf(),
            final(self).viewport() == (width, height),
            final(self).size() == old(self).size(),
            final(self).buffer() == old(self).buffer(),
            final(self).previous() == old(self).previous(),
            final(self).setting() == old(self).setting(),
            final(self).background() == old(self).background(),
    {
        self.viewport_size = (width, height);
    }

    /// A copy of the last sample of the stroke under way, if one is.
    pub fn previous_sample(&self) -> (p: Option<PenInput>)
        ensures
            p == self.previous(),
    {
        self.previous_input
    }

    /// The width and height of the canvas in pixels.
    pub fn get_size(&self) -> (r: (usize, usize))
        ensures
            r == self.size(),
    {
        self.canvas_size
    }

    /// Sets the pen size, in thousandths of a pixel, for the samples that follow.
    pub fn set_pen_size(&mut self, size: u32)
        requires
            old(self).wf(),
            size <= MAX_PEN_SIZE,
        ensures
            final(self).wf(),
            final(self).setting().size == size,
            final(self).previous() == old(self).previous(),
            final(self).buffer() == old(self).buffer(),
            final(self).size() == old(self).size(),
            final(self).viewport() == old(self).viewport(),
            final(self).background() == old(self).background(),
    {
        self.pen_setting.size = size;
    }

    /// The pixel buffer.
    pub fn image(&self) -> (img: &SingleVecImage)
        ensures
            *img == self.buffer(),
    {
        &self.image
    }
}

/// A stroke sample is deterministic on the canvas: two canvases that agree in
/// pixels, size, pen and stroke state end with the same bytes and the same
/// stroke state after the same sample, and report the same area to redraw.
pub proof fn lemma_stroke_deterministic(
    before1: Canvas,
    before2: Canvas,
    after1: Canvas,
    after2: Canvas,
    input: PenInput,
    changed1: Option<Rectangle>,
    changed2: Option<Rectangle>,
)
    requires
        before1.wf(),
        before2.wf(),
        before1.buffer() == before2.buffer(),
        before1.size() == before2.size(),
        before1.previous() == before2.previous(),
        before1.setting() == before2.setting(),
        stroke_effect(before1, after1, input, changed1),
        stroke_effect(before2, after2, input, changed2),
    ensures
        after1.buffer().vector@ == after2.buffer().vector@,
        after1.size() == after2.size(),
        after1.previous() == after2.previous(),
        changed1 == changed2,
{
    let w = before1.size().0 as int;
    let h = before1.size().1 as int;
    let prev = before1.previous();
    let setting = before1.setting();
    assert forall|x: int, y: int| after1.buffer().in_bounds(x, y) implies #[trigger] after1.buffer().pixel(
        x,
        y,
    ) == after2.buffer().pixel(x, y) by {
        assert(before1.buffer().in_bounds(x, y));
        assert(before2.buffer().in_bounds(x, y));
    }
    lemma_pixels_determine_bytes(after1.buffer(), after2.buffer());
    if let Some(r1) = changed1 {
        assert(changed2 is Some) by {
            let y0 = choose|y: int| #[trigger] painted(input, prev, setting, w, h, r1.x as int, y);
            assert(before2.stroke_paints(input, r1.x as int, y0));
        }
        let r2 = changed2->Some_0;
        let ya = choose|y: int| #[trigger] painted(input, prev, setting, w, h, r1.x as int, y);
        let yb = choose|y: int| #[trigger] painted(input, prev, setting, w, h, r2.x as int, y);
        let yc = choose|y: int| #[trigger] painted(input, prev, setting, w, h, r1.x + r1.width - 1, y);
        let yd = choose|y: int| #[trigger] painted(input, prev, setting, w, h, r2.x + r2.width - 1, y);
        let xa = choose|x: int| #[trigger] painted(input, prev, setting, w, h, x, r1.y as int);
        let xb = choose|x: int| #[trigger] painted(input, prev, setting, w, h, x, r2.y as int);
        let xc = choose|x: int| #[trigger] painted(input, prev, setting, w, h, x, r1.y + r1.height - 1);
        let xd = choose|x: int| #[trigger] painted(input, prev, setting, w, h, x, r2.y + r2.height - 1);
        assert(r1 == r2);
    } else {
        if changed2 is Some {
            let r2 = changed2->Some_0;
            let y0 = choose|y: int| #[trigger] painted(input, prev, setting, w, h, r2.x as int, y);
            assert(before1.stroke_paints(input, r2.x as int, y0));
        }
    }
}

} // verus!
