use vstd::prelude::*;

use crate::canvas::{stroke_effect, Canvas, Rectangle};
use crate::image::SingleVecImage;
use crate::pen::{clip_sample, clip_to_range, PenInput, MAX_PEN_SIZE, PRESSURE_SCALE};

verus! {

/// The key value of the space bar.
pub const KEY_SPACE: u32 = 0x20;

/// The key value of the left control key.
pub const KEY_CONTROL_L: u32 = 0xffe3;

/// The key value of `+` on the numeric keypad.
pub const KEY_KP_ADD: u32 = 0xffab;

/// The key value of `-` on the numeric keypad.
pub const KEY_KP_SUBTRACT: u32 = 0xffad;

/// The width and height of the canvas a view starts with.
pub const CANVAS_WIDTH: usize = 2000;

pub const CANVAS_HEIGHT: usize = 1000;

/// What a pen gesture does.
#[derive(Debug, Clone, Copy, PartialEq, Eq, Structural)]
pub enum PenKind {
    /// Drag the view.
    PanCanvas,
    /// Paint on the canvas.
    Circle,
    /// Zoom the view.
    Zoom,
}

/// The pen gesture that a set of held keys selects: space alone pans, space
/// with left control zooms, and any other set, none included, paints.
pub open spec fn mode_for(keys: Set<u32>) -> PenKind {
    if keys == set![KEY_SPACE] {
        PenKind::PanCanvas
    } else if keys == set![KEY_SPACE, KEY_CONTROL_L] {
        PenKind::Zoom
    } else {
        PenKind::Circle
    }
}

/// What the view has to do after a pen sample, besides redrawing.
#[derive(Debug, Clone, Copy, PartialEq, Eq, Structural)]
pub enum StrokeAction {
    /// The sample was painted; the canvas area to redraw, if any.
    Paint(Option<Rectangle>),
    /// Move the view by the canvas distance from the previous sample to this one.
    Pan,
    /// Zoom the view by the vertical motion since the previous sample.
    Zoom,
    /// The first sample of a pan or zoom gesture moves nothing.
    Nothing,
}

/// The result of a pen sample: the action, and whether the sample started a
/// stroke, so that its position becomes the anchor of a zoom.
#[derive(Debug, Clone, Copy, PartialEq, Eq, Structural)]
pub struct StrokeStep {
    pub action: StrokeAction,
    pub starts_stroke: bool,
}

/// What a key press asks of the view.
#[derive(Debug, Clone, Copy, PartialEq, Eq, Structural)]
pub enum KeyAction {
    /// Zoom about the view's origin by `numerator / denominator`.
    ZoomAboutOrigin { numerator: u32, denominator: u32 },
    /// The key is held; the pen gesture may have changed.
    Held,
}

/// The interaction state of a view onto a canvas: the gesture that the held
/// keys select and whether a stroke is under way. Positions on the screen
/// and the transform between screen and canvas are the host's; samples come
/// here already in canvas pixels.
pub struct Viewport {
    size: (usize, usize),
    canvas: Canvas,
    pen_kind: PenKind,
    stroking: bool,
    pressing_keys: Vec<u32>,
}

impl Viewport {
    /// The size of the area the view shows.
    pub closed spec fn size(&self) -> (usize, usize) {
        self.size
    }

    pub closed spec fn canvas_state(&self) -> Canvas {
        self.canvas
    }

    pub closed spec fn kind(&self) -> PenKind {
        self.pen_kind
    }

    /// A stroke or gesture is under way.
    pub closed spec fn in_stroke(&self) -> bool {
        self.stroking
    }

    /// The keys held down.
    pub closed spec fn keys(&self) -> Set<u32> {
        self.pressing_keys@.to_set()
    }

    pub closed spec fn keys_wf(&self) -> bool {
        self.pressing_keys@.no_duplicates()
    }

    pub open spec fn wf(&self) -> bool {
        &&& self.size().0 <= u32::MAX
        &&& self.size().1 <= u32::MAX
        &&& self.canvas_state().wf()
        &&& self.keys_wf()
        &&& self.kind() == mode_for(self.keys())
    }

    /// A view of `size` onto a white canvas of 2000 x 1000 pixels, painting,
    /// with no key held and no stroke under way.
    pub fn new(size: (usize, usize)) -> (v: Viewport)
        requires
            size.0 <= u32::MAX,
            size.1 <= u32::MAX,
        ensures
            v.wf(),
            v.size() == size,
            v.kind() == PenKind::Circle,
            !v.in_stroke(),
            v.keys() == Set::<u32>::empty(),
            v.canvas_state().size() == (CANVAS_WIDTH, CANVAS_HEIGHT),
            v.canvas_state().previous() is None,
    {
        let v = Viewport {
            size,
            canvas: Canvas::new((CANVAS_WIDTH, CANVAS_HEIGHT)),
            pen_kind: PenKind::Circle,
            stroking: false,
            pressing_keys: Vec::new(),
        };
        assert(v.pressing_keys@.to_set() =~= Set::<u32>::empty());
        assert(set![KEY_SPACE].contains(KEY_SPACE));
        assert(set![KEY_SPACE, KEY_CONTROL_L].contains(KEY_SPACE));
        v
    }

    /// Derives the pen gesture from the held keys.
    fn set_pen(&mut self)
        requires
            old(self).keys_wf(),
        ensures
            final(self).kind() == mode_for(old(self).keys()),
            final(self).canvas == old(self).canvas,
            final(self).size == old(self).size,
            final(self).stroking == old(self).stroking,
            final(self).pressing_keys == old(self).pressing_keys,
    {
        let ghost v = self.pressing_keys@;
        proof {
            v.unique_seq_to_set();
        }
        let n = self.pressing_keys.len();
        if n == 1 && self.pressing_keys[0] == KEY_SPACE {
            assert(v.to_set() =~= set![KEY_SPACE]) by {
                assert forall|k: u32| v.to_set().contains(k) implies k == KEY_SPACE by {
                    assert(v.contains(k));
                }
                assert(v[0] == KEY_SPACE);
            }
            self.pen_kind = PenKind::PanCanvas;
        } else if n == 2 && ((self.pressing_keys[0] == KEY_SPACE && self.pressing_keys[1]
            == KEY_CONTROL_L) || (self.pressing_keys[0] == KEY_CONTROL_L && self.pressing_keys[1]
            == KEY_SPACE)) {
            assert(v.to_set() =~= set![KEY_SPACE, KEY_CONTROL_L]) by {
                assert forall|k: u32| v.to_set().contains(k) implies k == KEY_SPACE || k
                    == KEY_CONTROL_L by {
                    assert(v.contains(k));
                }
                assert(v.contains(v[0]));
                assert(v.contains(v[1]));
            }
            assert(v.to_set() != set![KEY_SPACE]) by {
                assert(v.to_set().contains(KEY_CONTROL_L));
            }
            self.pen_kind = PenKind::Zoom;
        } else {
            proof {
                if v.to_set() == set![KEY_SPACE] {
                    assert(set![KEY_SPACE].len() == 1);
                    assert(v.contains(v[0]));
                    assert(set![KEY_SPACE].contains(v[0]));
                }
                if v.to_set() == set![KEY_SPACE, KEY_CONTROL_L] {
                    assert(set![KEY_SPACE, KEY_CONTROL_L].len() == 2);
                    assert(v.contains(v[0]));
                    assert(v.contains(v[1]));
                    assert(v.to_set().contains(v[0]));
                    assert(v.to_set().contains(v[1]));
                    assert(v[0] != v[1]);
                }
            }
            self.pen_kind = PenKind::Circle;
        }
    }
}

/// The position of `key` in `keys`, if it is there.
fn find_key(keys: &Vec<u32>, key: u32) -> (r: Option<usize>)
    ensures
        r matches Some(i) ==> i < keys@.len() && keys@[i as int] == key,
        r is None ==> !keys@.contains(key),
{
    let mut i: usize = 0;
    while i < keys.len()
        invariant
            i <= keys@.len(),
            forall|j: int| 0 <= j < i ==> keys@[j] != key,
        decreases keys@.len() - i,
    {
        if keys[i] == key {
            return Some(i);
        }
        i = i + 1;
    }
    None
}

impl Viewport {
    /// Handles a pen sample given in canvas pixels. Painting passes it to
    /// the canvas, clipped to the coordinate range as `clip_sample` states,
    /// so that a stroke that strays far off the canvas goes on; panning and
    /// zooming ask the host to move the view from the second sample of a
    /// gesture on. Either way a stroke is then under way.
    pub fn pen_stroke(&mut self, input: PenInput) -> (step: StrokeStep)
        requires
            old(self).wf(),
            input.pressure <= PRESSURE_SCALE,
        ensures
            final(self).wf(),
            final(self).in_stroke(),
            final(self).size() == old(self).size(),
            final(self).keys() == old(self).keys(),
            final(self).kind() == old(self).kind(),
            step.starts_stroke == !old(self).in_stroke(),
            old(self).kind() == PenKind::Circle ==> (step.action matches StrokeAction::Paint(changed)
                && stroke_effect(
                old(self).canvas_state(),
                final(self).canvas_state(),
                clip_sample(input, old(self).canvas_state().previous()),
                changed,
            )),
            old(self).kind() == PenKind::PanCanvas ==> step.action == if old(self).in_stroke() {
                StrokeAction::Pan
            } else {
                StrokeAction::Nothing
            } && final(self).canvas_state() == old(self).canvas_state(),
            old(self).kind() == PenKind::Zoom ==> step.action == if old(self).in_stroke() {
                StrokeAction::Zoom
            } else {
                StrokeAction::Nothing
            } && final(self).canvas_state() == old(self).canvas_state(),
    {
        let action = match self.pen_kind {
            PenKind::Circle => {
                let sample = clip_to_range(input, self.canvas.previous_sample());
                StrokeAction::Paint(self.canvas.pen_stroke(sample))
            },
            PenKind::PanCanvas => {
                if self.stroking {
                    StrokeAction::Pan
                } else {
                    StrokeAction::Nothing
                }
            },
            PenKind::Zoom => {
                if self.stroking {
                    StrokeAction::Zoom
                } else {
                    StrokeAction::Nothing
                }
            },
        };
        let starts_stroke = !self.stroking;
        self.stroking = true;
        StrokeStep { action, starts_stroke }
    }

    /// Ends the stroke or gesture under way.
    pub fn pen_stroke_end(&mut self)
        requires
            old(self).wf(),
        ensures
            final(self).wf(),
            !final(self).in_stroke(),
            final(self).canvas_state().previous() is None,
            final(self).canvas_state().buffer() == old(self).canvas_state().buffer(),
            final(self).canvas_state().size() == old(self).canvas_state().size(),
            final(self).canvas_state().setting() == old(self).canvas_state().setting(),
            final(self).canvas_state().viewport() == old(self).canvas_state().viewport(),
            final(self).canvas_state().background() == old(self).canvas_state().background(),
            final(self).size() == old(self).size(),
            final(self).keys() == old(self).keys(),
            final(self).kind() == old(self).kind(),
    {
        self.stroking = false;
        self.canvas.pen_stroke_end();
    }

    /// The canvas area to redraw to show the whole canvas again.
    pub fn reflect_all(&self) -> (r: Rectangle)
        ensures
            r == (Rectangle {
                x: 0,
                y: 0,
                width: self.canvas_state().viewport().0,
                height: self.canvas_state().viewport().1,
            }),
    {
        self.canvas.reflect_all()
    }

    /// Records the size of the area the view shows; the canvas keeps its
    /// size. Returns the canvas area to redraw.
    pub fn set_viewport_size(&mut self, width: usize, height: usize) -> (r: Rectangle)
        requires
            old(self).wf(),
            width <= u32::MAX,
            height <= u32::MAX,
        ensures
            final(self).wf(),
            final(self).size() == (width, height),
            final(self).canvas_state() == old(self).canvas_state(),
            final(self).in_stroke() == old(self).in_stroke(),
            final(self).keys() == old(self).keys(),
            final(self).kind() == old(self).kind(),
            r == (Rectangle {
                x: 0,
                y: 0,
                width: old(self).canvas_state().viewport().0,
                height: old(self).canvas_state().viewport().1,
            }),
    {
        self.size = (width, height);
        self.canvas.reflect_all()
    }

    /// The move that centres the canvas in the view, in half pixels: twice
    /// the view's size less the canvas's, on each axis.
    pub fn set_canvas_center(&self) -> (offset: (i64, i64))
        requires
            self.wf(),
        ensures
            offset.0 == self.size().0 - self.canvas_state().size().0,
            offset.1 == self.size().1 - self.canvas_state().size().1,
    {
        let (cw, ch) = self.canvas.get_size();
        (self.size.0 as i64 - cw as i64, self.size.1 as i64 - ch as i64)
    }

    /// A key went down. The keypad's `+` and `-` zoom about the view's origin
    /// by 3/2 and 2/3; any other key joins the held keys, which select the
    /// pen gesture.
    pub fn key_press(&mut self, key: u32) -> (action: KeyAction)
        requires
            old(self).wf(),
        ensures
            final(self).wf(),
            final(self).size() == old(self).size(),
            final(self).canvas_state() == old(self).canvas_state(),
            final(self).in_stroke() == old(self).in_stroke(),
            key == KEY_KP_ADD ==> action == (KeyAction::ZoomAboutOrigin { numerator: 3, denominator: 2 })
                && final(self).keys() == old(self).keys(),
            key == KEY_KP_SUBTRACT ==> action == (KeyAction::ZoomAboutOrigin {
                numerator: 2,
                denominator: 3,
            }) && final(self).keys() == old(self).keys(),
            key != KEY_KP_ADD && key != KEY_KP_SUBTRACT ==> action == KeyAction::Held
                && final(self).keys() == old(self).keys().insert(key),
            final(self).kind() == mode_for(final(self).keys()),
    {
        if key == KEY_KP_ADD {
            KeyAction::ZoomAboutOrigin { numerator: 3, denominator: 2 }
        } else if key == KEY_KP_SUBTRACT {
            KeyAction::ZoomAboutOrigin { numerator: 2, denominator: 3 }
        } else {
            let ghost before = self.pressing_keys@;
            if find_key(&self.pressing_keys, key).is_none() {
                self.pressing_keys.push(key);
                proof {
                    assert forall|i: int, j: int|
                        0 <= i < j < self.pressing_keys@.len() implies self.pressing_keys@[i]
                        != self.pressing_keys@[j] by {
                        if j == before.len() {
                            assert(before.contains(before[i]));
                        }
                    }
                    assert(self.pressing_keys@.to_set() =~= before.to_set().insert(key)) by {
                        assert forall|k: u32| #[trigger] self.pressing_keys@.contains(k) implies before.contains(k) || k == key by {
                            let i = choose|i: int| 0 <= i < self.pressing_keys@.len() && self.pressing_keys@[i] == k;
                            if i < before.len() {
                                assert(before[i] == k);
                            }
                        }
                        assert forall|k: u32| #[trigger] before.contains(k) implies self.pressing_keys@.contains(k) by {
                            let i = choose|i: int| 0 <= i < before.len() && before[i] == k;
                            assert(self.pressing_keys@[i] == k);
                        }
                        assert(self.pressing_keys@[before.len() as int] == key);
                    }
                }
            } else {
                assert(before.to_set() =~= before.to_set().insert(key));
            }
            self.set_pen();
            KeyAction::Held
        }
    }

    /// A key went up: it leaves the held keys, which select the pen gesture.
    pub fn key_release(&mut self, key: u32)
        requires
            old(self).wf(),
        ensures
            final(self).wf(),
            final(self).size() == old(self).size(),
            final(self).canvas_state() == old(self).canvas_state(),
            final(self).in_stroke() == old(self).in_stroke(),
            final(self).keys() == old(self).keys().remove(key),
            final(self).kind() == mode_for(final(self).keys()),
    {
        let ghost before = self.pressing_keys@;
        match find_key(&self.pressing_keys, key) {
            Some(i) => {
                self.pressing_keys.remove(i);
                proof {
                    let after = self.pressing_keys@;
                    assert forall|a: int, b: int| 0 <= a < b < after.len() implies after[a] != after[b] by {
                        let a0 = if a < i { a } else { a + 1 };
                        let b0 = if b < i { b } else { b + 1 };
                        assert(after[a] == before[a0]);
                        assert(after[b] == before[b0]);
                    }
                    assert(after.to_set() =~= before.to_set().remove(key)) by {
                        assert forall|k: u32| #[trigger] after.contains(k) implies before.contains(k) && k != key by {
                            let j = choose|j: int| 0 <= j < after.len() && after[j] == k;
                            let j0 = if j < i { j } else { j + 1 };
                            assert(before[j0] == k);
                            assert(j0 != i);
                        }
                        assert forall|k: u32| #[trigger] before.contains(k) && k != key implies after.contains(k) by {
                            let j = choose|j: int| 0 <= j < before.len() && before[j] == k;
                            assert(j != i);
                            if j < i {
                                assert(after[j] == k);
                            } else {
                                assert(after[j - 1] == k);
                            }
                        }
                    }
                }
            },
            None => {
                assert(before.to_set() =~= before.to_set().remove(key));
            },
        }
        self.set_pen();
    }

    /// Sets the pen size, in thousandths of a pixel, for the samples that follow.
    pub fn set_pen_size(&mut self, size: u32)
        requires
            old(self).wf(),
            size <= MAX_PEN_SIZE,
        ensures
            final(self).wf(),
            final(self).canvas_state().setting().size == size,
            final(self).canvas_state().buffer() == old(self).canvas_state().buffer(),
            final(self).canvas_state().previous() == old(self).canvas_state().previous(),
            final(self).size() == old(self).size(),
            final(self).keys() == old(self).keys(),
            final(self).kind() == old(self).kind(),
            final(self).in_stroke() == old(self).in_stroke(),
    {
        self.canvas.set_pen_size(size);
    }

    /// The pen gesture the held keys select.
    pub fn pen_kind(&self) -> (k: PenKind)
        ensures
            k == self.kind(),
    {
        self.pen_kind
    }

    /// The canvas the view shows.
    pub fn canvas(&self) -> (c: &Canvas)
        ensures
            *c == self.canvas_state(),
    {
        &self.canvas
    }

    /// The canvas's pixel buffer.
    pub fn image(&self) -> (img: &SingleVecImage)
        ensures
            *img == self.canvas_state().buffer(),
    {
        self.canvas.image()
    }
}

} // verus!
