use simplepaint::{
    KeyAction, PenInput, PenKind, Rectangle, StrokeAction, Viewport, CANVAS_HEIGHT, CANVAS_WIDTH,
    KEY_CONTROL_L, KEY_KP_ADD, KEY_KP_SUBTRACT, KEY_SPACE, RGB,
};

fn sample(x: i32, y: i32, pressure: u32) -> PenInput {
    PenInput { x, y, pressure }
}

#[test]
fn mode_derivation_table() {
    let mut v = Viewport::new((800, 600));
    assert_eq!(v.pen_kind(), PenKind::Circle);
    assert_eq!(v.key_press(KEY_SPACE), KeyAction::Held);
    assert_eq!(v.pen_kind(), PenKind::PanCanvas);
    v.key_press(KEY_CONTROL_L);
    assert_eq!(v.pen_kind(), PenKind::Zoom);
    v.key_release(KEY_SPACE);
    assert_eq!(v.pen_kind(), PenKind::Circle);
    v.key_release(KEY_CONTROL_L);
    assert_eq!(v.pen_kind(), PenKind::Circle);
}

#[test]
fn control_before_space_also_zooms() {
    let mut v = Viewport::new((800, 600));
    v.key_press(KEY_CONTROL_L);
    assert_eq!(v.pen_kind(), PenKind::Circle);
    v.key_press(KEY_SPACE);
    assert_eq!(v.pen_kind(), PenKind::Zoom);
    // holding a key twice changes nothing
    v.key_press(KEY_SPACE);
    assert_eq!(v.pen_kind(), PenKind::Zoom);
    v.key_release(KEY_CONTROL_L);
    assert_eq!(v.pen_kind(), PenKind::PanCanvas);
}

#[test]
fn other_keys_fall_back_to_drawing() {
    let mut v = Viewport::new((800, 600));
    v.key_press(KEY_SPACE);
    v.key_press(0x61);
    assert_eq!(v.pen_kind(), PenKind::Circle);
    v.key_release(0x61);
    assert_eq!(v.pen_kind(), PenKind::PanCanvas);
    v.key_release(0x62);
    assert_eq!(v.pen_kind(), PenKind::PanCanvas);
}

#[test]
fn keypad_zoom_shortcuts() {
    let mut v = Viewport::new((800, 600));
    assert_eq!(
        v.key_press(KEY_KP_ADD),
        KeyAction::ZoomAboutOrigin { numerator: 3, denominator: 2 }
    );
    assert_eq!(
        v.key_press(KEY_KP_SUBTRACT),
        KeyAction::ZoomAboutOrigin { numerator: 2, denominator: 3 }
    );
    assert_eq!(v.pen_kind(), PenKind::Circle);
    v.key_press(KEY_SPACE);
    v.key_press(KEY_KP_ADD);
    assert_eq!(v.pen_kind(), PenKind::PanCanvas);
}

#[test]
fn drawing_reaches_the_canvas() {
    let mut v = Viewport::new((800, 600));
    v.set_pen_size(1000);
    let step = v.pen_stroke(sample(100, 200, 1000));
    assert!(step.starts_stroke);
    assert_eq!(
        step.action,
        StrokeAction::Paint(Some(Rectangle { x: 100, y: 200, width: 1, height: 1 }))
    );
    assert_eq!(v.image().get(100, 200), RGB::new(0, 0, 0));
    let step = v.pen_stroke(sample(103, 200, 1000));
    assert!(!step.starts_stroke);
    assert_eq!(
        step.action,
        StrokeAction::Paint(Some(Rectangle { x: 100, y: 200, width: 4, height: 1 }))
    );
    v.pen_stroke_end();
    assert!(v.pen_stroke(sample(0, 0, 1000)).starts_stroke);
}

#[test]
fn sample_off_the_canvas_draws_nothing() {
    let mut v = Viewport::new((800, 600));
    let step = v.pen_stroke(sample(-50, -50, 1000));
    assert_eq!(step.action, StrokeAction::Paint(None));
    assert_eq!(v.image().get(0, 0), RGB::new(0xff, 0xff, 0xff));
}

#[test]
fn stroke_past_the_coordinate_range_goes_on() {
    let mut v = Viewport::new((800, 600));
    // radius 20 pixels
    assert_eq!(
        v.pen_stroke(sample(100, 500, 1000)).action,
        StrokeAction::Paint(Some(Rectangle { x: 81, y: 481, width: 39, height: 39 }))
    );
    // clipped to (30000, 500): the band still runs to the canvas's right edge
    assert_eq!(
        v.pen_stroke(sample(40000, 500, 1000)).action,
        StrokeAction::Paint(Some(Rectangle { x: 81, y: 481, width: 1919, height: 39 }))
    );
    assert_eq!(v.image().get(1999, 519), RGB::new(0, 0, 0));
    assert_eq!(v.image().get(1999, 520), RGB::new(0xff, 0xff, 0xff));
    // the stroke goes on from the clipped sample: the band back from it
    // reaches pixels that the new sample's disk alone would not
    match v.pen_stroke(sample(1900, 600, 1000)).action {
        StrokeAction::Paint(Some(r)) => assert_eq!((r.x, r.x + r.width), (1881, 2000)),
        other => panic!("expected a painted area, got {:?}", other),
    }
    assert_eq!(v.image().get(1990, 600), RGB::new(0, 0, 0));
    assert_eq!(v.image().get(1990, 650), RGB::new(0xff, 0xff, 0xff));
    assert_eq!(v.canvas().get_size(), (CANVAS_WIDTH, CANVAS_HEIGHT));
}

#[test]
fn pan_and_zoom_gestures() {
    let mut v = Viewport::new((800, 600));
    v.key_press(KEY_SPACE);
    let step = v.pen_stroke(sample(10, 10, 200));
    assert_eq!(step.action, StrokeAction::Nothing);
    assert!(step.starts_stroke);
    let step = v.pen_stroke(sample(20, 10, 200));
    assert_eq!(step.action, StrokeAction::Pan);
    assert!(!step.starts_stroke);
    v.key_press(KEY_CONTROL_L);
    assert_eq!(v.pen_stroke(sample(20, 5, 200)).action, StrokeAction::Zoom);
    v.pen_stroke_end();
    assert_eq!(v.pen_stroke(sample(20, 5, 200)).action, StrokeAction::Nothing);
    // panning and zooming leave the pixels alone
    assert_eq!(v.image().get(10, 10), RGB::new(0xff, 0xff, 0xff));
    assert_eq!(v.image().get(20, 10), RGB::new(0xff, 0xff, 0xff));
}

#[test]
fn canvas_center_and_redraw_area() {
    let mut v = Viewport::new((0, 0));
    let r = v.set_viewport_size(2400, 1300);
    assert_eq!(r, Rectangle { x: 0, y: 0, width: 2000, height: 1000 });
    assert_eq!(v.set_canvas_center(), (400, 300));
    v.set_viewport_size(1000, 501);
    assert_eq!(v.set_canvas_center(), (-1000, -499));
    assert_eq!(v.reflect_all(), Rectangle { x: 0, y: 0, width: 2000, height: 1000 });
}
