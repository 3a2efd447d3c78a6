use simplepaint::{Canvas, PenInput, Rectangle, SingleVecImage, DEFAULT_PEN_SIZE, RGB};

fn sample(x: i32, y: i32, pressure: u32) -> PenInput {
    PenInput { x, y, pressure }
}

fn is_black(img: &SingleVecImage, x: usize, y: usize) -> bool {
    img.get(x, y) == RGB::new(0, 0, 0)
}

fn count_black(img: &SingleVecImage) -> usize {
    let mut n = 0;
    for y in 0..img.height {
        for x in 0..img.width {
            if is_black(img, x, y) {
                n += 1;
            }
        }
    }
    n
}

#[test]
fn new_canvas_is_white() {
    let canvas = Canvas::new((50, 40));
    assert_eq!(canvas.get_size(), (50, 40));
    let img = canvas.image();
    assert_eq!(img.vector.len(), 4 * 50 * 40);
    assert_eq!(img.get(0, 0), RGB::new(0xff, 0xff, 0xff));
    assert_eq!(img.get(49, 39), RGB::new(0xff, 0xff, 0xff));
    assert_eq!(count_black(img), 0);
    assert_eq!(DEFAULT_PEN_SIZE, 20000);
}

#[test]
fn end_to_end_strokes() {
    let mut canvas = Canvas::new((50, 50));
    canvas.set_pen_size(4000);
    let changed = canvas.pen_stroke(sample(25, 25, 1000));
    // a disk of radius 4: the pixels with dx^2 + dy^2 < 16
    assert_eq!(count_black(canvas.image()), 45);
    assert!(is_black(canvas.image(), 25, 25));
    assert!(!is_black(canvas.image(), 29, 25));
    assert_eq!(changed, Some(Rectangle { x: 22, y: 22, width: 7, height: 7 }));

    let changed = canvas.pen_stroke(sample(30, 25, 1000));
    assert_eq!(changed, Some(Rectangle { x: 22, y: 22, width: 12, height: 7 }));
    for x in 25..=30 {
        for y in 22..=28 {
            assert!(is_black(canvas.image(), x, y));
        }
    }
    // columns 22..=33: 5, 7, 7, six of the band's 7 rows, 7, 7, 5
    assert_eq!(count_black(canvas.image()), 5 + 7 + 7 + 6 * 7 + 7 + 7 + 5);

    canvas.pen_stroke_end();
    let changed = canvas.pen_stroke(sample(25, 25, 1000));
    // a fresh disk: nothing joins it to (30, 25)
    assert_eq!(changed, Some(Rectangle { x: 22, y: 22, width: 7, height: 7 }));
}

#[test]
fn off_canvas_sample_changes_nothing() {
    let mut canvas = Canvas::new((100, 100));
    assert_eq!(canvas.pen_stroke(sample(-100, -100, 1000)), None);
    assert_eq!(canvas.pen_stroke(sample(-100, 500, 1000)), None);
    assert_eq!(count_black(canvas.image()), 0);
}

#[test]
fn stroke_that_crosses_the_canvas_paints() {
    let mut canvas = Canvas::new((100, 100));
    assert_eq!(canvas.pen_stroke(sample(-200, 50, 1000)), None);
    // the band from (-200, 50) to (300, 50) crosses every column
    let changed = canvas.pen_stroke(sample(300, 50, 1000));
    assert_eq!(changed, Some(Rectangle { x: 0, y: 31, width: 100, height: 39 }));
    assert!(is_black(canvas.image(), 0, 50));
    assert!(is_black(canvas.image(), 99, 69));
    assert!(!is_black(canvas.image(), 99, 70));
}

#[test]
fn reflect_all_covers_the_viewport() {
    let mut canvas = Canvas::new((30, 20));
    assert_eq!(canvas.reflect_all(), Rectangle { x: 0, y: 0, width: 30, height: 20 });
    canvas.set_viewport_size(40, 10);
    assert_eq!(canvas.reflect_all(), Rectangle { x: 0, y: 0, width: 40, height: 10 });
}

#[test]
fn viewport_size_keeps_the_canvas() {
    let mut canvas = Canvas::new((10, 10));
    canvas.set_pen_size(1000);
    canvas.pen_stroke(sample(9, 9, 1000));
    let before = canvas.image().vector.clone();
    canvas.set_viewport_size(15, 8);
    assert_eq!(canvas.get_size(), (10, 10));
    assert_eq!(canvas.reflect_all(), Rectangle { x: 0, y: 0, width: 15, height: 8 });
    let img = canvas.image();
    assert_eq!((img.width, img.height), (10, 10));
    assert_eq!(img.vector, before);
    assert!(is_black(img, 9, 9));
    assert_eq!(count_black(img), 1);
    // the stroke under way goes on: the next sample joins the last one
    assert_eq!(
        canvas.pen_stroke(sample(7, 9, 1000)),
        Some(Rectangle { x: 7, y: 9, width: 3, height: 1 })
    );
}

#[test]
fn pen_size_applies_to_later_samples() {
    let mut canvas = Canvas::new((40, 40));
    canvas.set_pen_size(1000);
    canvas.pen_stroke(sample(10, 10, 1000));
    assert_eq!(count_black(canvas.image()), 1);
    canvas.pen_stroke_end();
    canvas.set_pen_size(2000);
    canvas.pen_stroke(sample(30, 30, 1000));
    assert_eq!(count_black(canvas.image()), 1 + 9);
}
