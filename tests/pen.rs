use std::collections::HashSet;

use simplepaint::{
    circle_pen, circle_pen_outline, clip_to_range, in_circle, in_line, rect, rectangle, PenInput, PenSetting,
    RGB,
};

fn sample(x: i32, y: i32, pressure: u32) -> PenInput {
    PenInput { x, y, pressure }
}

fn outline_set(
    input: PenInput,
    previous: Option<PenInput>,
    size: u32,
    width: usize,
    height: usize,
) -> HashSet<(i32, i32)> {
    let out = circle_pen_outline(&input, &previous, &PenSetting { size }, width, height);
    let set: HashSet<(i32, i32)> = out.iter().copied().collect();
    assert_eq!(set.len(), out.len());
    set
}

#[test]
fn test_round() {
    assert_eq!(2.6f64.round(), 3.0);
}

#[test]
fn pen_test_round() {
    assert_eq!(2.6f64.round(), 3.0);
}

#[test]
fn test_rectangle_pen() {
    assert_eq!(
        rectangle(1).into_iter().collect::<HashSet<_>>(),
        [
            (-1, -1),
            (0, -1),
            (1, -1),
            (-1, 0),
            (0, 0),
            (1, 0),
            (-1, 1),
            (0, 1),
            (1, 1),
        ]
        .iter()
        .copied()
        .collect::<HashSet<_>>()
    );
}

#[test]
fn pen_test_rectangle_pen() {
    assert_eq!(
        rectangle(1).into_iter().collect::<HashSet<_>>(),
        [
            (-1, -1),
            (0, -1),
            (1, -1),
            (-1, 0),
            (0, 0),
            (1, 0),
            (-1, 1),
            (0, 1),
            (1, 1),
        ]
        .iter()
        .copied()
        .collect::<HashSet<_>>()
    );
}

#[test]
fn rect_lists_points_in_x_major_order() {
    assert_eq!(rect(2, 3, -1, 0), vec![(2, -1), (2, 0), (3, -1), (3, 0)]);
    assert!(rect(3, 2, 0, 0).is_empty());
    assert_eq!(rectangle(0), vec![(0, 0)]);
}

#[test]
fn disk_containment_radius_five() {
    // pressure 1.0 times size 5 pixels: radius 5
    let set = outline_set(sample(10, 10, 1000), None, 5000, 100, 100);
    assert!(set.contains(&(10, 10)));
    // distance sqrt(20), about 4.47
    assert!(set.contains(&(14, 12)));
    // distance sqrt(26), about 5.1
    assert!(!set.contains(&(15, 11)));
    // distance exactly 5: the boundary is left out
    assert!(!set.contains(&(13, 14)));
    assert!(!set.contains(&(15, 10)));
    assert_eq!(set.len(), 69);
}

#[test]
fn bounds_clipping_near_corner() {
    let out = circle_pen_outline(&sample(-3, -3, 1000), &None, &PenSetting { size: 5000 }, 100, 100);
    assert!(out.iter().all(|&(x, y)| x >= 0 && y >= 0));
    assert_eq!(out, vec![(0, 0)]);
}

#[test]
fn clipping_on_far_edges() {
    let set = outline_set(sample(99, 99, 1000), None, 2000, 100, 100);
    assert!(set.iter().all(|&(x, y)| x < 100 && y < 100));
    // of the 9 pixels of a radius-2 disk, the 4 with x, y <= 99 remain
    assert_eq!(
        set,
        [(98, 98), (98, 99), (99, 98), (99, 99)].iter().copied().collect::<HashSet<_>>()
    );
}

#[test]
fn zero_pressure_paints_nothing() {
    assert!(outline_set(sample(10, 10, 0), None, 20000, 100, 100).is_empty());
    assert!(outline_set(sample(10, 10, 0), Some(sample(20, 10, 0)), 20000, 100, 100).is_empty());
}

#[test]
fn rasterizing_is_deterministic() {
    let a = circle_pen_outline(
        &sample(30, 40, 700),
        &Some(sample(12, 17, 300)),
        &PenSetting { size: 9000 },
        64,
        64,
    );
    let b = circle_pen_outline(
        &sample(30, 40, 700),
        &Some(sample(12, 17, 300)),
        &PenSetting { size: 9000 },
        64,
        64,
    );
    assert_eq!(a, b);
}

#[test]
fn segment_covers_both_end_disks() {
    let current = sample(40, 22, 800);
    let previous = sample(15, 30, 400);
    let segment = outline_set(current, Some(previous), 10000, 80, 60);
    let end1 = outline_set(current, None, 10000, 80, 60);
    let end2 = outline_set(previous, None, 10000, 80, 60);
    assert!(end1.is_subset(&segment));
    assert!(end2.is_subset(&segment));
    assert!(segment.len() > end1.union(&end2).count());
}

#[test]
fn band_between_distant_samples() {
    // radius 4 at both ends, 20 pixels apart on a row
    let set = outline_set(sample(30, 10, 1000), Some(sample(10, 10, 1000)), 4000, 100, 100);
    // half way, 3 rows off the segment: only the band reaches it
    assert!(set.contains(&(20, 13)));
    assert!(set.contains(&(20, 7)));
    // 4 rows off: the half width is 4, and the boundary is left out
    assert!(!set.contains(&(20, 14)));
    assert!(!set.contains(&(20, 6)));
    // the band spans the whole segment and 7 rows
    for x in 10..=30 {
        for y in 7..=13 {
            assert!(set.contains(&(x, y)));
        }
    }
    // 21 columns of 7 rows, and beyond the ends 19 pixels of each disk
    assert_eq!(set.len(), 21 * 7 + 2 * 19);
}

#[test]
fn band_tapers_between_radii() {
    // radius 2 at (10, 10) growing to radius 10 at (50, 10)
    let set = outline_set(sample(50, 10, 1000), Some(sample(10, 10, 200)), 10000, 100, 100);
    // at x = 30 the half width is 6
    assert!(set.contains(&(30, 15)));
    assert!(!set.contains(&(30, 16)));
    // at x = 20 it is 4
    assert!(set.contains(&(20, 13)));
    assert!(!set.contains(&(20, 14)));
}

#[test]
fn zero_length_segment_is_a_disk() {
    let segment = outline_set(sample(20, 20, 1000), Some(sample(20, 20, 500)), 6000, 50, 50);
    let disk = outline_set(sample(20, 20, 1000), None, 6000, 50, 50);
    assert_eq!(segment, disk);
}

#[test]
fn circle_pen_paints_black() {
    let out = circle_pen(&sample(5, 5, 1000), &None, &PenSetting { size: 2000 }, 20, 20);
    assert_eq!(out.len(), 9);
    let black = RGB::new(0, 0, 0);
    assert!(out.iter().all(|&(_, c)| c == black));
    let pixels: HashSet<(i32, i32)> = out.iter().map(|&(p, _)| p).collect();
    assert!(pixels.contains(&(5, 5)));
    assert!(pixels.contains(&(6, 6)));
    assert!(!pixels.contains(&(7, 5)));
}

#[test]
fn point_tests() {
    // radius 5 pixels
    assert!(in_circle(13, 13, 10, 10, 5_000_000));
    assert!(!in_circle(13, 14, 10, 10, 5_000_000));
    assert!(!in_circle(10, 10, 10, 10, 0));
    // a segment from (0, 0) to (10, 0), radius 2 at both ends
    assert!(in_line(5, 1, 0, 0, 2_000_000, 10, 0, 2_000_000));
    assert!(!in_line(5, 2, 0, 0, 2_000_000, 10, 0, 2_000_000));
    assert!(!in_line(-1, 0, 0, 0, 2_000_000, 10, 0, 2_000_000));
    assert!(!in_line(11, 0, 0, 0, 2_000_000, 10, 0, 2_000_000));
    assert!(!in_line(0, 0, 0, 0, 2_000_000, 0, 0, 2_000_000));
}

#[test]
fn clipping_samples_to_the_coordinate_range() {
    let kept = clip_to_range(sample(-29000, 100, 300), Some(sample(0, 0, 1000)));
    assert_eq!((kept.x, kept.y, kept.pressure), (-29000, 100, 300));
    let c = clip_to_range(sample(40000, 500, 700), Some(sample(100, 500, 1000)));
    assert_eq!((c.x, c.y, c.pressure), (30000, 500, 700));
    // half way to (60000, 30000) the segment leaves the range
    let c = clip_to_range(sample(60000, 30000, 1000), Some(sample(0, 0, 1000)));
    assert_eq!((c.x, c.y), (30000, 15000));
    // x leaves at 1/2 of the way, y only at 2/3
    let c = clip_to_range(sample(-60000, 45000, 1000), Some(sample(0, 0, 1000)));
    assert_eq!((c.x, c.y), (-30000, 22500));
    // the other coordinate rounds towards the previous sample
    let c = clip_to_range(sample(30003, -7, 1000), Some(sample(0, 0, 1000)));
    assert_eq!((c.x, c.y), (30000, -6));
    let c = clip_to_range(sample(40000, -40000, 1000), None);
    assert_eq!((c.x, c.y), (30000, -30000));
}

#[test]
fn equal_components_make_equal_colours() {
    assert_eq!(RGB::new(1, 2, 3), RGB::new(1, 2, 3));
    assert_ne!(RGB::new(1, 2, 3), RGB::new(3, 2, 1));
}
