use simplepaint::{SingleVecImage, RGB};

#[test]
fn rgb_channels_and_byte_order() {
    let c = RGB::new(1, 2, 3);
    assert_eq!(c.r(), 1);
    assert_eq!(c.g(), 2);
    assert_eq!(c.b(), 3);
    let img = SingleVecImage::new(c, 1, 1);
    assert_eq!(img.vector, vec![3, 2, 1, 0]);
}

#[test]
fn new_fills_every_pixel() {
    let img = SingleVecImage::new(RGB::new(9, 8, 7), 3, 2);
    assert_eq!(img.width, 3);
    assert_eq!(img.height, 2);
    assert_eq!(img.vector.len(), 24);
    for y in 0..2 {
        for x in 0..3 {
            assert_eq!(img.get(x, y), RGB::new(9, 8, 7));
        }
    }
}

#[test]
fn empty_image() {
    let img = SingleVecImage::new(RGB::new(9, 8, 7), 0, 5);
    assert!(img.vector.is_empty());
}

#[test]
fn set_changes_one_pixel() {
    let mut img = SingleVecImage::new(RGB::new(0, 0, 0), 3, 2);
    img.set(2, 1, RGB::new(10, 20, 30));
    assert_eq!(img.get(2, 1), RGB::new(10, 20, 30));
    assert_eq!(&img.vector[20..24], &[30, 20, 10, 0]);
    assert_eq!(img.get(1, 1), RGB::new(0, 0, 0));
    assert_eq!(img.get(2, 0), RGB::new(0, 0, 0));
}

#[test]
fn extend_keeps_pixels_and_fills_background() {
    let mut img = SingleVecImage::new(RGB::new(0, 0, 0), 2, 2);
    img.set(1, 0, RGB::new(5, 5, 5));
    img.extend(1, 0, RGB::new(9, 9, 9));
    assert_eq!((img.width, img.height), (3, 2));
    assert_eq!(img.get(1, 0), RGB::new(5, 5, 5));
    assert_eq!(img.get(0, 1), RGB::new(0, 0, 0));
    assert_eq!(img.get(2, 0), RGB::new(9, 9, 9));
    assert_eq!(img.get(2, 1), RGB::new(9, 9, 9));
    img.extend(0, 2, RGB::new(7, 7, 7));
    assert_eq!((img.width, img.height), (3, 4));
    assert_eq!(img.vector.len(), 4 * 12);
    assert_eq!(img.get(1, 0), RGB::new(5, 5, 5));
    assert_eq!(img.get(0, 3), RGB::new(7, 7, 7));
    img.extend(1, 1, RGB::new(1, 2, 3));
    assert_eq!((img.width, img.height), (4, 5));
    assert_eq!(img.vector.len(), 4 * 20);
    assert_eq!(img.get(3, 0), RGB::new(1, 2, 3));
    assert_eq!(img.get(0, 4), RGB::new(1, 2, 3));
    assert_eq!(img.get(2, 3), RGB::new(7, 7, 7));
}
