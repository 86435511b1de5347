use ppm::Pixel;

#[test]
fn test_pixel_values() {
    let pixel = Pixel::new(255, 0, 0);
    let pixel2 = Pixel::new(255, 0, 0);
    assert_eq!(pixel.get_r(), 255);
    assert_eq!(pixel.get_g(), 0);
    assert_eq!(pixel.get_b(), 0);
    assert_eq!(pixel, pixel2);
}

#[test]
fn test_pixel_invert() {
    let mut pixel = Pixel::new(255, 0, 0);
    let pixel2 = Pixel::new(0, 255, 255);
    pixel.invert();
    assert_eq!(pixel, pixel2);
}

#[test]
fn test_pixel_grayscale() {
    let mut pixel = Pixel::new(255, 0, 0);
    let pixel2 = Pixel::new(85, 85, 85);
    pixel.to_grayscale();
    assert_eq!(pixel, pixel2);
}

#[test]
fn invert_twice_restores_pixel() {
    let original = Pixel::new(10, 128, 255);
    let mut p = original;
    p.invert();
    assert_eq!(p, Pixel::new(245, 127, 0));
    p.invert();
    assert_eq!(p, original);
}

#[test]
fn grayscale_white_stays_white() {
    let mut p = Pixel::new(255, 255, 255);
    p.to_grayscale();
    assert_eq!(p, Pixel::new(255, 255, 255));
}

#[test]
fn grayscale_truncates_each_channel() {
    let mut p = Pixel::new(1, 1, 1);
    p.to_grayscale();
    assert_eq!(p, Pixel::new(0, 0, 0));
    let mut q = Pixel::new(2, 2, 2);
    q.to_grayscale();
    assert_eq!(q, Pixel::new(0, 0, 0));
}

#[test]
fn invert_and_grayscale_do_not_commute() {
    let mut a = Pixel::new(10, 250, 10);
    a.invert();
    a.to_grayscale();
    let mut b = Pixel::new(10, 250, 10);
    b.to_grayscale();
    b.invert();
    assert_eq!(a, Pixel::new(163, 163, 163));
    assert_eq!(b, Pixel::new(166, 166, 166));
    assert_ne!(a, b);
}

#[test]
fn pixel_text_form() {
    assert_eq!(Pixel::new(255, 0, 12).to_string(), "255 0 12 ");
    let mut out: Vec<u8> = Vec::new();
    Pixel::new(7, 80, 100).write_text(&mut out);
    assert_eq!(out, b"7 80 100 ".to_vec());
}

#[test]
fn pixel_display_form() {
    assert_eq!(Pixel::new(255, 0, 12).display(), "(255, 0, 12)");
    assert_eq!(Pixel::new(7, 80, 100).display(), "(7, 80, 100)");
}
