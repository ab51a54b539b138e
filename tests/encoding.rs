use raytracer::color::{write_color, write_decimal, write_header, write_row, Rgb};
use raytracer::image::ImageBuffer;

fn text(bytes: &[u8]) -> String {
    String::from_utf8(bytes.to_vec()).unwrap()
}

#[test]
fn decimal_digits() {
    for (n, s) in [(0u32, "0"), (7, "7"), (10, "10"), (255, "255"), (1920, "1920"), (u32::MAX, "4294967295")] {
        let mut out = Vec::new();
        write_decimal(&mut out, n);
        assert_eq!(text(&out), s);
    }
}

#[test]
fn pixel_line_red() {
    let mut out = Vec::new();
    write_color(&mut out, &Rgb::new(255, 0, 0));
    assert_eq!(text(&out), "255 0 0\n");
}

#[test]
fn pixel_line_appends() {
    let mut out = b"x".to_vec();
    write_color(&mut out, &Rgb::new(1, 22, 133));
    assert_eq!(text(&out), "x1 22 133\n");
}

#[test]
fn header_text() {
    let mut out = Vec::new();
    write_header(&mut out, 1920, 1080);
    assert_eq!(text(&out), "P3\n1920 1080\n255\n");
}

#[test]
fn row_text_in_order() {
    let mut out = Vec::new();
    write_row(&mut out, &vec![Rgb::new(1, 2, 3), Rgb::black(), Rgb::new(255, 255, 255)]);
    assert_eq!(text(&out), "1 2 3\n0 0 0\n255 255 255\n");
}

#[test]
fn empty_row_text() {
    let mut out = Vec::new();
    write_row(&mut out, &Vec::new());
    assert!(out.is_empty());
}

#[test]
fn black_image_text() {
    let img = ImageBuffer::new(2, 1);
    assert_eq!(text(&img.to_ppm()), "P3\n2 1\n255\n0 0 0\n0 0 0\n");
}

#[test]
fn empty_image_text() {
    let img = ImageBuffer::new(0, 0);
    assert_eq!(text(&img.to_ppm()), "P3\n0 0\n255\n");
}
