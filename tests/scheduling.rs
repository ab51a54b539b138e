use raytracer::args::parse_jobs_flag;
use raytracer::color::Rgb;
use raytracer::image::Image;
use raytracer::render::{Render, RenderError};
use raytracer::tile::Tile;

fn image(width: u32, height: u32) -> Image {
    Image { height, width, samples: 1, bounce_depth: 1 }
}

fn fill(t: &mut Tile, c: Rgb) {
    for i in 0..t.height() {
        for j in 0..t.width() {
            t.set_pixel(i, j, c);
        }
    }
}

#[test]
fn first_dispatch_is_bounded_by_workers() {
    let mut r = Render::new(image(25, 15), 10, 10, 4);
    let mut handed = Vec::new();
    while let Some(t) = r.dispatch() {
        handed.push(t.index());
    }
    assert_eq!(handed, vec![0, 1, 2, 3]);
    assert!(!r.is_finished());
}

#[test]
fn more_workers_than_tiles() {
    let mut r = Render::new(image(25, 15), 10, 10, 16);
    let mut handed = Vec::new();
    while let Some(t) = r.dispatch() {
        handed.push(t.index());
    }
    assert_eq!(handed, vec![0, 1, 2, 3, 4, 5]);
}

#[test]
fn completion_frees_a_worker() {
    let mut r = Render::new(image(25, 15), 10, 10, 2);
    let a = r.dispatch().unwrap();
    let b = r.dispatch().unwrap();
    assert!(r.dispatch().is_none());
    assert_eq!(r.complete(b), Ok(()));
    let c = r.dispatch().unwrap();
    assert_eq!(c.index(), 2);
    assert!(r.dispatch().is_none());
    assert_eq!(r.complete(a), Ok(()));
    assert_eq!(r.dispatch().unwrap().index(), 3);
}

#[test]
fn unknown_or_repeated_tiles_are_refused() {
    let img = image(25, 15);
    let mut r = Render::new(img, 10, 10, 2);
    let a = r.dispatch().unwrap();
    // Not handed out yet.
    assert_eq!(r.complete(Tile::new(10, 10, 4, img)), Err(RenderError::UnexpectedTile));
    // Handed out, but cut for another image.
    assert_eq!(r.complete(Tile::new(10, 10, 0, image(5, 5))), Err(RenderError::UnexpectedTile));
    assert_eq!(r.complete(a), Ok(()));
    // Already merged.
    assert_eq!(r.complete(Tile::new(10, 10, 0, img)), Err(RenderError::UnexpectedTile));
}

#[test]
fn empty_image_is_finished_at_once() {
    let mut r = Render::new(image(0, 0), 10, 10, 3);
    assert!(r.is_finished());
    assert!(r.dispatch().is_none());
    let text = String::from_utf8(r.canvas().to_ppm()).unwrap();
    assert_eq!(text, "P3\n0 0\n255\n");
}

#[test]
fn full_render_assembles_every_tile() {
    let (w, h) = (25u32, 15u32);
    let mut r = Render::new(image(w, h), 10, 10, 3);
    let mut in_flight: Vec<Tile> = Vec::new();
    while let Some(t) = r.dispatch() {
        in_flight.push(t);
    }
    // Tiles come back out of order: always the most recently handed out.
    while !r.is_finished() {
        let mut t = in_flight.pop().expect("a tile is in flight while the render is unfinished");
        let k = t.index() as u8;
        fill(&mut t, Rgb::new(k, k, k));
        assert_eq!(r.complete(t), Ok(()));
        while let Some(t) = r.dispatch() {
            in_flight.push(t);
        }
    }
    assert!(in_flight.is_empty());
    let canvas = r.canvas();
    for y in 0..h {
        for x in 0..w {
            let k = ((y / 10) * 3 + x / 10) as u8;
            assert_eq!(canvas.pixel(x, y), Rgb::new(k, k, k));
        }
    }
}

#[test]
fn jobs_flag_accepts_positive_counts() {
    assert_eq!(parse_jobs_flag("-j4"), Some(4));
    assert_eq!(parse_jobs_flag("-j1"), Some(1));
    assert_eq!(parse_jobs_flag("-j016"), Some(16));
    assert_eq!(parse_jobs_flag(&format!("-j{}", usize::MAX)), Some(usize::MAX));
}

#[test]
fn jobs_flag_rejects_the_rest() {
    for arg in ["", "-j", "-j0", "-j00", "-jx", "-j4x", "4", "-k4", "j4", "--j4", "-j+4", "-j-4"] {
        assert_eq!(parse_jobs_flag(arg), None, "{arg:?}");
    }
    assert_eq!(parse_jobs_flag(&format!("-j{}0", usize::MAX)), None);
    assert_eq!(parse_jobs_flag("-j99999999999999999999999999"), None);
}
