use raytracer::color::Rgb;
use raytracer::image::{Image, ImageBuffer};
use raytracer::tile::{count_tiles, count_tiles_across, tile_bounds, Tile};

fn image(width: u32, height: u32) -> Image {
    Image { height, width, samples: 1, bounce_depth: 1 }
}

#[test]
fn columns_round_up() {
    assert_eq!(count_tiles_across(1920, 10), 192);
    assert_eq!(count_tiles_across(25, 10), 3);
    assert_eq!(count_tiles_across(10, 10), 1);
    assert_eq!(count_tiles_across(1, 10), 1);
    assert_eq!(count_tiles_across(0, 10), 0);
    assert_eq!(count_tiles_across(u32::MAX, 1), u32::MAX);
    assert_eq!(count_tiles_across(u32::MAX, 2), 1u32 << 31);
}

#[test]
fn tile_total() {
    assert_eq!(count_tiles(image(1920, 1080), 10, 10), 192 * 108);
    assert_eq!(count_tiles(image(25, 15), 10, 10), 6);
    assert_eq!(count_tiles(image(0, 15), 10, 10), 0);
    assert_eq!(count_tiles(image(u32::MAX, u32::MAX), 1, 1), (u32::MAX as u64) * (u32::MAX as u64));
}

#[test]
fn tiles_clip_at_edges() {
    let img = image(25, 15);
    assert_eq!(tile_bounds(10, 10, 0, img), (0, 0, 10, 10));
    assert_eq!(tile_bounds(10, 10, 1, img), (10, 0, 10, 10));
    assert_eq!(tile_bounds(10, 10, 2, img), (20, 0, 5, 10));
    assert_eq!(tile_bounds(10, 10, 3, img), (0, 10, 10, 5));
    assert_eq!(tile_bounds(10, 10, 5, img), (20, 10, 5, 5));
}

#[test]
fn new_tile_is_black_and_placed() {
    let t = Tile::new(10, 10, 5, image(25, 15));
    assert_eq!(t.index(), 5);
    assert_eq!((t.start_x(), t.start_y(), t.width(), t.height()), (20, 10, 5, 5));
    for i in 0..5 {
        for j in 0..5 {
            assert_eq!(t.pixel(i, j), Rgb::black());
        }
    }
}

#[test]
fn tile_pixels_are_set_one_by_one() {
    let mut t = Tile::new(4, 3, 0, image(3, 4));
    t.set_pixel(2, 1, Rgb::new(9, 8, 7));
    assert_eq!(t.pixel(2, 1), Rgb::new(9, 8, 7));
    assert_eq!(t.pixel(1, 2), Rgb::black());
    assert_eq!((t.width(), t.height()), (3, 4));
}

// Every pixel of the image lies in exactly one tile, and every tile lies
// inside the image.
fn check_partition(w: u32, h: u32, tw: u32, th: u32) {
    let img = image(w, h);
    let n = count_tiles(img, tw, th) as u32;
    let mut hits = vec![vec![0u32; w as usize]; h as usize];
    for k in 0..n {
        let (x, y, tw_k, th_k) = tile_bounds(th, tw, k, img);
        assert!(tw_k >= 1 && th_k >= 1);
        assert!(x + tw_k <= w && y + th_k <= h);
        for py in y..y + th_k {
            for px in x..x + tw_k {
                hits[py as usize][px as usize] += 1;
            }
        }
    }
    assert!(hits.iter().all(|row| row.iter().all(|&c| c == 1)));
}

#[test]
fn tiles_cover_image_once() {
    check_partition(25, 15, 10, 10);
    check_partition(20, 20, 10, 10);
    check_partition(7, 3, 2, 5);
    check_partition(1, 1, 10, 10);
    check_partition(13, 11, 1, 1);
    check_partition(64, 36, 7, 3);
}

#[test]
fn merge_writes_only_the_tile() {
    let img = image(25, 15);
    let mut buf = ImageBuffer::new(25, 15);
    let mut t = Tile::new(10, 10, 5, img);
    for i in 0..5 {
        for j in 0..5 {
            t.set_pixel(i, j, Rgb::new(i as u8, j as u8, 1));
        }
    }
    assert!(buf.holds(&t));
    buf.merge(&t);
    for y in 0..15u32 {
        for x in 0..25u32 {
            let expected = if x >= 20 && y >= 10 {
                Rgb::new((y - 10) as u8, (x - 20) as u8, 1)
            } else {
                Rgb::black()
            };
            assert_eq!(buf.pixel(x, y), expected);
        }
    }
}

#[test]
fn tile_outside_buffer_is_not_held() {
    let t = Tile::new(10, 10, 5, image(25, 15));
    assert!(!ImageBuffer::new(24, 15).holds(&t));
    assert!(!ImageBuffer::new(25, 14).holds(&t));
    assert!(ImageBuffer::new(25, 15).holds(&t));
}

#[test]
fn image_text_is_written_top_row_first() {
    let img = image(2, 2);
    let mut buf = ImageBuffer::new(2, 2);
    let mut t = Tile::new(2, 2, 0, img);
    t.set_pixel(0, 0, Rgb::new(1, 1, 1));
    t.set_pixel(0, 1, Rgb::new(2, 2, 2));
    t.set_pixel(1, 0, Rgb::new(3, 3, 3));
    t.set_pixel(1, 1, Rgb::new(4, 4, 4));
    buf.merge(&t);
    let text = String::from_utf8(buf.to_ppm()).unwrap();
    assert_eq!(text, "P3\n2 2\n255\n3 3 3\n4 4 4\n1 1 1\n2 2 2\n");
}
