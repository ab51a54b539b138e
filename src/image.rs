use vstd::prelude::*;

use crate::color::{ppm_text, row_text, rows_text, write_header, write_row, Rgb};
use crate::tile::{Tile, TileView};

verus! {

/// The configuration of one render: resolution in pixels, camera samples per
/// pixel and the bounce budget of each path.
#[derive(Clone, Copy, Debug)]
pub struct Image {
    pub height: u32,
    pub width: u32,
    pub samples: u32,
    pub bounce_depth: u32,
}

/// The abstract value of an image buffer: its size and its pixels,
/// `pixels[y][x]`, with row 0 at the bottom of the picture.
pub struct ImageView {
    pub width: int,
    pub height: int,
    pub pixels: Seq<Seq<Rgb>>,
}

impl ImageView {
    /// `height` rows of `width` pixels each.
    pub open spec fn wf(self) -> bool {
        &&& self.pixels.len() == self.height
        &&& self.height <= u32::MAX
        &&& forall|y: int| 0 <= y < self.height ==> #[trigger] self.pixels[y].len() == self.width
    }

    /// The pixel at column `x`, row `y`.
    pub open spec fn at(self, x: int, y: int) -> Rgb {
        self.pixels[y][x]
    }

    pub open spec fn in_bounds(self, x: int, y: int) -> bool {
        0 <= x < self.width && 0 <= y < self.height
    }

    /// The tile's rectangle lies inside the image.
    pub open spec fn holds_tile(self, tile: TileView) -> bool {
        tile.rect.x + tile.rect.w <= self.width && tile.rect.y + tile.rect.h <= self.height
    }
}

/// The full-resolution buffer of resolved pixels that finished tiles are
/// merged into.
pub struct ImageBuffer {
    rows: Vec<Vec<Rgb>>,
    width: u32,
}

impl View for ImageBuffer {
    type V = ImageView;

    closed spec fn view(&self) -> ImageView {
        ImageView {
            width: self.width as int,
            height: self.rows@.len() as int,
            pixels: Seq::new(self.rows@.len(), |i: int| self.rows@[i]@),
        }
    }
}

impl ImageBuffer {
    /// A black image of `width` by `height` pixels.
    pub fn new(width: u32, height: u32) -> (img: ImageBuffer)
        ensures
            img@.wf(),
            img@.width == width,
            img@.height == height,
            forall|x: int, y: int| img@.in_bounds(x, y) ==> #[trigger] img@.at(x, y) == Rgb::spec_black(),
    {
        let mut rows: Vec<Vec<Rgb>> = Vec::with_capacity(height as usize);
        let mut i: u32 = 0;
        while i < height
            invariant
                i <= height,
                rows@.len() == i,
                forall|k: int| 0 <= k < i ==> #[trigger] rows@[k]@.len() == width,
                forall|k: int, j: int|
                    0 <= k < i && 0 <= j < width ==> #[trigger] rows@[k]@[j] == Rgb::spec_black(),
            decreases height - i,
        {
            let mut row: Vec<Rgb> = Vec::with_capacity(width as usize);
            let mut j: u32 = 0;
            while j < width
                invariant
                    j <= width,
                    row@.len() == j,
                    forall|k: int| 0 <= k < j ==> #[trigger] row@[k] == Rgb::spec_black(),
                decreases width - j,
            {
                row.push(Rgb::black());
                j += 1;
            }
            rows.push(row);
            i += 1;
        }
        let img = ImageBuffer { rows, width };
        proof {
            assert(img@.pixels.len() == height);
        }
        img
    }

    pub fn width(&self) -> (w: u32)
        ensures
            w == self@.width,
    {
        self.width
    }

    pub fn height(&self) -> (h: u32)
        requires
            self@.wf(),
        ensures
            h == self@.height,
    {
        self.rows.len() as u32
    }

    /// The pixel at column `x`, row `y` (counted from the bottom).
    pub fn pixel(&self, x: u32, y: u32) -> (c: Rgb)
        requires
            self@.wf(),
            self@.in_bounds(x as int, y as int),
        ensures
            c == self@.at(x as int, y as int),
    {
        proof {
            assert(self@.pixels[y as int] == self.rows@[y as int]@);
        }
        self.rows[y as usize][x as usize]
    }

    /// Whether the tile's rectangle lies inside the image.
    pub fn holds(&self, tile: &Tile) -> (b: bool)
        requires
            self@.wf(),
        ensures
            b == self@.holds_tile(tile@),
    {
        let (x, w) = (tile.start_x(), tile.width());
        let (y, h) = (tile.start_y(), tile.height());
        let (width, height) = (self.width as usize, self.rows.len());
        x <= width && w <= width - x && y <= height && h <= height - y
    }

    /// Copies the tile's pixels into its rectangle of the image; every pixel
    /// outside that rectangle keeps its value.
    pub fn merge(&mut self, tile: &Tile)
        requires
            old(self)@.wf(),
            old(self)@.holds_tile(tile@),
        ensures
            final(self)@.wf(),
            final(self)@.width == old(self)@.width,
            final(self)@.height == old(self)@.height,
            forall|x: int, y: int|
                old(self)@.in_bounds(x, y) ==> #[trigger] final(self)@.at(x, y) == if tile@.rect.contains(
                    x,
                    y,
                ) {
                    tile@.pixels[y - tile@.rect.y][x - tile@.rect.x]
                } else {
                    old(self)@.at(x, y)
                },
        no_unwind
    {
        let height = self.rows.len();
        let sx = tile.start_x();
        let sy = tile.start_y();
        let w = tile.width();
        let h = tile.height();
        let ghost before = self.rows@.map_values(|r: Vec<Rgb>| r@);
        proof {
            assert forall|k: int| 0 <= k < height implies #[trigger] self.rows@[k]@.len()
                == self.width by {
                assert(self@.pixels[k] == self.rows@[k]@);
            }
            assert(before =~= old(self)@.pixels);
        }
        let mut i: usize = 0;
        while i < h
            invariant
                i <= h,
                h == tile@.rect.h,
                w == tile@.rect.w,
                sx == tile@.rect.x,
                sy == tile@.rect.y,
                sx + w <= self.width,
                sy + h <= height,
                before.len() == height,
                self.width == old(self).width,
                self.rows@.len() == height,
                forall|k: int| 0 <= k < height ==> #[trigger] self.rows@[k]@.len() == self.width,
                forall|k: int| 0 <= k < height ==> #[trigger] before[k].len() == self.width,
                forall|x: int, y: int|
                    0 <= x < self.width && 0 <= y < height ==> #[trigger] self.rows@[y]@[x] == if sx
                        <= x < sx + w && sy <= y < sy + i {
                        tile@.pixels[y - sy][x - sx]
                    } else {
                        before[y][x]
                    },
            decreases h - i,
        {
            let mut j: usize = 0;
            while j < w
                invariant
                    i < h,
                    j <= w,
                    h == tile@.rect.h,
                    w == tile@.rect.w,
                    sx == tile@.rect.x,
                    sy == tile@.rect.y,
                    sx + w <= self.width,
                    sy + h <= height,
                    before.len() == height,
                    self.width == old(self).width,
                    self.rows@.len() == height,
                    forall|k: int| 0 <= k < height ==> #[trigger] self.rows@[k]@.len() == self.width,
                    forall|k: int| 0 <= k < height ==> #[trigger] before[k].len() == self.width,
                    forall|x: int, y: int|
                        0 <= x < self.width && 0 <= y < height ==> #[trigger] self.rows@[y]@[x]
                            == if (sx <= x < sx + w && sy <= y < sy + i) || (sx <= x < sx + j && y
                            == sy + i) {
                            tile@.pixels[y - sy][x - sx]
                        } else {
                            before[y][x]
                        },
                decreases w - j,
            {
                let c = tile.pixel(i, j);
                self.rows[sy + i][sx + j] = c;
                j += 1;
            }
            i += 1;
        }
        proof {
            assert forall|y: int| 0 <= y < height implies #[trigger] self@.pixels[y].len()
                == self.width by {
                assert(self@.pixels[y] == self.rows@[y]@);
            }
            assert forall|x: int, y: int| old(self)@.in_bounds(x, y) implies #[trigger] self@.at(
                x,
                y,
            ) == if tile@.rect.contains(x, y) {
                tile@.pixels[y - tile@.rect.y][x - tile@.rect.x]
            } else {
                old(self)@.at(x, y)
            } by {
                assert(self@.pixels[y] == self.rows@[y]@);
            }
        }
    }

    /// The image as ASCII (P3) text, rows written from the top down.
    pub fn to_ppm(&self) -> (text: Vec<u8>)
        requires
            self@.wf(),
        ensures
            text@ == ppm_text(self@.width as nat, self@.height as nat, self@.pixels),
    {
        let mut out: Vec<u8> = Vec::new();
        write_header(&mut out, self.width, self.rows.len() as u32);
        let ghost header = out@;
        let ghost flipped = self@.pixels.reverse();
        let n = self.rows.len();
        let mut k: usize = 0;
        while k < n
            invariant
                k <= n,
                n == self@.pixels.len(),
                flipped == self@.pixels.reverse(),
                out@ == header + rows_text(flipped.take(k as int)),
            decreases n - k,
        {
            write_row(&mut out, &self.rows[n - 1 - k]);
            proof {
                let next = flipped.take(k + 1);
                assert(next.drop_last() =~= flipped.take(k as int));
                assert(next.last() == self.rows@[n - 1 - k]@);
                assert(out@ =~= header + rows_text(next));
            }
            k += 1;
        }
        proof {
            assert(flipped.take(n as int) =~= flipped);
        }
        out
    }
}

} // verus!
