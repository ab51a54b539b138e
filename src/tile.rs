use vstd::prelude::*;
use vstd::arithmetic::div_mod::{
    lemma_div_is_ordered,
    lemma_div_plus_one,
    lemma_fundamental_div_mod,
    lemma_fundamental_div_mod_converse,
};

use crate::color::Rgb;
use crate::image::Image;

verus! {

/// `n / d` rounded up.
pub open spec fn ceil_div(n: int, d: int) -> int {
    (n + d - 1) / d
}

/// How many tile columns cover the image.
pub open spec fn tiles_across(image: Image, tile_width: int) -> int {
    ceil_div(image.width as int, tile_width)
}

/// How many tile rows cover the image.
pub open spec fn tiles_down(image: Image, tile_height: int) -> int {
    ceil_div(image.height as int, tile_height)
}

/// How many tiles cover the image.
pub open spec fn tile_count(image: Image, tile_width: int, tile_height: int) -> int {
    tiles_across(image, tile_width) * tiles_down(image, tile_height)
}

/// An axis-aligned rectangle of pixels: columns `[x, x + w)`, rows `[y, y + h)`.
pub struct Rect {
    pub x: int,
    pub y: int,
    pub w: int,
    pub h: int,
}

impl Rect {
    pub open spec fn contains(self, px: int, py: int) -> bool {
        self.x <= px < self.x + self.w && self.y <= py < self.y + self.h
    }
}

pub open spec fn min(a: int, b: int) -> int {
    if a <= b {
        a
    } else {
        b
    }
}

/// The pixels of tile `k`: tiles are numbered row-major, each is
/// `tile_width` by `tile_height`, clipped at the right and top edges.
pub open spec fn tile_rect(image: Image, tile_width: int, tile_height: int, k: int) -> Rect {
    let across = tiles_across(image, tile_width);
    let x = (k % across) * tile_width;
    let y = (k / across) * tile_height;
    Rect {
        x,
        y,
        w: min(tile_width, image.width - x),
        h: min(tile_height, image.height - y),
    }
}

/// The index of the tile that holds pixel `(px, py)`.
pub open spec fn tile_of_pixel(image: Image, tile_width: int, tile_height: int, px: int, py: int) -> int {
    (py / tile_height) * tiles_across(image, tile_width) + px / tile_width
}

/// The last column of tiles still starts inside the image.
proof fn lemma_last_start_inside(n: int, d: int, i: int)
    requires
        d >= 1,
        0 <= i < ceil_div(n, d),
    ensures
        i * d < n,
{
    let c = ceil_div(n, d);
    lemma_fundamental_div_mod(n + d - 1, d);
    assert(d * c <= n + d - 1);
    assert(i * d <= (c - 1) * d) by (nonlinear_arith)
        requires
            i <= c - 1,
            d >= 1,
    ;
    assert((c - 1) * d == d * c - d) by (nonlinear_arith);
}

/// A coordinate inside `[0, n)` falls in a column `< ceil_div(n, d)`, and
/// inside that column.
proof fn lemma_coordinate_column(n: int, d: int, p: int)
    requires
        d >= 1,
        0 <= p < n,
    ensures
        0 <= p / d < ceil_div(n, d),
        (p / d) * d <= p < (p / d) * d + d,
{
    lemma_div_is_ordered(p, n - 1, d);
    lemma_div_plus_one(n - 1, d);
    assert((d + (n - 1)) == n + d - 1);
    lemma_fundamental_div_mod(p, d);
    assert(p / d >= 0) by (nonlinear_arith)
        requires
            p >= 0,
            d >= 1,
    ;
}

/// Tile `k` holds pixel `(px, py)` exactly when the pixel lies inside the
/// image and `k` is that pixel's tile index.
pub proof fn lemma_tile_holds_pixel(image: Image, tile_width: int, tile_height: int, k: int, px: int, py: int)
    requires
        tile_width >= 1,
        tile_height >= 1,
        0 <= k < tile_count(image, tile_width, tile_height),
    ensures
        tile_rect(image, tile_width, tile_height, k).contains(px, py) <==> (0 <= px < image.width
            && 0 <= py < image.height && tile_of_pixel(image, tile_width, tile_height, px, py) == k),
{
    let across = tiles_across(image, tile_width);
    let down = tiles_down(image, tile_height);
    let r = tile_rect(image, tile_width, tile_height, k);
    assert(across > 0 && down > 0) by (nonlinear_arith)
        requires
            0 <= k < across * down,
            across >= 0,
            down >= 0,
    {
        assert(across >= 0);
    }
    let col = k % across;
    let row = k / across;
    lemma_fundamental_div_mod(k, across);
    assert(0 <= col < across);
    assert(row >= 0 && row < down) by (nonlinear_arith)
        requires
            k == across * row + col,
            0 <= col < across,
            0 <= k < across * down,
    ;
    lemma_last_start_inside(image.width as int, tile_width, col);
    lemma_last_start_inside(image.height as int, tile_height, row);
    assert(col * tile_width >= 0 && row * tile_height >= 0) by (nonlinear_arith)
        requires
            col >= 0,
            row >= 0,
            tile_width >= 1,
            tile_height >= 1,
    ;
    if r.contains(px, py) {
        lemma_fundamental_div_mod_converse(px, tile_width, col, px - col * tile_width);
        lemma_fundamental_div_mod_converse(py, tile_height, row, py - row * tile_height);
        assert(row * across + col == k) by (nonlinear_arith)
            requires
                k == across * row + col,
        ;
    }
    if 0 <= px < image.width && 0 <= py < image.height && tile_of_pixel(
        image,
        tile_width,
        tile_height,
        px,
        py,
    ) == k {
        lemma_coordinate_column(image.width as int, tile_width, px);
        lemma_coordinate_column(image.height as int, tile_height, py);
        lemma_fundamental_div_mod_converse(k, across, py / tile_height, px / tile_width);
    }
}

/// Every pixel of the image has a tile index among the tiles.
pub proof fn lemma_pixel_in_some_tile(image: Image, tile_width: int, tile_height: int, px: int, py: int)
    requires
        tile_width >= 1,
        tile_height >= 1,
        0 <= px < image.width,
        0 <= py < image.height,
    ensures
        0 <= tile_of_pixel(image, tile_width, tile_height, px, py) < tile_count(
            image,
            tile_width,
            tile_height,
        ),
{
    let across = tiles_across(image, tile_width);
    let down = tiles_down(image, tile_height);
    lemma_coordinate_column(image.width as int, tile_width, px);
    lemma_coordinate_column(image.height as int, tile_height, py);
    let c = px / tile_width;
    let r = py / tile_height;
    assert(0 <= r * across + c < across * down) by (nonlinear_arith)
        requires
            0 <= c < across,
            0 <= r < down,
    ;
}

/// The tiles partition the image: each tile lies inside the image, each
/// pixel of the image lies in some tile, and no pixel lies in two tiles.
pub proof fn lemma_tiles_partition_image(image: Image, tile_width: int, tile_height: int)
    requires
        tile_width >= 1,
        tile_height >= 1,
    ensures
        forall|k: int, px: int, py: int|
            0 <= k < tile_count(image, tile_width, tile_height) && #[trigger] tile_rect(
                image,
                tile_width,
                tile_height,
                k,
            ).contains(px, py) ==> 0 <= px < image.width && 0 <= py < image.height,
        forall|px: int, py: int|
            0 <= px < image.width && 0 <= py < image.height ==> {
                let k = #[trigger] tile_of_pixel(image, tile_width, tile_height, px, py);
                0 <= k < tile_count(image, tile_width, tile_height) && tile_rect(
                    image,
                    tile_width,
                    tile_height,
                    k,
                ).contains(px, py)
            },
        forall|k1: int, k2: int, px: int, py: int|
            0 <= k1 < tile_count(image, tile_width, tile_height) && 0 <= k2 < tile_count(
                image,
                tile_width,
                tile_height,
            ) && #[trigger] tile_rect(image, tile_width, tile_height, k1).contains(px, py)
                && #[trigger] tile_rect(image, tile_width, tile_height, k2).contains(px, py)
                ==> k1 == k2,
{
    assert forall|k: int, px: int, py: int|
        0 <= k < tile_count(image, tile_width, tile_height) && #[trigger] tile_rect(
            image,
            tile_width,
            tile_height,
            k,
        ).contains(px, py) implies 0 <= px < image.width && 0 <= py < image.height by {
        lemma_tile_holds_pixel(image, tile_width, tile_height, k, px, py);
    }
    assert forall|px: int, py: int| 0 <= px < image.width && 0 <= py < image.height implies {
        let k = #[trigger] tile_of_pixel(image, tile_width, tile_height, px, py);
        0 <= k < tile_count(image, tile_width, tile_height) && tile_rect(
            image,
            tile_width,
            tile_height,
            k,
        ).contains(px, py)
    } by {
        let k = tile_of_pixel(image, tile_width, tile_height, px, py);
        lemma_pixel_in_some_tile(image, tile_width, tile_height, px, py);
        lemma_tile_holds_pixel(image, tile_width, tile_height, k, px, py);
    }
    assert forall|k1: int, k2: int, px: int, py: int|
        0 <= k1 < tile_count(image, tile_width, tile_height) && 0 <= k2 < tile_count(
            image,
            tile_width,
            tile_height,
        ) && #[trigger] tile_rect(image, tile_width, tile_height, k1).contains(px, py)
            && #[trigger] tile_rect(image, tile_width, tile_height, k2).contains(px, py) implies k1
        == k2 by {
        lemma_tile_holds_pixel(image, tile_width, tile_height, k1, px, py);
        lemma_tile_holds_pixel(image, tile_width, tile_height, k2, px, py);
    }
}

/// Number of tile columns of width `tile_width` that cover `width` pixels.
pub fn count_tiles_across(width: u32, tile_width: u32) -> (n: u32)
    requires
        tile_width >= 1,
    ensures
        n == ceil_div(width as int, tile_width as int),
{
    let q = width / tile_width;
    let r = width % tile_width;
    proof {
        lemma_fundamental_div_mod(width as int, tile_width as int);
        let (qi, ri, d) = (q as int, r as int, tile_width as int);
        if r == 0 {
            lemma_fundamental_div_mod_converse(width + d - 1, d, qi, d - 1);
        } else {
            assert(width + d - 1 == (qi + 1) * d + (ri - 1)) by (nonlinear_arith)
                requires
                    width == d * qi + ri,
            ;
            lemma_fundamental_div_mod_converse(width + d - 1, d, qi + 1, ri - 1);
            assert(qi < u32::MAX) by (nonlinear_arith)
                requires
                    width == d * qi + ri,
                    ri >= 1,
                    d >= 1,
                    qi >= 0,
                    width <= u32::MAX,
            ;
        }
    }
    if r == 0 {
        q
    } else {
        q + 1
    }
}

/// Number of tiles of `tile_width` by `tile_height` pixels that cover the image.
pub fn count_tiles(image: Image, tile_width: u32, tile_height: u32) -> (n: u64)
    requires
        tile_width >= 1,
        tile_height >= 1,
    ensures
        n == tile_count(image, tile_width as int, tile_height as int),
{
    let across = count_tiles_across(image.width, tile_width);
    let down = count_tiles_across(image.height, tile_height);
    proof {
        assert(across as int * down as int <= u32::MAX as int * u32::MAX as int) by (nonlinear_arith)
            requires
                across <= u32::MAX,
                down <= u32::MAX,
        ;
    }
    across as u64 * down as u64
}

/// The rectangle of tile number `index`: first column, first row, width and
/// height.
pub fn tile_bounds(height: u32, width: u32, index: u32, image: Image) -> (r: (u32, u32, u32, u32))
    requires
        height >= 1,
        width >= 1,
        index < tile_count(image, width as int, height as int),
    ensures
        (Rect { x: r.0 as int, y: r.1 as int, w: r.2 as int, h: r.3 as int }) == tile_rect(
            image,
            width as int,
            height as int,
            index as int,
        ),
{
    let tiles_wide = count_tiles_across(image.width, width);
    proof {
        let down = tiles_down(image, height as int);
        assert(tiles_wide > 0) by (nonlinear_arith)
            requires
                0 <= index < tiles_wide * down,
                down >= 0,
        ;
        lemma_fundamental_div_mod(index as int, tiles_wide as int);
        let col = index as int % tiles_wide as int;
        let row = index as int / tiles_wide as int;
        assert(row >= 0 && row < down) by (nonlinear_arith)
            requires
                index == tiles_wide * row + col,
                0 <= col < tiles_wide,
                0 <= index < tiles_wide * down,
        ;
        lemma_last_start_inside(image.width as int, width as int, col);
        lemma_last_start_inside(image.height as int, height as int, row);
        assert(col * width >= 0 && row * height >= 0) by (nonlinear_arith)
            requires
                col >= 0,
                row >= 0,
                width >= 1,
                height >= 1,
        ;
    }
    let start_y = (index / tiles_wide) * height;
    let start_x = (index % tiles_wide) * width;
    let h = if height < image.height - start_y {
        height
    } else {
        image.height - start_y
    };
    let w = if width < image.width - start_x {
        width
    } else {
        image.width - start_x
    };
    (start_x, start_y, w, h)
}

/// The abstract value of a tile: its index in the row-major order, the
/// pixels it covers, and its pixel buffer, row by row from the bottom.
pub struct TileView {
    pub index: int,
    pub rect: Rect,
    pub pixels: Seq<Seq<Rgb>>,
}

/// A rectangular region of the image with its own buffer of resolved
/// pixels, owned by the worker that renders it until it is merged.
pub struct Tile {
    buffer: Vec<Vec<Rgb>>,
    start_x: usize,
    start_y: usize,
    width: usize,
    index: u32,
}

impl View for Tile {
    type V = TileView;

    closed spec fn view(&self) -> TileView {
        TileView {
            index: self.index as int,
            rect: Rect {
                x: self.start_x as int,
                y: self.start_y as int,
                w: self.width as int,
                h: self.buffer@.len() as int,
            },
            pixels: Seq::new(self.buffer@.len(), |i: int| self.buffer@[i]@),
        }
    }
}

/// A row of `n` black pixels.
fn black_row(n: usize) -> (row: Vec<Rgb>)
    ensures
        row@.len() == n,
        forall|j: int| 0 <= j < n ==> #[trigger] row@[j] == Rgb::spec_black(),
{
    let mut row: Vec<Rgb> = Vec::with_capacity(n);
    let mut j: usize = 0;
    while j < n
        invariant
            j <= n,
            row@.len() == j,
            forall|k: int| 0 <= k < j ==> #[trigger] row@[k] == Rgb::spec_black(),
        decreases n - j,
    {
        row.push(Rgb::black());
        j += 1;
    }
    row
}

impl Tile {
    #[verifier::type_invariant]
    spec fn shaped(&self) -> bool {
        forall|i: int| 0 <= i < self.buffer@.len() ==> #[trigger] self.buffer@[i]@.len() == self.width
    }

    /// Tile number `index` of the image, `width` by `height` pixels but
    /// clipped at the image's edges, with every pixel black.
    pub fn new(height: u32, width: u32, index: u32, image: Image) -> (t: Tile)
        requires
            height >= 1,
            width >= 1,
            index < tile_count(image, width as int, height as int),
        ensures
            t@.index == index,
            t@.rect == tile_rect(image, width as int, height as int, index as int),
            forall|i: int, j: int|
                0 <= i < t@.rect.h && 0 <= j < t@.rect.w ==> #[trigger] t@.pixels[i][j]
                    == Rgb::spec_black(),
    {
        let (start_x, start_y, w, h) = tile_bounds(height, width, index, image);
        let mut buffer: Vec<Vec<Rgb>> = Vec::with_capacity(h as usize);
        let mut i: usize = 0;
        while i < h as usize
            invariant
                i <= h,
                buffer@.len() == i,
                forall|k: int| 0 <= k < i ==> #[trigger] buffer@[k]@.len() == w,
                forall|k: int, j: int|
                    0 <= k < i && 0 <= j < w ==> #[trigger] buffer@[k]@[j] == Rgb::spec_black(),
            decreases h - i,
        {
            buffer.push(black_row(w as usize));
            i += 1;
        }
        Tile { buffer, start_x: start_x as usize, start_y: start_y as usize, width: w as usize, index }
    }

    pub fn index(&self) -> (i: u32)
        ensures
            i == self@.index,
        no_unwind
    {
        self.index
    }

    /// First column of the tile in the image.
    pub fn start_x(&self) -> (x: usize)
        ensures
            x == self@.rect.x,
        no_unwind
    {
        self.start_x
    }

    /// First row of the tile in the image, counted from the bottom.
    pub fn start_y(&self) -> (y: usize)
        ensures
            y == self@.rect.y,
        no_unwind
    {
        self.start_y
    }

    pub fn width(&self) -> (w: usize)
        ensures
            w == self@.rect.w,
        no_unwind
    {
        self.width
    }

    pub fn height(&self) -> (h: usize)
        ensures
            h == self@.rect.h,
        no_unwind
    {
        self.buffer.len()
    }

    /// The pixel at `row`, `col` of the tile.
    pub fn pixel(&self, row: usize, col: usize) -> (c: Rgb)
        requires
            row < self@.rect.h,
            col < self@.rect.w,
        ensures
            c == self@.pixels[row as int][col as int],
        no_unwind
    {
        proof {
            use_type_invariant(self);
        }
        self.buffer[row][col]
    }

    /// Stores the resolved pixel at `row`, `col` of the tile.
    pub fn set_pixel(&mut self, row: usize, col: usize, c: Rgb)
        requires
            row < old(self)@.rect.h,
            col < old(self)@.rect.w,
        ensures
            final(self)@.index == old(self)@.index,
            final(self)@.rect == old(self)@.rect,
            final(self)@.pixels == old(self)@.pixels.update(
                row as int,
                old(self)@.pixels[row as int].update(col as int, c),
            ),
    {
        proof {
            use_type_invariant(&*self);
        }
        let mut rows: Vec<Vec<Rgb>> = Vec::new();
        std::mem::swap(&mut rows, &mut self.buffer);
        rows[row][col] = c;
        self.buffer = rows;
        proof {
            assert(self@.pixels =~= old(self)@.pixels.update(
                row as int,
                old(self)@.pixels[row as int].update(col as int, c),
            ));
        }
    }
}

} // verus!
