use vstd::prelude::*;
use vstd::set_lib::{lemma_int_range, lemma_len_subset, set_int_range};

use crate::color::Rgb;
use crate::image::{Image, ImageBuffer, ImageView};
use crate::tile::{
    lemma_pixel_in_some_tile,
    lemma_tile_holds_pixel,
    tile_bounds,
    tile_count,
    tile_of_pixel,
    tile_rect,
    Rect,
    Tile,
};

verus! {

/// A set of indices below `n` that misses one of them has fewer than `n`
/// members.
proof fn lemma_missing_member_bounds_len(s: Set<int>, n: int, k: int)
    requires
        0 <= k < n,
        !s.contains(k),
        forall|i: int| #[trigger] s.contains(i) ==> 0 <= i < n,
    ensures
        s.finite(),
        s.len() < n,
{
    lemma_int_range(0, n);
    let rest = set_int_range(0, n).remove(k);
    assert(s.subset_of(rest));
    lemma_len_subset(s, rest);
}

/// Why a finished tile was refused.
#[derive(Clone, Copy, Debug, PartialEq, Eq, Structural)]
pub enum RenderError {
    /// The tile was never handed out, was already merged, or does not cover
    /// the rectangle of its index.
    UnexpectedTile,
}

/// The abstract state of a render: its configuration, how many tiles have
/// been handed out (always the lowest indices), which tiles have come back,
/// the pixels each returned tile carried, and the image assembled so far.
pub struct RenderView {
    pub image: Image,
    pub tile_width: int,
    pub tile_height: int,
    pub workers: int,
    pub dispatched: int,
    pub done: Set<int>,
    pub merged: Map<int, Seq<Seq<Rgb>>>,
    pub canvas: ImageView,
}

impl RenderView {
    pub open spec fn total(self) -> int {
        tile_count(self.image, self.tile_width, self.tile_height)
    }

    pub open spec fn rect(self, k: int) -> Rect {
        tile_rect(self.image, self.tile_width, self.tile_height, k)
    }

    /// Tiles handed out and not yet returned.
    pub open spec fn in_flight(self) -> int {
        self.dispatched - self.done.len()
    }

    pub open spec fn finished(self) -> bool {
        self.done.len() == self.total()
    }

    /// The tile with this index may be returned now.
    pub open spec fn expects(self, k: int, rect: Rect) -> bool {
        0 <= k < self.dispatched && !self.done.contains(k) && rect == self.rect(k)
    }

    /// The pixel at `(x, y)` of the assembled image is the one that the
    /// tile covering it carried.
    pub open spec fn from_its_tile(self, x: int, y: int) -> bool {
        let k = tile_of_pixel(self.image, self.tile_width, self.tile_height, x, y);
        let r = self.rect(k);
        self.canvas.at(x, y) == self.merged[k][y - r.y][x - r.x]
    }
}

/// The coordinator of a tiled render: it hands tiles out in row-major order,
/// never more than `workers` at a time, and merges each finished tile into
/// the image.
pub struct Render {
    image: Image,
    tile_width: u32,
    tile_height: u32,
    workers: usize,
    total: u32,
    dispatched: u32,
    received: u32,
    returned: Vec<bool>,
    canvas: ImageBuffer,
    done: Ghost<Set<int>>,
    merged: Ghost<Map<int, Seq<Seq<Rgb>>>>,
}

impl View for Render {
    type V = RenderView;

    closed spec fn view(&self) -> RenderView {
        RenderView {
            image: self.image,
            tile_width: self.tile_width as int,
            tile_height: self.tile_height as int,
            workers: self.workers as int,
            dispatched: self.dispatched as int,
            done: self.done@,
            merged: self.merged@,
            canvas: self.canvas@,
        }
    }
}

impl Render {
    #[verifier::type_invariant]
    spec fn consistent(&self) -> bool {
        &&& self.tile_width >= 1
        &&& self.tile_height >= 1
        &&& self.workers >= 1
        &&& self.total == self@.total()
        &&& self.returned@.len() == self.total
        &&& self.done@.finite()
        &&& self.done@.len() == self.received
        &&& forall|k: int| #[trigger]
            self.done@.contains(k) <==> 0 <= k < self.total && self.returned@[k]
        &&& forall|k: int| 0 <= k < self.total && #[trigger] self.returned@[k] ==> k < self.dispatched
        &&& self.received <= self.dispatched <= self.total
        &&& self.dispatched - self.received <= self.workers
        &&& self.merged@.dom() == self.done@
        &&& self.canvas@.wf()
        &&& self.canvas@.width == self.image.width
        &&& self.canvas@.height == self.image.height
        &&& forall|x: int, y: int|
            #![trigger self.canvas@.at(x, y)]
            self.canvas@.in_bounds(x, y) && self.done@.contains(
                tile_of_pixel(self.image, self.tile_width as int, self.tile_height as int, x, y),
            ) ==> self@.from_its_tile(x, y)
    }

    /// A render of `image` in tiles of `tile_width` by `tile_height` pixels
    /// with `workers` tiles in flight at most; nothing handed out yet and the
    /// image black.
    pub fn new(image: Image, tile_width: u32, tile_height: u32, workers: usize) -> (r: Render)
        requires
            tile_width >= 1,
            tile_height >= 1,
            workers >= 1,
            tile_count(image, tile_width as int, tile_height as int) <= u32::MAX,
        ensures
            r@.image == image,
            r@.tile_width == tile_width,
            r@.tile_height == tile_height,
            r@.workers == workers,
            r@.dispatched == 0,
            r@.done == Set::<int>::empty(),
            r@.merged == Map::<int, Seq<Seq<Rgb>>>::empty(),
            r@.canvas.wf(),
            r@.canvas.width == image.width,
            r@.canvas.height == image.height,
            forall|x: int, y: int|
                r@.canvas.in_bounds(x, y) ==> #[trigger] r@.canvas.at(x, y) == Rgb::spec_black(),
    {
        let total = crate::tile::count_tiles(image, tile_width, tile_height) as u32;
        let mut returned: Vec<bool> = Vec::with_capacity(total as usize);
        let mut i: u32 = 0;
        while i < total
            invariant
                i <= total,
                returned@.len() == i,
                forall|k: int| 0 <= k < i ==> !#[trigger] returned@[k],
            decreases total - i,
        {
            returned.push(false);
            i += 1;
        }
        Render {
            image,
            tile_width,
            tile_height,
            workers,
            total,
            dispatched: 0,
            received: 0,
            returned,
            canvas: ImageBuffer::new(image.width, image.height),
            done: Ghost(Set::empty()),
            merged: Ghost(Map::empty()),
        }
    }

    /// Hands out the next tile, black, when one is left and fewer than
    /// `workers` tiles are in flight.
    pub fn dispatch(&mut self) -> (t: Option<Tile>)
        ensures
            final(self)@.image == old(self)@.image,
            final(self)@.tile_width == old(self)@.tile_width,
            final(self)@.tile_height == old(self)@.tile_height,
            final(self)@.workers == old(self)@.workers,
            final(self)@.done == old(self)@.done,
            final(self)@.merged == old(self)@.merged,
            final(self)@.canvas == old(self)@.canvas,
            (old(self)@.dispatched < old(self)@.total() && old(self)@.in_flight() < old(
                self,
            )@.workers) <==> t is Some,
            t is Some ==> {
                let t = t->Some_0;
                &&& final(self)@.dispatched == old(self)@.dispatched + 1
                &&& t@.index == old(self)@.dispatched
                &&& t@.rect == old(self)@.rect(old(self)@.dispatched)
                &&& forall|i: int, j: int|
                    0 <= i < t@.rect.h && 0 <= j < t@.rect.w ==> #[trigger] t@.pixels[i][j]
                        == Rgb::spec_black()
            },
            t is None ==> final(self)@.dispatched == old(self)@.dispatched,
            final(self)@.in_flight() <= final(self)@.workers,
            t is None ==> final(self)@.finished() || final(self)@.in_flight() >= 1,
    {
        proof {
            use_type_invariant(&*self);
        }
        if self.dispatched < self.total && ((self.dispatched - self.received) as usize) < self.workers {
            let t = Tile::new(self.tile_height, self.tile_width, self.dispatched, self.image);
            self.dispatched = self.dispatched + 1;
            Some(t)
        } else {
            None
        }
    }

    /// Whether every tile has come back. Then each pixel of the image is
    /// the one that the tile covering it carried.
    pub fn is_finished(&self) -> (b: bool)
        ensures
            b == self@.finished(),
            b ==> forall|k: int| 0 <= k < self@.total() ==> #[trigger] self@.done.contains(k),
            b ==> forall|x: int, y: int| #[trigger]
                self@.canvas.in_bounds(x, y) ==> self@.from_its_tile(x, y),
    {
        proof {
            use_type_invariant(self);
        }
        let b = self.received == self.total;
        proof {
            if b {
                assert forall|k: int| 0 <= k < self@.total() implies #[trigger] self@.done.contains(
                    k,
                ) by {
                    if !self@.done.contains(k) {
                        lemma_missing_member_bounds_len(self.done@, self.total as int, k);
                    }
                }
                assert forall|x: int, y: int| #[trigger]
                    self@.canvas.in_bounds(x, y) implies self@.from_its_tile(x, y) by {
                    lemma_pixel_in_some_tile(
                        self.image,
                        self.tile_width as int,
                        self.tile_height as int,
                        x,
                        y,
                    );
                    let k = tile_of_pixel(
                        self.image,
                        self.tile_width as int,
                        self.tile_height as int,
                        x,
                        y,
                    );
                    assert(self@.done.contains(k));
                }
            }
        }
        b
    }

    /// The image assembled so far.
    pub fn canvas(&self) -> (c: &ImageBuffer)
        ensures
            c@ == self@.canvas,
            c@.wf(),
    {
        proof {
            use_type_invariant(self);
        }
        &self.canvas
    }

    /// Takes back a finished tile: when it is one that was handed out and
    /// has not come back yet, and covers the rectangle of its index, its
    /// pixels are merged into the image; otherwise nothing changes.
    pub fn complete(&mut self, tile: Tile) -> (r: Result<(), RenderError>)
        ensures
            r is Ok <==> old(self)@.expects(tile@.index, tile@.rect),
            r is Err ==> final(self)@ == old(self)@,
            r is Ok ==> {
                &&& final(self)@.image == old(self)@.image
                &&& final(self)@.tile_width == old(self)@.tile_width
                &&& final(self)@.tile_height == old(self)@.tile_height
                &&& final(self)@.workers == old(self)@.workers
                &&& final(self)@.dispatched == old(self)@.dispatched
                &&& final(self)@.done == old(self)@.done.insert(tile@.index)
                &&& final(self)@.merged == old(self)@.merged.insert(tile@.index, tile@.pixels)
                &&& final(self)@.canvas.width == old(self)@.canvas.width
                &&& final(self)@.canvas.height == old(self)@.canvas.height
                &&& forall|x: int, y: int|
                    old(self)@.canvas.in_bounds(x, y) ==> #[trigger] final(self)@.canvas.at(x, y)
                        == if tile@.rect.contains(x, y) {
                        tile@.pixels[y - tile@.rect.y][x - tile@.rect.x]
                    } else {
                        old(self)@.canvas.at(x, y)
                    }
            },
    {
        proof {
            use_type_invariant(&*self);
        }
        let k = tile.index();
        if k >= self.dispatched || self.returned[k as usize] {
            return Err(RenderError::UnexpectedTile);
        }
        let (x, y, w, h) = tile_bounds(self.tile_height, self.tile_width, k, self.image);
        if tile.start_x() != x as usize || tile.start_y() != y as usize || tile.width() != w as usize
            || tile.height() != h as usize {
            return Err(RenderError::UnexpectedTile);
        }
        proof {
            let (tw, th) = (self.tile_width as int, self.tile_height as int);
            assert forall|px: int, py: int| #[trigger]
                tile@.rect.contains(px, py) <==> (self.canvas@.in_bounds(px, py) && tile_of_pixel(
                    self.image,
                    tw,
                    th,
                    px,
                    py,
                ) == k) by {
                lemma_tile_holds_pixel(self.image, tw, th, k as int, px, py);
            }
        }
        proof {
            lemma_missing_member_bounds_len(self.done@, self.dispatched as int, k as int);
        }
        Self::record(
            &mut self.returned,
            &mut self.received,
            &mut self.canvas,
            &mut self.done,
            &mut self.merged,
            &tile,
        );
        Ok(())
    }

    /// Marks the tile as returned and merges its pixels.
    fn record(
        returned: &mut Vec<bool>,
        received: &mut u32,
        canvas: &mut ImageBuffer,
        done: &mut Ghost<Set<int>>,
        merged: &mut Ghost<Map<int, Seq<Seq<Rgb>>>>,
        tile: &Tile,
    )
        requires
            0 <= tile@.index < old(returned)@.len(),
            !old(returned)@[tile@.index],
            old(canvas)@.wf(),
            old(canvas)@.holds_tile(tile@),
            old(done)@.finite(),
            !old(done)@.contains(tile@.index),
            old(done)@.len() == *old(received),
            *old(received) < old(returned)@.len() <= u32::MAX,
        ensures
            final(returned)@ == old(returned)@.update(tile@.index, true),
            *final(received) == *old(received) + 1,
            final(done)@ == old(done)@.insert(tile@.index),
            final(done)@.finite(),
            final(done)@.len() == *final(received),
            final(merged)@ == old(merged)@.insert(tile@.index, tile@.pixels),
            final(canvas)@.wf(),
            final(canvas)@.width == old(canvas)@.width,
            final(canvas)@.height == old(canvas)@.height,
            forall|x: int, y: int|
                old(canvas)@.in_bounds(x, y) ==> #[trigger] final(canvas)@.at(x, y) == if tile@.rect.contains(
                    x,
                    y,
                ) {
                    tile@.pixels[y - tile@.rect.y][x - tile@.rect.x]
                } else {
                    old(canvas)@.at(x, y)
                },
        no_unwind
    {
        let k = tile.index() as usize;
        canvas.merge(tile);
        returned[k] = true;
        *received = *received + 1;
        proof {
            done@ = done@.insert(k as int);
            merged@ = merged@.insert(k as int, tile@.pixels);
        }
    }
}

} // verus!
