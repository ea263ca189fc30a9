//! Image storage and tiling.
//!
//! An image is a row-major 2D grid of pixels. A render partitions the image
//! into rectangular tiles; each tile is rendered independently by one worker
//! and then blitted back into the full image at its recorded offset.

use vstd::prelude::*;
use vstd::arithmetic::div_mod::{
    lemma_div_is_ordered, lemma_fundamental_div_mod, lemma_fundamental_div_mod_converse,
};
use vstd::math::min;

verus! {

/// Row-major two-dimensional grid.
#[derive(Debug, Clone)]
pub struct Array2d<T> {
    width: u32,
    height: u32,
    storage: Vec<T>,
}

impl<T> Array2d<T> {
    /// The storage holds exactly one element per cell, and the cell count
    /// fits the index arithmetic.
    pub closed spec fn wf(&self) -> bool {
        &&& self.storage@.len() == self.width as int * self.height as int
        &&& self.width as int * self.height as int <= u32::MAX
    }

    pub closed spec fn spec_width(&self) -> u32 {
        self.width
    }

    pub closed spec fn spec_height(&self) -> u32 {
        self.height
    }

    /// The element stored at column `i` of row `j`.
    pub closed spec fn entry(&self, i: int, j: int) -> T {
        self.storage@[i + j * self.width as int]
    }

    /// Cells are addressed by a column index below the width and a row index
    /// below the height.
    pub open spec fn in_bounds(&self, i: int, j: int) -> bool {
        0 <= i < self.spec_width() && 0 <= j < self.spec_height()
    }

    /// Distinct in-bounds cells occupy distinct storage slots.
    proof fn lemma_flat_index_injective(&self, i1: int, j1: int, i2: int, j2: int)
        requires
            self.in_bounds(i1, j1),
            self.in_bounds(i2, j2),
            i1 + j1 * self.spec_width() as int == i2 + j2 * self.spec_width() as int,
        ensures
            i1 == i2 && j1 == j2,
    {
        let w = self.spec_width() as int;
        let k = i1 + j1 * w;
        lemma_fundamental_div_mod_converse(k, w, j1, i1);
        lemma_fundamental_div_mod_converse(k, w, j2, i2);
    }

    /// In-bounds cells map to storage slots inside the storage vector.
    proof fn lemma_flat_index_in_range(&self, i: int, j: int)
        requires
            self.wf(),
            self.in_bounds(i, j),
        ensures
            0 <= i + j * self.spec_width() as int,
            (i + j * self.spec_width() as int) < self.storage@.len(),
    {
        let w = self.spec_width() as int;
        let h = self.spec_height() as int;
        assert(i + j * w < w * h) by (nonlinear_arith)
            requires
                0 <= i < w,
                0 <= j < h,
        ;
        assert(0 <= i + j * w) by (nonlinear_arith)
            requires
                0 <= i,
                0 <= j,
                0 < w,
        ;
    }

    pub fn width(&self) -> (r: u32)
        ensures
            r == self.spec_width(),
    {
        self.width
    }

    pub fn height(&self) -> (r: u32)
        ensures
            r == self.spec_height(),
    {
        self.height
    }

    pub fn get(&self, i: u32, j: u32) -> (r: &T)
        requires
            self.wf(),
            self.in_bounds(i as int, j as int),
        ensures
            *r == self.entry(i as int, j as int),
    {
        proof {
            self.lemma_flat_index_in_range(i as int, j as int);
            assert(j * self.width <= u32::MAX) by (nonlinear_arith)
                requires
                    j < self.spec_height(),
                    self.spec_width() as int * self.spec_height() as int <= u32::MAX,
            ;
            assert(i + j * self.width <= u32::MAX) by (nonlinear_arith)
                requires
                    i < self.spec_width(),
                    j < self.spec_height(),
                    self.spec_width() as int * self.spec_height() as int <= u32::MAX,
            ;
        }
        &self.storage[(i + j * self.width) as usize]
    }

    /// A mutable reference to the element at column `i` of row `j`;
    /// writing through it changes that cell and no other.
    pub fn get_mut(&mut self, i: u32, j: u32) -> (r: &mut T)
        requires
            old(self).wf(),
            old(self).in_bounds(i as int, j as int),
        ensures
            *r == old(self).entry(i as int, j as int),
            final(self).wf(),
            final(self).spec_width() == old(self).spec_width(),
            final(self).spec_height() == old(self).spec_height(),
            final(self).entry(i as int, j as int) == *final(r),
            forall|i2: int, j2: int|
                final(self).in_bounds(i2, j2) && (i2 != i as int || j2 != j as int) ==> final(self).entry(i2, j2) == old(self).entry(i2, j2),
    {
        proof {
            self.lemma_flat_index_in_range(i as int, j as int);
            assert(i + j * self.width <= u32::MAX) by (nonlinear_arith)
                requires
                    i < self.spec_width(),
                    j < self.spec_height(),
                    self.spec_width() as int * self.spec_height() as int <= u32::MAX,
            ;
        }
        let index = (i + j * self.width) as usize;
        proof {
            assert forall|i2: int, j2: int|
                old(self).in_bounds(i2, j2) && (i2 != i as int || j2 != j as int) implies (
            #[trigger] old(self).entry(i2, j2) == old(self).storage@[i2 + j2 * old(
                self,
            ).spec_width() as int] && i2 + j2 * old(self).spec_width() as int != index as int && 0
                <= i2 + j2 * old(self).spec_width() as int && (i2 + j2 * old(
                self,
            ).spec_width() as int) < old(self).storage@.len()) by {
                self.lemma_flat_index_in_range(i2, j2);
                if i2 + j2 * self.spec_width() as int == index as int {
                    self.lemma_flat_index_injective(i2, j2, i as int, j as int);
                }
            }
        }
        &mut self.storage[index]
    }

}

impl<T: Default> Array2d<T> {
    /// A grid of the given dimensions where every cell holds the default
    /// value of `T`.
    pub fn new(width: u32, height: u32) -> (r: Array2d<T>)
        requires
            width as int * height as int <= u32::MAX,
        ensures
            r.wf(),
            r.spec_width() == width,
            r.spec_height() == height,
            forall|i: int, j: int|
                r.in_bounds(i, j) ==> call_ensures(T::default, (), #[trigger] r.entry(i, j)),
    {
        let count = (width * height) as usize;
        let mut storage = Vec::<T>::new();
        while storage.len() < count
            invariant
                storage@.len() <= count,
                forall|k: int|
                    0 <= k < storage@.len() ==> call_ensures(T::default, (), #[trigger] storage@[k]),
            decreases count - storage@.len(),
        {
            storage.push(T::default());
        }
        let r = Array2d { width, height, storage };
        proof {
            assert forall|i: int, j: int| r.in_bounds(i, j) implies call_ensures(
                T::default,
                (),
                #[trigger] r.entry(i, j),
            ) by {
                r.lemma_flat_index_in_range(i, j);
            }
        }
        r
    }
}

// ------------------------------------------- Image tiling -------------------------------------------
/// A rectangular sub-region of the output image.
#[derive(Debug, Clone, Copy, PartialEq, Eq, Structural)]
pub struct Tile {
    pub offset_i: u32,
    pub offset_j: u32,
    pub width: u32,
    pub height: u32,
}

/// How many tiles of extent `tile` cover an image extent of `full`:
/// the quotient rounded upward.
pub open spec fn spec_num_tiles(full: int, tile: int) -> int {
    (full + tile - 1) / tile
}

/// Pixel `(x, y)` lies inside tile `t`.
pub open spec fn tile_contains(t: Tile, x: int, y: int) -> bool {
    &&& t.offset_i <= x < t.offset_i + t.width
    &&& t.offset_j <= y < t.offset_j + t.height
}

/// The tile in column `ti` of tile row `tj`: offset by whole tiles, clipped
/// to the image bounds at the right and bottom edges.
pub open spec fn tile_matches(
    t: Tile,
    full_width: int,
    full_height: int,
    tile_width: int,
    tile_height: int,
    ti: int,
    tj: int,
) -> bool {
    &&& t.offset_i == ti * tile_width
    &&& t.offset_j == tj * tile_height
    &&& t.width == min(tile_width, full_width - ti * tile_width)
    &&& t.height == min(tile_height, full_height - tj * tile_height)
}

/// A multiple of `tile` strictly below the rounded-up tile count stays
/// strictly inside the full extent, with at least one unit to spare.
proof fn lemma_tile_offset_in_range(full: int, tile: int, k: int)
    requires
        tile >= 1,
        full >= 0,
        0 <= k < spec_num_tiles(full, tile),
    ensures
        0 <= k * tile < full,
        k * tile + min(tile, full - k * tile) <= full,
{
    let n = spec_num_tiles(full, tile);
    lemma_fundamental_div_mod(full + tile - 1, tile);
    vstd::arithmetic::div_mod::lemma_mod_pos_bound(full + tile - 1, tile);
    let r = (full + tile - 1) % tile;
    assert(full + tile - 1 == n * tile + r);
    assert(k * tile <= (n - 1) * tile) by (nonlinear_arith)
        requires
            k <= n - 1,
            tile >= 1,
    ;
    assert((n - 1) * tile == n * tile - tile) by (nonlinear_arith);
    assert(0 <= k * tile) by (nonlinear_arith)
        requires
            0 <= k,
            tile >= 1,
    ;
}

/// Each pixel coordinate determines the tile column that contains it.
proof fn lemma_tile_index_of_pixel(full: int, tile: int, x: int)
    requires
        tile >= 1,
        0 <= x < full,
    ensures
        0 <= x / tile < spec_num_tiles(full, tile),
        (x / tile) * tile <= x < (x / tile) * tile + tile,
        x < (x / tile) * tile + min(tile, full - (x / tile) * tile),
{
    lemma_fundamental_div_mod(x, tile);
    vstd::arithmetic::div_mod::lemma_mod_pos_bound(x, tile);
    let q = x / tile;
    assert(q * tile == tile * q) by (nonlinear_arith);
    assert(x == q * tile + x % tile);
    assert(0 <= q) by (nonlinear_arith)
        requires
            tile >= 1,
            0 <= q * tile + x % tile,
            0 <= x % tile < tile,
    ;
    // q < spec_num_tiles(full, tile): compare x with full through the
    // rounded-up quotient.
    lemma_div_is_ordered(x, full - 1, tile);
    lemma_fundamental_div_mod(full - 1, tile);
    vstd::arithmetic::div_mod::lemma_mod_pos_bound(full - 1, tile);
    let qf = (full - 1) / tile;
    assert(full + tile - 1 == (qf + 1) * tile + (full - 1) % tile) by (nonlinear_arith)
        requires
            full - 1 == tile * qf + (full - 1) % tile,
    ;
    lemma_fundamental_div_mod_converse(full + tile - 1, tile, qf + 1, (full - 1) % tile);
    assert(spec_num_tiles(full, tile) == qf + 1);
}

/// Only the tile column computed from the pixel coordinate contains it.
proof fn lemma_tile_index_unique(full: int, tile: int, x: int, k: int)
    requires
        tile >= 1,
        0 <= x < full,
        k * tile <= x < k * tile + tile,
    ensures
        k == x / tile,
{
    lemma_fundamental_div_mod_converse(x, tile, k, x - k * tile);
}

impl Tile {
    /// Partitions a `full_width` by `full_height` image into tiles of extent
    /// `tile_width` by `tile_height`, the tiles at the right and bottom edges
    /// clipped to the image bounds. Tiles are listed row by row: the tile in
    /// column `ti` of tile row `tj` stands at position `tj * num_tiles_i + ti`.
    #[verifier::loop_isolation(false)]
    #[verifier::rlimit(30)]
    pub fn split_in_tiles(
        full_width: u32,
        full_height: u32,
        tile_width: u32,
        tile_height: u32,
    ) -> (tiles: Vec<Tile>)
        requires
            tile_width >= 1,
            tile_height >= 1,
            full_width + tile_width <= u32::MAX,
            full_height + tile_height <= u32::MAX,
        ensures
            tiles@.len() == spec_num_tiles(full_width as int, tile_width as int) * spec_num_tiles(
                full_height as int,
                tile_height as int,
            ),
            forall|k: int|
                0 <= k < tiles@.len() ==> tile_matches(
                    #[trigger] tiles@[k],
                    full_width as int,
                    full_height as int,
                    tile_width as int,
                    tile_height as int,
                    k % spec_num_tiles(full_width as int, tile_width as int),
                    k / spec_num_tiles(full_width as int, tile_width as int),
                ),
    {
        let num_tiles_i = (full_width + tile_width - 1) / tile_width;
        let num_tiles_j = (full_height + tile_height - 1) / tile_height;
        let ghost n_i = num_tiles_i as int;
        let ghost n_j = num_tiles_j as int;
        let mut tile_descriptions = Vec::<Tile>::new();
        proof {
            assert(0 * n_i == 0) by (nonlinear_arith);
        }
        for tj in 0..num_tiles_j
            invariant
                n_i == spec_num_tiles(full_width as int, tile_width as int),
                n_j == spec_num_tiles(full_height as int, tile_height as int),
                tile_width >= 1,
                tile_height >= 1,
                full_width + tile_width <= u32::MAX,
                full_height + tile_height <= u32::MAX,
                tile_descriptions@.len() == tj * n_i,
                forall|k: int|
                    0 <= k < tile_descriptions@.len() ==> tile_matches(
                        #[trigger] tile_descriptions@[k],
                        full_width as int,
                        full_height as int,
                        tile_width as int,
                        tile_height as int,
                        k % n_i,
                        k / n_i,
                    ),
        {
            for ti in 0..num_tiles_i
                invariant
                    n_i == spec_num_tiles(full_width as int, tile_width as int),
                    n_j == spec_num_tiles(full_height as int, tile_height as int),
                    tile_width >= 1,
                    tile_height >= 1,
                    full_width + tile_width <= u32::MAX,
                    full_height + tile_height <= u32::MAX,
                    tj < n_j,
                    tile_descriptions@.len() == tj * n_i + ti,
                    forall|k: int|
                        0 <= k < tile_descriptions@.len() ==> tile_matches(
                            #[trigger] tile_descriptions@[k],
                            full_width as int,
                            full_height as int,
                            tile_width as int,
                            tile_height as int,
                            k % n_i,
                            k / n_i,
                        ),
            {
                proof {
                    lemma_tile_offset_in_range(full_width as int, tile_width as int, ti as int);
                    lemma_tile_offset_in_range(full_height as int, tile_height as int, tj as int);
                }
                let offset_i = ti * tile_width;
                let offset_j = tj * tile_height;
                let width = tile_width.min(full_width - offset_i);
                let height = tile_height.min(full_height - offset_j);
                proof {
                    let k = tile_descriptions@.len() as int;
                    lemma_fundamental_div_mod_converse(k, n_i, tj as int, ti as int);
                    assert(tj * n_i + ti + 1 <= (tj + 1) * n_i) by (nonlinear_arith)
                        requires
                            ti < n_i,
                    ;
                    assert((tj + 1) * n_i <= n_j * n_i) by (nonlinear_arith)
                        requires
                            tj + 1 <= n_j,
                            n_i >= 0,
                    ;
                }
                tile_descriptions.push(Tile { offset_i, offset_j, width, height });
            }
            proof {
                assert((tj + 1) * n_i == tj * n_i + n_i) by (nonlinear_arith);
            }
        }
        proof {
            assert(n_j * n_i == n_i * n_j) by (nonlinear_arith);
        }
        tile_descriptions
    }
}

/// The tile list is an exact partition of the image: every pixel of the
/// image lies in exactly one tile, and every tile lies inside the image.
/// Stated of any list whose entries match the tile grid, which
/// `Tile::split_in_tiles` ensures of its result.
#[verifier::rlimit(30)]
pub proof fn lemma_tile_partition(
    tiles: Seq<Tile>,
    full_width: int,
    full_height: int,
    tile_width: int,
    tile_height: int,
    x: int,
    y: int,
)
    requires
        tile_width >= 1,
        tile_height >= 1,
        tiles.len() == spec_num_tiles(full_width, tile_width) * spec_num_tiles(
            full_height,
            tile_height,
        ),
        forall|k: int|
            0 <= k < tiles.len() ==> tile_matches(
                #[trigger] tiles[k],
                full_width,
                full_height,
                tile_width,
                tile_height,
                k % spec_num_tiles(full_width, tile_width),
                k / spec_num_tiles(full_width, tile_width),
            ),
        0 <= x < full_width,
        0 <= y < full_height,
    ensures
        ({
            let n_i = spec_num_tiles(full_width, tile_width);
            let k = (y / tile_height) * n_i + (x / tile_width);
            &&& 0 <= k < tiles.len()
            &&& tile_contains(tiles[k], x, y)
            &&& forall|k2: int|
                0 <= k2 < tiles.len() && tile_contains(#[trigger] tiles[k2], x, y) ==> k2 == k
        }),
{
    let n_i = spec_num_tiles(full_width, tile_width);
    let n_j = spec_num_tiles(full_height, tile_height);
    let qx = x / tile_width;
    let qy = y / tile_height;
    lemma_tile_index_of_pixel(full_width, tile_width, x);
    lemma_tile_index_of_pixel(full_height, tile_height, y);
    let k = qy * n_i + qx;
    lemma_fundamental_div_mod_converse(k, n_i, qy, qx);
    assert(k < n_i * n_j) by (nonlinear_arith)
        requires
            0 <= qx < n_i,
            0 <= qy < n_j,
            k == qy * n_i + qx,
    ;
    assert(0 <= k) by (nonlinear_arith)
        requires
            0 <= qx,
            0 <= qy,
            0 <= n_i,
            k == qy * n_i + qx,
    ;
    assert(k % n_i == qx && k / n_i == qy);
    assert(tile_matches(tiles[k], full_width, full_height, tile_width, tile_height, qx, qy));
    assert(tiles[k].offset_i == qx * tile_width);
    assert(tiles[k].offset_j == qy * tile_height);
    assert(tile_contains(tiles[k], x, y));
    assert forall|k2: int|
        0 <= k2 < tiles.len() && tile_contains(#[trigger] tiles[k2], x, y) implies k2 == k by {
        let ti2 = k2 % n_i;
        let tj2 = k2 / n_i;
        vstd::arithmetic::div_mod::lemma_mod_pos_bound(k2, n_i);
        lemma_fundamental_div_mod(k2, n_i);
        assert(n_i * tj2 == tj2 * n_i) by (nonlinear_arith);
        assert(k2 == tj2 * n_i + ti2);
        assert(0 <= tj2) by {
            if tj2 < 0 {
                assert(tj2 * n_i + ti2 < 0) by (nonlinear_arith)
                    requires
                        tj2 <= -1,
                        0 <= ti2 < n_i,
                ;
            }
        }
        assert(tj2 < n_j) by {
            if tj2 >= n_j {
                assert(tj2 * n_i >= n_j * n_i) by (nonlinear_arith)
                    requires
                        tj2 >= n_j,
                        n_i >= 0,
                ;
                assert(n_j * n_i == n_i * n_j) by (nonlinear_arith);
            }
        }
        // The tile at position k2 stands in grid cell (ti2, tj2); since it
        // contains the pixel, that cell is the pixel's own.
        assert(tile_matches(
            tiles[k2],
            full_width,
            full_height,
            tile_width,
            tile_height,
            ti2,
            tj2,
        ));
        assert(ti2 * tile_width <= x < ti2 * tile_width + tile_width);
        assert(tj2 * tile_height <= y < tj2 * tile_height + tile_height);
        lemma_tile_index_unique(full_width, tile_width, x, ti2);
        lemma_tile_index_unique(full_height, tile_height, y, tj2);
        assert(ti2 == qx && tj2 == qy);
        assert(tj2 * n_i == qy * n_i);
        assert(k2 == k);
    }
}

/// Every tile of the grid lies inside the image and is at least one pixel
/// wide and tall, so the partition introduces nothing outside the image.
pub proof fn lemma_tile_in_image(
    tiles: Seq<Tile>,
    full_width: int,
    full_height: int,
    tile_width: int,
    tile_height: int,
    k: int,
)
    requires
        full_width >= 0,
        full_height >= 0,
        tile_width >= 1,
        tile_height >= 1,
        tiles.len() == spec_num_tiles(full_width, tile_width) * spec_num_tiles(
            full_height,
            tile_height,
        ),
        forall|k2: int|
            0 <= k2 < tiles.len() ==> tile_matches(
                #[trigger] tiles[k2],
                full_width,
                full_height,
                tile_width,
                tile_height,
                k2 % spec_num_tiles(full_width, tile_width),
                k2 / spec_num_tiles(full_width, tile_width),
            ),
        0 <= k < tiles.len(),
    ensures
        tiles[k].width >= 1,
        tiles[k].height >= 1,
        tiles[k].offset_i + tiles[k].width <= full_width,
        tiles[k].offset_j + tiles[k].height <= full_height,
{
    let n_i = spec_num_tiles(full_width, tile_width);
    let n_j = spec_num_tiles(full_height, tile_height);
    let ti = k % n_i;
    let tj = k / n_i;
    assert(n_i >= 1) by {
        if n_i <= 0 {
            assert(n_i * n_j <= 0) by (nonlinear_arith)
                requires
                    n_i <= 0,
                    n_j >= 0,
            ;
            assert(n_j >= 0) by {
                if n_j < 0 {
                    assert(n_i * n_j <= 0 || n_i <= 0) by (nonlinear_arith)
                        requires
                            n_j < 0,
                    ;
                }
            }
        }
    }
    vstd::arithmetic::div_mod::lemma_mod_pos_bound(k, n_i);
    lemma_fundamental_div_mod(k, n_i);
    assert(0 <= tj && tj < n_j) by {
        if tj < 0 {
            assert(tj * n_i + ti < 0) by (nonlinear_arith)
                requires
                    tj <= -1,
                    0 <= ti < n_i,
            ;
        }
        if tj >= n_j {
            assert(tj * n_i + ti >= n_j * n_i) by (nonlinear_arith)
                requires
                    tj >= n_j,
                    0 <= ti,
                    n_i >= 1,
            ;
            assert(n_j * n_i == n_i * n_j) by (nonlinear_arith);
        }
    }
    lemma_tile_offset_in_range(full_width, tile_width, ti);
    lemma_tile_offset_in_range(full_height, tile_height, tj);
}

/// Copies a rendered tile's pixel grid into the full image at the tile's
/// recorded offset. Pixels outside the tile's rectangle keep their value.
#[verifier::loop_isolation(false)]
#[verifier::rlimit(30)]
pub fn blit<T: Copy>(image: &mut Array2d<T>, tile: &Tile, content: &Array2d<T>)
    requires
        old(image).wf(),
        content.wf(),
        content.spec_width() == tile.width,
        content.spec_height() == tile.height,
        tile.offset_i + tile.width <= old(image).spec_width(),
        tile.offset_j + tile.height <= old(image).spec_height(),
    ensures
        final(image).wf(),
        final(image).spec_width() == old(image).spec_width(),
        final(image).spec_height() == old(image).spec_height(),
        forall|x: int, y: int|
            final(image).in_bounds(x, y) && tile_contains(*tile, x, y) ==> #[trigger] final(image).entry(x, y) == content.entry(x - tile.offset_i, y - tile.offset_j),
        forall|x: int, y: int|
            final(image).in_bounds(x, y) && !tile_contains(*tile, x, y) ==> #[trigger] final(image).entry(x, y) == old(image).entry(x, y),
{
    for tj in 0..tile.height
        invariant
            image.wf(),
            image.spec_width() == old(image).spec_width(),
            image.spec_height() == old(image).spec_height(),
            forall|x: int, y: int|
                image.in_bounds(x, y) && tile_contains(*tile, x, y) && y < tile.offset_j + tj
                    ==> #[trigger] image.entry(x, y) == content.entry(
                    x - tile.offset_i,
                    y - tile.offset_j,
                ),
            forall|x: int, y: int|
                image.in_bounds(x, y) && !(tile_contains(*tile, x, y) && y < tile.offset_j + tj)
                    ==> #[trigger] image.entry(x, y) == old(image).entry(x, y),
    {
        for ti in 0..tile.width
            invariant
                image.wf(),
                image.spec_width() == old(image).spec_width(),
                image.spec_height() == old(image).spec_height(),
                forall|x: int, y: int|
                    image.in_bounds(x, y) && tile_contains(*tile, x, y) && (y < tile.offset_j + tj
                        || (y == tile.offset_j + tj && x < tile.offset_i + ti))
                        ==> #[trigger] image.entry(x, y) == content.entry(
                        x - tile.offset_i,
                        y - tile.offset_j,
                    ),
                forall|x: int, y: int|
                    image.in_bounds(x, y) && !(tile_contains(*tile, x, y) && (y < tile.offset_j
                        + tj || (y == tile.offset_j + tj && x < tile.offset_i + ti)))
                        ==> #[trigger] image.entry(x, y) == old(image).entry(x, y),
        {
            let ghost prev = *image;
            let value = *content.get(ti, tj);
            *image.get_mut(tile.offset_i + ti, tile.offset_j + tj) = value;
            proof {
                assert forall|x: int, y: int|
                    image.in_bounds(x, y) && tile_contains(*tile, x, y) && (y < tile.offset_j + tj
                        || (y == tile.offset_j + tj && x < tile.offset_i + ti
                        + 1)) implies #[trigger] image.entry(x, y) == content.entry(
                    x - tile.offset_i,
                    y - tile.offset_j,
                ) by {
                    if x != tile.offset_i + ti || y != tile.offset_j + tj {
                        assert(image.entry(x, y) == prev.entry(x, y));
                    }
                }
                assert forall|x: int, y: int|
                    image.in_bounds(x, y) && !(tile_contains(*tile, x, y) && (y < tile.offset_j
                        + tj || (y == tile.offset_j + tj && x < tile.offset_i + ti
                        + 1))) implies #[trigger] image.entry(x, y) == old(image).entry(x, y) by {
                    assert(image.entry(x, y) == prev.entry(x, y));
                    assert(prev.entry(x, y) == old(image).entry(x, y));
                }
            }
        }
    }
}

} // verus!
