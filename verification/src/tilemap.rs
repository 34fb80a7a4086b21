//! The tile grid a map layer is made of: a rectangular arrangement of tile
//! indices, stored row by row with row 0 at the bottom.
//!
//! The layer file format stores rows top-to-bottom; `from_tile_data` and
//! `to_tile_data` are the two directions of that layout, with the file I/O
//! and the YAML syntax left to the caller.

use vstd::prelude::*;

verus! {

/// Index of a tile in a tile set.
#[derive(Clone, Copy, PartialEq, Eq, Structural, Debug)]
pub struct TileIndex(usize);

impl TileIndex {
    /// The position in the tile set this index names.
    pub closed spec fn index(self) -> int {
        self.0 as int
    }

    pub fn new(index: usize) -> (r: TileIndex)
        ensures
            r.index() == index,
    {
        TileIndex(index)
    }

    /// The position as a plain integer.
    pub fn value(self) -> (r: usize)
        ensures
            r == self.index(),
    {
        self.0
    }
}

/// Two grid positions in the same row-major grid coincide only if they are
/// the same position.
proof fn lemma_grid_index_injective(w: int, x1: int, y1: int, x2: int, y2: int)
    requires
        0 < w,
        0 <= x1 < w,
        0 <= x2 < w,
        0 <= y1,
        0 <= y2,
        x1 + y1 * w == x2 + y2 * w,
    ensures
        x1 == x2,
        y1 == y2,
{
    assert(x1 == x2 && y1 == y2) by (nonlinear_arith)
        requires
            0 < w,
            0 <= x1 < w,
            0 <= x2 < w,
            0 <= y1,
            0 <= y2,
            x1 + y1 * w == x2 + y2 * w,
    ;
}

/// One layer of a map: a `width` by `height` grid of tile indices.
pub struct Layer {
    pub tiles: Vec<TileIndex>,
    pub width: u32,
    pub height: u32,
}

impl Layer {
    /// The grid contents, row by row.
    pub open spec fn grid(self) -> Seq<TileIndex> {
        self.tiles@
    }

    /// The grid holds exactly one tile index per cell, and the cell count
    /// stays within the index arithmetic's range.
    pub open spec fn wf(self) -> bool {
        &&& self.grid().len() == (self.width as int) * (self.height as int)
        &&& (self.width as int) * (self.height as int) <= u32::MAX as int
    }

    /// The tile at column `x`, row `y`.
    pub open spec fn at(self, x: int, y: int) -> TileIndex {
        self.grid()[x + y * self.width as int]
    }

    /// A `width` by `height` layer with every cell on tile 0.
    pub fn new(width: u32, height: u32) -> (r: Layer)
        requires
            (width as int) * (height as int) <= u32::MAX as int,
        ensures
            r.wf(),
            r.width == width,
            r.height == height,
            forall|i: int| 0 <= i < r.grid().len() ==> (#[trigger] r.grid()[i]).index() == 0,
    {
        let n: usize = (width as usize) * (height as usize);
        let mut tiles: Vec<TileIndex> = Vec::new();
        let mut k: usize = 0;
        while k < n
            invariant
                k <= n,
                tiles@.len() == k,
                forall|i: int| 0 <= i < k ==> (#[trigger] tiles@[i]).index() == 0,
            decreases n - k,
        {
            tiles.push(TileIndex(0));
            k += 1;
        }
        Layer { tiles, width, height }
    }

    /// Reads the tile at column `x`, row `y`.
    pub fn get(&self, x: u32, y: u32) -> (r: TileIndex)
        requires
            self.wf(),
            x < self.width,
            y < self.height,
        ensures
            r == self.at(x as int, y as int),
    {
        proof {
            assert((x as int) + (y as int) * (self.width as int) < (self.width as int) * (
            self.height as int)) by (nonlinear_arith)
                requires
                    (x as int) < (self.width as int),
                    (y as int) < (self.height as int),
                    0 <= x as int,
                    0 <= y as int,
            ;
        }
        self.tiles[(x + y * self.width) as usize]
    }

    /// Writes the tile at column `x`, row `y`; no other cell changes.
    pub fn set(&mut self, x: u32, y: u32, tile_id: TileIndex)
        requires
            old(self).wf(),
            x < old(self).width,
            y < old(self).height,
        ensures
            final(self).wf(),
            final(self).width == old(self).width,
            final(self).height == old(self).height,
            final(self).grid() == old(self).grid().update(
                x + y * old(self).width as int,
                tile_id,
            ),
            final(self).at(x as int, y as int) == tile_id,
            forall|x2: int, y2: int|
                0 <= x2 < old(self).width && 0 <= y2 < old(self).height && !(x2 == x as int && y2
                    == y as int) ==> final(self).at(x2, y2) == old(self).at(x2, y2),
    {
        proof {
            assert((x as int) + (y as int) * (self.width as int) < (self.width as int) * (
            self.height as int)) by (nonlinear_arith)
                requires
                    (x as int) < (self.width as int),
                    (y as int) < (self.height as int),
                    0 <= x as int,
                    0 <= y as int,
            ;
        }
        let idx: usize = (x + y * self.width) as usize;
        self.tiles.set(idx, tile_id);
        proof {
            assert forall|x2: int, y2: int|
                0 <= x2 < self.width && 0 <= y2 < self.height && !(x2 == x as int && y2
                    == y as int) implies self.at(x2, y2) == old(self).at(x2, y2) by {
                assert(x2 + y2 * (self.width as int) < (self.width as int) * (
                self.height as int)) by (nonlinear_arith)
                    requires
                        0 <= x2 < self.width as int,
                        0 <= y2 < self.height as int,
                ;
                if x2 + y2 * self.width as int == x as int + (y as int) * self.width as int {
                    lemma_grid_index_injective(
                        self.width as int,
                        x2,
                        y2,
                        x as int,
                        y as int,
                    );
                }
            }
        }
    }
}

impl Layer {
    /// Fills a fresh layer from tile values in file order: value `k` lands
    /// in column `k % width` of row `height - 1 - k / width`, so the file's
    /// first row becomes the grid's top row.  Values are wrapped modulo the
    /// tile-set size; cells the values do not cover stay on tile 0.
    pub fn from_tile_data(width: u32, height: u32, values: &Vec<u64>, num_tiles: usize) -> (r:
        Layer)
        requires
            (width as int) * (height as int) <= u32::MAX as int,
            values@.len() <= (width as int) * (height as int),
            values@.len() > 0 ==> width >= 1,
            num_tiles >= 1,
        ensures
            r.wf(),
            r.width == width,
            r.height == height,
            forall|k: int|
                0 <= k < values@.len() ==> (#[trigger] r.at(
                    k % (width as int),
                    (height as int) - 1 - k / (width as int),
                )).index() == values@[k] as int % (num_tiles as int),
            forall|x: int, y: int|
                0 <= x < width && 0 <= y < height && x + ((height as int) - 1 - y) * (
                width as int) >= values@.len() ==> (#[trigger] r.at(x, y)).index() == 0,
    {
        let ghost w = width as int;
        let ghost h = height as int;
        let mut layer = Layer::new(width, height);
        proof {
            assert forall|x: int, y: int|
                0 <= x < width && 0 <= y < height implies (#[trigger] layer.at(x, y)).index()
                    == 0 by {
                assert(0 <= x + y * w < w * h) by (nonlinear_arith)
                    requires
                        0 <= x && x < w,
                        0 <= y && y < h,
                ;
            }
        }
        let mut k: usize = 0;
        while k < values.len()
            invariant
                k <= values@.len(),
                values@.len() <= w * h,
                values@.len() > 0 ==> width >= 1,
                num_tiles >= 1,
                w == width as int,
                h == height as int,
                layer.wf(),
                layer.width == width,
                layer.height == height,
                forall|k2: int|
                    0 <= k2 < k ==> (#[trigger] layer.at(k2 % w, h - 1 - k2 / w)).index()
                        == values@[k2] as int % (num_tiles as int),
                forall|x: int, y: int|
                    0 <= x < width && 0 <= y < height && x + (h - 1 - y) * w >= k ==> (
                    #[trigger] layer.at(x, y)).index() == 0,
            decreases values@.len() - k,
        {
            proof {
                assert(k < w * h);
                assert(h >= 1) by (nonlinear_arith)
                    requires
                        0 <= (k as int) && k < w * h,
                        0 <= h,
                ;
                vstd::arithmetic::div_mod::lemma_fundamental_div_mod(k as int, w);
                assert(0 <= k as int / w && k as int / w < h && k as int % w <= k as int) by (
                nonlinear_arith)
                    requires
                        0 < w,
                        0 <= (k as int) && k < w * h,
                        k as int == w * (k as int / w) + k as int % w,
                        0 <= k as int % w < w,
                ;
                assert((k as int - (k as int % w)) / w == k as int / w) by (nonlinear_arith)
                    requires
                        0 < w,
                        k as int == w * (k as int / w) + k as int % w,
                        0 <= k as int % w < w,
                        0 <= k as int / w,
                ;
            }
            let x: u32 = (k as u32) % width;
            let y: u32 = height - 1 - ((k as u32) - x) / width;
            let v: u64 = values[k] % (num_tiles as u64);
            layer.set(x, y, TileIndex::new(v as usize));
            k += 1;
            proof {
                assert(x as int + (h - 1 - y as int) * w == k as int - 1) by (nonlinear_arith)
                    requires
                        0 < w,
                        x as int == (k - 1) as int % w,
                        h - 1 - y as int == (k - 1) as int / w,
                        (k - 1) as int == w * ((k - 1) as int / w) + (k - 1) as int % w,
                ;
                assert forall|k2: int|
                    0 <= k2 < k implies (#[trigger] layer.at(k2 % w, h - 1 - k2 / w)).index()
                        == values@[k2] as int % (num_tiles as int) by {
                    vstd::arithmetic::div_mod::lemma_fundamental_div_mod(k2, w);
                    assert(0 <= k2 % w < w) by (nonlinear_arith)
                        requires
                            0 < w,
                    ;
                    assert(0 <= k2 / w < h) by (nonlinear_arith)
                        requires
                            0 < w,
                            0 <= k2,
                            k2 < w * h,
                    ;
                }
            }
        }
        layer
    }

    /// The layer's tiles in file order, row by row from the top: entry
    /// `y * width + x` is the tile in column `x` of row `height - 1 - y`.
    pub fn to_tile_data(&self) -> (r: Vec<u64>)
        requires
            self.wf(),
        ensures
            r@.len() == (self.width as int) * (self.height as int),
            forall|x: int, y: int|
                0 <= x < self.width && 0 <= y < self.height ==> #[trigger] r@[y * (
                self.width as int) + x] as int == self.at(
                    x,
                    (self.height as int) - 1 - y,
                ).index(),
    {
        let ghost w = self.width as int;
        let ghost h = self.height as int;
        let mut out: Vec<u64> = Vec::new();
        let mut y: u32 = 0;
        while y < self.height
            invariant
                y <= self.height,
                self.wf(),
                w == self.width as int,
                h == self.height as int,
                out@.len() == y * w,
                forall|x2: int, y2: int|
                    0 <= x2 < w && 0 <= y2 < y ==> #[trigger] out@[y2 * w + x2] as int == self.at(
                        x2,
                        h - 1 - y2,
                    ).index(),
            decreases self.height - y,
        {
            let mut x: u32 = 0;
            while x < self.width
                invariant
                    x <= self.width,
                    y < self.height,
                    self.wf(),
                    w == self.width as int,
                    h == self.height as int,
                    out@.len() == y * w + x,
                    forall|x2: int, y2: int|
                        0 <= x2 < w && 0 <= y2 < y ==> #[trigger] out@[y2 * w + x2] as int
                            == self.at(x2, h - 1 - y2).index(),
                    forall|x2: int|
                        0 <= x2 < x ==> #[trigger] out@[y * w + x2] as int == self.at(
                            x2,
                            h - 1 - y,
                        ).index(),
                decreases self.width - x,
            {
                proof {
                    assert(y * w + x < w * h && out@.len() + 1 <= u32::MAX) by (nonlinear_arith)
                        requires
                            0 <= (x as int) && (x as int) < w,
                            0 <= (y as int) && (y as int) < h,
                            out@.len() == y * w + x,
                            w * h <= u32::MAX as int,
                    ;
                }
                let tile = self.get(x, self.height - 1 - y);
                out.push(tile.value() as u64);
                x += 1;
                proof {
                    assert forall|x2: int, y2: int|
                        0 <= x2 < w && 0 <= y2 < y implies #[trigger] out@[y2 * w + x2] as int
                            == self.at(x2, h - 1 - y2).index() by {
                        assert(y2 * w + x2 < y * w) by (nonlinear_arith)
                            requires
                                0 <= x2 && x2 < w,
                                0 <= y2,
                                y2 < y as int,
                        ;
                    }
                }
            }
            y += 1;
            proof {
                assert(out@.len() == y * w) by (nonlinear_arith)
                    requires
                        out@.len() == (y as int - 1) * w + w,
                ;
            }
        }
        proof {
            assert(out@.len() == w * h) by (nonlinear_arith)
                requires
                    out@.len() == h * w,
            ;
        }
        out
    }
}

/// Every cell of the layer holds one of the two given tiles.
pub open spec fn all_cells_in(layer: Layer, a: TileIndex, b: TileIndex) -> bool {
    forall|x: int, y: int|
        0 <= x < layer.width && 0 <= y < layer.height ==> (#[trigger] layer.at(x, y)) == a
            || layer.at(x, y) == b
}

/// Relies on rand::random::<bool>: one draw from the thread-local generator.
/// Nothing can be promised of the outcome.
#[verifier::external_body]
fn random_bool() -> bool {
    rand::random()
}

impl Layer {
    /// Generates a cave-like layer: every cell is seeded at random with one
    /// of the two tiles, then smoothed for `iterations` rounds by a majority
    /// rule over each cell's wrapped 3-by-3 neighbourhood.  Whatever the
    /// random draws, every cell of the result holds `tile_1` or `tile_2`.
    pub fn cellular_automata(
        width: u32,
        height: u32,
        iterations: u32,
        tile_1: TileIndex,
        tile_2: TileIndex,
    ) -> (r: Layer)
        requires
            (width as int) * (height as int) <= u32::MAX as int,
        ensures
            r.wf(),
            r.width == width,
            r.height == height,
            all_cells_in(r, tile_1, tile_2),
    {
        let mut grid = Layer::new(width, height);
        let mut swap_grid = Layer::new(width, height);

        let mut i: u32 = 0;
        while i < width
            invariant
                i <= width,
                grid.wf(),
                grid.width == width,
                grid.height == height,
                forall|x: int, y: int|
                    0 <= x < i && 0 <= y < height ==> (#[trigger] grid.at(x, y)) == tile_1
                        || grid.at(x, y) == tile_2,
            decreases width - i,
        {
            let mut j: u32 = 0;
            while j < height
                invariant
                    j <= height,
                    i < width,
                    grid.wf(),
                    grid.width == width,
                    grid.height == height,
                    forall|x: int, y: int|
                        0 <= x < i && 0 <= y < height ==> (#[trigger] grid.at(x, y)) == tile_1
                            || grid.at(x, y) == tile_2,
                    forall|y: int|
                        0 <= y < j ==> (#[trigger] grid.at(i as int, y)) == tile_1 || grid.at(
                            i as int,
                            y,
                        ) == tile_2,
                decreases height - j,
            {
                if random_bool() {
                    grid.set(i, j, tile_1);
                } else {
                    grid.set(i, j, tile_2);
                }
                j += 1;
            }
            i += 1;
        }

        let mut it: u32 = 0;
        while it < iterations
            invariant
                grid.wf(),
                grid.width == width,
                grid.height == height,
                all_cells_in(grid, tile_1, tile_2),
                swap_grid.wf(),
                swap_grid.width == width,
                swap_grid.height == height,
            decreases iterations - it,
        {
            let mut x: u32 = 0;
            while x < width
                invariant
                    x <= width,
                    grid.wf(),
                    grid.width == width,
                    grid.height == height,
                    all_cells_in(grid, tile_1, tile_2),
                    swap_grid.wf(),
                    swap_grid.width == width,
                    swap_grid.height == height,
                    forall|x2: int, y2: int|
                        0 <= x2 < x && 0 <= y2 < height ==> (#[trigger] swap_grid.at(x2, y2))
                            == tile_1 || swap_grid.at(x2, y2) == tile_2,
                decreases width - x,
            {
                let mut y: u32 = 0;
                while y < height
                    invariant
                        y <= height,
                        x < width,
                        grid.wf(),
                        grid.width == width,
                        grid.height == height,
                        all_cells_in(grid, tile_1, tile_2),
                        swap_grid.wf(),
                        swap_grid.width == width,
                        swap_grid.height == height,
                        forall|x2: int, y2: int|
                            0 <= x2 < x && 0 <= y2 < height ==> (#[trigger] swap_grid.at(x2, y2))
                                == tile_1 || swap_grid.at(x2, y2) == tile_2,
                        forall|y2: int|
                            0 <= y2 < y ==> (#[trigger] swap_grid.at(x as int, y2)) == tile_1
                                || swap_grid.at(x as int, y2) == tile_2,
                    decreases height - y,
                {
                    let mut n: i32 = 0;
                    let mut di: u32 = 0;
                    while di < 3
                        invariant
                            di <= 3,
                            0 <= n <= 3 * di,
                            x < width,
                            y < height,
                            grid.wf(),
                            grid.width == width,
                            grid.height == height,
                        decreases 3 - di,
                    {
                        let mut dj: u32 = 0;
                        while dj < 3
                            invariant
                                dj <= 3,
                                di < 3,
                                0 <= n <= 3 * di + dj,
                                x < width,
                                y < height,
                                grid.wf(),
                                grid.width == width,
                                grid.height == height,
                            decreases 3 - dj,
                        {
                            let mut real_x: i64 = x as i64 + di as i64 - 1;
                            let mut real_y: i64 = y as i64 + dj as i64 - 1;
                            if real_x < 0 {
                                real_x = width as i64 - 1;
                            }
                            if real_y < 0 {
                                real_y = height as i64 - 1;
                            }
                            if real_x >= width as i64 {
                                real_x = 0;
                            }
                            if real_y >= height as i64 {
                                real_y = 0;
                            }
                            if grid.get(real_x as u32, real_y as u32) == tile_1 {
                                n += 1;
                            }
                            dj += 1;
                        }
                        di += 1;
                    }
                    if grid.get(x, y) == tile_1 {
                        n -= 1;
                    }
                    if n < 4 {
                        swap_grid.set(x, y, tile_2);
                    } else if n > 4 {
                        swap_grid.set(x, y, tile_1);
                    } else {
                        let current = grid.get(x, y);
                        swap_grid.set(x, y, current);
                    }
                    y += 1;
                }
                x += 1;
            }
            let mut x: u32 = 0;
            while x < width
                invariant
                    x <= width,
                    grid.wf(),
                    grid.width == width,
                    grid.height == height,
                    swap_grid.wf(),
                    swap_grid.width == width,
                    swap_grid.height == height,
                    all_cells_in(grid, tile_1, tile_2),
                    all_cells_in(swap_grid, tile_1, tile_2),
                decreases width - x,
            {
                let mut y: u32 = 0;
                while y < height
                    invariant
                        y <= height,
                        x < width,
                        grid.wf(),
                        grid.width == width,
                        grid.height == height,
                        swap_grid.wf(),
                        swap_grid.width == width,
                        swap_grid.height == height,
                        all_cells_in(grid, tile_1, tile_2),
                        all_cells_in(swap_grid, tile_1, tile_2),
                    decreases height - y,
                {
                    let copied = swap_grid.get(x, y);
                    grid.set(x, y, copied);
                    y += 1;
                }
                x += 1;
            }
            it += 1;
        }
        grid
    }
}

} // verus!
