//! Transfer tables: the scaled running total of a histogram, one table per
//! tile.

use vstd::prelude::*;
use crate::grid::{GridView, SampleGrid, lemma_row_major};
use crate::geometry::TileGeometry;
use crate::histogram::{Histogram, counts_of, tile_samples, histogram_of, clipped};
use crate::sums::{total, lemma_total_take_step, lemma_total_take_monotone};

verus! {

/// Entry `i` of the transfer table of histogram `h` for a tile of `pixels`
/// samples: the number of samples up to level `i`, scaled so that all
/// `pixels` of them reach the top level, rounded down and kept at or below
/// the top level. A tile without samples maps everything to zero.
pub open spec fn lut_value(h: Seq<nat>, pixels: nat, i: int) -> nat {
    let top = (h.len() - 1) as nat;
    if pixels == 0 {
        0
    } else if total(h.take(i + 1)) * top / pixels > top {
        top
    } else {
        total(h.take(i + 1)) * top / pixels
    }
}

/// The transfer table of histogram `h` for a tile of `pixels` samples.
pub open spec fn lut_of(h: Seq<nat>, pixels: nat) -> Seq<nat> {
    Seq::new(h.len(), |i: int| lut_value(h, pixels, i))
}

/// The transfer table of the tile in column `tile_x` and row `tile_y` of a
/// grid that is a whole number of tiles large: the table of the tile's
/// histogram, clipped at `limit`.
pub open spec fn tile_table(
    source: GridView,
    tile_width: nat,
    tile_height: nat,
    limit: nat,
    tile_x: int,
    tile_y: int,
) -> Seq<nat> {
    lut_of(
        clipped(
            histogram_of(
                tile_samples(
                    source,
                    tile_x * tile_width,
                    tile_y * tile_height,
                    tile_width as int,
                    tile_height as int,
                ),
                source.levels,
            ),
            limit,
        ),
        tile_width * tile_height,
    )
}

/// A transfer table never falls: a brighter sample is never mapped below a
/// darker one.
pub proof fn lemma_lut_monotone(h: Seq<nat>, pixels: nat, i: int, j: int)
    requires
        0 <= i <= j < h.len(),
    ensures
        lut_value(h, pixels, i) <= lut_value(h, pixels, j),
        lut_value(h, pixels, j) <= h.len() - 1,
{
    let top = (h.len() - 1) as nat;
    let a = total(h.take(i + 1));
    let b = total(h.take(j + 1));
    lemma_total_take_monotone(h, i + 1, j + 1);
    if pixels > 0 {
        assert(a * top / pixels <= b * top / pixels) by (nonlinear_arith)
            requires
                a <= b,
                pixels > 0,
        ;
    }
}

/// A table that maps each level of a sample to a level of the same depth.
#[derive(Clone, Debug, PartialEq, Eq)]
pub struct Lut {
    values: Vec<u16>,
}

impl View for Lut {
    type V = Seq<nat>;

    closed spec fn view(&self) -> Seq<nat> {
        Seq::new(self.values@.len(), |i: int| self.values@[i] as nat)
    }
}

impl Lut {
    /// The table has an entry for each of its 1 to 65536 levels, every entry
    /// is one of these levels, and the entries never fall.
    pub open spec fn wf(&self) -> bool {
        &&& 1 <= self@.len() <= 65536
        &&& forall|i: int| 0 <= i < self@.len() ==> #[trigger] self@[i] < self@.len()
        &&& forall|i: int, j: int| 0 <= i <= j < self@.len() ==> self@[i] <= self@[j]
    }

    /// The transfer table of `histogram` for a tile of `pixels` samples.
    pub fn from_histogram(histogram: &Histogram, pixels: usize) -> (lut: Lut)
        requires
            histogram.wf(),
        ensures
            lut.wf(),
            lut@ == lut_of(histogram@, pixels as nat),
    {
        let counts = histogram.counts();
        let levels = counts.len();
        let ghost h = histogram@;
        assert(h.len() == levels);
        let top = levels - 1;
        let mut values: Vec<u16> = Vec::new();
        let mut sum: usize = 0;
        let mut i: usize = 0;
        proof {
            assert(h.take(0) =~= Seq::<nat>::empty());
        }
        while i < levels
            invariant
                h == histogram@,
                h == counts_of(counts@),
                h.len() == levels,
                1 <= levels <= 65536,
                top == levels - 1,
                total(h) <= usize::MAX,
                i <= levels,
                sum == total(h.take(i as int)),
                values@.len() == i,
                forall|k: int|
                    0 <= k < i ==> #[trigger] values@[k] == lut_value(h, pixels as nat, k),
            decreases levels - i,
        {
            proof {
                lemma_total_take_step(h, i as int);
                lemma_total_take_monotone(h, i as int + 1, levels as int);
                assert(h.take(levels as int) =~= h);
                assert(h[i as int] == counts@[i as int]);
            }
            sum = sum + counts[i];
            let value: u16 = if pixels == 0 {
                0
            } else {
                let sum_wide: u128 = sum as u128;
                let top_wide: u128 = top as u128;
                assert(sum_wide * top_wide <= 0xffff_ffff_ffff_ffff * 0xffff) by (nonlinear_arith)
                    requires
                        0 <= sum_wide <= 0xffff_ffff_ffff_ffff,
                        0 <= top_wide <= 0xffff,
                ;
                let scaled: u128 = (sum_wide * top_wide) / (pixels as u128);
                if scaled > top_wide {
                    top as u16
                } else {
                    scaled as u16
                }
            };
            values.push(value);
            i += 1;
        }
        let lut = Lut { values };
        proof {
            assert(lut@ =~= lut_of(h, pixels as nat));
            assert forall|a: int, b: int| 0 <= a <= b < lut@.len() implies lut@[a] <= lut@[b] by {
                lemma_lut_monotone(h, pixels as nat, a, b);
            }
            assert forall|a: int| 0 <= a < lut@.len() implies #[trigger] lut@[a] < lut@.len() by {
                lemma_lut_monotone(h, pixels as nat, a, a);
            }
        }
        lut
    }

    /// The level that a sample of level `p` is mapped to.
    pub fn get(&self, p: usize) -> (v: u16)
        requires
            p < self@.len(),
        ensures
            v == self@[p as int],
    {
        self.values[p]
    }

    /// The number of levels.
    pub fn len(&self) -> (n: usize)
        ensures
            n == self@.len(),
    {
        self.values.len()
    }
}

/// The transfer tables of all tiles of a tile grid, row by row.
#[derive(Clone, Debug, PartialEq, Eq)]
pub struct TileLutGrid {
    tiles_x: usize,
    tiles_y: usize,
    luts: Vec<Lut>,
}

impl View for TileLutGrid {
    type V = Seq<Seq<nat>>;

    closed spec fn view(&self) -> Seq<Seq<nat>> {
        Seq::new(self.luts@.len(), |t: int| self.luts@[t]@)
    }
}

impl TileLutGrid {
    /// The number of tiles side by side.
    pub closed spec fn columns(&self) -> nat {
        self.tiles_x as nat
    }

    /// The number of tiles one above the other.
    pub closed spec fn rows(&self) -> nat {
        self.tiles_y as nat
    }

    /// Every tile has its table.
    pub closed spec fn wf(&self) -> bool {
        &&& self.luts@.len() == self.tiles_x * self.tiles_y
        &&& forall|t: int| 0 <= t < self.luts@.len() ==> (#[trigger] self.luts@[t]).wf()
    }

    /// The table of the tile in column `tile_x` and row `tile_y`.
    pub open spec fn table(&self, tile_x: int, tile_y: int) -> Seq<nat> {
        self@[tile_y * self.columns() + tile_x]
    }

    /// The tables of all tiles of `source`, a grid that is a whole number of
    /// tiles large: for each tile its histogram, clipped at `limit`, as a
    /// transfer table.
    pub fn build(source: &SampleGrid, geometry: &TileGeometry, limit: u128) -> (grid: TileLutGrid)
        requires
            source.wf(),
            geometry.tiles_x * geometry.tile_width == source@.width,
            geometry.tiles_y * geometry.tile_height == source@.height,
            geometry.tiles_x * geometry.tiles_y <= usize::MAX,
        ensures
            grid.wf(),
            grid.columns() == geometry.tiles_x,
            grid.rows() == geometry.tiles_y,
            grid@.len() == geometry.tiles_x * geometry.tiles_y,
            forall|tile_x: int, tile_y: int|
                0 <= tile_x < geometry.tiles_x && 0 <= tile_y < geometry.tiles_y
                    ==> #[trigger] grid.table(tile_x, tile_y) == tile_table(
                    source@,
                    geometry.tile_width as nat,
                    geometry.tile_height as nat,
                    limit as nat,
                    tile_x,
                    tile_y,
                ),
            forall|t: int|
                0 <= t < grid@.len() ==> (#[trigger] grid@[t]).len() == source@.levels,
            forall|t: int, p: int|
                0 <= t < grid@.len() && 0 <= p < source@.levels ==> #[trigger] grid@[t][p]
                    < source@.levels,
    {
        let tiles_x = geometry.tiles_x;
        let tiles_y = geometry.tiles_y;
        let tile_width = geometry.tile_width;
        let tile_height = geometry.tile_height;
        let width = source.width();
        let height = source.height();
        let count = source.samples().len();
        proof {
            if tiles_x >= 1 && tiles_y >= 1 {
                assert(tile_width <= width && tile_height <= height) by (nonlinear_arith)
                    requires
                        tiles_x * tile_width == width,
                        tiles_y * tile_height == height,
                        tiles_x >= 1,
                        tiles_y >= 1,
                        tile_width >= 0,
                        tile_height >= 0,
                ;
                assert(tile_width * tile_height <= width * height) by (nonlinear_arith)
                    requires
                        0 <= tile_width <= width,
                        0 <= tile_height <= height,
                ;
            }
        }
        let mut luts: Vec<Lut> = Vec::new();
        if tiles_x == 0 || tiles_y == 0 {
            proof {
                assert(tiles_x * tiles_y == 0) by (nonlinear_arith)
                    requires
                        tiles_x == 0 || tiles_y == 0,
                ;
            }
            return TileLutGrid { tiles_x, tiles_y, luts };
        }
        let pixels = tile_width * tile_height;
        let mut tile_y: usize = 0;
        while tile_y < tiles_y
            invariant
                source.wf(),
                tiles_x == geometry.tiles_x,
                tiles_y == geometry.tiles_y,
                tile_width == geometry.tile_width,
                tile_height == geometry.tile_height,
                tiles_x * tile_width == source@.width,
                tiles_y * tile_height == source@.height,
                tiles_x * tiles_y <= usize::MAX,
                pixels == tile_width * tile_height,
                tile_y <= tiles_y,
                luts@.len() == tile_y * tiles_x,
                forall|t: int| 0 <= t < luts@.len() ==> (#[trigger] luts@[t]).wf(),
                forall|t: int| 0 <= t < luts@.len() ==> (#[trigger] luts@[t])@.len() == source@.levels,
                forall|x: int, y: int|
                    0 <= x < tiles_x && 0 <= y < tile_y ==> (#[trigger] luts@[y * tiles_x + x])@
                        == tile_table(
                        source@,
                        tile_width as nat,
                        tile_height as nat,
                        limit as nat,
                        x,
                        y,
                    ),
            decreases tiles_y - tile_y,
        {
            let mut tile_x: usize = 0;
            while tile_x < tiles_x
                invariant
                    source.wf(),
                    tiles_x == geometry.tiles_x,
                    tiles_y == geometry.tiles_y,
                    tile_width == geometry.tile_width,
                    tile_height == geometry.tile_height,
                    tiles_x * tile_width == source@.width,
                    tiles_y * tile_height == source@.height,
                    tiles_x * tiles_y <= usize::MAX,
                    pixels == tile_width * tile_height,
                    tile_y < tiles_y,
                    tile_x <= tiles_x,
                    luts@.len() == tile_y * tiles_x + tile_x,
                    forall|t: int| 0 <= t < luts@.len() ==> (#[trigger] luts@[t]).wf(),
                    forall|t: int|
                        0 <= t < luts@.len() ==> (#[trigger] luts@[t])@.len() == source@.levels,
                    forall|x: int, y: int|
                        0 <= x < tiles_x && 0 <= y < tile_y ==> (#[trigger] luts@[y * tiles_x
                            + x])@ == tile_table(
                            source@,
                            tile_width as nat,
                            tile_height as nat,
                            limit as nat,
                            x,
                            y,
                        ),
                    forall|x: int|
                        0 <= x < tile_x ==> (#[trigger] luts@[tile_y * tiles_x + x])@
                            == tile_table(
                            source@,
                            tile_width as nat,
                            tile_height as nat,
                            limit as nat,
                            x,
                            tile_y as int,
                        ),
                decreases tiles_x - tile_x,
            {
                proof {
                    assert((tile_x + 1) * tile_width <= tiles_x * tile_width) by (nonlinear_arith)
                        requires
                            tile_x < tiles_x,
                            0 <= tile_width,
                    ;
                    assert((tile_y + 1) * tile_height <= tiles_y * tile_height)
                        by (nonlinear_arith)
                        requires
                            tile_y < tiles_y,
                            0 <= tile_height,
                    ;
                }
                let mut histogram = Histogram::of_tile(source, geometry, tile_x, tile_y);
                histogram.clip(limit);
                let lut = Lut::from_histogram(&histogram, pixels);
                let ghost before = luts@;
                luts.push(lut);
                proof {
                    assert forall|x: int, y: int| 0 <= x < tiles_x && 0 <= y < tile_y implies (
                    #[trigger] luts@[y * tiles_x + x])@ == tile_table(
                        source@,
                        tile_width as nat,
                        tile_height as nat,
                        limit as nat,
                        x,
                        y,
                    ) by {
                        lemma_row_major(x, y, tiles_x as int, tile_y as int);
                        assert(tile_y * tiles_x == tiles_x * tile_y) by (nonlinear_arith);
                        assert(luts@[y * tiles_x + x] == before[y * tiles_x + x]);
                    }
                    assert forall|x: int| 0 <= x < tile_x + 1 implies (#[trigger] luts@[tile_y
                        * tiles_x + x])@ == tile_table(
                        source@,
                        tile_width as nat,
                        tile_height as nat,
                        limit as nat,
                        x,
                        tile_y as int,
                    ) by {
                        if x < tile_x {
                            assert(luts@[tile_y * tiles_x + x] == before[tile_y * tiles_x + x]);
                        }
                    }
                }
                tile_x += 1;
            }
            proof {
                assert((tile_y + 1) * tiles_x == tile_y * tiles_x + tiles_x) by (nonlinear_arith);
            }
            tile_y += 1;
        }
        proof {
            assert(tile_y * tiles_x == tiles_x * tiles_y) by (nonlinear_arith)
                requires
                    tile_y == tiles_y,
            ;
        }
        let grid = TileLutGrid { tiles_x, tiles_y, luts };
        proof {
            assert forall|x: int, y: int| 0 <= x < tiles_x && 0 <= y < tiles_y implies #[trigger] grid.table(
                x,
                y,
            ) == tile_table(
                source@,
                tile_width as nat,
                tile_height as nat,
                limit as nat,
                x,
                y,
            ) by {
                lemma_row_major(x, y, tiles_x as int, tiles_y as int);
                assert(grid@[y * tiles_x + x] == luts@[y * tiles_x + x]@);
            }
            assert forall|t: int, p: int|
                0 <= t < grid@.len() && 0 <= p < source@.levels implies #[trigger] grid@[t][p]
                < source@.levels by {
                assert(luts@[t].wf());
            }
        }
        grid
    }

    /// The table of the tile in column `tile_x` and row `tile_y`.
    pub fn lut(&self, tile_x: usize, tile_y: usize) -> (lut: &Lut)
        requires
            self.wf(),
            tile_x < self.columns(),
            tile_y < self.rows(),
        ensures
            lut@ == self.table(tile_x as int, tile_y as int),
            lut.wf(),
    {
        proof {
            lemma_row_major(tile_x as int, tile_y as int, self.tiles_x as int, self.tiles_y as int);
            assert(0 <= tile_y * self.tiles_x <= tile_y * self.tiles_x + tile_x)
                by (nonlinear_arith)
                requires
                    0 <= tile_y,
                    0 <= self.tiles_x,
                    0 <= tile_x,
            ;
        }
        let count = self.luts.len();
        &self.luts[tile_y * self.tiles_x + tile_x]
    }
}

} // verus!
