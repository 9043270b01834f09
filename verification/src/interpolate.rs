//! Blending the transfer tables of neighbouring tiles, region by region.

use vstd::prelude::*;
use crate::convert::{index_of, sample_of};
use crate::geometry::{
    TileGeometry, region_edge, region_of, nearest_tile, region_bounds, tile_before, tile_at,
};
use crate::grid::{GridView, SampleGrid, lemma_row_major};
use crate::lut::TileLutGrid;

verus! {

/// The blend of the four table values `l00` (upper left), `l10` (upper
/// right), `l01` (lower left) and `l11` (lower right) for a sample that lies
/// `xi` of `tile_width` steps to the right and `yi` of `tile_height` steps
/// down between the tile centres, brought from `in_levels` to `out_levels`
/// levels, rounded down and kept at or below the top output level.
pub open spec fn blend(
    l00: nat,
    l10: nat,
    l01: nat,
    l11: nat,
    xi: nat,
    yi: nat,
    tile_width: nat,
    tile_height: nat,
    in_levels: nat,
    out_levels: nat,
) -> nat {
    let upper = l00 * (tile_width - xi) + l10 * xi;
    let lower = l01 * (tile_width - xi) + l11 * xi;
    let mixed = upper * (tile_height - yi) + lower * yi;
    let scaled = out_levels * mixed / ((in_levels * tile_width * tile_height) as int);
    if scaled > out_levels - 1 {
        (out_levels - 1) as nat
    } else {
        scaled as nat
    }
}

/// All that the value of an output sample depends on.
pub struct BlendPlan {
    /// The grid that samples are read from: the image, padded to whole tiles.
    pub source: GridView,
    /// The transfer tables of the tiles, row by row.
    pub tables: Seq<Seq<nat>>,
    pub tiles_x: nat,
    pub tiles_y: nat,
    pub tile_width: nat,
    pub tile_height: nat,
    /// The size of the output.
    pub width: nat,
    pub height: nat,
    /// The number of levels of the output.
    pub out_levels: nat,
}

impl BlendPlan {
    /// The table of the tile in column `tile_x` and row `tile_y`.
    pub open spec fn table(self, tile_x: int, tile_y: int) -> Seq<nat> {
        self.tables[tile_y * self.tiles_x + tile_x]
    }

    /// Whether position `(x, y)` lies in region `(i, j)`.
    pub open spec fn in_region(self, i: int, j: int, x: int, y: int) -> bool {
        &&& region_edge(i - 1, self.tile_width as int, self.width as int) <= x < region_edge(
            i,
            self.tile_width as int,
            self.width as int,
        )
        &&& region_edge(j - 1, self.tile_height as int, self.height as int) <= y < region_edge(
            j,
            self.tile_height as int,
            self.height as int,
        )
    }

    /// The output sample at `(x, y)`, taken as a position of region `(i, j)`:
    /// the blend of what the tables of the tiles around the region make of
    /// the input sample. At the rim of the image, where a tile is missing on
    /// one side, its nearest neighbour stands in.
    pub open spec fn region_sample(self, i: int, j: int, x: int, y: int) -> nat {
        let xi = x - region_edge(i - 1, self.tile_width as int, self.width as int);
        let yi = y - region_edge(j - 1, self.tile_height as int, self.height as int);
        let left = nearest_tile(i - 1, self.tiles_x as int);
        let right = nearest_tile(i, self.tiles_x as int);
        let top = nearest_tile(j - 1, self.tiles_y as int);
        let bottom = nearest_tile(j, self.tiles_y as int);
        let p = self.source.at(x, y) as int;
        blend(
            self.table(left, top)[p],
            self.table(right, top)[p],
            self.table(left, bottom)[p],
            self.table(right, bottom)[p],
            xi as nat,
            yi as nat,
            self.tile_width,
            self.tile_height,
            self.source.levels,
            self.out_levels,
        )
    }

    /// The output sample at `(x, y)`.
    pub open spec fn sample(self, x: int, y: int) -> nat {
        self.region_sample(
            region_of(x, self.tile_width as int),
            region_of(y, self.tile_height as int),
            x,
            y,
        )
    }
}

/// The blend of four table values, as `blend` defines it.
pub fn blend_sample(
    l00: u16,
    l10: u16,
    l01: u16,
    l11: u16,
    xi: usize,
    yi: usize,
    tile_width: usize,
    tile_height: usize,
    in_max: u16,
    out_max: u16,
) -> (v: u16)
    requires
        xi <= tile_width,
        yi <= tile_height,
        tile_width >= 1,
        tile_height >= 1,
        tile_width * tile_height <= usize::MAX,
    ensures
        v == blend(
            l00 as nat,
            l10 as nat,
            l01 as nat,
            l11 as nat,
            xi as nat,
            yi as nat,
            tile_width as nat,
            tile_height as nat,
            (in_max + 1) as nat,
            (out_max + 1) as nat,
        ),
        v <= out_max,
{
    let tw: u128 = tile_width as u128;
    let th: u128 = tile_height as u128;
    let x1: u128 = xi as u128;
    let x0: u128 = tw - x1;
    let y1: u128 = yi as u128;
    let y0: u128 = th - y1;
    let a: u128 = l00 as u128;
    let b: u128 = l10 as u128;
    let c: u128 = l01 as u128;
    let d: u128 = l11 as u128;
    let in_levels: u128 = in_max as u128 + 1;
    let out_levels: u128 = out_max as u128 + 1;
    proof {
        assert(a * x0 + b * x1 <= 0xffff * tw && a * x0 <= 0xffff * tw && b * x1 <= 0xffff * tw)
            by (nonlinear_arith)
            requires
                0 <= a <= 0xffff,
                0 <= b <= 0xffff,
                0 <= x0,
                0 <= x1,
                x0 + x1 == tw,
        ;
        assert(c * x0 + d * x1 <= 0xffff * tw && c * x0 <= 0xffff * tw && d * x1 <= 0xffff * tw)
            by (nonlinear_arith)
            requires
                0 <= c <= 0xffff,
                0 <= d <= 0xffff,
                0 <= x0,
                0 <= x1,
                x0 + x1 == tw,
        ;
        assert(0xffff * tw <= 0xffff * 0xffff_ffff_ffff_ffff) by (nonlinear_arith)
            requires
                tw <= 0xffff_ffff_ffff_ffff,
        ;
    }
    let upper: u128 = a * x0 + b * x1;
    let lower: u128 = c * x0 + d * x1;
    proof {
        assert(upper * y0 + lower * y1 <= 0xffff * (tw * th) && upper * y0 <= 0xffff * (tw * th)
            && lower * y1 <= 0xffff * (tw * th)) by (nonlinear_arith)
            requires
                0 <= upper <= 0xffff * tw,
                0 <= lower <= 0xffff * tw,
                0 <= y0,
                0 <= y1,
                y0 + y1 == th,
                0 <= tw,
        ;
        assert(tw * th <= 0xffff_ffff_ffff_ffff);
        assert(0xffff * (tw * th) <= 0xffff * 0xffff_ffff_ffff_ffff) by (nonlinear_arith)
            requires
                tw * th <= 0xffff_ffff_ffff_ffff,
        ;
    }
    let mixed: u128 = upper * y0 + lower * y1;
    proof {
        assert(out_levels * mixed <= 0x1_0000 * (0xffff * 0xffff_ffff_ffff_ffff))
            by (nonlinear_arith)
            requires
                0 <= out_levels <= 0x1_0000,
                0 <= mixed <= 0xffff * 0xffff_ffff_ffff_ffff,
        ;
        assert(1 <= in_levels * tw <= 0x1_0000 * 0xffff_ffff_ffff_ffff) by (nonlinear_arith)
            requires
                1 <= in_levels <= 0x1_0000,
                1 <= tw <= 0xffff_ffff_ffff_ffff,
        ;
        assert(1 <= in_levels * tw * th <= 0x1_0000 * 0xffff_ffff_ffff_ffff)
            by (nonlinear_arith)
            requires
                1 <= in_levels <= 0x1_0000,
                1 <= tw,
                1 <= th,
                tw * th <= 0xffff_ffff_ffff_ffff,
        ;
    }
    let scaled: u128 = (out_levels * mixed) / (in_levels * tw * th);
    let kept: u128 = if scaled > out_levels - 1 {
        out_levels - 1
    } else {
        scaled
    };
    match sample_of(kept) {
        Some(v) => v,
        None => 0,
    }
}

/// Fills region `(i, j)` of `dst`: every sample of the region becomes the
/// blend that `BlendPlan::region_sample` defines, read from `source` through
/// the tables in `luts`. Nothing outside the region changes.
pub fn interpolate(
    dst: &mut SampleGrid,
    source: &SampleGrid,
    luts: &TileLutGrid,
    geometry: &TileGeometry,
    i: usize,
    j: usize,
)
    requires
        old(dst).wf(),
        source.wf(),
        luts.wf(),
        can_blend(old(dst)@, source@, luts@, luts.columns(), luts.rows(), *geometry),
        i <= geometry.tiles_x,
        j <= geometry.tiles_y,
    ensures
        final(dst).wf(),
        final(dst)@.width == old(dst)@.width,
        final(dst)@.height == old(dst)@.height,
        final(dst)@.levels == old(dst)@.levels,
        forall|x: int, y: int|
            0 <= x < old(dst)@.width && 0 <= y < old(dst)@.height ==> #[trigger] final(dst)@.at(
                x,
                y,
            ) == if plan_of(old(dst)@, source@, luts@, *geometry).in_region(
                i as int,
                j as int,
                x,
                y,
            ) {
                plan_of(old(dst)@, source@, luts@, *geometry).region_sample(
                    i as int,
                    j as int,
                    x,
                    y,
                )
            } else {
                old(dst)@.at(x, y)
            },
{
    let width = dst.width();
    let height = dst.height();
    let in_max = source.max_value();
    let out_max = dst.max_value();
    let tile_width = geometry.tile_width;
    let tile_height = geometry.tile_height;
    let ghost plan = plan_of(dst@, source@, luts@, *geometry);
    let ghost before = dst@;
    let (x_start, x_end) = region_bounds(i, tile_width, width);
    let (y_start, y_end) = region_bounds(j, tile_height, height);
    let left = tile_before(i, geometry.tiles_x);
    let right = tile_at(i, geometry.tiles_x);
    let top = tile_before(j, geometry.tiles_y);
    let bottom = tile_at(j, geometry.tiles_y);
    let lut_00 = luts.lut(left, top);
    let lut_10 = luts.lut(right, top);
    let lut_01 = luts.lut(left, bottom);
    let lut_11 = luts.lut(right, bottom);
    proof {
        lemma_row_major(left as int, top as int, plan.tiles_x as int, plan.tiles_y as int);
        lemma_row_major(right as int, top as int, plan.tiles_x as int, plan.tiles_y as int);
        lemma_row_major(left as int, bottom as int, plan.tiles_x as int, plan.tiles_y as int);
        lemma_row_major(right as int, bottom as int, plan.tiles_x as int, plan.tiles_y as int);
    }
    let mut x = x_start;
    while x < x_end
        invariant
            dst.wf(),
            source.wf(),
            lut_00.wf(),
            lut_10.wf(),
            lut_01.wf(),
            lut_11.wf(),
            lut_00@ == plan.table(left as int, top as int),
            lut_10@ == plan.table(right as int, top as int),
            lut_01@ == plan.table(left as int, bottom as int),
            lut_11@ == plan.table(right as int, bottom as int),
            lut_00@.len() == source@.levels,
            lut_10@.len() == source@.levels,
            lut_01@.len() == source@.levels,
            lut_11@.len() == source@.levels,
            left == nearest_tile(i as int - 1, plan.tiles_x as int),
            right == nearest_tile(i as int, plan.tiles_x as int),
            top == nearest_tile(j as int - 1, plan.tiles_y as int),
            bottom == nearest_tile(j as int, plan.tiles_y as int),
            plan == plan_of(before, source@, luts@, *geometry),
            dst@.width == before.width == width,
            dst@.height == before.height == height,
            dst@.levels == before.levels == out_max + 1,
            source@.levels == in_max + 1,
            width <= source@.width,
            height <= source@.height,
            tile_width == geometry.tile_width,
            tile_height == geometry.tile_height,
            tile_width >= 1,
            tile_height >= 1,
            tile_width * tile_height <= usize::MAX,
            x_start == region_edge(i as int - 1, tile_width as int, width as int),
            x_end == region_edge(i as int, tile_width as int, width as int),
            y_start == region_edge(j as int - 1, tile_height as int, height as int),
            y_end == region_edge(j as int, tile_height as int, height as int),
            x_start <= x <= x_end <= width,
            y_start <= y_end <= height,
            x_end - x_start <= tile_width,
            y_end - y_start <= tile_height,
            forall|xx: int, yy: int|
                0 <= xx < width && 0 <= yy < height ==> #[trigger] dst@.at(xx, yy) == if x_start
                    <= xx < x && y_start <= yy < y_end {
                    plan.region_sample(i as int, j as int, xx, yy)
                } else {
                    before.at(xx, yy)
                },
        decreases x_end - x,
    {
        let mut y = y_start;
        while y < y_end
            invariant
                dst.wf(),
                source.wf(),
                lut_00.wf(),
                lut_10.wf(),
                lut_01.wf(),
                lut_11.wf(),
                lut_00@ == plan.table(left as int, top as int),
                lut_10@ == plan.table(right as int, top as int),
                lut_01@ == plan.table(left as int, bottom as int),
                lut_11@ == plan.table(right as int, bottom as int),
                lut_00@.len() == source@.levels,
                lut_10@.len() == source@.levels,
                lut_01@.len() == source@.levels,
                lut_11@.len() == source@.levels,
                left == nearest_tile(i as int - 1, plan.tiles_x as int),
                right == nearest_tile(i as int, plan.tiles_x as int),
                top == nearest_tile(j as int - 1, plan.tiles_y as int),
                bottom == nearest_tile(j as int, plan.tiles_y as int),
                plan == plan_of(before, source@, luts@, *geometry),
                dst@.width == before.width == width,
                dst@.height == before.height == height,
                dst@.levels == before.levels == out_max + 1,
                source@.levels == in_max + 1,
                width <= source@.width,
                height <= source@.height,
                tile_width == geometry.tile_width,
                tile_height == geometry.tile_height,
                tile_width >= 1,
                tile_height >= 1,
                tile_width * tile_height <= usize::MAX,
                x_start == region_edge(i as int - 1, tile_width as int, width as int),
                y_start == region_edge(j as int - 1, tile_height as int, height as int),
                x_start <= x < x_end <= width,
                y_start <= y <= y_end <= height,
                x_end - x_start <= tile_width,
                y_end - y_start <= tile_height,
                forall|xx: int, yy: int|
                    0 <= xx < width && 0 <= yy < height ==> #[trigger] dst@.at(xx, yy) == if (
                    x_start <= xx < x && y_start <= yy < y_end) || (xx == x && y_start <= yy
                        < y) {
                        plan.region_sample(i as int, j as int, xx, yy)
                    } else {
                        before.at(xx, yy)
                    },
            decreases y_end - y,
        {
            let sample = source.get(x, y);
            let p = match index_of(sample) {
                Some(p) => p,
                None => 0,
            };
            let v = blend_sample(
                lut_00.get(p),
                lut_10.get(p),
                lut_01.get(p),
                lut_11.get(p),
                x - x_start,
                y - y_start,
                tile_width,
                tile_height,
                in_max,
                out_max,
            );
            let ghost now = dst@;
            dst.set(x, y, v);
            proof {
                assert(v == plan.region_sample(i as int, j as int, x as int, y as int));
                assert forall|xx: int, yy: int| 0 <= xx < width && 0 <= yy < height implies #[trigger] dst@.at(
                    xx,
                    yy,
                ) == if (x_start <= xx < x && y_start <= yy < y_end) || (xx == x && y_start <= yy
                    < y + 1) {
                    plan.region_sample(i as int, j as int, xx, yy)
                } else {
                    before.at(xx, yy)
                } by {
                    lemma_row_major(xx, yy, width as int, height as int);
                    lemma_row_major(x as int, y as int, width as int, height as int);
                    if xx == x && yy == y {
                    } else {
                        assert(yy * width + xx != y * width + x);
                        assert(dst@.at(xx, yy) == now.at(xx, yy));
                    }
                }
            }
            y += 1;
        }
        x += 1;
    }
}

/// The plan by which `dst` is filled from `source` through `tables`.
pub open spec fn plan_of(
    dst: GridView,
    source: GridView,
    tables: Seq<Seq<nat>>,
    geometry: TileGeometry,
) -> BlendPlan {
    BlendPlan {
        source,
        tables,
        tiles_x: geometry.tiles_x as nat,
        tiles_y: geometry.tiles_y as nat,
        tile_width: geometry.tile_width as nat,
        tile_height: geometry.tile_height as nat,
        width: dst.width,
        height: dst.height,
        out_levels: dst.levels,
    }
}

/// Whether `dst` can be filled from `source` through `tables`: there is a
/// table for every tile and an entry in it for every level of `source`, the
/// tiles are not empty, and `source` reaches over `dst`.
pub open spec fn can_blend(
    dst: GridView,
    source: GridView,
    tables: Seq<Seq<nat>>,
    columns: nat,
    rows: nat,
    geometry: TileGeometry,
) -> bool {
    &&& columns == geometry.tiles_x
    &&& rows == geometry.tiles_y
    &&& geometry.tiles_x >= 1
    &&& geometry.tiles_y >= 1
    &&& geometry.tile_width >= 1
    &&& geometry.tile_height >= 1
    &&& geometry.tile_width * geometry.tile_height <= usize::MAX
    &&& dst.width <= source.width
    &&& dst.height <= source.height
    &&& tables.len() == geometry.tiles_x * geometry.tiles_y
    &&& forall|t: int| 0 <= t < tables.len() ==> (#[trigger] tables[t]).len() == source.levels
}

} // verus!
