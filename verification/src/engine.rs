//! The equalisation itself: tile tables from the padded image, then every
//! output sample blended from the tables around it.

use vstd::prelude::*;
use crate::boundary::{extend_to_tiles, padded_view, lemma_padded_view_wf};
use crate::error::ClaheError;
use crate::geometry::{
    TileGeometry, tile_extent, padded_extent, geometry_supported, region_edge, region_of,
    lemma_tile_extent_bounds, lemma_regions_partition,
};
use crate::grid::{GridView, SampleGrid, lemma_row_major_inverse};
use crate::histogram::{ClipFactor, clip_limit_of};
use crate::interpolate::{BlendPlan, interpolate, plan_of, can_blend};
use crate::lut::{TileLutGrid, tile_table};

verus! {

/// The plan by which `grid` is equalised over `tiles_x` by `tiles_y` tiles
/// with the clip factor `numer / denom`: samples are read from the grid
/// padded to whole tiles, and every tile's table comes from its histogram,
/// clipped at the limit that the clip factor sets for a tile.
pub open spec fn equalization_plan(
    grid: GridView,
    tiles_x: nat,
    tiles_y: nat,
    numer: nat,
    denom: nat,
    out_levels: nat,
) -> BlendPlan {
    let tile_width = tile_extent(grid.width as int, tiles_x as int) as nat;
    let tile_height = tile_extent(grid.height as int, tiles_y as int) as nat;
    let source = padded_view(
        grid,
        padded_extent(grid.width as int, tiles_x as int) as nat,
        padded_extent(grid.height as int, tiles_y as int) as nat,
    );
    let limit = clip_limit_of(numer, denom, tile_width * tile_height, grid.levels);
    BlendPlan {
        source,
        tables: Seq::new(
            tiles_x * tiles_y,
            |t: int|
                tile_table(
                    source,
                    tile_width,
                    tile_height,
                    limit,
                    t % (tiles_x as int),
                    t / (tiles_x as int),
                ),
        ),
        tiles_x,
        tiles_y,
        tile_width,
        tile_height,
        width: grid.width,
        height: grid.height,
        out_levels,
    }
}

/// `grid` equalised over `tiles_x` by `tiles_y` tiles with the clip factor
/// `numer / denom`, in `out_levels` levels: a grid of the same size whose
/// every sample is the one that the plan gives for its position.
pub open spec fn equalized(
    grid: GridView,
    tiles_x: nat,
    tiles_y: nat,
    numer: nat,
    denom: nat,
    out_levels: nat,
) -> GridView {
    let plan = equalization_plan(grid, tiles_x, tiles_y, numer, denom, out_levels);
    GridView {
        width: grid.width,
        height: grid.height,
        levels: out_levels,
        samples: Seq::new(
            grid.width * grid.height,
            |k: int| plan.sample(k % (grid.width as int), k / (grid.width as int)),
        ),
    }
}

/// Whether an image of this size can be equalised over this tile grid: it
/// is empty, or the grid can be laid over it.
pub open spec fn can_equalize(width: nat, height: nat, tiles_x: nat, tiles_y: nat) -> bool {
    width == 0 || height == 0 || geometry_supported(
        width as int,
        height as int,
        tiles_x as int,
        tiles_y as int,
    )
}

/// Fills the regions `(i, 0)` to `(i, tiles_y)` of `dst`, one below the
/// other.
fn fill_region_column(
    dst: &mut SampleGrid,
    source: &SampleGrid,
    luts: &TileLutGrid,
    geometry: &TileGeometry,
    i: usize,
)
    requires
        old(dst).wf(),
        source.wf(),
        luts.wf(),
        can_blend(old(dst)@, source@, luts@, luts.columns(), luts.rows(), *geometry),
        old(dst)@.height <= geometry.tiles_y * geometry.tile_height,
        i <= geometry.tiles_x,
    ensures
        final(dst).wf(),
        final(dst)@.width == old(dst)@.width,
        final(dst)@.height == old(dst)@.height,
        final(dst)@.levels == old(dst)@.levels,
        forall|x: int, y: int|
            0 <= x < old(dst)@.width && 0 <= y < old(dst)@.height ==> #[trigger] final(dst)@.at(
                x,
                y,
            ) == if region_edge(i as int - 1, geometry.tile_width as int, old(dst)@.width as int)
                <= x < region_edge(i as int, geometry.tile_width as int, old(dst)@.width as int) {
                plan_of(old(dst)@, source@, luts@, *geometry).region_sample(
                    i as int,
                    region_of(y, geometry.tile_height as int),
                    x,
                    y,
                )
            } else {
                old(dst)@.at(x, y)
            },
{
    let ghost before = dst@;
    let ghost plan = plan_of(before, source@, luts@, *geometry);
    let ghost low = region_edge(i as int - 1, geometry.tile_width as int, before.width as int);
    let ghost high = region_edge(i as int, geometry.tile_width as int, before.width as int);
    let tiles_y = geometry.tiles_y;
    let mut j: usize = 0;
    while j < tiles_y
        invariant
            dst.wf(),
            source.wf(),
            luts.wf(),
            can_blend(dst@, source@, luts@, luts.columns(), luts.rows(), *geometry),
            before.height <= geometry.tiles_y * geometry.tile_height,
            tiles_y == geometry.tiles_y,
            i <= geometry.tiles_x,
            j <= tiles_y,
            dst@.width == before.width,
            dst@.height == before.height,
            dst@.levels == before.levels,
            plan == plan_of(before, source@, luts@, *geometry),
            low == region_edge(i as int - 1, geometry.tile_width as int, before.width as int),
            high == region_edge(i as int, geometry.tile_width as int, before.width as int),
            forall|x: int, y: int|
                0 <= x < before.width && 0 <= y < before.height ==> #[trigger] dst@.at(x, y)
                    == if low <= x < high && region_of(y, geometry.tile_height as int) < j {
                    plan.region_sample(i as int, region_of(y, geometry.tile_height as int), x, y)
                } else {
                    before.at(x, y)
                },
        decreases tiles_y - j,
    {
        let ghost now = dst@;
        interpolate(dst, source, luts, geometry, i, j);
        proof {
            assert(plan_of(now, source@, luts@, *geometry) == plan);
            assert forall|x: int, y: int|
                0 <= x < before.width && 0 <= y < before.height implies #[trigger] dst@.at(x, y)
                == if low <= x < high && region_of(y, geometry.tile_height as int) < j + 1 {
                plan.region_sample(i as int, region_of(y, geometry.tile_height as int), x, y)
            } else {
                before.at(x, y)
            } by {
                lemma_regions_partition(
                    y,
                    geometry.tile_height as int,
                    geometry.tiles_y as int,
                    before.height as int,
                );
                assert((region_edge(
                    j as int - 1,
                    geometry.tile_height as int,
                    before.height as int,
                ) <= y < region_edge(j as int, geometry.tile_height as int, before.height as int))
                    <==> region_of(y, geometry.tile_height as int) == j);
                assert(plan.in_region(i as int, j as int, x, y) <==> low <= x < high && region_of(
                    y,
                    geometry.tile_height as int,
                ) == j);
                assert(now.at(x, y) == if low <= x < high && region_of(
                    y,
                    geometry.tile_height as int,
                ) < j {
                    plan.region_sample(i as int, region_of(y, geometry.tile_height as int), x, y)
                } else {
                    before.at(x, y)
                });
            }
        }
        j += 1;
    }
    let ghost now = dst@;
    interpolate(dst, source, luts, geometry, i, j);
    proof {
        assert(plan_of(now, source@, luts@, *geometry) == plan);
        assert forall|x: int, y: int|
            0 <= x < before.width && 0 <= y < before.height implies #[trigger] dst@.at(x, y)
            == if low <= x < high {
            plan.region_sample(i as int, region_of(y, geometry.tile_height as int), x, y)
        } else {
            before.at(x, y)
        } by {
            lemma_regions_partition(
                y,
                geometry.tile_height as int,
                geometry.tiles_y as int,
                before.height as int,
            );
            assert((region_edge(j as int - 1, geometry.tile_height as int, before.height as int)
                <= y < region_edge(j as int, geometry.tile_height as int, before.height as int))
                <==> region_of(y, geometry.tile_height as int) == j);
            assert(plan.in_region(i as int, j as int, x, y) <==> low <= x < high && region_of(
                y,
                geometry.tile_height as int,
            ) == j);
            assert(now.at(x, y) == if low <= x < high && region_of(
                y,
                geometry.tile_height as int,
            ) < j {
                plan.region_sample(i as int, region_of(y, geometry.tile_height as int), x, y)
            } else {
                before.at(x, y)
            });
        }
    }
}

/// Fills all regions of `dst`, column by column.
fn fill_regions(
    dst: &mut SampleGrid,
    source: &SampleGrid,
    luts: &TileLutGrid,
    geometry: &TileGeometry,
)
    requires
        old(dst).wf(),
        source.wf(),
        luts.wf(),
        can_blend(old(dst)@, source@, luts@, luts.columns(), luts.rows(), *geometry),
        old(dst)@.width <= geometry.tiles_x * geometry.tile_width,
        old(dst)@.height <= geometry.tiles_y * geometry.tile_height,
    ensures
        final(dst).wf(),
        final(dst)@.width == old(dst)@.width,
        final(dst)@.height == old(dst)@.height,
        final(dst)@.levels == old(dst)@.levels,
        forall|x: int, y: int|
            0 <= x < old(dst)@.width && 0 <= y < old(dst)@.height ==> #[trigger] final(dst)@.at(
                x,
                y,
            ) == plan_of(old(dst)@, source@, luts@, *geometry).sample(x, y),
{
    let ghost before = dst@;
    let ghost plan = plan_of(before, source@, luts@, *geometry);
    let tiles_x = geometry.tiles_x;
    let mut i: usize = 0;
    while i < tiles_x
        invariant
            dst.wf(),
            source.wf(),
            luts.wf(),
            can_blend(dst@, source@, luts@, luts.columns(), luts.rows(), *geometry),
            before.width <= geometry.tiles_x * geometry.tile_width,
            before.height <= geometry.tiles_y * geometry.tile_height,
            tiles_x == geometry.tiles_x,
            i <= tiles_x,
            dst@.width == before.width,
            dst@.height == before.height,
            dst@.levels == before.levels,
            plan == plan_of(before, source@, luts@, *geometry),
            forall|x: int, y: int|
                0 <= x < before.width && 0 <= y < before.height && region_of(
                    x,
                    geometry.tile_width as int,
                ) < i ==> #[trigger] dst@.at(x, y) == plan.sample(x, y),
        decreases tiles_x - i,
    {
        let ghost now = dst@;
        fill_region_column(dst, source, luts, geometry, i);
        proof {
            assert(plan_of(now, source@, luts@, *geometry) == plan);
            assert forall|x: int, y: int|
                0 <= x < before.width && 0 <= y < before.height && region_of(
                    x,
                    geometry.tile_width as int,
                ) < i + 1 implies #[trigger] dst@.at(x, y) == plan.sample(x, y) by {
                lemma_regions_partition(
                    x,
                    geometry.tile_width as int,
                    geometry.tiles_x as int,
                    before.width as int,
                );
                assert((region_edge(i as int - 1, geometry.tile_width as int, before.width as int)
                    <= x < region_edge(i as int, geometry.tile_width as int, before.width as int))
                    <==> region_of(x, geometry.tile_width as int) == i);
                if region_of(x, geometry.tile_width as int) < i {
                    assert(now.at(x, y) == plan.sample(x, y));
                }
            }
        }
        i += 1;
    }
    let ghost now = dst@;
    fill_region_column(dst, source, luts, geometry, i);
    proof {
        assert(plan_of(now, source@, luts@, *geometry) == plan);
        assert forall|x: int, y: int|
            0 <= x < before.width && 0 <= y < before.height implies #[trigger] dst@.at(x, y)
            == plan.sample(x, y) by {
            lemma_regions_partition(
                x,
                geometry.tile_width as int,
                geometry.tiles_x as int,
                before.width as int,
            );
            assert((region_edge(i as int - 1, geometry.tile_width as int, before.width as int)
                <= x < region_edge(i as int, geometry.tile_width as int, before.width as int))
                <==> region_of(x, geometry.tile_width as int) == i);
            if region_of(x, geometry.tile_width as int) < i {
                assert(now.at(x, y) == plan.sample(x, y));
            }
        }
    }
}

/// Equalises `input` over a grid of `tiles_x` by `tiles_y` tiles, with the
/// histogram of every tile clipped as `clip` says, and hands back a grid of
/// the same size whose samples lie between 0 and `out_max`.
///
/// A tile count of zero is turned down first. An empty image gives an empty
/// image. Any other image is equalised if the tile grid can be laid over it.
pub fn clahe_generic(
    tiles_x: usize,
    tiles_y: usize,
    clip: ClipFactor,
    input: &SampleGrid,
    out_max: u16,
) -> (r: Result<SampleGrid, ClaheError>)
    requires
        input.wf(),
        clip.wf(),
    ensures
        match r {
            Ok(out) => {
                &&& tiles_x >= 1
                &&& tiles_y >= 1
                &&& can_equalize(input@.width, input@.height, tiles_x as nat, tiles_y as nat)
                &&& out.wf()
                &&& out@ == equalized(
                    input@,
                    tiles_x as nat,
                    tiles_y as nat,
                    clip.numer as nat,
                    clip.denom as nat,
                    (out_max + 1) as nat,
                )
            },
            Err(ClaheError::InvalidArgument) => tiles_x == 0 || tiles_y == 0,
            Err(ClaheError::UnsupportedGeometry) => {
                &&& tiles_x >= 1
                &&& tiles_y >= 1
                &&& !can_equalize(input@.width, input@.height, tiles_x as nat, tiles_y as nat)
            },
        },
{
    let width = input.width();
    let height = input.height();
    let count = input.samples().len();
    let geometry = match TileGeometry::for_grid(tiles_x, tiles_y, width, height) {
        Ok(g) => g,
        Err(e) => {
            return Err(e);
        },
    };
    let ghost goal = equalized(
        input@,
        tiles_x as nat,
        tiles_y as nat,
        clip.numer as nat,
        clip.denom as nat,
        (out_max + 1) as nat,
    );
    let ghost plan = equalization_plan(
        input@,
        tiles_x as nat,
        tiles_y as nat,
        clip.numer as nat,
        clip.denom as nat,
        (out_max + 1) as nat,
    );
    if width != 0 && height != 0 && geometry.padded_size(width, height).is_none() {
        return Err(ClaheError::UnsupportedGeometry);
    }
    let mut dst = match SampleGrid::zeros(width, height, out_max) {
        Some(g) => g,
        None => {
            return Err(ClaheError::UnsupportedGeometry);
        },
    };
    if width == 0 || height == 0 {
        proof {
            assert(width * height == 0) by (nonlinear_arith)
                requires
                    width == 0 || height == 0,
            ;
            assert(dst@.samples =~= goal.samples);
        }
        return Ok(dst);
    }
    let ghost padded_width = padded_extent(width as int, tiles_x as int);
    let ghost padded_height = padded_extent(height as int, tiles_y as int);
    proof {
        lemma_tile_extent_bounds(width as int, tiles_x as int);
        lemma_tile_extent_bounds(height as int, tiles_y as int);
        lemma_padded_view_wf(input@, padded_width as nat, padded_height as nat);
    }
    let padded = extend_to_tiles(input, &geometry);
    let source: &SampleGrid = match &padded {
        Some(g) => g,
        None => input,
    };
    let tile_width = geometry.tile_width;
    let tile_height = geometry.tile_height;
    proof {
        assert(source@ == plan.source);
        assert(tiles_x * tile_width == padded_width && tiles_y * tile_height == padded_height)
            by (nonlinear_arith)
            requires
                padded_width == tile_width * tiles_x,
                padded_height == tile_height * tiles_y,
        ;
        assert(tile_width <= padded_width && tiles_x <= padded_width) by (nonlinear_arith)
            requires
                padded_width == tile_width * tiles_x,
                tile_width >= 1,
                tiles_x >= 1,
        ;
        assert(tile_height <= padded_height && tiles_y <= padded_height) by (nonlinear_arith)
            requires
                padded_height == tile_height * tiles_y,
                tile_height >= 1,
                tiles_y >= 1,
        ;
        assert(tile_width * tile_height <= padded_width * padded_height && tiles_x * tiles_y
            <= padded_width * padded_height) by (nonlinear_arith)
            requires
                0 <= tile_width <= padded_width,
                0 <= tile_height <= padded_height,
                0 <= tiles_x <= padded_width,
                0 <= tiles_y <= padded_height,
        ;
    }
    let levels: usize = input.max_value() as usize + 1;
    let limit = clip.limit(tile_width * tile_height, levels);
    let luts = TileLutGrid::build(source, &geometry, limit);
    proof {
        assert forall|t: int| 0 <= t < luts@.len() implies #[trigger] luts@[t] == plan.tables[t] by {
            lemma_row_major_inverse(t, tiles_x as int, tiles_y as int);
            let x = t % (tiles_x as int);
            let y = t / (tiles_x as int);
            assert(luts.table(x, y) == luts@[t]);
        }
        assert(luts@ =~= plan.tables);
        assert(plan_of(dst@, source@, luts@, geometry) == plan);
    }
    fill_regions(&mut dst, source, &luts, &geometry);
    proof {
        assert forall|k: int| 0 <= k < goal.samples.len() implies dst@.samples[k]
            == goal.samples[k] by {
            lemma_row_major_inverse(k, width as int, height as int);
            let x = k % (width as int);
            let y = k / (width as int);
            assert(dst@.at(x, y) == plan.sample(x, y));
        }
        assert(dst@.samples =~= goal.samples);
    }
    Ok(dst)
}

} // verus!
