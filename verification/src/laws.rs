//! What holds of every equalisation, stated over the functions that define
//! its result.

use vstd::prelude::*;
use vstd::arithmetic::div_mod::lemma_fundamental_div_mod_converse;
use vstd::arithmetic::div_mod::lemma_fundamental_div_mod;
use crate::boundary::{
    padded_sample, lemma_padded_view_wf, lemma_mirror_in_range, lemma_padding_to_same_size,
};
use crate::engine::{equalization_plan, equalized, can_equalize};
use crate::geometry::{
    tile_extent, padded_extent, region_of, region_edge, nearest_tile, mirror_index,
    lemma_tile_extent_bounds, lemma_regions_partition, lemma_region_edges_ordered,
};
use crate::grid::{GridView, lemma_row_major, lemma_row_major_inverse};
use crate::histogram::{tile_samples, histogram_of, clipped, clip_limit_of, lemma_clip_disabled};
use crate::interpolate::{blend, BlendPlan};
use crate::lut::{lut_of, tile_table, lemma_lut_monotone};

verus! {

/// A level of `in_levels` levels brought to `out_levels` levels, rounded
/// down and kept at or below the top level.
pub open spec fn rescaled(level: nat, in_levels: nat, out_levels: nat) -> nat {
    if out_levels * level / in_levels > out_levels - 1 {
        (out_levels - 1) as nat
    } else {
        out_levels * level / in_levels
    }
}

/// The transfer table of the whole image, taken as a single tile and not
/// clipped: plain histogram equalisation.
pub open spec fn global_lut(grid: GridView) -> Seq<nat> {
    lut_of(histogram_of(grid.samples, grid.levels), grid.width * grid.height)
}

/// A common factor of numerator and denominator leaves a quotient as it is.
pub proof fn lemma_common_factor(a: int, b: int, c: int)
    requires
        0 <= a,
        0 < b,
        0 < c,
    ensures
        (a * c) / (b * c) == a / b,
{
    let q = a / b;
    let r = a % b;
    lemma_fundamental_div_mod(a, b);
    assert(a * c == q * (b * c) + r * c && 0 <= r * c < b * c) by (nonlinear_arith)
        requires
            a == b * q + r,
            0 <= r < b,
            0 < c,
    ;
    lemma_fundamental_div_mod_converse(a * c, b * c, q, r * c);
}

/// Where all four tables agree on a sample, the blend does not depend on
/// where between the tile centres the sample lies: it is the agreed value,
/// brought to the output levels.
pub proof fn lemma_blend_of_one_value(
    l: nat,
    xi: nat,
    yi: nat,
    tile_width: nat,
    tile_height: nat,
    in_levels: nat,
    out_levels: nat,
)
    requires
        tile_width >= 1,
        tile_height >= 1,
        in_levels >= 1,
    ensures
        blend(l, l, l, l, xi, yi, tile_width, tile_height, in_levels, out_levels) == rescaled(
            l,
            in_levels,
            out_levels,
        ),
{
    let upper = l * (tile_width - xi) + l * xi;
    assert(upper == l * tile_width) by (nonlinear_arith)
        requires
            upper == l * (tile_width - xi) + l * xi,
    ;
    let mixed = upper * (tile_height - yi) + upper * yi;
    assert(mixed == l * (tile_width * tile_height)) by (nonlinear_arith)
        requires
            mixed == upper * (tile_height - yi) + upper * yi,
            upper == l * tile_width,
    ;
    let area = (tile_width * tile_height) as int;
    assert(area >= 1) by (nonlinear_arith)
        requires
            area == tile_width * tile_height,
            tile_width >= 1,
            tile_height >= 1,
    ;
    assert(out_levels * mixed == (out_levels * l) * area) by (nonlinear_arith)
        requires
            mixed == l * area,
    ;
    assert((in_levels * tile_width * tile_height) as int == in_levels * area)
        by (nonlinear_arith)
        requires
            area == tile_width * tile_height,
    ;
    assert(0 <= out_levels * l) by (nonlinear_arith);
    lemma_common_factor((out_levels * l) as int, in_levels as int, area);
}

/// Every output sample is one of the output levels.
pub proof fn lemma_blend_within_levels(
    l00: nat,
    l10: nat,
    l01: nat,
    l11: nat,
    xi: nat,
    yi: nat,
    tile_width: nat,
    tile_height: nat,
    in_levels: nat,
    out_levels: nat,
)
    requires
        out_levels >= 1,
        in_levels >= 1,
        tile_width >= 1,
        tile_height >= 1,
        xi <= tile_width,
        yi <= tile_height,
    ensures
        blend(l00, l10, l01, l11, xi, yi, tile_width, tile_height, in_levels, out_levels)
            < out_levels,
{
    let upper = l00 * (tile_width - xi) + l10 * xi;
    let lower = l01 * (tile_width - xi) + l11 * xi;
    let mixed = upper * (tile_height - yi) + lower * yi;
    let area = (in_levels * tile_width * tile_height) as int;
    assert(0 <= upper && 0 <= lower) by (nonlinear_arith)
        requires
            upper == l00 * (tile_width - xi) + l10 * xi,
            lower == l01 * (tile_width - xi) + l11 * xi,
            xi <= tile_width,
    ;
    assert(0 <= out_levels * mixed) by (nonlinear_arith)
        requires
            mixed == upper * (tile_height - yi) + lower * yi,
            0 <= upper,
            0 <= lower,
            yi <= tile_height,
    ;
    assert(area >= 1) by (nonlinear_arith)
        requires
            area == in_levels * tile_width * tile_height,
            in_levels >= 1,
            tile_width >= 1,
            tile_height >= 1,
    ;
    assert(0 <= (out_levels * mixed) / area) by (nonlinear_arith)
        requires
            0 <= out_levels * mixed,
            area >= 1,
    ;
}

/// The regions split the image: every position lies in exactly one region,
/// the one that `region_of` names for its column and its row.
pub proof fn lemma_regions_cover_once(plan: BlendPlan, x: int, y: int)
    requires
        plan.tiles_x >= 1,
        plan.tiles_y >= 1,
        plan.tile_width >= 1,
        plan.tile_height >= 1,
        plan.width <= plan.tiles_x * plan.tile_width,
        plan.height <= plan.tiles_y * plan.tile_height,
        0 <= x < plan.width,
        0 <= y < plan.height,
    ensures
        0 <= region_of(x, plan.tile_width as int) <= plan.tiles_x,
        0 <= region_of(y, plan.tile_height as int) <= plan.tiles_y,
        forall|i: int, j: int| #[trigger]
            plan.in_region(i, j, x, y) <==> i == region_of(x, plan.tile_width as int) && j
                == region_of(y, plan.tile_height as int),
{
    lemma_regions_partition(x, plan.tile_width as int, plan.tiles_x as int, plan.width as int);
    lemma_regions_partition(y, plan.tile_height as int, plan.tiles_y as int, plan.height as int);
    assert forall|i: int, j: int| #[trigger]
        plan.in_region(i, j, x, y) <==> i == region_of(x, plan.tile_width as int) && j
            == region_of(y, plan.tile_height as int) by {
        assert((region_edge(i - 1, plan.tile_width as int, plan.width as int) <= x < region_edge(
            i,
            plan.tile_width as int,
            plan.width as int,
        )) <==> i == region_of(x, plan.tile_width as int));
        assert((region_edge(j - 1, plan.tile_height as int, plan.height as int) <= y
            < region_edge(j, plan.tile_height as int, plan.height as int)) <==> j == region_of(
            y,
            plan.tile_height as int,
        ));
    }
}

/// The table that every tile of an image of a single value `v` gets.
pub open spec fn constant_table(
    grid: GridView,
    tiles_x: nat,
    tiles_y: nat,
    numer: nat,
    denom: nat,
    v: nat,
) -> Seq<nat> {
    let tile_width = tile_extent(grid.width as int, tiles_x as int) as nat;
    let tile_height = tile_extent(grid.height as int, tiles_y as int) as nat;
    lut_of(
        clipped(
            histogram_of(Seq::new(tile_width * tile_height, |k: int| v), grid.levels),
            clip_limit_of(numer, denom, tile_width * tile_height, grid.levels),
        ),
        tile_width * tile_height,
    )
}

/// In an image of a single value, every tile has the same table.
pub proof fn lemma_tables_of_constant_image(
    grid: GridView,
    tiles_x: nat,
    tiles_y: nat,
    numer: nat,
    denom: nat,
    out_levels: nat,
    v: nat,
    tile_x: int,
    tile_y: int,
)
    requires
        grid.wf(),
        grid.width >= 1,
        grid.height >= 1,
        tiles_x >= 1,
        tiles_y >= 1,
        can_equalize(grid.width, grid.height, tiles_x, tiles_y),
        forall|i: int| 0 <= i < grid.samples.len() ==> grid.samples[i] == v,
        0 <= tile_x < tiles_x,
        0 <= tile_y < tiles_y,
    ensures
        equalization_plan(grid, tiles_x, tiles_y, numer, denom, out_levels).table(tile_x, tile_y)
            == constant_table(grid, tiles_x, tiles_y, numer, denom, v),
{
    let plan = equalization_plan(grid, tiles_x, tiles_y, numer, denom, out_levels);
    let tw = plan.tile_width as int;
    let th = plan.tile_height as int;
    let pw = padded_extent(grid.width as int, tiles_x as int);
    let ph = padded_extent(grid.height as int, tiles_y as int);
    lemma_tile_extent_bounds(grid.width as int, tiles_x as int);
    lemma_tile_extent_bounds(grid.height as int, tiles_y as int);
    lemma_padded_view_wf(grid, pw as nat, ph as nat);
    lemma_row_major(tile_x, tile_y, tiles_x as int, tiles_y as int);
    let source = plan.source;
    let tile = tile_samples(source, tile_x * tw, tile_y * th, tw, th);
    let flat = Seq::new((tw * th) as nat, |k: int| v);
    assert(tile_x * tw + tw <= pw && 0 <= tile_x * tw) by (nonlinear_arith)
        requires
            0 <= tile_x < tiles_x,
            pw == tw * tiles_x,
            0 <= tw,
    ;
    assert(tile_y * th + th <= ph && 0 <= tile_y * th) by (nonlinear_arith)
        requires
            0 <= tile_y < tiles_y,
            ph == th * tiles_y,
            0 <= th,
    ;
    assert forall|k: int| 0 <= k < tile.len() implies tile[k] == v by {
        lemma_row_major_inverse(k, tw, th);
        let x = tile_x * tw + k % tw;
        let y = tile_y * th + k / tw;
        assert(source.at(x, y) == padded_sample(grid, x, y));
        lemma_mirror_in_range(x, grid.width as int, pw);
        lemma_mirror_in_range(y, grid.height as int, ph);
        lemma_row_major(
            mirror_index(x, grid.width as int),
            mirror_index(y, grid.height as int),
            grid.width as int,
            grid.height as int,
        );
    }
    assert(tile =~= flat);
    assert(plan.table(tile_x, tile_y) == tile_table(
        source,
        plan.tile_width,
        plan.tile_height,
        clip_limit_of(numer, denom, plan.tile_width * plan.tile_height, grid.levels),
        tile_x,
        tile_y,
    ));
}

/// An image of a single value is equalised to an image of a single value:
/// any two output samples are equal.
pub proof fn lemma_constant_image_stays_constant(
    grid: GridView,
    tiles_x: nat,
    tiles_y: nat,
    numer: nat,
    denom: nat,
    out_levels: nat,
    v: nat,
    a: int,
    b: int,
)
    requires
        grid.wf(),
        tiles_x >= 1,
        tiles_y >= 1,
        can_equalize(grid.width, grid.height, tiles_x, tiles_y),
        forall|i: int| 0 <= i < grid.samples.len() ==> grid.samples[i] == v,
        0 <= a < grid.samples.len(),
        0 <= b < grid.samples.len(),
    ensures
        equalized(grid, tiles_x, tiles_y, numer, denom, out_levels).samples[a] == equalized(
            grid,
            tiles_x,
            tiles_y,
            numer,
            denom,
            out_levels,
        ).samples[b],
{
    lemma_sample_of_constant_image(grid, tiles_x, tiles_y, numer, denom, out_levels, v, a);
    lemma_sample_of_constant_image(grid, tiles_x, tiles_y, numer, denom, out_levels, v, b);
}

/// In the equalisation of an image of a single value `v`, every sample is
/// what the common table of the tiles makes of `v`, brought to the output
/// levels.
pub proof fn lemma_sample_of_constant_image(
    grid: GridView,
    tiles_x: nat,
    tiles_y: nat,
    numer: nat,
    denom: nat,
    out_levels: nat,
    v: nat,
    k: int,
)
    requires
        grid.wf(),
        tiles_x >= 1,
        tiles_y >= 1,
        can_equalize(grid.width, grid.height, tiles_x, tiles_y),
        forall|i: int| 0 <= i < grid.samples.len() ==> grid.samples[i] == v,
        0 <= k < grid.samples.len(),
    ensures
        equalized(grid, tiles_x, tiles_y, numer, denom, out_levels).samples[k] == rescaled(
            constant_table(grid, tiles_x, tiles_y, numer, denom, v)[v as int],
            grid.levels,
            out_levels,
        ),
{
    let plan = equalization_plan(grid, tiles_x, tiles_y, numer, denom, out_levels);
    let w = grid.width as int;
    let h = grid.height as int;
    lemma_row_major_inverse(k, w, h);
    let x = k % w;
    let y = k / w;
    let pw = padded_extent(w, tiles_x as int);
    let ph = padded_extent(h, tiles_y as int);
    lemma_tile_extent_bounds(w, tiles_x as int);
    lemma_tile_extent_bounds(h, tiles_y as int);
    lemma_padded_view_wf(grid, pw as nat, ph as nat);
    assert(plan.source.at(x, y) == grid.at(x, y));
    lemma_row_major(x, y, w, h);
    assert(plan.source.at(x, y) == v);
    let i = region_of(x, plan.tile_width as int);
    let j = region_of(y, plan.tile_height as int);
    let left = nearest_tile(i - 1, tiles_x as int);
    let right = nearest_tile(i, tiles_x as int);
    let top = nearest_tile(j - 1, tiles_y as int);
    let bottom = nearest_tile(j, tiles_y as int);
    let table = constant_table(grid, tiles_x, tiles_y, numer, denom, v);
    lemma_tables_of_constant_image(grid, tiles_x, tiles_y, numer, denom, out_levels, v, left, top);
    lemma_tables_of_constant_image(
        grid,
        tiles_x,
        tiles_y,
        numer,
        denom,
        out_levels,
        v,
        right,
        top,
    );
    lemma_tables_of_constant_image(
        grid,
        tiles_x,
        tiles_y,
        numer,
        denom,
        out_levels,
        v,
        left,
        bottom,
    );
    lemma_tables_of_constant_image(
        grid,
        tiles_x,
        tiles_y,
        numer,
        denom,
        out_levels,
        v,
        right,
        bottom,
    );
    let xi = (x - region_edge(i - 1, plan.tile_width as int, w)) as nat;
    let yi = (y - region_edge(j - 1, plan.tile_height as int, h)) as nat;
    lemma_blend_of_one_value(
        table[v as int],
        xi,
        yi,
        plan.tile_width,
        plan.tile_height,
        grid.levels,
        out_levels,
    );
    assert(plan.sample(x, y) == plan.region_sample(i, j, x, y));
}

/// With a single tile and clipping switched off, the equalisation is plain
/// histogram equalisation of the whole image: every output sample is what
/// the transfer table of the whole image makes of the input sample, brought
/// to the output levels.
pub proof fn lemma_single_tile_is_global_equalization(
    grid: GridView,
    denom: nat,
    out_levels: nat,
    k: int,
)
    requires
        grid.wf(),
        0 <= k < grid.samples.len(),
    ensures
        equalized(grid, 1, 1, 0, denom, out_levels).samples[k] == rescaled(
            global_lut(grid)[grid.samples[k] as int],
            grid.levels,
            out_levels,
        ),
{
    let plan = equalization_plan(grid, 1, 1, 0, denom, out_levels);
    let w = grid.width as int;
    let h = grid.height as int;
    lemma_row_major_inverse(k, w, h);
    let x = k % w;
    let y = k / w;
    lemma_tile_extent_bounds(w, 1);
    lemma_tile_extent_bounds(h, 1);
    assert(plan.tile_width == grid.width && plan.tile_height == grid.height);
    lemma_padding_to_same_size(grid);
    assert(plan.source == grid);
    let tile = tile_samples(grid, 0, 0, w, h);
    assert forall|t: int| 0 <= t < tile.len() implies tile[t] == grid.samples[t] by {
        lemma_row_major_inverse(t, w, h);
    }
    assert(tile =~= grid.samples);
    let whole = histogram_of(grid.samples, grid.levels);
    lemma_clip_disabled(whole);
    assert(plan.tables[0] == tile_table(grid, grid.width, grid.height, 0, 0, 0));
    let first: int = 0;
    assert(first * grid.width == 0 && first * grid.height == 0) by (nonlinear_arith)
        requires
            first == 0,
    ;
    assert(tile_samples(grid, first * grid.width, first * grid.height, w, h) == tile);
    assert(plan.tables[0] == global_lut(grid));
    let i = region_of(x, w);
    let j = region_of(y, h);
    assert(plan.table(nearest_tile(i - 1, 1), nearest_tile(j - 1, 1)) == plan.tables[0]);
    assert(plan.table(nearest_tile(i, 1), nearest_tile(j - 1, 1)) == plan.tables[0]);
    assert(plan.table(nearest_tile(i - 1, 1), nearest_tile(j, 1)) == plan.tables[0]);
    assert(plan.table(nearest_tile(i, 1), nearest_tile(j, 1)) == plan.tables[0]);
    let xi = (x - region_edge(i - 1, w, w)) as nat;
    let yi = (y - region_edge(j - 1, h, h)) as nat;
    lemma_blend_of_one_value(
        global_lut(grid)[grid.samples[k] as int],
        xi,
        yi,
        grid.width,
        grid.height,
        grid.levels,
        out_levels,
    );
    assert(plan.source.at(x, y) == grid.samples[k]);
    assert(plan.sample(x, y) == plan.region_sample(i, j, x, y));
}

/// With a single tile, clipping switched off and as many output levels as
/// input levels, every output sample is what the transfer table of the whole
/// image makes of the input sample.
pub proof fn lemma_single_tile_keeps_table_values(grid: GridView, denom: nat, k: int)
    requires
        grid.wf(),
        0 <= k < grid.samples.len(),
    ensures
        equalized(grid, 1, 1, 0, denom, grid.levels).samples[k] == global_lut(
            grid,
        )[grid.samples[k] as int],
{
    lemma_single_tile_is_global_equalization(grid, denom, grid.levels, k);
    let p = grid.samples[k] as int;
    lemma_lut_monotone(histogram_of(grid.samples, grid.levels), grid.width * grid.height, p, p);
    lemma_rescaled_to_same_levels(global_lut(grid)[p], grid.levels);
}

/// Every sample of an equalised image is one of the output levels.
pub proof fn lemma_equalized_within_levels(
    grid: GridView,
    tiles_x: nat,
    tiles_y: nat,
    numer: nat,
    denom: nat,
    out_levels: nat,
    k: int,
)
    requires
        grid.wf(),
        tiles_x >= 1,
        tiles_y >= 1,
        out_levels >= 1,
        0 <= k < grid.samples.len(),
    ensures
        equalized(grid, tiles_x, tiles_y, numer, denom, out_levels).samples[k] < out_levels,
{
    let plan = equalization_plan(grid, tiles_x, tiles_y, numer, denom, out_levels);
    let w = grid.width as int;
    let h = grid.height as int;
    lemma_row_major_inverse(k, w, h);
    let x = k % w;
    let y = k / w;
    lemma_tile_extent_bounds(w, tiles_x as int);
    lemma_tile_extent_bounds(h, tiles_y as int);
    let tw = plan.tile_width as int;
    let th = plan.tile_height as int;
    assert(tiles_x * tw == tw * tiles_x && tiles_y * th == th * tiles_y) by (nonlinear_arith);
    let i = region_of(x, tw);
    let j = region_of(y, th);
    assert(region_edge(i - 1, tw, w) <= x < region_edge(i, tw, w)) by {
        lemma_regions_partition(x, tw, tiles_x as int, w);
    }
    assert(region_edge(j - 1, th, h) <= y < region_edge(j, th, h)) by {
        lemma_regions_partition(y, th, tiles_y as int, h);
    }
    lemma_region_edges_ordered(i, tw, w);
    lemma_region_edges_ordered(j, th, h);
    let p = plan.source.at(x, y) as int;
    lemma_blend_within_levels(
        plan.table(nearest_tile(i - 1, tiles_x as int), nearest_tile(j - 1, tiles_y as int))[p],
        plan.table(nearest_tile(i, tiles_x as int), nearest_tile(j - 1, tiles_y as int))[p],
        plan.table(nearest_tile(i - 1, tiles_x as int), nearest_tile(j, tiles_y as int))[p],
        plan.table(nearest_tile(i, tiles_x as int), nearest_tile(j, tiles_y as int))[p],
        (x - region_edge(i - 1, tw, w)) as nat,
        (y - region_edge(j - 1, th, h)) as nat,
        plan.tile_width,
        plan.tile_height,
        grid.levels,
        out_levels,
    );
    assert(plan.sample(x, y) == plan.region_sample(i, j, x, y));
}

/// Where input and output have the same number of levels, a value of the
/// transfer table is an output sample as it stands.
pub proof fn lemma_rescaled_to_same_levels(level: nat, levels: nat)
    requires
        level < levels,
    ensures
        rescaled(level, levels, levels) == level,
{
    assert(levels * level == level * levels) by (nonlinear_arith);
    lemma_fundamental_div_mod_converse((levels * level) as int, levels as int, level as int, 0);
}

/// Every transfer table that the equalisation uses never falls.
pub proof fn lemma_tile_tables_never_fall(
    source: GridView,
    tile_width: nat,
    tile_height: nat,
    limit: nat,
    tile_x: int,
    tile_y: int,
    i: int,
)
    requires
        0 <= i,
        i + 1 < source.levels,
    ensures
        tile_table(source, tile_width, tile_height, limit, tile_x, tile_y)[i] <= tile_table(
            source,
            tile_width,
            tile_height,
            limit,
            tile_x,
            tile_y,
        )[i + 1],
{
    let h = clipped(
        histogram_of(
            tile_samples(
                source,
                tile_x * tile_width,
                tile_y * tile_height,
                tile_width as int,
                tile_height as int,
            ),
            source.levels,
        ),
        limit,
    );
    lemma_lut_monotone(h, tile_width * tile_height, i, i + 1);
}

} // verus!
