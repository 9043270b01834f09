//! Padding a grid to a whole number of tiles by mirroring it at its far
//! edges.

use vstd::prelude::*;
use crate::geometry::{mirror_index, padded_extent, geometry_supported, TileGeometry};
use crate::geometry::lemma_tile_extent_bounds;
use crate::grid::{GridView, SampleGrid, lemma_row_major, lemma_row_major_inverse};

verus! {

/// The sample that position `(x, y)` of the padded grid takes from `grid`.
pub open spec fn padded_sample(grid: GridView, x: int, y: int) -> nat {
    grid.at(mirror_index(x, grid.width as int), mirror_index(y, grid.height as int))
}

/// `grid` padded to `padded_width` by `padded_height`: inside the old bounds
/// the old samples, beyond them their mirror images.
pub open spec fn padded_view(grid: GridView, padded_width: nat, padded_height: nat) -> GridView {
    GridView {
        width: padded_width,
        height: padded_height,
        levels: grid.levels,
        samples: Seq::new(
            padded_width * padded_height,
            |k: int| padded_sample(grid, k % (padded_width as int), k / (padded_width as int)),
        ),
    }
}

/// Inside the image a coordinate mirrors to itself, and a coordinate of a
/// supported padded side mirrors to a coordinate of the image.
pub proof fn lemma_mirror_in_range(c: int, len: int, padded: int)
    requires
        1 <= len <= padded,
        mirror_index(padded - 1, len) >= 0,
        0 <= c < padded,
    ensures
        0 <= mirror_index(c, len) < len,
        c < len ==> mirror_index(c, len) == c,
{
}

/// Padding a grid to its own size changes nothing.
pub proof fn lemma_padding_to_same_size(grid: GridView)
    requires
        grid.wf(),
    ensures
        padded_view(grid, grid.width, grid.height) == grid,
{
    let p = padded_view(grid, grid.width, grid.height);
    assert forall|k: int| 0 <= k < grid.samples.len() implies p.samples[k] == grid.samples[k] by {
        lemma_row_major_inverse(k, grid.width as int, grid.height as int);
    }
    assert(p.samples =~= grid.samples);
}

/// A padded grid is a grid, and keeps the samples of the image where the
/// image was.
pub proof fn lemma_padded_view_wf(grid: GridView, padded_width: nat, padded_height: nat)
    requires
        grid.wf(),
        1 <= grid.width <= padded_width,
        1 <= grid.height <= padded_height,
        mirror_index(padded_width - 1, grid.width as int) >= 0,
        mirror_index(padded_height - 1, grid.height as int) >= 0,
    ensures
        padded_view(grid, padded_width, padded_height).wf(),
        forall|x: int, y: int|
            0 <= x < padded_width && 0 <= y < padded_height ==> #[trigger] padded_view(
                grid,
                padded_width,
                padded_height,
            ).at(x, y) == padded_sample(grid, x, y),
        forall|x: int, y: int|
            0 <= x < grid.width && 0 <= y < grid.height ==> #[trigger] padded_view(
                grid,
                padded_width,
                padded_height,
            ).at(x, y) == grid.at(x, y),
{
    let p = padded_view(grid, padded_width, padded_height);
    assert forall|k: int| 0 <= k < p.samples.len() implies #[trigger] p.samples[k]
        < p.levels by {
        lemma_row_major_inverse(k, padded_width as int, padded_height as int);
        let x = k % (padded_width as int);
        let y = k / (padded_width as int);
        lemma_mirror_in_range(x, grid.width as int, padded_width as int);
        lemma_mirror_in_range(y, grid.height as int, padded_height as int);
        lemma_row_major(
            mirror_index(x, grid.width as int),
            mirror_index(y, grid.height as int),
            grid.width as int,
            grid.height as int,
        );
    }
    assert forall|x: int, y: int| 0 <= x < padded_width && 0 <= y < padded_height implies #[trigger] p.at(
        x,
        y,
    ) == padded_sample(grid, x, y) by {
        lemma_row_major(x, y, padded_width as int, padded_height as int);
    }
    assert forall|x: int, y: int| 0 <= x < grid.width && 0 <= y < grid.height implies #[trigger] p.at(
        x,
        y,
    ) == grid.at(x, y) by {
        lemma_row_major(x, y, padded_width as int, padded_height as int);
    }
}

/// The index that coordinate `c` of a padded side reads from.
fn mirrored(c: usize, len: usize) -> (m: usize)
    requires
        len >= 1,
        mirror_index(c as int, len as int) >= 0,
    ensures
        m == mirror_index(c as int, len as int),
        m < len,
{
    if c < len {
        c
    } else {
        (len - 1) - (c - (len - 1))
    }
}

/// Pads `input` to whole tiles of `geometry`, mirroring it at its right and
/// lower edge. Where the tiles fit the image as it is, nothing is built and
/// `None` says that the image itself is the padded grid.
pub fn extend_to_tiles(input: &SampleGrid, geometry: &TileGeometry) -> (r: Option<SampleGrid>)
    requires
        input.wf(),
        input@.width >= 1,
        input@.height >= 1,
        geometry.covers(input@.width as int, input@.height as int),
        geometry_supported(
            input@.width as int,
            input@.height as int,
            geometry.tiles_x as int,
            geometry.tiles_y as int,
        ),
    ensures
        r is None <==> padded_extent(input@.width as int, geometry.tiles_x as int) == input@.width
            && padded_extent(input@.height as int, geometry.tiles_y as int) == input@.height,
        r is None ==> input@ == padded_view(input@, input@.width, input@.height),
        r matches Some(g) ==> g.wf() && g@ == padded_view(
            input@,
            padded_extent(input@.width as int, geometry.tiles_x as int) as nat,
            padded_extent(input@.height as int, geometry.tiles_y as int) as nat,
        ),
{
    let width = input.width();
    let height = input.height();
    let max_value = input.max_value();
    proof {
        lemma_tile_extent_bounds(width as int, geometry.tiles_x as int);
        lemma_tile_extent_bounds(height as int, geometry.tiles_y as int);
    }
    let size = geometry.padded_size(width, height);
    let (padded_width, padded_height) = match size {
        Some(s) => s,
        None => {
            return None;
        },
    };
    if padded_width == width && padded_height == height {
        proof {
            lemma_padding_to_same_size(input@);
        }
        return None;
    }
    let ghost target = padded_view(input@, padded_width as nat, padded_height as nat);
    proof {
        lemma_padded_view_wf(input@, padded_width as nat, padded_height as nat);
    }
    let mut samples: Vec<u16> = Vec::new();
    let mut y: usize = 0;
    while y < padded_height
        invariant
            input.wf(),
            width == input@.width,
            height == input@.height,
            1 <= width <= padded_width,
            1 <= height <= padded_height,
            mirror_index(padded_width - 1, width as int) >= 0,
            mirror_index(padded_height - 1, height as int) >= 0,
            padded_width * padded_height <= usize::MAX,
            target == padded_view(input@, padded_width as nat, padded_height as nat),
            target.wf(),
            y <= padded_height,
            samples@.len() == y * padded_width,
            target.samples.len() == padded_width * padded_height,
            samples@.len() <= target.samples.len(),
            forall|k: int| 0 <= k < samples@.len() ==> #[trigger] samples@[k] == target.samples[k],
        decreases padded_height - y,
    {
        let mut x: usize = 0;
        let source_y = mirrored(y, height);
        while x < padded_width
            invariant
                input.wf(),
                width == input@.width,
                height == input@.height,
                1 <= width <= padded_width,
                1 <= height <= padded_height,
                mirror_index(padded_width - 1, width as int) >= 0,
                padded_width * padded_height <= usize::MAX,
                target == padded_view(input@, padded_width as nat, padded_height as nat),
                target.wf(),
                y < padded_height,
                x <= padded_width,
                source_y == mirror_index(y as int, height as int),
                source_y < height,
                samples@.len() == y * padded_width + x,
                target.samples.len() == padded_width * padded_height,
                samples@.len() <= target.samples.len(),
                forall|k: int|
                    0 <= k < samples@.len() ==> #[trigger] samples@[k] == target.samples[k],
            decreases padded_width - x,
        {
            let source_x = mirrored(x, width);
            let v = input.get(source_x, source_y);
            proof {
                lemma_row_major(x as int, y as int, padded_width as int, padded_height as int);
                let k = y * padded_width + x;
                assert(target.samples[k] == padded_sample(input@, x as int, y as int));
            }
            samples.push(v);
            x += 1;
        }
        proof {
            assert((y + 1) * padded_width == y * padded_width + padded_width) by (nonlinear_arith);
        }
        y += 1;
    }
    proof {
        assert(y * padded_width == padded_width * padded_height) by (nonlinear_arith)
            requires
                y == padded_height,
        ;
        assert(target.samples.len() == samples@.len());
        assert forall|i: int| 0 <= i < samples@.len() implies #[trigger] samples@[i]
            <= max_value by {
            assert(target.samples[i] < target.levels);
        }
    }
    let g = SampleGrid::assemble(padded_width, padded_height, max_value, samples);
    proof {
        assert(g@.samples =~= target.samples);
    }
    Some(g)
}

} // verus!
