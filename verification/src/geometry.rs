//! The tile grid laid over an image, the mirror rule for the padding it may
//! need, and the regions between tile centres that the blending works on.

use vstd::prelude::*;
use crate::error::ClaheError;

verus! {

/// Side length of one tile: the least size with which `tiles` tiles reach
/// over `len` samples.
pub open spec fn tile_extent(len: int, tiles: int) -> int {
    (len + tiles - 1) / tiles
}

/// Length of a side once it is padded to a whole number of tiles.
pub open spec fn padded_extent(len: int, tiles: int) -> int {
    tile_extent(len, tiles) * tiles
}

/// Where coordinate `c` of the padded side reads from: itself inside the
/// image, and past the last index `max` the index `max - |c - max|`, so that
/// the edge sample is not repeated.
pub open spec fn mirror_index(c: int, len: int) -> int {
    let max = len - 1;
    if c <= max {
        max - (max - c)
    } else {
        max - (c - max)
    }
}

/// Whether every coordinate of the padded side mirrors to an index of the
/// image.
pub open spec fn extent_supported(len: int, tiles: int) -> bool {
    padded_extent(len, tiles) == 0 || mirror_index(padded_extent(len, tiles) - 1, len) >= 0
}

/// Whether a `tiles_x` by `tiles_y` grid can be laid over a `width` by
/// `height` image: both sides mirror inside the image and the padded image
/// is addressable.
pub open spec fn geometry_supported(width: int, height: int, tiles_x: int, tiles_y: int) -> bool {
    &&& extent_supported(width, tiles_x)
    &&& extent_supported(height, tiles_y)
    &&& padded_extent(width, tiles_x) * padded_extent(height, tiles_y) <= usize::MAX
}

/// The boundary between the regions `k` and `k + 1` along one side: the
/// centre of tile `k`, kept inside `[0, limit]`.
pub open spec fn region_edge(k: int, tile: int, limit: int) -> int {
    let centre = k * tile + tile / 2;
    if centre < 0 {
        0
    } else if centre > limit {
        limit
    } else {
        centre
    }
}

/// The region that coordinate `c` lies in.
pub open spec fn region_of(c: int, tile: int) -> int {
    (c + tile - tile / 2) / tile
}

/// The tile whose table stands for tile index `k`, which may be one step
/// outside the grid on either side: the nearest tile that exists.
pub open spec fn nearest_tile(k: int, tiles: int) -> int {
    if k < 0 {
        0
    } else if k > tiles - 1 {
        tiles - 1
    } else {
        k
    }
}

/// The tiles reach over the side and past it by less than the number of
/// tiles; where the side divides evenly they end with it. A tile is never
/// longer than the side, and not empty unless the side is.
pub proof fn lemma_tile_extent_bounds(len: int, tiles: int)
    requires
        0 <= len,
        1 <= tiles,
    ensures
        0 <= tile_extent(len, tiles) <= len,
        len <= padded_extent(len, tiles) < len + tiles,
        len >= 1 ==> tile_extent(len, tiles) >= 1,
        len % tiles == 0 ==> tile_extent(len, tiles) == len / tiles && padded_extent(len, tiles)
            == len,
        len % tiles != 0 ==> tile_extent(len, tiles) == len / tiles + 1,
{
    let t = tile_extent(len, tiles);
    let q = len / tiles;
    let r = len % tiles;
    assert(len == q * tiles + r && 0 <= r < tiles) by (nonlinear_arith)
        requires
            q == len / tiles,
            r == len % tiles,
            tiles >= 1,
    ;
    assert(0 <= q) by (nonlinear_arith)
        requires
            q == len / tiles,
            len >= 0,
            tiles >= 1,
    ;
    if r == 0 {
        assert((q * tiles + tiles - 1) / tiles == q) by (nonlinear_arith)
            requires
                tiles >= 1,
        ;
    } else {
        assert((q * tiles + r + tiles - 1) / tiles == q + 1) by (nonlinear_arith)
            requires
                tiles >= 1,
                0 < r < tiles,
        ;
        assert((q + 1) * tiles == q * tiles + tiles) by (nonlinear_arith);
    }
    assert(q <= len) by (nonlinear_arith)
        requires
            len == q * tiles + r,
            0 <= r,
            tiles >= 1,
            q >= 0,
    ;
    if len >= 1 && r == 0 {
        assert(q >= 1) by (nonlinear_arith)
            requires
                len == q * tiles,
                len >= 1,
                tiles >= 1,
        ;
    }
    if r != 0 {
        assert(q + 1 <= len) by (nonlinear_arith)
            requires
                len == q * tiles + r,
                0 < r,
                tiles >= 1,
                q >= 0,
        ;
    }
}

/// The regions along one side split it: every coordinate lies in exactly one
/// region, the one `region_of` names.
pub proof fn lemma_regions_partition(c: int, tile: int, tiles: int, limit: int)
    requires
        1 <= tile,
        1 <= tiles,
        limit <= tiles * tile,
        0 <= c < limit,
    ensures
        0 <= region_of(c, tile) <= tiles,
        region_edge(region_of(c, tile) - 1, tile, limit) <= c < region_edge(
            region_of(c, tile),
            tile,
            limit,
        ),
        forall|i: int|
            (region_edge(i - 1, tile, limit) <= c < #[trigger] region_edge(i, tile, limit)) <==> i
                == region_of(c, tile),
{
    let r = region_of(c, tile);
    let half = tile / 2;
    assert(0 <= half < tile);
    let shifted = c + tile - half;
    assert(shifted == r * tile + shifted % tile && 0 <= shifted % tile < tile)
        by (nonlinear_arith)
        requires
            r == shifted / tile,
            tile >= 1,
    ;
    assert(0 <= r <= tiles) by (nonlinear_arith)
        requires
            shifted == r * tile + shifted % tile,
            0 <= shifted % tile < tile,
            0 < shifted,
            shifted < tiles * tile + tile,
            tile >= 1,
    ;
    assert forall|i: int|
        (region_edge(i - 1, tile, limit) <= c < #[trigger] region_edge(i, tile, limit)) <==> i
            == r by {
        let low = (i - 1) * tile + half;
        let high = i * tile + half;
        assert(high == low + tile) by (nonlinear_arith)
            requires
                low == (i - 1) * tile + half,
                high == i * tile + half,
        ;
        assert((region_edge(i - 1, tile, limit) <= c) <==> low <= c);
        assert((c < region_edge(i, tile, limit)) <==> c < high);
        assert((low <= c < high) <==> i == r) by (nonlinear_arith)
            requires
                low == (i - 1) * tile + half,
                high == low + tile,
                shifted == c + tile - half,
                shifted == r * tile + shifted % tile,
                0 <= shifted % tile < tile,
                tile >= 1,
        ;
    }
    let edge = region_edge(r, tile, limit);
    assert(region_edge(r - 1, tile, limit) <= c < edge);
}

/// A region is at most one tile long, and regions follow each other in order.
pub proof fn lemma_region_edges_ordered(i: int, tile: int, limit: int)
    requires
        1 <= tile,
        0 <= limit,
    ensures
        0 <= region_edge(i - 1, tile, limit) <= region_edge(i, tile, limit) <= limit,
        region_edge(i, tile, limit) - region_edge(i - 1, tile, limit) <= tile,
        i <= 0 ==> region_edge(i - 1, tile, limit) == 0,
{
    assert(i * tile + tile / 2 == (i - 1) * tile + tile / 2 + tile) by (nonlinear_arith);
    if i <= 0 {
        assert((i - 1) * tile + tile / 2 < 0) by (nonlinear_arith)
            requires
                i <= 0,
                tile >= 1,
        ;
    }
}

/// The tile grid over an image: how many tiles lie side by side and one
/// above the other, and how large each is.
#[derive(Clone, Copy, Debug, PartialEq, Eq)]
pub struct TileGeometry {
    pub tiles_x: usize,
    pub tiles_y: usize,
    pub tile_width: usize,
    pub tile_height: usize,
}

impl TileGeometry {
    /// Whether this is the grid of `tiles_x` by `tiles_y` tiles over a
    /// `width` by `height` image.
    pub open spec fn covers(&self, width: int, height: int) -> bool {
        &&& self.tiles_x >= 1
        &&& self.tiles_y >= 1
        &&& self.tile_width == tile_extent(width, self.tiles_x as int)
        &&& self.tile_height == tile_extent(height, self.tiles_y as int)
    }

    /// The grid of `tiles_x` by `tiles_y` tiles over a `width` by `height`
    /// image. A tile count of zero is turned down.
    pub fn for_grid(tiles_x: usize, tiles_y: usize, width: usize, height: usize) -> (r: Result<
        TileGeometry,
        ClaheError,
    >)
        ensures
            r is Err <==> tiles_x == 0 || tiles_y == 0,
            r matches Err(e) ==> e == ClaheError::InvalidArgument,
            r matches Ok(g) ==> g.tiles_x == tiles_x && g.tiles_y == tiles_y && g.covers(
                width as int,
                height as int,
            ) && g.tile_width * tiles_x >= width && g.tile_height * tiles_y >= height,
    {
        if tiles_x == 0 || tiles_y == 0 {
            return Err(ClaheError::InvalidArgument);
        }
        let tile_width = side_of_tile(width, tiles_x);
        let tile_height = side_of_tile(height, tiles_y);
        proof {
            lemma_tile_extent_bounds(width as int, tiles_x as int);
            lemma_tile_extent_bounds(height as int, tiles_y as int);
        }
        Ok(TileGeometry { tiles_x, tiles_y, tile_width, tile_height })
    }

    /// The size of the image once padded to whole tiles, where the grid can
    /// be laid over the image at all.
    pub fn padded_size(&self, width: usize, height: usize) -> (r: Option<(usize, usize)>)
        requires
            self.covers(width as int, height as int),
            width >= 1,
            height >= 1,
        ensures
            r is Some <==> geometry_supported(
                width as int,
                height as int,
                self.tiles_x as int,
                self.tiles_y as int,
            ),
            r matches Some(size) ==> size.0 == padded_extent(width as int, self.tiles_x as int)
                && size.1 == padded_extent(height as int, self.tiles_y as int),
    {
        proof {
            lemma_tile_extent_bounds(width as int, self.tiles_x as int);
            lemma_tile_extent_bounds(height as int, self.tiles_y as int);
            let pw = padded_extent(width as int, self.tiles_x as int);
            let ph = padded_extent(height as int, self.tiles_y as int);
            assert(pw <= pw * ph && ph <= pw * ph) by (nonlinear_arith)
                requires
                    pw >= 1,
                    ph >= 1,
            ;
        }
        let padded_width = match padded_side(width, self.tiles_x, self.tile_width) {
            Some(p) => p,
            None => {
                return None;
            },
        };
        let padded_height = match padded_side(height, self.tiles_y, self.tile_height) {
            Some(p) => p,
            None => {
                return None;
            },
        };
        match padded_width.checked_mul(padded_height) {
            Some(_) => Some((padded_width, padded_height)),
            None => None,
        }
    }
}

/// Side length of one tile.
fn side_of_tile(len: usize, tiles: usize) -> (t: usize)
    requires
        tiles >= 1,
    ensures
        t == tile_extent(len as int, tiles as int),
{
    proof {
        lemma_tile_extent_bounds(len as int, tiles as int);
    }
    if len % tiles == 0 {
        len / tiles
    } else {
        len / tiles + 1
    }
}

/// Padded length of one side, where it mirrors inside the image.
fn padded_side(len: usize, tiles: usize, tile: usize) -> (r: Option<usize>)
    requires
        tiles >= 1,
        tile == tile_extent(len as int, tiles as int),
    ensures
        r is Some <==> extent_supported(len as int, tiles as int) && padded_extent(
            len as int,
            tiles as int,
        ) <= usize::MAX,
        r matches Some(p) ==> p == padded_extent(len as int, tiles as int),
{
    proof {
        lemma_tile_extent_bounds(len as int, tiles as int);
    }
    match tile.checked_mul(tiles) {
        Some(p) => {
            if p == len || p - len < len {
                Some(p)
            } else {
                None
            }
        },
        None => None,
    }
}

/// The centre of tile `k` along a side of tiles `tile` long, kept inside
/// `[0, limit]`.
pub fn edge_after(k: usize, tile: usize, limit: usize) -> (e: usize)
    ensures
        e == region_edge(k as int, tile as int, limit as int),
{
    let wide: u128 = k as u128;
    let tile_wide: u128 = tile as u128;
    assert(wide * tile_wide <= 0xffff_ffff_ffff_ffff * 0xffff_ffff_ffff_ffff) by (nonlinear_arith)
        requires
            0 <= wide <= 0xffff_ffff_ffff_ffff,
            0 <= tile_wide <= 0xffff_ffff_ffff_ffff,
    ;
    let centre: u128 = wide * tile_wide + (tile / 2) as u128;
    if centre > limit as u128 {
        limit
    } else {
        centre as usize
    }
}

/// The half-open range `[start, end)` that region `index` takes up along a
/// side of length `limit`.
pub fn region_bounds(index: usize, tile: usize, limit: usize) -> (r: (usize, usize))
    requires
        tile >= 1,
    ensures
        r.0 == region_edge(index as int - 1, tile as int, limit as int),
        r.1 == region_edge(index as int, tile as int, limit as int),
        r.0 <= r.1 <= limit,
        r.1 - r.0 <= tile,
{
    proof {
        lemma_region_edges_ordered(index as int, tile as int, limit as int);
    }
    let start = if index == 0 {
        0
    } else {
        edge_after(index - 1, tile, limit)
    };
    (start, edge_after(index, tile, limit))
}

/// The tile on the near side of region `k`: tile `k - 1`, or the nearest
/// tile of the grid where there is no such tile.
pub fn tile_before(k: usize, tiles: usize) -> (t: usize)
    requires
        tiles >= 1,
    ensures
        t == nearest_tile(k as int - 1, tiles as int),
{
    if k == 0 {
        0
    } else if k - 1 > tiles - 1 {
        tiles - 1
    } else {
        k - 1
    }
}

/// The tile on the far side of region `k`: tile `k`, or the nearest tile of
/// the grid where there is no such tile.
pub fn tile_at(k: usize, tiles: usize) -> (t: usize)
    requires
        tiles >= 1,
    ensures
        t == nearest_tile(k as int, tiles as int),
{
    if k > tiles - 1 {
        tiles - 1
    } else {
        k
    }
}

} // verus!
