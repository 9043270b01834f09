//! Histograms of tiles, and clipping them at a limit without losing mass.

use vstd::prelude::*;
use vstd::arithmetic::div_mod::{lemma_fundamental_div_mod, lemma_fundamental_div_mod_converse};
use crate::grid::{GridView, SampleGrid, lemma_row_major};
use crate::geometry::TileGeometry;
use crate::sums::{
    total, occurrences, lemma_total_update, lemma_entry_le_total, lemma_total_zeros,
    lemma_occurrences_take_step, lemma_total_take_step, lemma_total_take_monotone,
};

verus! {

/// The samples of the tile whose upper left corner is `(x0, y0)`, row by row.
pub open spec fn tile_samples(
    grid: GridView,
    x0: int,
    y0: int,
    tile_width: int,
    tile_height: int,
) -> Seq<nat> {
    Seq::new(
        (tile_width * tile_height) as nat,
        |k: int| grid.at(x0 + k % tile_width, y0 + k / tile_width),
    )
}

/// The histogram of `samples` over `levels` bins: bin `v` counts how often
/// `v` occurs.
pub open spec fn histogram_of(samples: Seq<nat>, levels: nat) -> Seq<nat> {
    Seq::new(levels, |v: int| occurrences(samples, v as nat))
}

/// A count cut down to `limit`; a limit of zero cuts nothing.
pub open spec fn capped(count: nat, limit: nat) -> nat {
    if limit > 0 && count > limit {
        limit
    } else {
        count
    }
}

/// The histogram with every bin cut down to `limit`.
pub open spec fn capped_bins(h: Seq<nat>, limit: nat) -> Seq<nat> {
    Seq::new(h.len(), |i: int| capped(h[i], limit))
}

/// The mass that cutting every bin down to `limit` takes away.
pub open spec fn excess(h: Seq<nat>, limit: nat) -> nat {
    (total(h) - total(capped_bins(h, limit))) as nat
}

/// The distance between the bins that receive one unit of a remainder of
/// `residual` units.
pub open spec fn residual_step(levels: nat, residual: nat) -> nat {
    if residual == 0 || levels / residual < 1 {
        1
    } else {
        levels / residual
    }
}

/// What bin `i` receives of a remainder of `residual` units: one unit for
/// each of the bins `0, step, 2 * step, ..` until the remainder is used up.
pub open spec fn residual_share(levels: nat, residual: nat, i: int) -> nat {
    let step = residual_step(levels, residual) as int;
    if residual > 0 && i % step == 0 && i / step < residual {
        1
    } else {
        0
    }
}

/// Bin `i` of the histogram `h` clipped at `limit`: the bin cut down to the
/// limit, plus an equal share of the mass that was cut away, plus its share
/// of what remains after equal shares.
pub open spec fn clipped_bin(h: Seq<nat>, limit: nat, i: int) -> nat {
    let moved = excess(h, limit);
    capped(h[i], limit) + moved / h.len() + residual_share(h.len(), moved % h.len(), i)
}

/// The histogram `h` clipped at `limit`.
pub open spec fn clipped(h: Seq<nat>, limit: nat) -> Seq<nat> {
    Seq::new(h.len(), |i: int| clipped_bin(h, limit, i))
}

/// Clipping at a limit of zero leaves a histogram as it is.
pub proof fn lemma_clip_disabled(h: Seq<nat>)
    requires
        h.len() >= 1,
    ensures
        clipped(h, 0) == h,
{
    assert(capped_bins(h, 0) =~= h);
    assert(excess(h, 0) == 0);
    assert(0nat / h.len() == 0 && 0nat % h.len() == 0) by (nonlinear_arith)
        requires
            h.len() >= 1,
    ;
    assert(clipped(h, 0) =~= h);
}

/// How many of the first `n` bins receive a unit of a remainder of
/// `residual` units.
spec fn handed_out(levels: nat, residual: nat, n: nat) -> nat
    decreases n,
{
    if n == 0 {
        0
    } else {
        handed_out(levels, residual, (n - 1) as nat) + residual_share(levels, residual, n - 1)
    }
}

/// How the number of steps that it takes to reach past `n` grows with `n`.
proof fn lemma_steps_to_reach(n: int, step: int)
    requires
        n >= 0,
        step >= 1,
    ensures
        n % step == 0 ==> (n + step - 1) / step == n / step && (n + step) / step == n / step + 1,
        n % step != 0 ==> (n + step) / step == (n + step - 1) / step,
{
    let q = n / step;
    let r = n % step;
    lemma_fundamental_div_mod(n, step);
    assert(n == q * step + r) by (nonlinear_arith)
        requires
            n == step * q + r,
    ;
    assert((q + 1) * step == q * step + step) by (nonlinear_arith);
    if r == 0 {
        lemma_fundamental_div_mod_converse(n + step - 1, step, q, step - 1);
        lemma_fundamental_div_mod_converse(n + step, step, q + 1, 0);
    } else {
        lemma_fundamental_div_mod_converse(n + step - 1, step, q + 1, r - 1);
        lemma_fundamental_div_mod_converse(n + step, step, q + 1, r);
    }
}

/// Of the first `n` bins, as many receive a unit of the remainder as there
/// are steps that start below `n`, until the remainder is used up.
proof fn lemma_handed_out(levels: nat, residual: nat, n: nat)
    ensures
        handed_out(levels, residual, n) == if residual <= (n + residual_step(levels, residual)
            - 1) / (residual_step(levels, residual) as int) {
            residual as int
        } else {
            (n + residual_step(levels, residual) - 1) / (residual_step(levels, residual) as int)
        },
    decreases n,
{
    let step = residual_step(levels, residual) as int;
    if n == 0 {
        lemma_fundamental_div_mod_converse(step - 1, step, 0, step - 1);
    } else {
        lemma_handed_out(levels, residual, (n - 1) as nat);
        lemma_steps_to_reach(n - 1, step);
    }
}

/// A remainder that is smaller than the number of bins is handed out whole.
proof fn lemma_remainder_is_used_up(levels: nat, residual: nat)
    requires
        residual < levels,
    ensures
        handed_out(levels, residual, levels) == residual,
{
    let step = residual_step(levels, residual) as int;
    lemma_handed_out(levels, residual, levels);
    if residual > 0 {
        let q = levels as int / residual as int;
        let rest = levels as int % residual as int;
        lemma_fundamental_div_mod(levels as int, residual as int);
        assert(step * residual <= levels) by (nonlinear_arith)
            requires
                0 < residual < levels,
                step == 1 || step == q,
                levels == residual * q + rest,
                0 <= rest,
        ;
        assert(residual <= (levels + step - 1) / step) by (nonlinear_arith)
            requires
                step * residual <= levels,
                step >= 1,
        ;
    }
}

/// Cutting bins down takes nothing away that was not there.
proof fn lemma_capped_total(h: Seq<nat>, limit: nat, n: int)
    requires
        0 <= n <= h.len(),
    ensures
        total(capped_bins(h, limit).take(n)) <= total(h.take(n)),
    decreases n,
{
    if n > 0 {
        lemma_capped_total(h, limit, n - 1);
        lemma_total_take_step(h, n - 1);
        lemma_total_take_step(capped_bins(h, limit), n - 1);
    }
}

/// The first `n` bins of a clipped histogram hold what the bins cut down to
/// the limit hold, an equal share each, and what was handed out to them of
/// the remainder.
proof fn lemma_clipped_prefix(h: Seq<nat>, limit: nat, n: int)
    requires
        h.len() >= 1,
        0 <= n <= h.len(),
    ensures
        total(clipped(h, limit).take(n)) == total(capped_bins(h, limit).take(n)) + n * (excess(
            h,
            limit,
        ) / h.len()) + handed_out(h.len(), excess(h, limit) % h.len(), n as nat),
    decreases n,
{
    let batch = excess(h, limit) / h.len();
    let residual = excess(h, limit) % h.len();
    assert(0 <= excess(h, limit) as int % h.len() as int) by (nonlinear_arith)
        requires
            h.len() >= 1,
    ;
    if n > 0 {
        lemma_clipped_prefix(h, limit, n - 1);
        lemma_total_take_step(clipped(h, limit), n - 1);
        lemma_total_take_step(capped_bins(h, limit), n - 1);
        assert(n * batch == (n - 1) * batch + batch) by (nonlinear_arith);
    } else {
        assert(n * batch == 0) by (nonlinear_arith)
            requires
                n == 0,
        ;
    }
}

/// Clipping keeps the mass of a histogram: whatever the limit, the clipped
/// bins add up to what the bins added up to.
pub proof fn lemma_clip_keeps_total(h: Seq<nat>, limit: nat)
    requires
        h.len() >= 1,
    ensures
        total(clipped(h, limit)) == total(h),
{
    let levels = h.len();
    let moved = excess(h, limit);
    let cut = capped_bins(h, limit);
    lemma_capped_total(h, limit, levels as int);
    assert(h.take(levels as int) =~= h);
    assert(cut.take(levels as int) =~= cut);
    assert(clipped(h, limit).take(levels as int) =~= clipped(h, limit));
    assert(moved == total(h) - total(cut));
    lemma_clipped_prefix(h, limit, levels as int);
    lemma_fundamental_div_mod(moved as int, levels as int);
    assert(0 <= moved % levels < levels) by (nonlinear_arith)
        requires
            levels >= 1,
            moved >= 0,
    ;
    lemma_remainder_is_used_up(levels, moved % levels);
    assert(levels * (moved / levels) == levels as int * (moved as int / levels as int));
}

/// The limit for a bin of a tile of `pixels` samples over `levels` levels,
/// for the clip factor `numer / denom`: zero where the factor is zero, else
/// the factor times the mean bin height, rounded down and at least one.
pub open spec fn clip_limit_of(numer: nat, denom: nat, pixels: nat, levels: nat) -> nat {
    if numer == 0 {
        0
    } else if numer * pixels / (denom * levels) < 1 {
        1
    } else {
        numer * pixels / (denom * levels)
    }
}

/// How far above the mean bin height a bin may rise, as the fraction
/// `numer / denom`. Zero switches clipping off.
#[derive(Clone, Copy, Debug, PartialEq, Eq)]
pub struct ClipFactor {
    pub numer: u32,
    pub denom: u32,
}

impl ClipFactor {
    /// The denominator is not zero.
    pub open spec fn wf(&self) -> bool {
        self.denom >= 1
    }

    /// The factor `numer / denom`, where `denom` is not zero.
    pub fn new(numer: u32, denom: u32) -> (r: Option<ClipFactor>)
        ensures
            r is Some <==> denom != 0,
            r matches Some(f) ==> f.wf() && f.numer == numer && f.denom == denom,
    {
        if denom == 0 {
            None
        } else {
            Some(ClipFactor { numer, denom })
        }
    }

    /// The limit that this factor sets for a bin of a tile of `pixels`
    /// samples over `levels` levels.
    pub fn limit(&self, pixels: usize, levels: usize) -> (limit: u128)
        requires
            self.wf(),
            levels >= 1,
        ensures
            limit == clip_limit_of(
                self.numer as nat,
                self.denom as nat,
                pixels as nat,
                levels as nat,
            ),
    {
        if self.numer == 0 {
            return 0;
        }
        let numer: u128 = self.numer as u128;
        let denom: u128 = self.denom as u128;
        let pixels_wide: u128 = pixels as u128;
        let levels_wide: u128 = levels as u128;
        assert(numer * pixels_wide <= 0xffff_ffff * 0xffff_ffff_ffff_ffff) by (nonlinear_arith)
            requires
                0 <= numer <= 0xffff_ffff,
                0 <= pixels_wide <= 0xffff_ffff_ffff_ffff,
        ;
        assert(1 <= denom * levels_wide <= 0xffff_ffff * 0xffff_ffff_ffff_ffff)
            by (nonlinear_arith)
            requires
                1 <= denom <= 0xffff_ffff,
                1 <= levels_wide <= 0xffff_ffff_ffff_ffff,
        ;
        let mean: u128 = (numer * pixels_wide) / (denom * levels_wide);
        if mean < 1 {
            1
        } else {
            mean
        }
    }
}

/// The counts as numbers.
pub open spec fn counts_of(bins: Seq<usize>) -> Seq<nat> {
    Seq::new(bins.len(), |i: int| bins[i] as nat)
}

/// One count per level of a tile's samples.
#[derive(Clone, Debug, PartialEq, Eq)]
pub struct Histogram {
    bins: Vec<usize>,
}

impl View for Histogram {
    type V = Seq<nat>;

    closed spec fn view(&self) -> Seq<nat> {
        counts_of(self.bins@)
    }
}

/// `n` bins that count nothing yet.
fn empty_bins(n: usize) -> (bins: Vec<usize>)
    ensures
        bins@.len() == n,
        forall|i: int| 0 <= i < n ==> #[trigger] bins@[i] == 0,
{
    let mut bins: Vec<usize> = Vec::new();
    let mut i: usize = 0;
    while i < n
        invariant
            i <= n,
            bins@.len() == i,
            forall|k: int| 0 <= k < i ==> #[trigger] bins@[k] == 0,
        decreases n - i,
    {
        bins.push(0);
        i += 1;
    }
    bins
}

impl Histogram {
    /// There are between 1 and 65536 bins, and their total is a machine
    /// number.
    pub open spec fn wf(&self) -> bool {
        &&& 1 <= self@.len() <= 65536
        &&& total(self@) <= usize::MAX
    }

    /// The histogram with the given counts, where there are between 1 and
    /// 65536 of them and their total is a machine number.
    pub fn from_counts(counts: Vec<usize>) -> (r: Option<Histogram>)
        ensures
            r is Some <==> 1 <= counts@.len() <= 65536 && total(counts_of(counts@)) <= usize::MAX,
            r matches Some(h) ==> h.wf() && h@ == counts_of(counts@),
    {
        let n = counts.len();
        if n < 1 || n > 65536 {
            return None;
        }
        let ghost all = counts_of(counts@);
        let mut sum: usize = 0;
        let mut i: usize = 0;
        while i < n
            invariant
                n == counts@.len(),
                all == counts_of(counts@),
                i <= n,
                sum == total(all.take(i as int)),
            decreases n - i,
        {
            proof {
                lemma_total_take_step(all, i as int);
                lemma_total_take_monotone(all, i as int + 1, n as int);
                assert(all.take(n as int) =~= all);
            }
            match sum.checked_add(counts[i]) {
                Some(s) => {
                    sum = s;
                },
                None => {
                    return None;
                },
            }
            i += 1;
        }
        proof {
            assert(all.take(n as int) =~= all);
        }
        Some(Histogram { bins: counts })
    }

    /// The counts, one per level.
    pub fn counts(&self) -> (c: &Vec<usize>)
        ensures
            counts_of(c@) == self@,
    {
        &self.bins
    }

    /// The histogram of the tile in column `tile_x` and row `tile_y` of the
    /// tile grid laid over `source`.
    pub fn of_tile(source: &SampleGrid, geometry: &TileGeometry, tile_x: usize, tile_y: usize) -> (h:
        Histogram)
        requires
            source.wf(),
            (tile_x + 1) * geometry.tile_width <= source@.width,
            (tile_y + 1) * geometry.tile_height <= source@.height,
        ensures
            h.wf(),
            h@ == histogram_of(
                tile_samples(
                    source@,
                    tile_x * geometry.tile_width,
                    tile_y * geometry.tile_height,
                    geometry.tile_width as int,
                    geometry.tile_height as int,
                ),
                source@.levels,
            ),
            total(h@) == geometry.tile_width * geometry.tile_height,
    {
        let tile_width = geometry.tile_width;
        let tile_height = geometry.tile_height;
        let width = source.width();
        let height = source.height();
        let count = source.samples().len();
        let levels: usize = source.max_value() as usize + 1;
        proof {
            assert(tile_x * tile_width + tile_width == (tile_x + 1) * tile_width)
                by (nonlinear_arith);
            assert(tile_y * tile_height + tile_height == (tile_y + 1) * tile_height)
                by (nonlinear_arith);
            assert(0 <= tile_x * tile_width && 0 <= tile_y * tile_height) by (nonlinear_arith)
                requires
                    0 <= tile_x,
                    0 <= tile_width,
                    0 <= tile_y,
                    0 <= tile_height,
            ;
            assert(tile_width * tile_height <= width * height) by (nonlinear_arith)
                requires
                    0 <= tile_width <= width,
                    0 <= tile_height <= height,
            ;
        }
        let x0 = tile_x * tile_width;
        let y0 = tile_y * tile_height;
        let ghost tile = tile_samples(
            source@,
            x0 as int,
            y0 as int,
            tile_width as int,
            tile_height as int,
        );
        let mut bins = empty_bins(levels);
        proof {
            lemma_total_zeros(counts_of(bins@));
            assert(tile.take(0) =~= Seq::<nat>::empty());
        }
        let mut row: usize = 0;
        while row < tile_height
            invariant
                source.wf(),
                width == source@.width,
                height == source@.height,
                levels == source@.levels,
                x0 + tile_width <= width,
                y0 + tile_height <= height,
                tile_width * tile_height <= usize::MAX,
                tile == tile_samples(
                    source@,
                    x0 as int,
                    y0 as int,
                    tile_width as int,
                    tile_height as int,
                ),
                row <= tile_height,
                bins@.len() == levels,
                total(counts_of(bins@)) == row * tile_width,
                row * tile_width <= tile_width * tile_height,
                forall|v: int|
                    0 <= v < levels ==> #[trigger] bins@[v] == occurrences(
                        tile.take(row * tile_width),
                        v as nat,
                    ),
            decreases tile_height - row,
        {
            let mut col: usize = 0;
            while col < tile_width
                invariant
                    source.wf(),
                    width == source@.width,
                    height == source@.height,
                    levels == source@.levels,
                    x0 + tile_width <= width,
                    y0 + tile_height <= height,
                    tile_width * tile_height <= usize::MAX,
                    tile == tile_samples(
                        source@,
                        x0 as int,
                        y0 as int,
                        tile_width as int,
                        tile_height as int,
                    ),
                    row < tile_height,
                    col <= tile_width,
                    bins@.len() == levels,
                    total(counts_of(bins@)) == row * tile_width + col,
                    row * tile_width + col <= tile_width * tile_height,
                    forall|v: int|
                        0 <= v < levels ==> #[trigger] bins@[v] == occurrences(
                            tile.take(row * tile_width + col),
                            v as nat,
                        ),
                decreases tile_width - col,
            {
                let sample = source.get(x0 + col, y0 + row);
                let p = sample as usize;
                let ghost k = row * tile_width + col;
                let ghost before = bins@;
                proof {
                    lemma_row_major(col as int, row as int, tile_width as int, tile_height as int);
                    assert(tile[k] == sample);
                    lemma_entry_le_total(counts_of(before), p as int);
                    lemma_total_update(counts_of(before), p as int, (before[p as int] + 1) as nat);
                }
                let raised = bins[p] + 1;
                bins.set(p, raised);
                proof {
                    assert(counts_of(bins@) =~= counts_of(before).update(p as int, raised as nat));
                    assert forall|v: int| 0 <= v < levels implies #[trigger] bins@[v]
                        == occurrences(tile.take(k + 1), v as nat) by {
                        lemma_occurrences_take_step(tile, k, v as nat);
                    }
                }
                col += 1;
            }
            proof {
                assert((row + 1) * tile_width == row * tile_width + tile_width)
                    by (nonlinear_arith);
            }
            row += 1;
        }
        proof {
            assert(row * tile_width == tile_width * tile_height) by (nonlinear_arith)
                requires
                    row == tile_height,
            ;
            assert(tile.take(tile_width * tile_height) =~= tile);
            assert(counts_of(bins@) =~= histogram_of(tile, levels as nat));
        }
        Histogram { bins }
    }

    /// Clips the histogram at `limit`: every bin is cut down to the limit,
    /// and the mass that was cut away is spread over all bins, so that the
    /// total stays what it was. A limit of zero changes nothing.
    pub fn clip(&mut self, limit: u128)
        requires
            old(self).wf(),
        ensures
            final(self).wf(),
            final(self)@ == clipped(old(self)@, limit as nat),
            total(final(self)@) == total(old(self)@),
    {
        let levels = self.bins.len();
        let ghost before = self@;
        if limit == 0 {
            proof {
                assert(capped_bins(before, 0) =~= before);
                assert(excess(before, 0) == 0);
                assert(0nat / (levels as nat) == 0 && 0nat % (levels as nat) == 0)
                    by (nonlinear_arith)
                    requires
                        levels >= 1,
                ;
                assert(self@ =~= clipped(before, 0));
            }
            return ;
        }
        let ghost cut = capped_bins(before, limit as nat);
        let mut moved: usize = 0;
        let mut i: usize = 0;
        while i < levels
            invariant
                limit > 0,
                1 <= levels <= 65536,
                self.bins@.len() == levels,
                before.len() == levels,
                cut == capped_bins(before, limit as nat),
                total(before) <= usize::MAX,
                i <= levels,
                forall|k: int| 0 <= k < i ==> #[trigger] self.bins@[k] == cut[k],
                forall|k: int| i <= k < levels ==> #[trigger] self.bins@[k] == before[k],
                total(self@) + moved == total(before),
            decreases levels - i,
        {
            let count = self.bins[i];
            if count as u128 > limit {
                let cap = limit as usize;
                let ghost now = self@;
                proof {
                    lemma_entry_le_total(now, i as int);
                    lemma_total_update(now, i as int, cap as nat);
                }
                moved = moved + (count - cap);
                self.bins.set(i, cap);
                proof {
                    assert(self@ =~= now.update(i as int, cap as nat));
                }
            }
            i += 1;
        }
        proof {
            assert(self@ =~= cut);
            assert(moved == excess(before, limit as nat));
        }
        let batch = moved / levels;
        proof {
            lemma_fundamental_div_mod(moved as int, levels as int);
            assert(levels * batch <= moved) by (nonlinear_arith)
                requires
                    moved == levels * batch + moved % levels,
                    0 <= moved % levels,
            ;
            assert(0 <= batch) by (nonlinear_arith)
                requires
                    batch == moved / levels,
                    levels >= 1,
                    moved >= 0,
            ;
            assert(batch * levels == levels * batch) by (nonlinear_arith);
        }
        let residual = moved - batch * levels;
        let mut i: usize = 0;
        while i < levels
            invariant
                1 <= levels <= 65536,
                self.bins@.len() == levels,
                cut.len() == levels,
                total(cut) + moved == total(before),
                total(before) <= usize::MAX,
                levels * batch <= moved,
                0 <= batch,
                i <= levels,
                forall|k: int| 0 <= k < i ==> #[trigger] self.bins@[k] == cut[k] + batch,
                forall|k: int| i <= k < levels ==> #[trigger] self.bins@[k] == cut[k],
                total(self@) == total(cut) + i * batch,
            decreases levels - i,
        {
            let ghost now = self@;
            proof {
                lemma_entry_le_total(now, i as int);
                assert((i + 1) * batch <= levels * batch && (i + 1) * batch == i * batch + batch)
                    by (nonlinear_arith)
                    requires
                        i < levels,
                        0 <= batch,
                ;
                lemma_total_update(now, i as int, (now[i as int] + batch) as nat);
            }
            let raised = self.bins[i] + batch;
            self.bins.set(i, raised);
            proof {
                assert(self@ =~= now.update(i as int, raised as nat));
            }
            i += 1;
        }
        if residual != 0 {
            let step = if levels / residual < 1 {
                1
            } else {
                levels / residual
            };
            proof {
                assert(residual < levels);
                lemma_fundamental_div_mod(levels as int, residual as int);
                assert(step == levels / residual && step >= 1 && step * residual <= levels)
                    by (nonlinear_arith)
                    requires
                        0 < residual < levels,
                        step == if levels / residual < 1 {
                            1
                        } else {
                            levels / residual
                        },
                        levels == residual * (levels / residual) + levels % residual,
                        0 <= levels % residual,
                ;
                assert(step == residual_step(levels as nat, residual as nat));
            }
            let mut left = residual;
            let mut pos: usize = 0;
            let ghost mut done: int = 0;
            proof {
                assert(0 * step == 0) by (nonlinear_arith);
            }
            while pos < levels && left > 0
                invariant
                    1 <= levels <= 65536,
                    self.bins@.len() == levels,
                    cut.len() == levels,
                    1 <= step <= levels,
                    0 < residual < levels,
                    step * residual <= levels,
                    total(cut) + levels * batch + residual <= usize::MAX,
                    0 <= done <= residual,
                    left == residual - done,
                    pos == done * step,
                    total(self@) == total(cut) + levels * batch + done,
                    forall|k: int|
                        0 <= k < levels ==> #[trigger] self.bins@[k] == cut[k] + batch + if k
                            % (step as int) == 0 && k / (step as int) < done {
                            1nat
                        } else {
                            0nat
                        },
                decreases left,
            {
                let ghost now = self@;
                proof {
                    lemma_entry_le_total(now, pos as int);
                    lemma_total_update(now, pos as int, (now[pos as int] + 1) as nat);
                    lemma_fundamental_div_mod_converse(pos as int, step as int, done, 0);
                }
                let raised = self.bins[pos] + 1;
                self.bins.set(pos, raised);
                proof {
                    assert(self@ =~= now.update(pos as int, raised as nat));
                    assert forall|k: int| 0 <= k < levels implies #[trigger] self.bins@[k]
                        == cut[k] + batch + if k % (step as int) == 0 && k / (step as int) < done
                        + 1 {
                        1nat
                    } else {
                        0nat
                    } by {
                        lemma_fundamental_div_mod(k, step as int);
                        if k != pos && k % (step as int) == 0 && k / (step as int) == done {
                            assert(k == step * done);
                            assert(step * done == done * step) by (nonlinear_arith);
                        }
                    }
                    assert((done + 1) * step == done * step + step) by (nonlinear_arith);
                    done = done + 1;
                }
                pos += step;
                left -= 1;
            }
            proof {
                if left > 0 {
                    assert(done * step < levels) by (nonlinear_arith)
                        requires
                            0 <= done < residual,
                            step * residual <= levels,
                            step >= 1,
                    ;
                }
                assert(left == 0);
            }
        }
        proof {
            let moved_nat = excess(before, limit as nat);
            assert(moved_nat == moved);
            assert(moved_nat / (levels as nat) == batch);
            assert(moved_nat % (levels as nat) == residual) by {
                assert(batch * levels == levels * batch) by (nonlinear_arith);
            }
            assert(self@ =~= clipped(before, limit as nat));
        }
    }
}

} // verus!
