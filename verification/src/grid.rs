//! A grid of samples: the image as the equalisation sees it.

use vstd::prelude::*;
use vstd::arithmetic::div_mod::lemma_fundamental_div_mod_converse;

verus! {

/// What a grid is, mathematically: its size, the number of levels a sample
/// can take, and the samples row by row.
pub struct GridView {
    pub width: nat,
    pub height: nat,
    pub levels: nat,
    pub samples: Seq<nat>,
}

impl GridView {
    /// There is one sample per position, and every sample is below `levels`.
    pub open spec fn wf(self) -> bool {
        &&& self.samples.len() == self.width * self.height
        &&& 1 <= self.levels <= 65536
        &&& forall|i: int| 0 <= i < self.samples.len() ==> #[trigger] self.samples[i] < self.levels
    }

    /// The sample in column `x` of row `y`.
    pub open spec fn at(self, x: int, y: int) -> nat {
        self.samples[y * self.width + x]
    }
}

/// Position `(x, y)` of a grid `width` wide has its own place in the row by
/// row order, inside the grid.
pub proof fn lemma_row_major(x: int, y: int, width: int, height: int)
    requires
        0 <= x < width,
        0 <= y < height,
    ensures
        0 <= y * width + x < width * height,
        (y * width + x) / width == y,
        (y * width + x) % width == x,
{
    assert(0 <= y * width + x < width * height) by (nonlinear_arith)
        requires
            0 <= x < width,
            0 <= y < height,
    ;
    lemma_fundamental_div_mod_converse(y * width + x, width, y, x);
}

/// Place `k` of the row by row order lies in column `k % width` of row
/// `k / width`.
pub proof fn lemma_row_major_inverse(k: int, width: int, height: int)
    requires
        0 <= k < width * height,
        0 <= width,
        0 <= height,
    ensures
        0 <= k % width < width,
        0 <= k / width < height,
        (k / width) * width + k % width == k,
{
    assert(width > 0) by (nonlinear_arith)
        requires
            0 <= k < width * height,
            0 <= width,
    ;
    assert(0 <= k % width < width && 0 <= k / width < height && (k / width) * width + k % width
        == k) by (nonlinear_arith)
        requires
            0 <= k < width * height,
            0 < width,
            0 <= height,
    ;
}

/// A `width` by `height` grid of samples between 0 and `max_value`, stored
/// row by row.
#[derive(Clone, Debug, PartialEq, Eq)]
pub struct SampleGrid {
    width: usize,
    height: usize,
    max_value: u16,
    samples: Vec<u16>,
}

impl View for SampleGrid {
    type V = GridView;

    closed spec fn view(&self) -> GridView {
        GridView {
            width: self.width as nat,
            height: self.height as nat,
            levels: (self.max_value + 1) as nat,
            samples: Seq::new(self.samples@.len(), |i: int| self.samples@[i] as nat),
        }
    }
}

impl SampleGrid {
    /// The grid holds one sample per position and none above its maximum.
    pub open spec fn wf(&self) -> bool {
        self@.wf()
    }

    /// The grid of the given size and depth over `samples`, where there is
    /// one sample per position and none is above `max_value`.
    pub fn from_samples(width: usize, height: usize, max_value: u16, samples: Vec<u16>) -> (r:
        Option<SampleGrid>)
        ensures
            r is Some <==> samples@.len() == width * height && forall|i: int|
                0 <= i < samples@.len() ==> #[trigger] samples@[i] <= max_value,
            r matches Some(g) ==> g.wf() && g@.width == width && g@.height == height && g@.levels
                == max_value + 1 && g@.samples == Seq::new(
                samples@.len(),
                |i: int| samples@[i] as nat,
            ),
    {
        let count = samples.len();
        match width.checked_mul(height) {
            Some(n) => {
                if count != n {
                    return None;
                }
            },
            None => {
                return None;
            },
        }
        let mut i: usize = 0;
        while i < samples.len()
            invariant
                i <= samples@.len(),
                forall|j: int| 0 <= j < i ==> #[trigger] samples@[j] <= max_value,
            decreases samples@.len() - i,
        {
            if samples[i] > max_value {
                return None;
            }
            i += 1;
        }
        let g = SampleGrid { width, height, max_value, samples };
        assert(g@.samples =~= Seq::new(samples@.len(), |i: int| samples@[i] as nat));
        Some(g)
    }

    /// The grid of the given size and depth over `samples`.
    pub(crate) fn assemble(width: usize, height: usize, max_value: u16, samples: Vec<u16>) -> (g:
        SampleGrid)
        requires
            samples@.len() == width * height,
            forall|i: int| 0 <= i < samples@.len() ==> #[trigger] samples@[i] <= max_value,
        ensures
            g.wf(),
            g@.width == width,
            g@.height == height,
            g@.levels == max_value + 1,
            g@.samples.len() == samples@.len(),
            forall|i: int| 0 <= i < samples@.len() ==> #[trigger] g@.samples[i] == samples@[i],
    {
        SampleGrid { width, height, max_value, samples }
    }

    /// The grid of the given size and depth with every sample at zero, where
    /// the number of its samples is a machine number.
    pub fn zeros(width: usize, height: usize, max_value: u16) -> (r: Option<SampleGrid>)
        ensures
            r is Some <==> width * height <= usize::MAX,
            r matches Some(g) ==> g.wf() && g@.width == width && g@.height == height && g@.levels
                == max_value + 1 && forall|i: int|
                0 <= i < g@.samples.len() ==> #[trigger] g@.samples[i] == 0,
    {
        let count = match width.checked_mul(height) {
            Some(n) => n,
            None => {
                return None;
            },
        };
        let mut samples: Vec<u16> = Vec::new();
        let mut i: usize = 0;
        while i < count
            invariant
                i <= count,
                samples@.len() == i,
                forall|k: int| 0 <= k < i ==> #[trigger] samples@[k] == 0,
            decreases count - i,
        {
            samples.push(0);
            i += 1;
        }
        Some(SampleGrid { width, height, max_value, samples })
    }

    /// Puts `v` in column `x` of row `y`.
    pub fn set(&mut self, x: usize, y: usize, v: u16)
        requires
            old(self).wf(),
            x < old(self)@.width,
            y < old(self)@.height,
            v < old(self)@.levels,
        ensures
            final(self).wf(),
            final(self)@ == (GridView {
                samples: old(self)@.samples.update(y * old(self)@.width + x, v as nat),
                ..old(self)@
            }),
    {
        let count = self.samples.len();
        proof {
            lemma_row_major(x as int, y as int, self.width as int, self.height as int);
            assert(self.width * self.height == count);
            assert(0 <= y * self.width <= y * self.width + x) by (nonlinear_arith)
                requires
                    0 <= y,
                    0 <= self.width,
                    0 <= x,
            ;
        }
        let ghost before = self@;
        self.samples.set(y * self.width + x, v);
        proof {
            assert(self@.samples =~= before.samples.update(y * before.width + x, v as nat));
        }
    }

    /// The number of columns.
    pub fn width(&self) -> (w: usize)
        ensures
            w == self@.width,
    {
        self.width
    }

    /// The number of rows.
    pub fn height(&self) -> (h: usize)
        ensures
            h == self@.height,
    {
        self.height
    }

    /// The largest value a sample of this grid can take.
    pub fn max_value(&self) -> (m: u16)
        ensures
            m + 1 == self@.levels,
    {
        self.max_value
    }

    /// The samples, row by row.
    pub fn samples(&self) -> (s: &Vec<u16>)
        ensures
            s@.len() == self@.samples.len(),
            forall|i: int| 0 <= i < s@.len() ==> #[trigger] s@[i] == self@.samples[i],
    {
        &self.samples
    }

    /// The sample in column `x` of row `y`.
    pub fn get(&self, x: usize, y: usize) -> (v: u16)
        requires
            self.wf(),
            x < self@.width,
            y < self@.height,
        ensures
            v == self@.at(x as int, y as int),
            v < self@.levels,
    {
        let count = self.samples.len();
        proof {
            lemma_row_major(x as int, y as int, self.width as int, self.height as int);
            assert(self.width * self.height == count);
            assert(0 <= y * self.width <= y * self.width + x) by (nonlinear_arith)
                requires
                    0 <= y,
                    0 <= self.width,
                    0 <= x,
            ;
        }
        let v = self.samples[y * self.width + x];
        assert(self@.samples[y * self.width + x] == v);
        v
    }
}

} // verus!
