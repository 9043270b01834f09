//! Grey images of the `image` crate, and the equalisation of such images.
//!
//! The images themselves are opaque here. What is known of them is what the
//! few functions of `image::ImageBuffer` that this file calls are taken to
//! do; each such function stands behind one private function whose contract
//! is believed, not proved.

use vstd::prelude::*;
use crate::engine::{clahe_generic, equalized, can_equalize};
use crate::error::ClaheError;
use crate::grid::{GridView, SampleGrid};
use crate::histogram::ClipFactor;

verus! {

/// An image of 8-bit grey samples: an `image::ImageBuffer` of `Luma<u8>`
/// pixels over a `Vec<u8>`.
#[verifier::external_body]
pub struct GrayImage {
    inner: image::ImageBuffer<image::Luma<u8>, Vec<u8>>,
}

/// An image of 16-bit grey samples: an `image::ImageBuffer` of `Luma<u16>`
/// pixels over a `Vec<u16>`.
#[verifier::external_body]
pub struct Gray16Image {
    inner: image::ImageBuffer<image::Luma<u16>, Vec<u16>>,
}

/// The number of columns of an 8-bit image.
pub uninterp spec fn gray_width(image: GrayImage) -> nat;

/// The number of rows of an 8-bit image.
pub uninterp spec fn gray_height(image: GrayImage) -> nat;

/// The samples of the pixels of an 8-bit image, row by row.
pub uninterp spec fn gray_samples(image: GrayImage) -> Seq<u8>;

/// The number of columns of a 16-bit image.
pub uninterp spec fn gray16_width(image: Gray16Image) -> nat;

/// The number of rows of a 16-bit image.
pub uninterp spec fn gray16_height(image: Gray16Image) -> nat;

/// The samples of the pixels of a 16-bit image, row by row.
pub uninterp spec fn gray16_samples(image: Gray16Image) -> Seq<u16>;

/// `ImageBuffer::dimensions` on an 8-bit image. The contract claims that it
/// returns width and height, that the image has one sample per position,
/// and that the number of positions is a machine number: an image buffer is
/// only ever made over a container that holds that many samples.
#[verifier::external_body]
fn gray_dimensions(image: &GrayImage) -> (r: (u32, u32))
    ensures
        r.0 == gray_width(*image),
        r.1 == gray_height(*image),
        r.0 * r.1 == gray_samples(*image).len(),
        r.0 * r.1 <= usize::MAX,
{
    image.inner.dimensions()
}

/// `ImageBuffer::get_pixel` on an 8-bit image, which panics outside the
/// image. The contract claims that inside it returns the sample at place
/// `y * width + x` of the row by row order.
#[verifier::external_body]
fn gray_pixel(image: &GrayImage, x: u32, y: u32) -> (v: u8)
    requires
        x < gray_width(*image),
        y < gray_height(*image),
    ensures
        v == gray_samples(*image)[y * gray_width(*image) + x],
{
    image.inner.get_pixel(x, y).0[0]
}

/// `ImageBuffer::from_raw` for an 8-bit image. The contract claims that it
/// succeeds exactly if the container holds at least `width * height`
/// samples, and that the image then has this size and the first
/// `width * height` samples of the container as its pixels, row by row.
#[verifier::external_body]
fn gray_from_raw(width: u32, height: u32, samples: Vec<u8>) -> (r: Option<GrayImage>)
    ensures
        r is Some <==> width * height <= samples@.len(),
        r matches Some(image) ==> gray_width(image) == width && gray_height(image) == height
            && gray_samples(image) == samples@.take(width * height),
{
    match image::ImageBuffer::from_raw(width, height, samples) {
        Some(inner) => Some(GrayImage { inner }),
        None => None,
    }
}

/// `ImageBuffer::dimensions` on a 16-bit image. The contract claims that it
/// returns width and height, that the image has one sample per position,
/// and that the number of positions is a machine number: an image buffer is
/// only ever made over a container that holds that many samples.
#[verifier::external_body]
fn gray16_dimensions(image: &Gray16Image) -> (r: (u32, u32))
    ensures
        r.0 == gray16_width(*image),
        r.1 == gray16_height(*image),
        r.0 * r.1 == gray16_samples(*image).len(),
        r.0 * r.1 <= usize::MAX,
{
    image.inner.dimensions()
}

/// `ImageBuffer::get_pixel` on a 16-bit image, which panics outside the
/// image. The contract claims that inside it returns the sample at place
/// `y * width + x` of the row by row order.
#[verifier::external_body]
fn gray16_pixel(image: &Gray16Image, x: u32, y: u32) -> (v: u16)
    requires
        x < gray16_width(*image),
        y < gray16_height(*image),
    ensures
        v == gray16_samples(*image)[y * gray16_width(*image) + x],
{
    image.inner.get_pixel(x, y).0[0]
}

/// `ImageBuffer::from_raw` for a 16-bit image. The contract claims that it
/// succeeds exactly if the container holds at least `width * height`
/// samples, and that the image then has this size and the first
/// `width * height` samples of the container as its pixels, row by row.
#[verifier::external_body]
fn gray16_from_raw(width: u32, height: u32, samples: Vec<u16>) -> (r: Option<Gray16Image>)
    ensures
        r is Some <==> width * height <= samples@.len(),
        r matches Some(image) ==> gray16_width(image) == width && gray16_height(image) == height
            && gray16_samples(image) == samples@.take(width * height),
{
    match image::ImageBuffer::from_raw(width, height, samples) {
        Some(inner) => Some(Gray16Image { inner }),
        None => None,
    }
}

/// An 8-bit image as a grid of 256 levels.
pub open spec fn gray_view(image: GrayImage) -> GridView {
    GridView {
        width: gray_width(image),
        height: gray_height(image),
        levels: 256,
        samples: Seq::new(gray_samples(image).len(), |i: int| gray_samples(image)[i] as nat),
    }
}

/// A 16-bit image as a grid of 65536 levels.
pub open spec fn gray16_view(image: Gray16Image) -> GridView {
    GridView {
        width: gray16_width(image),
        height: gray16_height(image),
        levels: 65536,
        samples: Seq::new(gray16_samples(image).len(), |i: int| gray16_samples(image)[i] as nat),
    }
}

impl GrayImage {
    /// The image of the given size over `samples`, row by row, where there
    /// is one sample per position.
    pub fn from_samples(width: u32, height: u32, samples: Vec<u8>) -> (r: Option<GrayImage>)
        ensures
            r is Some <==> samples@.len() == width * height,
            r matches Some(image) ==> gray_width(image) == width && gray_height(image) == height
                && gray_samples(image) == samples@,
    {
        let count = samples.len();
        let ghost given = samples@;
        assert((width as u64) * (height as u64) <= 0xffff_ffff * 0xffff_ffff) by (nonlinear_arith)
            requires
                0 <= width as u64 <= 0xffff_ffff,
                0 <= height as u64 <= 0xffff_ffff,
        ;
        if (width as u64) * (height as u64) != count as u64 {
            return None;
        }
        let r = gray_from_raw(width, height, samples);
        proof {
            assert(given.take(given.len() as int) =~= given);
        }
        r
    }

    /// The number of columns.
    pub fn width(&self) -> (w: u32)
        ensures
            w == gray_width(*self),
    {
        gray_dimensions(self).0
    }

    /// The number of rows.
    pub fn height(&self) -> (h: u32)
        ensures
            h == gray_height(*self),
    {
        gray_dimensions(self).1
    }

    /// The samples, row by row.
    pub fn to_samples(&self) -> (samples: Vec<u8>)
        ensures
            samples@ == gray_samples(*self),
    {
        let (width, height) = gray_dimensions(self);
        let mut samples: Vec<u8> = Vec::new();
        let mut y: u32 = 0;
        while y < height
            invariant
                width == gray_width(*self),
                height == gray_height(*self),
                width * height == gray_samples(*self).len(),
                y <= height,
                samples@.len() == y * width,
                forall|k: int|
                    0 <= k < samples@.len() ==> #[trigger] samples@[k] == gray_samples(*self)[k],
            decreases height - y,
        {
            let mut x: u32 = 0;
            while x < width
                invariant
                    width == gray_width(*self),
                    height == gray_height(*self),
                    width * height == gray_samples(*self).len(),
                    y < height,
                    x <= width,
                    samples@.len() == y * width + x,
                    forall|k: int|
                        0 <= k < samples@.len() ==> #[trigger] samples@[k] == gray_samples(
                            *self,
                        )[k],
                decreases width - x,
            {
                samples.push(gray_pixel(self, x, y));
                x += 1;
            }
            proof {
                assert((y + 1) * width == y * width + width) by (nonlinear_arith);
            }
            y += 1;
        }
        proof {
            assert(y * width == width * height) by (nonlinear_arith)
                requires
                    y == height,
            ;
            assert(samples@ =~= gray_samples(*self));
        }
        samples
    }

    /// The image as a grid of 256 levels.
    pub fn to_grid(&self) -> (grid: SampleGrid)
        ensures
            grid.wf(),
            grid@ == gray_view(*self),
    {
        let (width, height) = gray_dimensions(self);
        let mut samples: Vec<u16> = Vec::new();
        let mut y: u32 = 0;
        while y < height
            invariant
                width == gray_width(*self),
                height == gray_height(*self),
                width * height == gray_samples(*self).len(),
                y <= height,
                samples@.len() == y * width,
                forall|k: int|
                    0 <= k < samples@.len() ==> #[trigger] samples@[k] == gray_samples(*self)[k],
            decreases height - y,
        {
            let mut x: u32 = 0;
            while x < width
                invariant
                    width == gray_width(*self),
                    height == gray_height(*self),
                    width * height == gray_samples(*self).len(),
                    y < height,
                    x <= width,
                    samples@.len() == y * width + x,
                    forall|k: int|
                        0 <= k < samples@.len() ==> #[trigger] samples@[k] == gray_samples(
                            *self,
                        )[k],
                decreases width - x,
            {
                samples.push(gray_pixel(self, x, y) as u16);
                x += 1;
            }
            proof {
                assert((y + 1) * width == y * width + width) by (nonlinear_arith);
            }
            y += 1;
        }
        proof {
            assert(y * width == width * height) by (nonlinear_arith)
                requires
                    y == height,
            ;
        }
        let grid = SampleGrid::assemble(width as usize, height as usize, 255, samples);
        proof {
            assert(grid@.samples =~= gray_view(*self).samples);
        }
        grid
    }

    /// The image that holds the samples of `grid`, a grid of at most 256
    /// levels that is at most `u32::MAX` wide and high.
    pub fn from_grid(grid: &SampleGrid) -> (r: Option<GrayImage>)
        requires
            grid.wf(),
        ensures
            r is Some <==> grid@.levels <= 256 && grid@.width <= u32::MAX && grid@.height
                <= u32::MAX,
            r matches Some(image) ==> gray_width(image) == grid@.width && gray_height(image)
                == grid@.height && gray_view(image).samples == grid@.samples,
    {
        if grid.max_value() > 255 || grid.width() > u32::MAX as usize || grid.height()
            > u32::MAX as usize {
            return None;
        }
        let source = grid.samples();
        let count = source.len();
        let mut samples: Vec<u8> = Vec::new();
        let mut i: usize = 0;
        while i < count
            invariant
                grid.wf(),
                grid@.levels <= 256,
                count == source@.len(),
                source@.len() == grid@.samples.len(),
                forall|k: int| 0 <= k < source@.len() ==> #[trigger] source@[k] == grid@.samples[k],
                i <= count,
                samples@.len() == i,
                forall|k: int| 0 <= k < i ==> #[trigger] samples@[k] == grid@.samples[k],
            decreases count - i,
        {
            let s = source[i];
            assert(grid@.samples[i as int] < grid@.levels);
            samples.push(s as u8);
            i += 1;
        }
        let ghost given = samples@;
        let r = gray_from_raw(grid.width() as u32, grid.height() as u32, samples);
        proof {
            assert(given.take(given.len() as int) =~= given);
            if r is Some {
                assert(gray_view(r->0).samples =~= grid@.samples);
            }
        }
        r
    }
}

impl Gray16Image {
    /// The image of the given size over `samples`, row by row, where there
    /// is one sample per position.
    pub fn from_samples(width: u32, height: u32, samples: Vec<u16>) -> (r: Option<Gray16Image>)
        ensures
            r is Some <==> samples@.len() == width * height,
            r matches Some(image) ==> gray16_width(image) == width && gray16_height(image)
                == height && gray16_samples(image) == samples@,
    {
        let count = samples.len();
        let ghost given = samples@;
        assert((width as u64) * (height as u64) <= 0xffff_ffff * 0xffff_ffff) by (nonlinear_arith)
            requires
                0 <= width as u64 <= 0xffff_ffff,
                0 <= height as u64 <= 0xffff_ffff,
        ;
        if (width as u64) * (height as u64) != count as u64 {
            return None;
        }
        let r = gray16_from_raw(width, height, samples);
        proof {
            assert(given.take(given.len() as int) =~= given);
        }
        r
    }

    /// The number of columns.
    pub fn width(&self) -> (w: u32)
        ensures
            w == gray16_width(*self),
    {
        gray16_dimensions(self).0
    }

    /// The number of rows.
    pub fn height(&self) -> (h: u32)
        ensures
            h == gray16_height(*self),
    {
        gray16_dimensions(self).1
    }

    /// The image as a grid of 65536 levels.
    pub fn to_grid(&self) -> (grid: SampleGrid)
        ensures
            grid.wf(),
            grid@ == gray16_view(*self),
    {
        let (width, height) = gray16_dimensions(self);
        let mut samples: Vec<u16> = Vec::new();
        let mut y: u32 = 0;
        while y < height
            invariant
                width == gray16_width(*self),
                height == gray16_height(*self),
                width * height == gray16_samples(*self).len(),
                y <= height,
                samples@.len() == y * width,
                forall|k: int|
                    0 <= k < samples@.len() ==> #[trigger] samples@[k] == gray16_samples(*self)[k],
            decreases height - y,
        {
            let mut x: u32 = 0;
            while x < width
                invariant
                    width == gray16_width(*self),
                    height == gray16_height(*self),
                    width * height == gray16_samples(*self).len(),
                    y < height,
                    x <= width,
                    samples@.len() == y * width + x,
                    forall|k: int|
                        0 <= k < samples@.len() ==> #[trigger] samples@[k] == gray16_samples(
                            *self,
                        )[k],
                decreases width - x,
            {
                samples.push(gray16_pixel(self, x, y));
                x += 1;
            }
            proof {
                assert((y + 1) * width == y * width + width) by (nonlinear_arith);
            }
            y += 1;
        }
        proof {
            assert(y * width == width * height) by (nonlinear_arith)
                requires
                    y == height,
            ;
        }
        let grid = SampleGrid::assemble(width as usize, height as usize, 65535, samples);
        proof {
            assert(grid@.samples =~= gray16_view(*self).samples);
        }
        grid
    }
}

/// Equalises an 8-bit image into an 8-bit image of the same size.
pub fn clahe_u8_to_u8(tiles_x: usize, tiles_y: usize, clip: ClipFactor, input: &GrayImage) -> (r:
    Result<GrayImage, ClaheError>)
    requires
        clip.wf(),
    ensures
        match r {
            Ok(out) => {
                &&& tiles_x >= 1
                &&& tiles_y >= 1
                &&& can_equalize(
                    gray_width(*input),
                    gray_height(*input),
                    tiles_x as nat,
                    tiles_y as nat,
                )
                &&& gray_view(out).wf()
                &&& gray_view(out) == equalized(
                    gray_view(*input),
                    tiles_x as nat,
                    tiles_y as nat,
                    clip.numer as nat,
                    clip.denom as nat,
                    256,
                )
            },
            Err(ClaheError::InvalidArgument) => tiles_x == 0 || tiles_y == 0,
            Err(ClaheError::UnsupportedGeometry) => {
                &&& tiles_x >= 1
                &&& tiles_y >= 1
                &&& !can_equalize(
                    gray_width(*input),
                    gray_height(*input),
                    tiles_x as nat,
                    tiles_y as nat,
                )
            },
        },
{
    let width = input.width();
    let height = input.height();
    let grid = input.to_grid();
    let out = match clahe_generic(tiles_x, tiles_y, clip, &grid, 255) {
        Ok(out) => out,
        Err(e) => {
            return Err(e);
        },
    };
    match GrayImage::from_grid(&out) {
        Some(image) => {
            proof {
                assert(gray_view(image).samples == out@.samples);
                assert(gray_view(image) == out@);
            }
            Ok(image)
        },
        None => Err(ClaheError::UnsupportedGeometry),
    }
}

/// Equalises a 16-bit image into an 8-bit image of the same size.
pub fn clahe_u16_to_u8(tiles_x: usize, tiles_y: usize, clip: ClipFactor, input: &Gray16Image) -> (r:
    Result<GrayImage, ClaheError>)
    requires
        clip.wf(),
    ensures
        match r {
            Ok(out) => {
                &&& tiles_x >= 1
                &&& tiles_y >= 1
                &&& can_equalize(
                    gray16_width(*input),
                    gray16_height(*input),
                    tiles_x as nat,
                    tiles_y as nat,
                )
                &&& gray_view(out).wf()
                &&& gray_view(out) == equalized(
                    gray16_view(*input),
                    tiles_x as nat,
                    tiles_y as nat,
                    clip.numer as nat,
                    clip.denom as nat,
                    256,
                )
            },
            Err(ClaheError::InvalidArgument) => tiles_x == 0 || tiles_y == 0,
            Err(ClaheError::UnsupportedGeometry) => {
                &&& tiles_x >= 1
                &&& tiles_y >= 1
                &&& !can_equalize(
                    gray16_width(*input),
                    gray16_height(*input),
                    tiles_x as nat,
                    tiles_y as nat,
                )
            },
        },
{
    let width = input.width();
    let height = input.height();
    let grid = input.to_grid();
    let out = match clahe_generic(tiles_x, tiles_y, clip, &grid, 255) {
        Ok(out) => out,
        Err(e) => {
            return Err(e);
        },
    };
    match GrayImage::from_grid(&out) {
        Some(image) => {
            proof {
                assert(gray_view(image).samples == out@.samples);
                assert(gray_view(image) == out@);
            }
            Ok(image)
        },
        None => Err(ClaheError::UnsupportedGeometry),
    }
}

} // verus!
