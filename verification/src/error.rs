use vstd::prelude::*;

verus! {

/// Why an equalisation request was turned down.
#[derive(Clone, Copy, Debug, PartialEq, Eq, Structural)]
pub enum ClaheError {
    /// A tile count of zero was asked for in one of the two directions.
    InvalidArgument,
    /// The tile grid cannot be laid over the image: mirroring at the far edge
    /// would reach before the first row or column, or the padded image would
    /// have more samples than can be addressed.
    UnsupportedGeometry,
}

} // verus!
