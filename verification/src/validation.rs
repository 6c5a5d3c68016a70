//! Up-front validation: a tile size fits an image exactly when it is at
//! least one and divides both dimensions; anything else is rejected before
//! any pixel is touched.

use vstd::prelude::*;

use crate::buffer::{dims_of, PixelBuffer};

verus! {

/// The grid of `size`-sided square tiles covers a width × height image
/// exactly: the size is at least one and divides both dimensions.
pub open spec fn segmentable(width: int, height: int, size: int) -> bool {
    &&& size >= 1
    &&& width % size == 0
    &&& height % size == 0
}

/// The failure `validate` reports: the image cannot be divided into square
/// tiles of the requested size. It carries the image's dimensions and the
/// requested size for diagnostics.
#[derive(Clone, Copy, PartialEq, Eq, Structural, Debug)]
pub struct ValidationError {
    pub width: u32,
    pub height: u32,
    pub segment_size: u32,
}

impl ValidationError {
    /// Packs the dimensions and the requested tile size into the failure
    /// value.
    pub fn image_cant_be_segmented(width: u32, height: u32, segment_size: u32) -> (r:
        ValidationError)
        ensures
            r == (ValidationError { width, height, segment_size }),
    {
        ValidationError { width, height, segment_size }
    }
}

/// Checks that the image can be divided into square tiles of side
/// `segment_size`: returns `None` exactly when the size is at least one and
/// divides both dimensions, and otherwise the failure carrying the image's
/// dimensions and the requested size. A size of zero is rejected rather
/// than risking a division by zero.
pub fn validate(image: &PixelBuffer, segment_size: u32) -> (r: Option<ValidationError>)
    ensures
        r is None <==> segmentable(
            dims_of(*image).0 as int,
            dims_of(*image).1 as int,
            segment_size as int,
        ),
        r matches Some(e) ==> e == (ValidationError {
            width: dims_of(*image).0,
            height: dims_of(*image).1,
            segment_size,
        }),
{
    let width = image.width();
    let height = image.height();
    if segment_size == 0 || width % segment_size != 0 || height % segment_size != 0 {
        Some(ValidationError::image_cant_be_segmented(width, height, segment_size))
    } else {
        None
    }
}

} // verus!
