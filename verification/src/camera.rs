//! Integer-side checks of the camera: image resolutions and pixel
//! indices. Ray generation itself is scalar work outside the core; the
//! decisions about which resolutions are usable and which pixel indices
//! a resolution admits are made and proved here.

use vstd::prelude::*;

use crate::errors::{GeodesicError, GeometryError};

verus! {

/// Check an image resolution, given as rows then columns.
///
/// Fails exactly when either dimension is zero.
pub fn validate_resolution(resolution: [usize; 2]) -> (r: Result<(), GeodesicError>)
    ensures
        r == if resolution@[0] == 0 || resolution@[1] == 0 {
            Err::<(), GeodesicError>(
                GeodesicError::InvalidGeometry(
                    GeometryError::InvalidResolution {
                        width: resolution@[1],
                        height: resolution@[0],
                    },
                ),
            )
        } else {
            Ok::<(), GeodesicError>(())
        },
{
    if resolution[0] == 0 || resolution[1] == 0 {
        return Err(
            GeodesicError::InvalidGeometry(
                GeometryError::InvalidResolution { width: resolution[1], height: resolution[0] },
            ),
        );
    }
    Ok(())
}

/// Check a pixel index against a resolution, both given as rows then
/// columns.
///
/// Fails exactly when the row or the column is out of range.
pub fn check_pixel_index(pixel_index: [usize; 2], resolution: [usize; 2]) -> (r: Result<
    (),
    GeodesicError,
>)
    ensures
        r == if pixel_index@[0] >= resolution@[0] || pixel_index@[1] >= resolution@[1] {
            Err::<(), GeodesicError>(
                GeodesicError::InvalidGeometry(
                    GeometryError::PixelOutOfBounds {
                        row: pixel_index@[0],
                        col: pixel_index@[1],
                        res_height: resolution@[0],
                        res_width: resolution@[1],
                    },
                ),
            )
        } else {
            Ok::<(), GeodesicError>(())
        },
{
    if pixel_index[0] >= resolution[0] || pixel_index[1] >= resolution[1] {
        return Err(
            GeodesicError::InvalidGeometry(
                GeometryError::PixelOutOfBounds {
                    row: pixel_index[0],
                    col: pixel_index[1],
                    res_height: resolution[0],
                    res_width: resolution[1],
                },
            ),
        );
    }
    Ok(())
}

} // verus!
