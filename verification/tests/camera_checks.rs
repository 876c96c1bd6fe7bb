//! Integer-side camera checks and the error conversions.

use geodesic::camera::{check_pixel_index, validate_resolution};
use geodesic::errors::{
    BvhConfigError, BvhError, FileParsingError, GeodesicError, GeometryError, NumericError,
    SceneError, TransformationError,
};

#[test]
fn resolutions_with_a_zero_dimension_are_rejected() {
    assert!(validate_resolution([480, 640]).is_ok());
    assert!(validate_resolution([1, 1]).is_ok());
    let e = validate_resolution([0, 640]).unwrap_err();
    assert!(matches!(
        e,
        GeodesicError::InvalidGeometry(GeometryError::InvalidResolution { width: 640, height: 0 })
    ));
    assert!(validate_resolution([480, 0]).is_err());
    assert!(validate_resolution([0, 0]).is_err());
}

#[test]
fn pixel_indices_outside_the_resolution_are_rejected() {
    assert!(check_pixel_index([0, 0], [480, 640]).is_ok());
    assert!(check_pixel_index([479, 639], [480, 640]).is_ok());
    let e = check_pixel_index([480, 0], [480, 640]).unwrap_err();
    assert!(matches!(
        e,
        GeodesicError::InvalidGeometry(GeometryError::PixelOutOfBounds {
            row: 480,
            col: 0,
            res_height: 480,
            res_width: 640,
        })
    ));
    assert!(check_pixel_index([0, 640], [480, 640]).is_err());
}

#[test]
fn each_error_kind_converts_to_its_top_level_variant() {
    assert!(matches!(
        GeodesicError::from(BvhError::EmptyGeometry),
        GeodesicError::InvalidBvh(BvhError::EmptyGeometry)
    ));
    assert!(matches!(
        GeodesicError::from(BvhConfigError::InvalidSahBuckets { buckets: 0 }),
        GeodesicError::InvalidConfiguration(BvhConfigError::InvalidSahBuckets { buckets: 0 })
    ));
    assert!(matches!(
        GeodesicError::from(FileParsingError::MissingVertexNormal { line: 9 }),
        GeodesicError::FileParsing(FileParsingError::MissingVertexNormal { line: 9 })
    ));
    assert!(matches!(
        GeodesicError::from(GeometryError::InvalidRadius { radius: 1 }),
        GeodesicError::InvalidGeometry(GeometryError::InvalidRadius { radius: 1 })
    ));
    assert!(matches!(
        GeodesicError::from(NumericError::ArithmeticFailed { operation: "sqrt".to_string() }),
        GeodesicError::Math(NumericError::ArithmeticFailed { .. })
    ));
    assert!(matches!(
        GeodesicError::from(SceneError::EmptyScene),
        GeodesicError::SceneConstruction(SceneError::EmptyScene)
    ));
    assert!(matches!(
        GeodesicError::from(TransformationError::NonInvertibleMatrix),
        GeodesicError::InvalidTransformation(TransformationError::NonInvertibleMatrix)
    ));
}
