//! Error taxonomy for the library.
//!
//! Scalar payloads that the caller supplied as IEEE-754 binary64 values are
//! recorded as their bit patterns (`u64`), so that an error carries exactly
//! the offending input.

use vstd::prelude::*;

verus! {

/// Error raised when a BVH is constructed over no geometry.
#[derive(Debug, Clone, Copy, PartialEq, Eq, Structural)]
pub enum BvhError {
    /// The hierarchy was given no geometry at all.
    EmptyGeometry,
    /// The hierarchy was given an empty node list.
    EmptyNodes,
}

/// Error raised when validating a [`crate::bvh_config::BvhConfig`].
#[derive(Debug, Clone, Copy, PartialEq, Eq, Structural)]
pub enum BvhConfigError {
    /// The traversal cost was not positive (bit pattern recorded).
    InvalidTraverseCost { cost: u64 },
    /// The intersection cost was not positive (bit pattern recorded).
    InvalidIntersectCost { cost: u64 },
    /// The bucket count for heuristic binning was zero.
    InvalidSahBuckets { buckets: usize },
    /// The leaf capacity was too small to ever justify a split.
    InvalidMaxShapesPerNode { count: usize },
    /// The recursion depth cap was zero.
    InvalidMaxDepth { depth: usize },
}

/// Error raised while reading a Wavefront mesh description.
#[derive(Debug, Clone)]
pub enum FileParsingError {
    /// The file as a whole is not usable (no vertices, or no faces).
    InvalidObjFormat { message: String },
    /// A vertex-position statement had too few coordinates.
    MissingVertexPosition { line: usize },
    /// A vertex-normal statement had too few coordinates.
    MissingVertexNormal { line: usize },
    /// A face statement was malformed.
    InvalidFaceData { line: usize, message: String },
    /// A coordinate token could not be read as a number.
    InvalidCoordinate { value: String, line: usize },
    /// The named file could not be opened.
    FileNotFound { path: String },
}

/// Error raised when validating geometric primitives.
#[derive(Debug, Clone, Copy, PartialEq, Eq, Structural)]
pub enum GeometryError {
    /// A sphere radius was negative (bit pattern recorded).
    InvalidRadius { radius: u64 },
    /// An image resolution had a zero dimension.
    InvalidResolution { width: usize, height: usize },
    /// A bounding box had a minimum corner beyond its maximum corner
    /// (bit patterns of all six bounds recorded).
    InvalidAabbBounds {
        min_x: u64,
        min_y: u64,
        min_z: u64,
        max_x: u64,
        max_y: u64,
        max_z: u64,
    },
    /// An intersection distance was negative (bit pattern recorded).
    NegativeIntersectionDistance { distance: u64 },
    /// A pixel index lay outside the camera resolution.
    PixelOutOfBounds {
        row: usize,
        col: usize,
        res_height: usize,
        res_width: usize,
    },
}

/// Error raised during numeric conversions between scalar types.
#[derive(Debug, Clone)]
pub enum NumericError {
    /// A value could not be represented in the target type.
    TypeConversion { from_type: String, to_type: String },
    /// The scalar type exposes no usable extreme values.
    BoundsUnavailable { type_label: String },
    /// An arithmetic operation could not be carried out.
    ArithmeticFailed { operation: String },
}

/// Error raised when constructing a scene.
#[derive(Debug, Clone)]
pub enum SceneError {
    /// The scene holds no objects.
    EmptyScene,
    /// The scene's hierarchy holds no geometry.
    EmptyBvh,
    /// Two assets were registered under one identifier.
    DuplicateAssetId { id: String },
    /// An instance referred to an asset that was never registered.
    AssetNotFound { id: String },
}

/// Error raised for transformation matrices.
#[derive(Debug, Clone, Copy, PartialEq, Eq, Structural)]
pub enum TransformationError {
    /// The matrix has no inverse.
    NonInvertibleMatrix,
    /// The matrix is not usable as a transformation.
    InvalidMatrix,
}

/// Top-level error type: every failure of the library is one of these.
#[derive(Debug, Clone)]
pub enum GeodesicError {
    /// An invalid geometric primitive or operation.
    InvalidGeometry(GeometryError),
    /// A hierarchy built over no geometry.
    InvalidBvh(BvhError),
    /// Invalid configuration parameters.
    InvalidConfiguration(BvhConfigError),
    /// An invalid transformation matrix or operation.
    InvalidTransformation(TransformationError),
    /// A mesh or scene description that could not be read.
    FileParsing(FileParsingError),
    /// A numeric conversion or computation that could not be carried out.
    Math(NumericError),
    /// A scene that could not be constructed.
    SceneConstruction(SceneError),
    /// An asset registry operation that failed.
    AssetManagement(String),
    /// An input/output failure, reported by the caller as text.
    Io(String),
    /// A serialisation failure, reported by the caller as text.
    Serialization(String),
}

impl From<BvhError> for GeodesicError {
    fn from(err: BvhError) -> (r: GeodesicError) {
        GeodesicError::InvalidBvh(err)
    }
}

impl vstd::std_specs::convert::FromSpecImpl<BvhError> for GeodesicError {
    open spec fn obeys_from_spec() -> bool {
        true
    }

    open spec fn from_spec(err: BvhError) -> Self {
        GeodesicError::InvalidBvh(err)
    }
}

impl From<BvhConfigError> for GeodesicError {
    fn from(err: BvhConfigError) -> (r: GeodesicError) {
        GeodesicError::InvalidConfiguration(err)
    }
}

impl vstd::std_specs::convert::FromSpecImpl<BvhConfigError> for GeodesicError {
    open spec fn obeys_from_spec() -> bool {
        true
    }

    open spec fn from_spec(err: BvhConfigError) -> Self {
        GeodesicError::InvalidConfiguration(err)
    }
}

impl From<FileParsingError> for GeodesicError {
    fn from(err: FileParsingError) -> (r: GeodesicError) {
        GeodesicError::FileParsing(err)
    }
}

impl vstd::std_specs::convert::FromSpecImpl<FileParsingError> for GeodesicError {
    open spec fn obeys_from_spec() -> bool {
        true
    }

    open spec fn from_spec(err: FileParsingError) -> Self {
        GeodesicError::FileParsing(err)
    }
}

impl From<GeometryError> for GeodesicError {
    fn from(err: GeometryError) -> (r: GeodesicError) {
        GeodesicError::InvalidGeometry(err)
    }
}

impl vstd::std_specs::convert::FromSpecImpl<GeometryError> for GeodesicError {
    open spec fn obeys_from_spec() -> bool {
        true
    }

    open spec fn from_spec(err: GeometryError) -> Self {
        GeodesicError::InvalidGeometry(err)
    }
}

impl From<NumericError> for GeodesicError {
    fn from(err: NumericError) -> (r: GeodesicError) {
        GeodesicError::Math(err)
    }
}

impl vstd::std_specs::convert::FromSpecImpl<NumericError> for GeodesicError {
    open spec fn obeys_from_spec() -> bool {
        true
    }

    open spec fn from_spec(err: NumericError) -> Self {
        GeodesicError::Math(err)
    }
}

impl From<SceneError> for GeodesicError {
    fn from(err: SceneError) -> (r: GeodesicError) {
        GeodesicError::SceneConstruction(err)
    }
}

impl vstd::std_specs::convert::FromSpecImpl<SceneError> for GeodesicError {
    open spec fn obeys_from_spec() -> bool {
        true
    }

    open spec fn from_spec(err: SceneError) -> Self {
        GeodesicError::SceneConstruction(err)
    }
}

impl From<TransformationError> for GeodesicError {
    fn from(err: TransformationError) -> (r: GeodesicError) {
        GeodesicError::InvalidTransformation(err)
    }
}

impl vstd::std_specs::convert::FromSpecImpl<TransformationError> for GeodesicError {
    open spec fn obeys_from_spec() -> bool {
        true
    }

    open spec fn from_spec(err: TransformationError) -> Self {
        GeodesicError::InvalidTransformation(err)
    }
}

} // verus!
