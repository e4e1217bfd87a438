//! Spline enumerations.
//!
//! Splines interpolate between knots with Bézier or Hermite curves; these
//! enumerations name the per-spline and per-knot choices.

use vstd::prelude::*;

verus! {

/// Curve type for a spline segment.
#[derive(Clone, Copy, Debug, PartialEq, Eq, Hash, Structural)]
pub enum CurveType {
    /// Cubic Bézier curve.
    Bezier,
    /// Cubic Hermite curve.
    Hermite,
}

/// Per-knot interpolation mode for the segment *following* a knot.
#[derive(Clone, Copy, Debug, PartialEq, Eq, Hash, Structural)]
pub enum KnotInterp {
    /// No value in this segment.
    Block,
    /// Step function: hold the knot value.
    Held,
    /// Linear interpolation to the next knot.
    Linear,
    /// Smooth curve interpolation (Bézier or Hermite).
    Curve,
}

/// Numeric precision of knot values in the binary encoding.
#[derive(Clone, Copy, Debug, PartialEq, Eq, Hash, Structural)]
pub enum SplineDataType {
    /// Not specified (empty spline).
    Unspecified,
    /// 64-bit double.
    Double,
    /// 32-bit float.
    Float,
    /// 16-bit half.
    Half,
}

impl CurveType {
    /// The code of this curve type in the binary spline encoding.
    pub fn code(&self) -> (r: u8)
        ensures
            r == (match *self {
                CurveType::Bezier => 0u8,
                CurveType::Hermite => 1u8,
            }),
    {
        match self {
            CurveType::Bezier => 0,
            CurveType::Hermite => 1,
        }
    }

    /// The display name of this curve type.
    pub fn name(&self) -> (r: &'static str)
        ensures
            r@ == (match *self {
                CurveType::Bezier => "Bezier"@,
                CurveType::Hermite => "Hermite"@,
            }),
    {
        match self {
            CurveType::Bezier => "Bezier",
            CurveType::Hermite => "Hermite",
        }
    }
}

impl KnotInterp {
    /// The code of this interpolation mode in the binary spline encoding.
    pub fn code(&self) -> (r: u8)
        ensures
            r == (match *self {
                KnotInterp::Block => 0u8,
                KnotInterp::Held => 1u8,
                KnotInterp::Linear => 2u8,
                KnotInterp::Curve => 3u8,
            }),
    {
        match self {
            KnotInterp::Block => 0,
            KnotInterp::Held => 1,
            KnotInterp::Linear => 2,
            KnotInterp::Curve => 3,
        }
    }
}

impl SplineDataType {
    /// The code of this data type in the binary spline encoding.
    pub fn code(&self) -> (r: u8)
        ensures
            r == (match *self {
                SplineDataType::Unspecified => 0u8,
                SplineDataType::Double => 1u8,
                SplineDataType::Float => 2u8,
                SplineDataType::Half => 3u8,
            }),
    {
        match self {
            SplineDataType::Unspecified => 0,
            SplineDataType::Double => 1,
            SplineDataType::Float => 2,
            SplineDataType::Half => 3,
        }
    }

    /// The display name of this data type.
    pub fn name(&self) -> (r: &'static str)
        ensures
            r@ == (match *self {
                SplineDataType::Unspecified => "Unspecified"@,
                SplineDataType::Double => "Double"@,
                SplineDataType::Float => "Float"@,
                SplineDataType::Half => "Half"@,
            }),
    {
        match self {
            SplineDataType::Unspecified => "Unspecified",
            SplineDataType::Double => "Double",
            SplineDataType::Float => "Float",
            SplineDataType::Half => "Half",
        }
    }
}

} // verus!
