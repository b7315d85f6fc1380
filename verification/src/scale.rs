//! Vendor vibrance scales. Levels live in whatever range the driver reports
//! (measured NVIDIA: 0..=100, default 50; AMD saturation typically 0..=200,
//! default 100); export files are stamped with the scale they were made on
//! so that an import on another machine can carry levels across.

use vstd::prelude::*;

verus! {

/// A vendor's vibrance level range and neutral (default) level.
#[derive(Clone, Copy, PartialEq, Eq, Structural, Debug)]
pub struct VibranceScale {
    pub min: i32,
    pub max: i32,
    pub default: i32,
}

/// The scale assumed for export files that carry no scale: they all came
/// from NVIDIA machines reporting 0..=100 with default 50.
pub fn legacy_scale() -> (r: VibranceScale)
    ensures
        r == (VibranceScale { min: 0, max: 100, default: 50 }),
{
    VibranceScale { min: 0, max: 100, default: 50 }
}

} // verus!
