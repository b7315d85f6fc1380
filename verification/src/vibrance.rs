//! Vendor-neutral digital vibrance: what a driver reading means, how a
//! requested level is fitted to an output's range, and how the outcomes of
//! a write to every output combine. The NVIDIA (NVAPI) and AMD (ADL) driver
//! calls themselves are made by the application.

use vstd::prelude::*;
use crate::text::fails_with;
use crate::scale::{VibranceScale, legacy_scale};

verus! {

/// One output's vibrance as the driver reports it: the current level and
/// the driver's range and neutral default.
#[derive(Clone, Copy, PartialEq, Eq, Structural, Debug)]
pub struct VibranceInfo {
    pub current: i32,
    pub min: i32,
    pub max: i32,
    pub default: i32,
}

/// The GPU vendor that provides vibrance.
#[derive(Clone, Copy, PartialEq, Eq, Structural, Debug)]
pub enum Vendor {
    Nvidia,
    Amd,
}

/// The vendor's name as the interface shows it.
pub open spec fn vendor_name(v: Vendor) -> Seq<char> {
    match v {
        Vendor::Nvidia => "nvidia"@,
        Vendor::Amd => "amd"@,
    }
}

/// The level a fresh preset seeds with when the driver cannot be read:
/// the vendor's usual neutral level.
pub open spec fn fallback_level(v: Vendor) -> i32 {
    match v {
        Vendor::Nvidia => 50,
        Vendor::Amd => 100,
    }
}

impl Vendor {
    /// "nvidia" or "amd".
    pub fn vendor(&self) -> (r: &'static str)
        ensures
            r@ == vendor_name(*self),
    {
        match self {
            Vendor::Nvidia => "nvidia",
            Vendor::Amd => "amd",
        }
    }
}

/// The driver's neutral level, which a fresh preset seeds with (a literal 0
/// would mean minimum saturation). `reading` is the driver's answer for the
/// primary output; when it failed, the vendor's usual default stands in.
pub fn default_level(vendor: Vendor, reading: &Result<VibranceInfo, String>) -> (r: i32)
    ensures
        reading matches Ok(info) ==> r == info.default,
        reading is Err ==> r == fallback_level(vendor),
{
    match reading {
        Ok(info) => info.default,
        Err(_) => match vendor {
            Vendor::Nvidia => 50,
            Vendor::Amd => 100,
        },
    }
}

/// `x` brought into `lo..=hi`, as `i32::clamp` does (for `lo <= hi`).
pub open spec fn clamp(x: int, lo: int, hi: int) -> int {
    if x < lo {
        lo
    } else if x > hi {
        hi
    } else {
        x
    }
}

/// A requested level fitted into one output's reported range.
pub fn clamp_level(level: i32, info: VibranceInfo) -> (r: i32)
    requires
        info.min <= info.max,
    ensures
        r as int == clamp(level as int, info.min as int, info.max as int),
        info.min <= r <= info.max,
{
    if level < info.min {
        info.min
    } else if level > info.max {
        info.max
    } else {
        level
    }
}

/// The vibrance scale of a driver reading, for stamping exports and
/// rescaling imports; without a reading, the legacy NVIDIA scale.
pub fn vib_scale(reading: Option<VibranceInfo>) -> (r: VibranceScale)
    ensures
        reading matches Some(i) ==> r == (VibranceScale { min: i.min, max: i.max, default: i.default }),
        reading is None ==> r == (VibranceScale { min: 0, max: 100, default: 50 }),
{
    match reading {
        Some(i) => VibranceScale { min: i.min, max: i.max, default: i.default },
        None => legacy_scale(),
    }
}

/// The message of the last failed outcome, if any failed.
pub open spec fn last_error(outcomes: Seq<Result<(), String>>) -> Option<Seq<char>>
    decreases outcomes.len(),
{
    if outcomes.len() == 0 {
        None
    } else {
        match outcomes.last() {
            Err(e) => Some(e@),
            Ok(_) => last_error(outcomes.drop_last()),
        }
    }
}

/// The outcome of writing to every output, given each output's outcome in
/// order: with no output it fails with `no_display`; otherwise it fails
/// with the last failure, if any, and succeeds when every output succeeded.
/// Every output is attempted whatever the others did.
pub fn every_output(outcomes: Vec<Result<(), String>>, no_display: &str) -> (r: Result<(), String>)
    ensures
        outcomes@.len() == 0 ==> fails_with(r, no_display@),
        outcomes@.len() > 0 && last_error(outcomes@) is None ==> r is Ok,
        outcomes@.len() > 0 ==> (last_error(outcomes@) matches Some(e) ==> fails_with(r, e)),
{
    if outcomes.len() == 0 {
        return Err(no_display.to_owned());
    }
    let mut last: Option<String> = None;
    let mut i: usize = 0;
    while i < outcomes.len()
        invariant
            i <= outcomes@.len(),
            match last {
                Some(e) => last_error(outcomes@.take(i as int)) == Some(e@),
                None => last_error(outcomes@.take(i as int)) is None,
            },
        decreases outcomes@.len() - i,
    {
        assert(outcomes@.take(i + 1).drop_last() =~= outcomes@.take(i as int));
        match &outcomes[i] {
            Err(e) => {
                last = Some(e.clone());
            },
            Ok(()) => {},
        }
        i = i + 1;
    }
    assert(outcomes@.take(i as int) =~= outcomes@);
    match last {
        Some(e) => Err(e),
        None => Ok(()),
    }
}

/// The version stamp of a versioned NVAPI structure: its size in the low
/// half, the structure version in the high half.
pub fn make_version(size: u32, ver: u32) -> (r: u32)
    ensures
        r == size | (ver << 16u32),
{
    size | (ver << 16u32)
}

} // verus!
