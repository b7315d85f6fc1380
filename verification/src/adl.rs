//! The rules by which AMD displays are admitted for saturation control.
//! The backend fails closed on untested hardware: a display is only kept if
//! it is connected and mapped on the adapter being walked, does not deny
//! saturation in its colour caps, and answers a live colour query; and the
//! display list the driver hands back is only read as far as it was
//! allocated.

use vstd::prelude::*;

verus! {

/// ADL's display-info bit for a connected display.
pub const DISPLAY_CONNECTED: i32 = 1i32;

/// ADL's display-info bit for a mapped display.
pub const DISPLAY_MAPPED: i32 = 2i32;

/// ADL's colour-caps bit for saturation.
pub const COLOR_SATURATION: i32 = 4i32;

/// A display-info entry describes a display worth probing: connected and
/// mapped, and reported on the adapter being walked.
pub fn display_usable(info_value: i32, logical_adapter: i32, adapter: i32) -> (r: bool)
    ensures
        r == ((info_value & 3i32) == 3i32 && logical_adapter == adapter),
{
    let mask: i32 = DISPLAY_CONNECTED | DISPLAY_MAPPED;
    assert(mask == 3i32) by (bit_vector)
        requires
            mask == 1i32 | 2i32,
    ;
    (info_value & mask) == mask && logical_adapter == adapter
}

/// The colour caps do not rule saturation out: either the caps query
/// failed (the live colour query decides then), or the saturation bit is
/// both supported and valid.
pub fn saturation_not_denied(caps_query_ok: bool, caps: i32, valid: i32) -> (r: bool)
    ensures
        r == !(caps_query_ok && (caps & valid & 4i32) == 0i32),
{
    !(caps_query_ok && (caps & valid & COLOR_SATURATION) == 0)
}

/// How many display-info entries may be read: the count the driver
/// reported (none if negative), but no more than fit in the bytes it
/// actually allocated.
pub fn readable_count(count: i32, alloc_bytes: usize, entry_size: usize) -> (r: usize)
    requires
        entry_size > 0,
    ensures
        count <= 0 ==> r == 0,
        count > 0 ==> r == if (count as int) < (alloc_bytes / entry_size) as int {
            count as int
        } else {
            (alloc_bytes / entry_size) as int
        },
        r * entry_size <= alloc_bytes,
{
    let fit: usize = alloc_bytes / entry_size;
    assert(fit * entry_size <= alloc_bytes) by (nonlinear_arith)
        requires
            entry_size > 0,
            fit == alloc_bytes / entry_size,
    ;
    let r: usize = if count <= 0 {
        0
    } else if (count as usize) < fit {
        count as usize
    } else {
        fit
    };
    assert(r * entry_size <= alloc_bytes) by (nonlinear_arith)
        requires
            r <= fit,
            fit * entry_size <= alloc_bytes,
    ;
    r
}

/// Whether the display `display` on `adapter` is already in the list of
/// admitted displays: each (adapter, display) pair is admitted once.
pub fn already_admitted(admitted: &Vec<(i32, i32)>, adapter: i32, display: i32) -> (r: bool)
    ensures
        r == admitted@.contains((adapter, display)),
{
    let mut i: usize = 0;
    while i < admitted.len()
        invariant
            i <= admitted@.len(),
            forall|j: int| 0 <= j < i ==> #[trigger] admitted@[j] != (adapter, display),
        decreases admitted@.len() - i,
    {
        let (a, d) = admitted[i];
        if a == adapter && d == display {
            assert(admitted@[i as int] == (adapter, display));
            return true;
        }
        i = i + 1;
    }
    false
}

} // verus!
