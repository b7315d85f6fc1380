//! Gamma ramps: the colour dials a preset stores, the neutral ramp that
//! "Normal" restores, and what the display driver's answers mean.
//!
//! A ramp is 3×256 `u16` entries (R, G, B), applied to every gamma-capable
//! monitor (`\\.\DISPLAY1..16`, each probed). The curve itself is computed
//! in floating point by the application, which also makes the GDI calls;
//! the library decides which displays are written and what their answers
//! become.

use vstd::prelude::*;
use crate::text::{fails_with, decimal_text};

verus! {

/// One channel of a ramp.
pub type GammaChannel = [u16; 256];

/// A gamma ramp: red, green and blue channels of 256 entries each.
pub type GammaRamp = [[u16; 256]; 3];

/// The three perceptual dials of a preset. Each holds the IEEE-754 bit
/// pattern of the dial's `f64` value, so the store carries the values
/// exactly without computing on them:
/// gamma 0.30 ..= 2.80 (1.0 neutral), brightness -0.50 ..= 0.50 (0 neutral),
/// contrast 0.50 ..= 2.00 (1.0 neutral).
#[derive(Clone, Copy, PartialEq, Eq, Structural, Debug)]
pub struct ColorDials {
    pub gamma: u64,
    pub brightness: u64,
    pub contrast: u64,
}

/// Bit pattern of the `f64` value 1.0.
pub const ONE_BITS: u64 = 0x3ff0_0000_0000_0000u64;

/// Bit pattern of the `f64` value 0.0.
pub const ZERO_BITS: u64 = 0u64;

/// The neutral dials: gamma 1.0, brightness 0.0, contrast 1.0.
pub open spec fn neutral_dials() -> ColorDials {
    ColorDials { gamma: ONE_BITS, brightness: ZERO_BITS, contrast: ONE_BITS }
}

impl Default for ColorDials {
    fn default() -> (r: Self)
        ensures
            r == neutral_dials(),
    {
        ColorDials { gamma: ONE_BITS, brightness: ZERO_BITS, contrast: ONE_BITS }
    }
}

/// The entry at `index` of the neutral ramp: the identity curve, scaling
/// 0..=255 onto 0..=65535.
pub open spec fn neutral_entry(index: int) -> int {
    index * 257
}

/// The ramp of the neutral dials: every channel is the identity curve
/// `i * 257`, which is what the dial curve gives at gamma 1, brightness 0,
/// contrast 1.
pub fn neutral_ramp() -> (r: GammaRamp)
    ensures
        forall|c: int, i: int|
            0 <= c < 3 && 0 <= i < 256 ==> #[trigger] r[c][i] as int == neutral_entry(i),
{
    let mut channel: GammaChannel = [0u16; 256];
    let mut i: usize = 0;
    while i < 256
        invariant
            i <= 256,
            forall|j: int| 0 <= j < i ==> #[trigger] channel[j] as int == neutral_entry(j),
        decreases 256 - i,
    {
        let v: u16 = (i as u16) * 257;
        channel[i] = v;
        i = i + 1;
    }
    let r: GammaRamp = [channel, channel, channel];
    assert forall|c: int, i: int| 0 <= c < 3 && 0 <= i < 256 implies #[trigger] r[c][i] as int
        == neutral_entry(i) by {
        assert(r[c] == channel);
    }
    r
}

/// What the display driver answered to one gamma-ramp request.
#[derive(Debug)]
pub enum DriverReply<T> {
    /// This platform has no gamma-ramp driver interface.
    Unsupported,
    /// No display device context could be opened.
    NoDevice,
    /// The driver refused the request.
    Refused,
    /// The driver carried the request out.
    Done(T),
}

/// Reading the current ramp: the ramp the driver gave, or why there is none.
pub fn get_ramp(reply: DriverReply<GammaRamp>) -> (r: Result<GammaRamp, String>)
    ensures
        reply matches DriverReply::Done(ramp) ==> r == Ok::<GammaRamp, String>(ramp),
        reply is Unsupported ==> fails_with(r, "gamma: Windows only"@),
        reply is NoDevice ==> fails_with(r, "CreateDCW(DISPLAY) failed"@),
        reply is Refused ==> fails_with(r, "GetDeviceGammaRamp failed"@),
{
    match reply {
        DriverReply::Unsupported => Err("gamma: Windows only".to_owned()),
        DriverReply::NoDevice => Err("CreateDCW(DISPLAY) failed".to_owned()),
        DriverReply::Refused => Err("GetDeviceGammaRamp failed".to_owned()),
        DriverReply::Done(ramp) => Ok(ramp),
    }
}

/// Why a single write of a ramp failed, if it did.
pub open spec fn write_failure(reply: DriverReply<()>) -> Option<Seq<char>> {
    match reply {
        DriverReply::Unsupported => Some("gamma: Windows only"@),
        DriverReply::NoDevice => Some("CreateDCW(DISPLAY) failed"@),
        DriverReply::Refused => Some("SetDeviceGammaRamp failed (driver may clamp extreme ramps)"@),
        DriverReply::Done(_) => None,
    }
}

/// The failure of the last display whose write failed, if any failed.
pub open spec fn last_write_failure(replies: Seq<DriverReply<()>>) -> Option<Seq<char>>
    decreases replies.len(),
{
    if replies.len() == 0 {
        None
    } else {
        match write_failure(replies.last()) {
            Some(m) => Some(m),
            None => last_write_failure(replies.drop_last()),
        }
    }
}

/// With no failure among them, every display carried its write out.
proof fn lemma_no_write_failure(replies: Seq<DriverReply<()>>)
    ensures
        last_write_failure(replies) is None <==> forall|i: int| 0 <= i < replies.len() ==> #[trigger] replies[i] is Done,
    decreases replies.len(),
{
    if replies.len() > 0 {
        let dl = replies.drop_last();
        lemma_no_write_failure(dl);
        let last = replies.len() - 1;
        if last_write_failure(replies) is None {
            assert forall|i: int| 0 <= i < replies.len() implies #[trigger] replies[i] is Done by {
                if i < last {
                    assert(dl[i] == replies[i]);
                }
            }
        } else {
            if write_failure(replies.last()) is None {
                assert(!(forall|i: int| 0 <= i < dl.len() ==> #[trigger] dl[i] is Done));
                let j = choose|j: int| 0 <= j < dl.len() && !(dl[j] is Done);
                assert(dl[j] == replies[j]);
            }
        }
    }
}

/// How many displays are probed: `\\.\DISPLAY1` to `\\.\DISPLAY16`.
pub const PROBED_DISPLAYS: u32 = 16u32;


/// The device names probed for gamma ramps, in order:
/// `\\.\DISPLAY1` to `\\.\DISPLAY16`.
pub fn probe_names() -> (r: Vec<String>)
    ensures
        r@.len() == PROBED_DISPLAYS,
        forall|i: int| 0 <= i < r@.len() ==> #[trigger] r@[i]@ == "\\\\.\\DISPLAY"@ + crate::text::decimal((i + 1) as nat),
{
    let mut out: Vec<String> = Vec::new();
    let mut n: u32 = 1;
    while n <= PROBED_DISPLAYS
        invariant
            1 <= n <= PROBED_DISPLAYS + 1,
            out@.len() == n - 1,
            forall|i: int| 0 <= i < out@.len() ==> #[trigger] out@[i]@ == "\\\\.\\DISPLAY"@ + crate::text::decimal((i + 1) as nat),
        decreases PROBED_DISPLAYS + 1 - n,
    {
        out.push(decimal_text("\\\\.\\DISPLAY", n as u64));
        n = n + 1;
    }
    out
}

/// The displays among `probes` (the answers of `\\.\DISPLAY1`,
/// `\\.\DISPLAY2`, ... to a ramp read, in order) that support gamma ramps:
/// those that answered, by number.
pub open spec fn capable(probes: Seq<DriverReply<GammaRamp>>) -> Seq<u32>
    decreases probes.len(),
{
    if probes.len() == 0 {
        Seq::empty()
    } else {
        let rest = capable(probes.drop_last());
        match probes.last() {
            DriverReply::Done(_) => rest.push(probes.len() as u32),
            _ => rest,
        }
    }
}

/// The gamma-capable displays: the numbers of the probed displays that
/// answered a ramp read. Only these get ramps written.
pub fn capable_displays(probes: &Vec<DriverReply<GammaRamp>>) -> (r: Vec<u32>)
    requires
        probes@.len() <= PROBED_DISPLAYS,
    ensures
        r@ == capable(probes@),
{
    let mut out: Vec<u32> = Vec::new();
    let mut i: usize = 0;
    while i < probes.len()
        invariant
            i <= probes@.len() <= 16,
            out@ == capable(probes@.take(i as int)),
        decreases probes@.len() - i,
    {
        assert(probes@.take(i + 1).drop_last() =~= probes@.take(i as int));
        match &probes[i] {
            DriverReply::Done(_) => {
                out.push((i + 1) as u32);
            },
            _ => {},
        }
        i = i + 1;
    }
    assert(probes@.take(i as int) =~= probes@);
    out
}

/// One display's answer to a write.
fn write_outcome(reply: &DriverReply<()>) -> (r: Result<(), String>)
    ensures
        write_failure(*reply) is None ==> r is Ok,
        write_failure(*reply) matches Some(m) ==> fails_with(r, m),
{
    match reply {
        DriverReply::Unsupported => Err("gamma: Windows only".to_owned()),
        DriverReply::NoDevice => Err("CreateDCW(DISPLAY) failed".to_owned()),
        DriverReply::Refused => Err(
            "SetDeviceGammaRamp failed (driver may clamp extreme ramps)".to_owned(),
        ),
        DriverReply::Done(()) => Ok(()),
    }
}

/// Writing a ramp to every gamma-capable display, given each display's
/// answer in order: with no display it fails; otherwise it fails with the
/// last failure, and succeeds only when every display carried the write
/// out. Every display is written whatever the others answered.
pub fn set_ramp(replies: Vec<DriverReply<()>>) -> (r: Result<(), String>)
    ensures
        replies@.len() == 0 ==> fails_with(r, "no gamma-capable display"@),
        replies@.len() > 0 && last_write_failure(replies@) is None ==> r is Ok,
        replies@.len() > 0 ==> (last_write_failure(replies@) matches Some(m) ==> fails_with(r, m)),
        r is Ok ==> replies@.len() > 0 && forall|i: int| 0 <= i < replies@.len() ==> #[trigger] replies@[i] is Done,
{
    if replies.len() == 0 {
        return Err("no gamma-capable display".to_owned());
    }
    let mut last: Option<String> = None;
    let mut i: usize = 0;
    while i < replies.len()
        invariant
            i <= replies@.len(),
            match last {
                Some(e) => last_write_failure(replies@.take(i as int)) == Some(e@),
                None => last_write_failure(replies@.take(i as int)) is None,
            },
        decreases replies@.len() - i,
    {
        assert(replies@.take(i + 1).drop_last() =~= replies@.take(i as int));
        match write_outcome(&replies[i]) {
            Err(e) => {
                last = Some(e);
            },
            Ok(()) => {},
        }
        i = i + 1;
    }
    assert(replies@.take(i as int) =~= replies@);
    proof {
        lemma_no_write_failure(replies@);
    }
    match last {
        Some(e) => Err(e),
        None => Ok(()),
    }
}

/// Resetting every gamma-capable display to the neutral ramp: the replies
/// are the displays' answers to writing `neutral_ramp()`, and they mean
/// what they mean for any write.
pub fn reset(replies: Vec<DriverReply<()>>) -> (r: Result<(), String>)
    ensures
        replies@.len() == 0 ==> fails_with(r, "no gamma-capable display"@),
        replies@.len() > 0 && last_write_failure(replies@) is None ==> r is Ok,
        replies@.len() > 0 ==> (last_write_failure(replies@) matches Some(m) ==> fails_with(r, m)),
        r is Ok ==> replies@.len() > 0 && forall|i: int| 0 <= i < replies@.len() ==> #[trigger] replies@[i] is Done,
{
    set_ramp(replies)
}

/// Every display that answers is written, whatever the others answered.
/// Display `n` is among the gamma-capable ones exactly when it was probed
/// (`1 <= n <= probes.len()`) and answered the ramp read; and they come in
/// increasing order, each once.
pub proof fn lemma_capable_exactly_answering(probes: Seq<DriverReply<GammaRamp>>)
    requires
        probes.len() <= u32::MAX,
    ensures
        forall|n: u32| #[trigger] capable(probes).contains(n) <==> (1 <= n <= probes.len() && probes[n - 1] is Done),
        forall|a: int, b: int| 0 <= a < b < capable(probes).len() ==> capable(probes)[a] < capable(probes)[b],
    decreases probes.len(),
{
    if probes.len() > 0 {
        let d = probes.drop_last();
        lemma_capable_exactly_answering(d);
        let rest = capable(d);
        let len = probes.len();
        assert forall|n: u32| #[trigger] rest.contains(n) implies n < len by {}
        assert forall|n: u32| #[trigger] capable(probes).contains(n) <==> (1 <= n <= probes.len() && probes[n - 1] is Done) by {
            if 1 <= n < len {
                assert(probes[n - 1] == d[n - 1]);
            }
            match probes.last() {
                DriverReply::Done(_) => {
                    let r = capable(probes);
                    assert(r == rest.push(len as u32));
                    if r.contains(n) && n != len {
                        let k = choose|k: int| 0 <= k < r.len() && r[k] == n;
                        assert(k < rest.len());
                        assert(rest[k] == n);
                        assert(rest.contains(n));
                    }
                    if rest.contains(n) {
                        let k = choose|k: int| 0 <= k < rest.len() && rest[k] == n;
                        assert(r[k] == n);
                    }
                    if n == len {
                        assert(r[r.len() - 1] == n);
                    }
                },
                _ => {},
            }
        }
        assert forall|a: int, b: int| 0 <= a < b < capable(probes).len() implies capable(probes)[a] < capable(probes)[b] by {
            let r = capable(probes);
            if probes.last() is Done && b == r.len() - 1 {
                assert(r[a] == rest[a]);
                assert(rest.contains(rest[a]));
            }
        }
    }
}

} // verus!
