//! What the NLE exporters share: their error type and frame-exact time.
use vstd::prelude::*;

use crate::error::TimelineError;
use crate::time::{FrameRate, Seconds};

verus! {

/// Failure serializing a timeline to an NLE interchange format.
#[derive(Clone, Debug, PartialEq, Eq)]
pub enum NleError {
    /// The timeline failed its own validation, so it must not be exported.
    InvalidTimeline(TimelineError),
    /// A clip or gap time is not an exact whole number of frames at the
    /// sequence rate, so it cannot be placed without silently snapping.
    UnalignedDuration,
    /// The document writer failed.
    Xml,
    /// The serialized bytes were not valid UTF-8.
    Encoding,
    /// The timeline uses a fractional (NTSC) frame rate, which the exporters
    /// do not handle yet.
    UnsupportedFrameRate,
    /// The timeline contains a transition; only hard cuts are supported so far.
    UnsupportedTransition,
}

/// The whole frames per second of `rate`, if it is an integer rate that fits
/// a `u32` (what [`FrameRate::as_whole`] returns).
pub open spec fn whole_fps(rate: FrameRate) -> Option<u32> {
    if rate.denom() == 1 && 0 <= rate.numer() <= u32::MAX {
        Some(rate.numer() as u32)
    } else {
        None
    }
}

/// `seconds` as a whole number of frames at `fps` frames per second, if it is
/// exactly a frame boundary and the count fits an `i64`.
pub open spec fn whole_frames(seconds: Seconds, fps: int) -> Option<i64> {
    let p = seconds.numer() * fps;
    let d = seconds.denom() as int;
    if p % d == 0 && -0x7fff_ffff_ffff_ffff <= p / d <= 0x7fff_ffff_ffff_ffff {
        Some((p / d) as i64)
    } else {
        None
    }
}

/// For `a = q * d`, `-a` is `(-q) * d` exactly.
proof fn lemma_negated_quotient(a: int, d: int, q: int)
    requires
        d > 0,
        a % d == 0,
        q == a / d,
    ensures
        (-a) % d == 0,
        (-a) / d == -q,
{
    vstd::arithmetic::div_mod::lemma_fundamental_div_mod(a, d);
    assert(-a == (-q) * d + 0) by (nonlinear_arith)
        requires
            a == d * q + 0,
    ;
    vstd::arithmetic::div_mod::lemma_fundamental_div_mod_converse(-a, d, -q, 0);
}

/// Convert `seconds` to whole frames at the whole rate `rate`, erroring if it
/// is not exactly a frame boundary: the exporters never silently snap a
/// misaligned time. A frame count beyond `i64` is reported the same way.
pub fn frames_exact(seconds: Seconds, rate: FrameRate) -> (r: Result<i64, NleError>)
    requires
        seconds.wf(),
        rate.wf(),
        whole_fps(rate) is Some,
    ensures
        match whole_frames(seconds, rate.numer() as int) {
            Some(f) => r == Ok::<i64, NleError>(f),
            None => r == Err::<i64, NleError>(NleError::UnalignedDuration),
        },
{
    let fps = rate.numer();
    let n = seconds.numer();
    let d = seconds.denom();
    assert(-0x8000_0000_0000_0000_0000_0000 <= n * fps <= 0x8000_0000_0000_0000_0000_0000)
        by (nonlinear_arith)
        requires
            -0x8000_0000_0000_0000 <= n <= 0x7fff_ffff_ffff_ffff,
            0 <= fps <= 0xffff_ffff,
    ;
    let p: i128 = (n as i128) * (fps as i128);
    let negative = p < 0;
    let magnitude: u128 = if negative {
        (-p) as u128
    } else {
        p as u128
    };
    let dd: u128 = d as u128;
    if magnitude % dd != 0 {
        proof {
            if negative {
                if (p as int) % (d as int) == 0 {
                    lemma_negated_quotient(p as int, d as int, (p as int) / (d as int));
                    assert(magnitude as int == -(p as int));
                }
            }
        }
        return Err(NleError::UnalignedDuration);
    }
    let q: u128 = magnitude / dd;
    if q > 0x7fff_ffff_ffff_ffff {
        proof {
            if negative {
                lemma_negated_quotient(-p as int, d as int, q as int);
            }
        }
        return Err(NleError::UnalignedDuration);
    }
    let frames: i64 = if negative {
        -(q as i64)
    } else {
        q as i64
    };
    proof {
        if negative {
            lemma_negated_quotient(-p as int, d as int, q as int);
        }
    }
    Ok(frames)
}

} // verus!
