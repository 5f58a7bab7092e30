//! The wall clock, read through the host's time source.
//!
//! The engine never reasons about what the clock returns: every function
//! that consumes a clock reading takes it as an argument and is verified
//! for all values of it.

use vstd::prelude::*;

verus! {

/// Relies on `std::time::SystemTime::now` and `duration_since(UNIX_EPOCH)`:
/// the unsigned offset of the host clock from the Unix epoch, as whole
/// seconds plus a sub-second remainder below one billion nanoseconds, and
/// whether the clock reads before the epoch (the `Err` arm of
/// `duration_since`, whose carried duration is the backwards offset).
/// This call cannot panic; nothing is assumed about the values beyond the
/// documented sub-second bound.
#[verifier::external_body]
fn epoch_offset() -> (r: (bool, u64, u32))
    ensures
        r.2 < 1000000000,
{
    match std::time::SystemTime::now().duration_since(std::time::UNIX_EPOCH) {
        Ok(d) => (false, d.as_secs(), d.subsec_nanos()),
        Err(e) => (true, e.duration().as_secs(), e.duration().subsec_nanos()),
    }
}

/// The current wall-clock time in nanoseconds since the Unix epoch,
/// negative for hosts whose clock reads before the epoch, and 0 when the
/// offset does not fit 64 bits.
pub fn now_nanos() -> i64 {
    let (before_epoch, secs, subsec) = epoch_offset();
    let total: i128 = (secs as i128) * 1000000000i128 + (subsec as i128);
    let signed: i128 = if before_epoch {
        -total
    } else {
        total
    };
    if signed > i64::MAX as i128 || signed < i64::MIN as i128 {
        0
    } else {
        signed as i64
    }
}

/// The current wall-clock time in whole seconds since the Unix epoch,
/// negative (rounded toward minus infinity) for hosts whose clock reads
/// before the epoch, saturated at the 64-bit range.
pub fn now_seconds_signed() -> i64 {
    let (before_epoch, secs, subsec) = epoch_offset();
    if before_epoch {
        let total: i128 = (secs as i128) + (if subsec > 0 {
            1i128
        } else {
            0i128
        });
        let neg: i128 = -total;
        if neg < i64::MIN as i128 {
            i64::MIN
        } else {
            neg as i64
        }
    } else {
        if secs > i64::MAX as u64 {
            i64::MAX
        } else {
            secs as i64
        }
    }
}

/// The current wall-clock time in whole seconds, clamped to zero for hosts
/// whose clock reads before the epoch.
pub fn now_seconds() -> u64 {
    let t = now_seconds_signed();
    if t < 0 {
        0
    } else {
        t as u64
    }
}

} // verus!
