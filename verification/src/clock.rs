//! Wall-clock measurement of execution time, and the current time as a
//! Unix timestamp.
use vstd::prelude::*;

verus! {

#[verifier::external_type_specification]
#[verifier::external_body]
pub struct ExInstant(std::time::Instant);

/// `Instant::now`: the current moment. Nothing is stated of it.
#[verifier::external_body]
pub(crate) fn clock_now() -> (t: std::time::Instant) {
    std::time::Instant::now()
}

/// `Instant::elapsed`, in whole microseconds. It depends on the clock, so
/// nothing is stated of the result.
#[verifier::external_body]
pub(crate) fn elapsed_micros(start: &std::time::Instant) -> (us: u128) {
    start.elapsed().as_micros()
}

/// A count of microseconds as a `u64`, saturated to `u64::MAX`.
pub fn micros_capped(m: u128) -> (us: u64)
    ensures
        us == if m > u64::MAX {
            u64::MAX as int
        } else {
            m as int
        },
{
    if m > 0xffff_ffff_ffff_ffffu128 {
        0xffff_ffff_ffff_ffffu64
    } else {
        m as u64
    }
}

/// Microseconds since `start`, saturated to `u64::MAX`: `micros_capped` of
/// what the clock reports as elapsed, of which nothing is stated.
pub fn micros_since(start: &std::time::Instant) -> (us: u64) {
    let m = elapsed_micros(start);
    micros_capped(m)
}

// ───────────────────────────── the current time ─────────────────────────────

/// `SystemTime::now().duration_since(UNIX_EPOCH)`, split into whole seconds
/// and the nanoseconds beyond them: `Ok` at or after the epoch, `Err` with
/// the distance back to it before. std documents that the nanoseconds of a
/// `Duration` are below one billion; the reading is the time, of which
/// nothing else is stated.
#[verifier::external_body]
fn epoch_offset() -> (r: Result<(u64, u32), (u64, u32)>)
    ensures
        match r {
            Ok((_, n)) => n < 1_000_000_000,
            Err((_, n)) => n < 1_000_000_000,
        },
{
    match std::time::SystemTime::now().duration_since(std::time::UNIX_EPOCH) {
        Ok(d) => Ok((d.as_secs(), d.subsec_nanos())),
        Err(e) => Err((e.duration().as_secs(), e.duration().subsec_nanos())),
    }
}

/// The Unix timestamp (seconds, and nanoseconds in `0..1e9`) of an offset
/// from the epoch, as `epoch_offset` gives it: after the epoch the offset
/// itself; before it, the seconds negated, borrowing one second when there
/// are nanoseconds. `None` when the seconds do not fit in `i64`.
pub open spec fn timestamp_spec(offset: Result<(u64, u32), (u64, u32)>) -> Option<(int, int)> {
    match offset {
        Ok((s, n)) => if s <= i64::MAX {
            Some((s as int, n as int))
        } else {
            None
        },
        Err((s, n)) => if s > i64::MAX {
            None
        } else if n == 0 {
            Some((-s, 0))
        } else {
            Some((-s - 1, 1_000_000_000 - n))
        },
    }
}

/// The Unix timestamp of an offset from the epoch (see [`timestamp_spec`]).
pub fn timestamp_of(offset: Result<(u64, u32), (u64, u32)>) -> (r: Option<(i64, u32)>)
    requires
        match offset {
            Ok((_, n)) => n < 1_000_000_000,
            Err((_, n)) => n < 1_000_000_000,
        },
    ensures
        match r {
            Some((s, n)) => timestamp_spec(offset) == Some((s as int, n as int)),
            None => timestamp_spec(offset) is None,
        },
{
    match offset {
        Ok((s, n)) => if s <= 0x7fff_ffff_ffff_ffffu64 {
            Some((s as i64, n))
        } else {
            None
        },
        Err((s, n)) => if s > 0x7fff_ffff_ffff_ffffu64 {
            None
        } else if n == 0 {
            Some((-(s as i64), 0))
        } else {
            Some((-(s as i64) - 1, 1_000_000_000 - n))
        },
    }
}

/// `chrono::DateTime::from_timestamp(secs, nanos)`, then `timestamp_micros`.
/// chrono documents that `from_timestamp` is `None` for seconds out of its
/// range or invalid nanoseconds, and that `timestamp_micros` counts the
/// microseconds since the epoch, so a timestamp with fewer than a billion
/// nanoseconds gives `secs` million plus the nanoseconds' whole thousands.
/// Where chrono's range ends is not stated.
#[verifier::external_body]
fn utc_micros_at(secs: i64, nanos: u32) -> (r: Option<i64>)
    ensures
        match r {
            Some(m) => nanos < 1_000_000_000 ==> m == secs * 1_000_000 + nanos / 1000,
            None => true,
        },
{
    match chrono::DateTime::from_timestamp(secs, nanos) {
        Some(d) => Some(d.timestamp_micros()),
        None => None,
    }
}

/// The RFC 3339 text chrono renders for a Unix timestamp, or `None` where it
/// has no such date.
pub uninterp spec fn rfc3339_text(secs: i64, nanos: u32) -> Option<Seq<char>>;

/// `chrono::DateTime::from_timestamp(secs, nanos)`, then `to_rfc3339`: the
/// date in RFC 3339 text, or `None` where chrono has no such date. The text
/// is named by [`rfc3339_text`].
#[verifier::external_body]
fn rfc3339_at(secs: i64, nanos: u32) -> (r: Option<String>)
    ensures
        match r {
            Some(t) => rfc3339_text(secs, nanos) == Some(t@),
            None => rfc3339_text(secs, nanos) is None,
        },
{
    match chrono::DateTime::from_timestamp(secs, nanos) {
        Some(d) => Some(d.to_rfc3339()),
        None => None,
    }
}

/// The microseconds since the Unix epoch now, by chrono (negative before
/// the epoch); a clock beyond chrono's range reads as the nearest end of
/// `i64`. Nothing is stated of it (it is the time).
pub(crate) fn utc_now_micros() -> i64 {
    let offset = epoch_offset();
    let late = match offset {
        Ok(_) => true,
        Err(_) => false,
    };
    match timestamp_of(offset) {
        Some((s, n)) => match utc_micros_at(s, n) {
            Some(m) => m,
            None => if s < 0 {
                i64::MIN
            } else {
                i64::MAX
            },
        },
        None => if late {
            i64::MAX
        } else {
            i64::MIN
        },
    }
}

/// The time now in RFC 3339 text, by chrono; empty for a clock beyond
/// chrono's range. Nothing is stated of it (it is the time).
pub(crate) fn rfc3339_now() -> String {
    match timestamp_of(epoch_offset()) {
        Some((s, n)) => match rfc3339_at(s, n) {
            Some(t) => t,
            None => String::new(),
        },
        None => String::new(),
    }
}

} // verus!
