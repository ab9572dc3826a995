use vstd::prelude::*;

use std::time::{Duration, SystemTime};

verus! {

#[verifier::external_type_specification]
#[verifier::external_body]
pub struct ExSystemTime(SystemTime);

/// Reads the system clock (`std::time::SystemTime::now`). Nothing is promised
/// of the value: it is whatever time the machine reports.
#[verifier::external_body]
fn system_time_now() -> SystemTime {
    SystemTime::now()
}

/// Time elapsed from the Unix epoch to `t` (`SystemTime::duration_since` with
/// `UNIX_EPOCH`), or `None` when `t` lies before the epoch. Nothing more is
/// promised: the value depends on the clock reading `t`.
#[verifier::external_body]
fn since_unix_epoch(t: &SystemTime) -> Option<Duration> {
    t.duration_since(std::time::UNIX_EPOCH).ok()
}

/// Whole milliseconds in `d` (`Duration::as_millis`). The duration is opaque
/// here, so nothing is stated of the number.
#[verifier::external_body]
fn duration_millis(d: &Duration) -> u128 {
    d.as_millis()
}

/// Keeps the low 64 bits of a millisecond count, as a cast to `u64` does.
pub open spec fn millis_to_u64(ms: u128) -> u64 {
    (ms % 0x1_0000_0000_0000_0000) as u64
}

/// Milliseconds since the Unix epoch, `0` when the clock reads earlier than
/// the epoch, truncated to 64 bits.
pub fn unix_millis_or_zero(since_epoch_ms: Option<u128>) -> (ms: u64)
    ensures
        ms == match since_epoch_ms {
            Some(m) => millis_to_u64(m),
            None => 0,
        },
{
    match since_epoch_ms {
        Some(m) => {
            let low: u128 = m % 0x1_0000_0000_0000_0000;
            low as u64
        },
        None => 0,
    }
}

/// A reading of whole milliseconds that fits in 64 bits is kept as it is; a
/// larger one keeps its low 64 bits.
pub proof fn law_millis_reading_kept(m: u128)
    ensures
        m <= u64::MAX ==> millis_to_u64(m) == m,
        millis_to_u64(m) == m % 0x1_0000_0000_0000_0000,
{
}

/// The current Unix time in milliseconds (`0` if the clock reads before 1970).
/// It depends on the clock, so no more is stated.
pub fn now_ms() -> u64 {
    let now = system_time_now();
    let since = match since_unix_epoch(&now) {
        Some(d) => Some(duration_millis(&d)),
        None => None,
    };
    unix_millis_or_zero(since)
}

/// The end of the window in which Escape presses are taken for the session's own.
pub open spec fn suppression_deadline(sent_ms: u64, window_ms: u64) -> int {
    sent_ms + window_ms
}

/// Whether an Escape press at `pressed_ms` falls before `until_ms`.
pub open spec fn esc_suppressed(pressed_ms: u64, until_ms: u64) -> bool {
    pressed_ms < until_ms
}

/// The instant until which Escape presses are ignored after the session itself
/// sends one at `now_ms`: `window_ms` later.
pub fn suppress_synthetic_esc(now_ms: u64, window_ms: u64) -> (until_ms: u64)
    requires
        now_ms + window_ms <= u64::MAX,
    ensures
        until_ms == suppression_deadline(now_ms, window_ms),
{
    now_ms + window_ms
}

/// Whether an Escape press seen at `now_ms` is one of the session's own, to be
/// ignored: it comes before `suppressed_until_ms`.
pub fn esc_currently_suppressed(now_ms: u64, suppressed_until_ms: u64) -> (b: bool)
    ensures
        b == esc_suppressed(now_ms, suppressed_until_ms),
{
    now_ms < suppressed_until_ms
}

/// Whether typing must stop: the session was asked to, or the global Escape fired.
pub fn stop_requested(cancel_requested: bool, global_cancel: bool) -> (b: bool)
    ensures
        b == (cancel_requested || global_cancel),
{
    cancel_requested || global_cancel
}

/// After the session sends its own Escape at `sent_ms` and suppresses for
/// `window_ms`, a press at `pressed_ms` (not earlier) is ignored exactly when
/// fewer than `window_ms` milliseconds have passed; a window of zero ignores nothing.
pub proof fn law_suppression_window(sent_ms: u64, window_ms: u64, pressed_ms: u64)
    requires
        sent_ms + window_ms <= u64::MAX,
        sent_ms <= pressed_ms,
    ensures
        esc_suppressed(pressed_ms, suppression_deadline(sent_ms, window_ms) as u64)
            <==> pressed_ms - sent_ms < window_ms,
        window_ms == 0 ==> !esc_suppressed(
            pressed_ms,
            suppression_deadline(sent_ms, window_ms) as u64,
        ),
{
}

} // verus!
