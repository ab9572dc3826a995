use vstd::prelude::*;

use crate::text::chars_of;

verus! {

/// Most training sessions kept in the history.
pub const HISTORY_LIMIT: usize = 20;

/// The history after `session` is recorded: appended, and the oldest entry
/// dropped once the history grows past `HISTORY_LIMIT`.
pub open spec fn recorded<T>(history: Seq<T>, session: T) -> Seq<T> {
    let grown = history.push(session);
    if grown.len() > HISTORY_LIMIT {
        grown.drop_first()
    } else {
        grown
    }
}

/// Adds a finished training session to the history, forgetting the oldest one
/// when the history would grow past its limit.
pub fn record_session<T>(history: &mut Vec<T>, session: T)
    ensures
        final(history)@ == recorded(old(history)@, session),
{
    let ghost before = history@;
    history.push(session);
    if history.len() > HISTORY_LIMIT {
        history.remove(0);
        proof {
            assert(history@ =~= before.push(session).drop_first());
        }
    }
}

/// Recording keeps a bounded history: it never holds more than
/// `HISTORY_LIMIT` sessions, and the newest session is always its last entry.
pub proof fn law_history_is_bounded<T>(history: Seq<T>, session: T)
    requires
        history.len() <= HISTORY_LIMIT,
    ensures
        recorded(history, session).len() <= HISTORY_LIMIT,
        recorded(history, session).len() > 0,
        recorded(history, session).last() == session,
{
}

/// Keeps the low 32 bits of a count, as a cast to `u32` does.
pub open spec fn low_u32(n: u64) -> u32 {
    (n % 0x1_0000_0000) as u32
}

/// Length of the countdown, in whole seconds, for a start-up delay in milliseconds.
pub fn countdown_seconds(startup_delay_ms: u64) -> (secs: u32)
    ensures
        secs == low_u32(startup_delay_ms / 1000),
{
    let s: u64 = (startup_delay_ms / 1000) % 0x1_0000_0000;
    s as u32
}

/// Whether the countdown is over after `elapsed_secs` seconds.
pub fn countdown_over(elapsed_secs: u64, countdown_secs: u32) -> (b: bool)
    ensures
        b == (elapsed_secs >= countdown_secs),
{
    elapsed_secs >= countdown_secs as u64
}

/// Seconds left on the countdown after `elapsed_secs` seconds (never below zero).
pub fn seconds_left(countdown_secs: u32, elapsed_secs: u64) -> (left: u32)
    ensures
        left == if countdown_secs >= low_u32(elapsed_secs) {
            countdown_secs - low_u32(elapsed_secs)
        } else {
            0
        },
{
    let e: u64 = elapsed_secs % 0x1_0000_0000;
    countdown_secs.saturating_sub(e as u32)
}

/// The plural ending for a number of seconds.
pub fn seconds_suffix(n: u32) -> (suffix: &'static str)
    ensures
        n == 1 ==> suffix@ == Seq::<char>::empty(),
        n != 1 ==> suffix@ == seq!['s'],
{
    proof {
        reveal_strlit("");
        reveal_strlit("s");
    }
    if n == 1 {
        ""
    } else {
        "s"
    }
}

/// Whether a training attempt has just been completed: it was not completed
/// before and the input now matches the prompt exactly.
pub fn attempt_completed(already_finished: bool, input: &str, prompt: &str) -> (done: bool)
    ensures
        done == (!already_finished && input@ == prompt@),
{
    if already_finished {
        return false;
    }
    let a = chars_of(input);
    let b = chars_of(prompt);
    if a.len() != b.len() {
        return false;
    }
    let n = a.len();
    for i in 0..n
        invariant
            n == a@.len(),
            n == b@.len(),
            a@ == input@,
            b@ == prompt@,
            forall|j: int| 0 <= j < i ==> a@[j] == b@[j],
    {
        if a[i] != b[i] {
            return false;
        }
    }
    proof {
        assert(a@ =~= b@);
    }
    true
}

} // verus!
