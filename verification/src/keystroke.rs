use vstd::prelude::*;

use rand::rngs::ThreadRng;
use rand::Rng;

verus! {

/// `char::is_ascii_alphabetic`: an ASCII letter.
pub open spec fn is_ascii_letter(c: char) -> bool {
    ('a' <= c && c <= 'z') || ('A' <= c && c <= 'Z')
}

/// How one character is typed in human-like mode.
#[derive(Clone, Copy, Debug, PartialEq, Eq)]
pub struct Keystroke {
    /// A wrong letter typed first (and then erased), if any.
    pub typo: Option<char>,
    /// Extra wait after the character, on top of the base delay.
    pub jitter_ms: u64,
}

/// The delays a session waits, derived from the configured ones.
#[derive(Clone, Copy, Debug, PartialEq, Eq)]
pub struct SessionDelays {
    /// Wait for the cursor after a line break or an Escape.
    pub cursor_settle_ms: u64,
    /// Wait after the Escape that follows a completion trigger.
    pub trigger_settle_ms: u64,
    /// Wait after erasing a typo.
    pub after_backspace_ms: u64,
}

/// A uniformly random lowercase ASCII letter (`Rng::random_range('a'..='z')`).
#[verifier::external_body]
fn random_lowercase_letter(rng: &mut ThreadRng) -> (c: char)
    ensures
        'a' <= c <= 'z',
{
    rng.random_range('a'..='z')
}

/// A uniformly random number from `0` to `max` inclusive (`Rng::random_range(0..=max)`).
#[verifier::external_body]
fn random_up_to(rng: &mut ThreadRng, max: u64) -> (n: u64)
    ensures
        n <= max,
{
    rng.random_range(0..=max)
}

/// Whether `c` may be mistyped: only letters are, and only in human-like mode.
pub fn typo_candidate(c: char, human_like: bool) -> (b: bool)
    ensures
        b == (human_like && is_ascii_letter(c)),
{
    human_like && (('a' <= c && c <= 'z') || ('A' <= c && c <= 'Z'))
}

/// How the next character is typed: with a random wrong letter first when a
/// typo was rolled, and, in human-like mode, a random extra wait of up to
/// `jitter_max_ms`.
pub fn plan_keystroke(typo: bool, human_like: bool, jitter_max_ms: u64, rng: &mut ThreadRng) -> (k:
    Keystroke)
    ensures
        k.typo is Some <==> typo,
        k.typo matches Some(w) ==> 'a' <= w <= 'z',
        human_like ==> k.jitter_ms <= jitter_max_ms,
        !human_like ==> k.jitter_ms == 0,
{
    let wrong = if typo {
        Some(random_lowercase_letter(rng))
    } else {
        None
    };
    let jitter_ms = if human_like {
        random_up_to(rng, jitter_max_ms)
    } else {
        0
    };
    Keystroke { typo: wrong, jitter_ms }
}

/// The waits derived from the configuration: the cursor settles for a quarter
/// of the line-break pause but at least 12 ms; after a trigger's Escape, a
/// quarter of the trigger pause; after erasing a typo, a third of the
/// correction delay.
pub fn session_delays(
    line_break_pause_ms: u64,
    trigger_pause_ms: u64,
    typo_correction_delay_ms: u64,
) -> (d: SessionDelays)
    ensures
        d.cursor_settle_ms == if line_break_pause_ms / 4 >= 12 {
            line_break_pause_ms / 4
        } else {
            12
        },
        d.trigger_settle_ms == trigger_pause_ms / 4,
        d.after_backspace_ms == typo_correction_delay_ms / 3,
{
    let quarter = line_break_pause_ms / 4;
    let cursor_settle_ms = if quarter >= 12 {
        quarter
    } else {
        12
    };
    SessionDelays {
        cursor_settle_ms,
        trigger_settle_ms: trigger_pause_ms / 4,
        after_backspace_ms: typo_correction_delay_ms / 3,
    }
}

/// One key action of a human-like keystroke.
#[derive(Clone, Copy, Debug, PartialEq, Eq)]
pub enum KeyAction {
    /// Type this character.
    Type(char),
    /// Erase the character before the cursor.
    Backspace,
    /// Wait this many milliseconds.
    Wait(u64),
}

/// The action that types `c`.
pub open spec fn type_action(c: char) -> KeyAction {
    KeyAction::Type(c)
}

/// The actions that type `c` as planned by `k`: a typo is typed, left for
/// `correction_ms`, erased, and given `after_backspace_ms`; then `c` itself is
/// typed, followed by the base delay and the jitter.
pub open spec fn keystroke_action_seq(
    c: char,
    k: Keystroke,
    base_delay_ms: u64,
    correction_ms: u64,
    after_backspace_ms: u64,
) -> Seq<KeyAction> {
    (match k.typo {
        Some(w) => seq![
            type_action(w),
            KeyAction::Wait(correction_ms),
            KeyAction::Backspace,
            KeyAction::Wait(after_backspace_ms),
        ],
        None => seq![],
    }) + seq![type_action(c), KeyAction::Wait(base_delay_ms), KeyAction::Wait(k.jitter_ms)]
}

/// The key actions that carry out keystroke `k` for the character `c`.
pub fn keystroke_actions(
    c: char,
    k: Keystroke,
    base_delay_ms: u64,
    correction_ms: u64,
    after_backspace_ms: u64,
) -> (actions: Vec<KeyAction>)
    ensures
        actions@ == keystroke_action_seq(c, k, base_delay_ms, correction_ms, after_backspace_ms),
{
    let mut actions: Vec<KeyAction> = Vec::new();
    if let Some(w) = k.typo {
        actions.push(KeyAction::Type(w));
        actions.push(KeyAction::Wait(correction_ms));
        actions.push(KeyAction::Backspace);
        actions.push(KeyAction::Wait(after_backspace_ms));
    }
    actions.push(KeyAction::Type(c));
    actions.push(KeyAction::Wait(base_delay_ms));
    actions.push(KeyAction::Wait(k.jitter_ms));
    proof {
        assert(actions@ =~= keystroke_action_seq(
            c,
            k,
            base_delay_ms,
            correction_ms,
            after_backspace_ms,
        ));
    }
    actions
}

/// The text that key actions leave behind: typed characters, minus those erased.
pub open spec fn net_text(actions: Seq<KeyAction>) -> Seq<char>
    decreases actions.len(),
{
    if actions.len() == 0 {
        seq![]
    } else {
        let before = net_text(actions.drop_last());
        match actions.last() {
            KeyAction::Type(x) => before.push(x),
            KeyAction::Backspace => if before.len() > 0 {
                before.drop_last()
            } else {
                before
            },
            KeyAction::Wait(_) => before,
        }
    }
}

/// A typo corrects itself: whatever was planned, a keystroke leaves exactly
/// the intended character behind.
pub proof fn law_typo_self_corrects(
    c: char,
    k: Keystroke,
    base_delay_ms: u64,
    correction_ms: u64,
    after_backspace_ms: u64,
)
    ensures
        net_text(keystroke_action_seq(c, k, base_delay_ms, correction_ms, after_backspace_ms))
            == seq![c],
{
    let a = keystroke_action_seq(c, k, base_delay_ms, correction_ms, after_backspace_ms);
    reveal_with_fuel(net_text, 2);
    match k.typo {
        Some(w) => {
            assert(a.len() == 7);
            assert(net_text(a.take(1)) =~= seq![w]) by {
                assert(a.take(1).drop_last() =~= Seq::<KeyAction>::empty());
            }
            assert(net_text(a.take(3)) =~= Seq::<char>::empty()) by {
                assert(a.take(3).drop_last() =~= a.take(2));
                assert(a.take(2).drop_last() =~= a.take(1));
            }
            assert(net_text(a.take(5)) =~= seq![c]) by {
                assert(a.take(5).drop_last() =~= a.take(4));
                assert(a.take(4).drop_last() =~= a.take(3));
            }
            assert(a.drop_last() =~= a.take(6));
            assert(a.take(6).drop_last() =~= a.take(5));
        },
        None => {
            assert(a.len() == 3);
            assert(a.drop_last() =~= a.take(2));
            assert(a.take(2).drop_last() =~= a.take(1));
            assert(a.take(1).drop_last() =~= Seq::<KeyAction>::empty());
            assert(net_text(a.take(1)) =~= seq![c]);
        },
    }
}

} // verus!
