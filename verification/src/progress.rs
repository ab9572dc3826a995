use vstd::prelude::*;

use crate::plan::TypingStep;
use crate::text::chars_of;

verus! {

/// Where a typing session stands.
#[derive(Clone, Copy, Debug, PartialEq, Eq, Structural)]
pub enum TypingState {
    Idle,
    Countdown,
    Typing,
    Finished,
    Canceled,
}

/// What a typing session reports while it runs.
#[derive(Clone, Debug)]
pub struct TypingProgress {
    pub total_chars: usize,
    pub typed_chars: usize,
    pub current_line: usize,
    pub total_lines: usize,
    pub state: TypingState,
    pub error: Option<String>,
}

/// Number of line feeds in `s`.
pub open spec fn line_feeds(s: Seq<char>) -> nat
    decreases s.len(),
{
    if s.len() == 0 {
        0
    } else {
        line_feeds(s.drop_last()) + if s.last() == '\n' {
            1nat
        } else {
            0nat
        }
    }
}

/// How many lines `str::lines` finds in `s`: one per line feed, and one more
/// for a last line that no line feed ends.
pub open spec fn text_line_count(s: Seq<char>) -> nat {
    line_feeds(s) + if s.len() > 0 && s.last() != '\n' {
        1nat
    } else {
        0nat
    }
}

proof fn lemma_line_feeds_bound(s: Seq<char>)
    ensures
        line_feeds(s) <= s.len(),
    decreases s.len(),
{
    if s.len() > 0 {
        lemma_line_feeds_bound(s.drop_last());
    }
}

/// Number of lines of `text`, counted as `str::lines` does.
pub fn line_count(text: &str) -> (n: usize)
    ensures
        n == text_line_count(text@),
{
    let chars = chars_of(text);
    let len = chars.len();
    let mut feeds: usize = 0;
    proof {
        assert(chars@.take(0) =~= Seq::<char>::empty());
    }
    for i in 0..len
        invariant
            len == chars@.len(),
            chars@ == text@,
            feeds == line_feeds(chars@.take(i as int)),
    {
        proof {
            assert(chars@.take(i + 1).drop_last() =~= chars@.take(i as int));
            lemma_line_feeds_bound(chars@.take(i as int));
        }
        if chars[i] == '\n' {
            feeds = feeds + 1;
        }
    }
    proof {
        assert(chars@.take(len as int) =~= chars@);
        lemma_line_feeds_bound(chars@);
        if len > 0 {
            lemma_line_feeds_bound(chars@.drop_last());
        }
    }
    if len > 0 && chars[len - 1] != '\n' {
        feeds + 1
    } else {
        feeds
    }
}

/// The progress after `step` has been carried out.
pub open spec fn progress_after(p: TypingProgress, step: TypingStep) -> TypingProgress {
    match step {
        TypingStep::BeginTyping => TypingProgress { state: TypingState::Typing, ..p },
        TypingStep::Enter { line, typed } => TypingProgress {
            typed_chars: typed,
            current_line: line,
            ..p
        },
        TypingStep::LineDone { typed } => TypingProgress { typed_chars: typed, ..p },
        _ => p,
    }
}

/// The progress after `steps` have been carried out in order.
pub open spec fn progress_after_steps(p: TypingProgress, steps: Seq<TypingStep>) -> TypingProgress
    decreases steps.len(),
{
    if steps.len() == 0 {
        p
    } else {
        progress_after(progress_after_steps(p, steps.drop_last()), steps.last())
    }
}

/// The progress once the session is closed: canceled with the count reached
/// so far, or finished with every character counted as typed.
pub open spec fn finished(p: TypingProgress, canceled: bool) -> TypingProgress {
    if canceled {
        TypingProgress { state: TypingState::Canceled, ..p }
    } else {
        TypingProgress { state: TypingState::Finished, typed_chars: p.total_chars, ..p }
    }
}

/// The shared count of keystrokes after `step`: a key press adds one, a line
/// break or a finished line sets the count it carries, anything else keeps it.
pub open spec fn counter_after(count: nat, step: TypingStep) -> nat {
    match step {
        TypingStep::Enter { typed, .. } => typed as nat,
        TypingStep::LineDone { typed } => typed as nat,
        TypingStep::IndentKey(_) => count + 1,
        TypingStep::TypeChar(_) => count + 1,
        TypingStep::TabKey => count + 1,
        _ => count,
    }
}

/// The shared count of keystrokes after `steps`, in order.
pub open spec fn counter_after_steps(count: nat, steps: Seq<TypingStep>) -> nat
    decreases steps.len(),
{
    if steps.len() == 0 {
        count
    } else {
        counter_after(counter_after_steps(count, steps.drop_last()), steps.last())
    }
}

/// The shared keystroke count once `step` has been carried out.
pub fn typed_count_after(count: usize, step: &TypingStep) -> (next: usize)
    requires
        count < usize::MAX,
    ensures
        next == counter_after(count as nat, *step),
{
    match step {
        TypingStep::Enter { typed, .. } => *typed,
        TypingStep::LineDone { typed } => *typed,
        TypingStep::IndentKey(_) => count + 1,
        TypingStep::TypeChar(_) => count + 1,
        TypingStep::TabKey => count + 1,
        _ => count,
    }
}

/// What a cancel check decides.
#[derive(Clone, Copy, Debug, PartialEq, Eq, Structural)]
pub struct CheckResult {
    /// The session stops here.
    pub stop: bool,
    /// The session is marked canceled.
    pub marked_canceled: bool,
}

/// The decision at a cancel check, between lines or inside a line.
pub open spec fn check_result(marked_canceled: bool, stop_requested: bool) -> CheckResult {
    CheckResult { stop: stop_requested, marked_canceled: marked_canceled || stop_requested }
}

/// At a cancel check (between lines or before a key): a stop request, from
/// the Stop button or from Escape, stops the session and marks it canceled;
/// otherwise the session goes on as it was.
pub fn cancel_check(marked_canceled: bool, stop_requested: bool) -> (r: CheckResult)
    ensures
        r == check_result(marked_canceled, stop_requested),
{
    CheckResult { stop: stop_requested, marked_canceled: marked_canceled || stop_requested }
}

impl Default for TypingProgress {
    fn default() -> (p: Self)
        ensures
            p.total_chars == 0,
            p.typed_chars == 0,
            p.current_line == 0,
            p.total_lines == 0,
            p.state == TypingState::Idle,
            p.error is None,
    {
        TypingProgress {
            total_chars: 0,
            typed_chars: 0,
            current_line: 0,
            total_lines: 0,
            state: TypingState::Idle,
            error: None,
        }
    }
}

impl TypingProgress {
    /// The progress of a session about to type `text`: nothing typed yet,
    /// its characters and lines counted, the countdown running.
    pub fn starting(text: &str) -> (p: Self)
        ensures
            p.total_chars == text@.len(),
            p.typed_chars == 0,
            p.current_line == 0,
            p.total_lines == text_line_count(text@),
            p.state == TypingState::Countdown,
            p.error is None,
    {
        let total_chars = text.unicode_len();
        let total_lines = line_count(text);
        TypingProgress {
            total_chars,
            typed_chars: 0,
            current_line: 0,
            total_lines,
            state: TypingState::Countdown,
            error: None,
        }
    }

    /// Takes note of a step that has just been carried out: the session starts
    /// typing, a line break moves to the next line, the keystroke count is updated.
    pub fn record_step(&mut self, step: &TypingStep)
        ensures
            *final(self) == progress_after(*old(self), *step),
            final(self).total_chars == old(self).total_chars,
            final(self).total_lines == old(self).total_lines,
            final(self).error == old(self).error,
            final(self).state == (if *step is BeginTyping {
                TypingState::Typing
            } else {
                old(self).state
            }),
            final(self).typed_chars == (match *step {
                TypingStep::Enter { typed, .. } => typed,
                TypingStep::LineDone { typed } => typed,
                _ => old(self).typed_chars,
            }),
            final(self).current_line == (match *step {
                TypingStep::Enter { line, .. } => line,
                _ => old(self).current_line,
            }),
    {
        match step {
            TypingStep::BeginTyping => {
                self.state = TypingState::Typing;
            },
            TypingStep::Enter { line, typed } => {
                self.typed_chars = *typed;
                self.current_line = *line;
            },
            TypingStep::LineDone { typed } => {
                self.typed_chars = *typed;
            },
            _ => {},
        }
    }

    /// Closes the session: canceled when it was stopped, otherwise finished
    /// with every character counted as typed.
    pub fn finish(&mut self, canceled: bool)
        ensures
            *final(self) == finished(*old(self), canceled),
            final(self).total_chars == old(self).total_chars,
            final(self).total_lines == old(self).total_lines,
            final(self).current_line == old(self).current_line,
            final(self).error == old(self).error,
            canceled ==> final(self).state == TypingState::Canceled && final(self).typed_chars
                == old(self).typed_chars,
            !canceled ==> final(self).state == TypingState::Finished && final(self).typed_chars
                == old(self).total_chars,
    {
        if canceled {
            self.state = TypingState::Canceled;
        } else {
            self.state = TypingState::Finished;
            self.typed_chars = self.total_chars;
        }
    }
}

/// A stop seen at any cancel check, between lines or inside a line, ends the
/// session canceled, whatever it was marked before and whether or not the
/// global Escape fired; the keystroke count stays where it was.
pub proof fn law_every_stop_ends_canceled(p: TypingProgress, marked_canceled: bool, global_cancel: bool)
    ensures
        check_result(marked_canceled, true).stop,
        finished(p, check_result(marked_canceled, true).marked_canceled || global_cancel).state
            == TypingState::Canceled,
        finished(p, check_result(marked_canceled, true).marked_canceled || global_cancel).typed_chars
            == p.typed_chars,
{
}

/// Whether a session that has stopped ended canceled: it was marked canceled
/// at a cancel check, or the global Escape fired.
pub fn session_canceled(marked_canceled: bool, global_cancel: bool) -> (b: bool)
    ensures
        b == (marked_canceled || global_cancel),
{
    marked_canceled || global_cancel
}

} // verus!
