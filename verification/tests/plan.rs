use kraken_rs::plan::{plan_typing, TypingStep};
use kraken_rs::progress::{
    cancel_check, line_count, session_canceled, typed_count_after, CheckResult, TypingProgress,
    TypingState,
};
use kraken_rs::plan::TypingStep::{
    BeginTyping, CheckKeyCancel, CheckLineCancel, CursorLeft, DismissAfterTrigger, DismissOverlays,
    Enter, IndentKey, LineBreakPause, LineDone, PreEnterPause, StartupDelay, TabKey, TriggerPause,
    TypeChar,
};

fn typed_text(steps: &[TypingStep]) -> String {
    let mut out = String::new();
    for s in steps {
        match s {
            TypeChar(c) | IndentKey(c) => out.push(*c),
            TabKey => out.push('\t'),
            Enter { .. } => out.push('\n'),
            _ => {}
        }
    }
    out
}

#[test]
fn plan_types_plain_line_with_a_check_before_every_char() {
    let steps = plan_typing("ab", false, false);
    assert_eq!(
        steps,
        vec![
            StartupDelay,
            CheckLineCancel,
            BeginTyping,
            CheckLineCancel,
            CheckLineCancel,
            CheckKeyCancel,
            CheckKeyCancel,
            CheckKeyCancel,
            TypeChar('a'),
            CheckKeyCancel,
            TypeChar('b'),
            LineDone { typed: 2 },
        ]
    );
}

#[test]
fn plan_pauses_and_dismisses_after_trigger_chars() {
    let steps = plan_typing("a(", false, true);
    assert_eq!(
        steps,
        vec![
            StartupDelay,
            CheckLineCancel,
            DismissOverlays,
            BeginTyping,
            CheckLineCancel,
            CheckLineCancel,
            CheckKeyCancel,
            CheckKeyCancel,
            CheckKeyCancel,
            TypeChar('a'),
            TypeChar('('),
            TriggerPause,
            DismissAfterTrigger,
            LineDone { typed: 2 },
        ]
    );
}

#[test]
fn plan_presses_tab_for_tabs_in_content() {
    let steps = plan_typing("x\ty", false, false);
    assert_eq!(
        &steps[3..],
        &[
            CheckLineCancel,
            CheckLineCancel,
            CheckKeyCancel,
            CheckKeyCancel,
            CheckKeyCancel,
            TypeChar('x'),
            TabKey,
            CheckKeyCancel,
            CheckKeyCancel,
            TypeChar('y'),
            LineDone { typed: 3 },
        ]
    );
}

#[test]
fn plan_line_break_reports_progress() {
    let steps = plan_typing("a\nb", false, true);
    assert_eq!(
        &steps[4..],
        &[
            CheckLineCancel,
            CheckLineCancel,
            CheckKeyCancel,
            CheckKeyCancel,
            TypeChar('a'),
            LineDone { typed: 1 },
            CheckLineCancel,
            PreEnterPause,
            DismissOverlays,
            Enter { line: 2, typed: 2 },
            LineBreakPause,
            DismissOverlays,
            CheckLineCancel,
            CheckKeyCancel,
            CheckKeyCancel,
            TypeChar('b'),
            LineDone { typed: 3 },
        ]
    );
}

#[test]
fn basic_mode_types_the_text_exactly() {
    let text = "def f(x):\n\treturn [x, x]\n\n  done.";
    let steps = plan_typing(text, false, true);
    assert_eq!(typed_text(&steps), text);
    let last_done = steps
        .iter()
        .rev()
        .find_map(|s| match s {
            LineDone { typed } => Some(*typed),
            _ => None,
        })
        .unwrap();
    assert_eq!(last_done, text.chars().count());
}

#[test]
fn web_mode_types_only_missing_indentation() {
    // After "def f():" the editor indents by four spaces itself.
    let steps = plan_typing("def f():\n      x", true, false);
    let second_line: Vec<TypingStep> = steps
        .iter()
        .skip_while(|s| !matches!(s, Enter { .. }))
        .cloned()
        .collect();
    assert_eq!(
        second_line,
        vec![
            Enter { line: 2, typed: 9 },
            LineBreakPause,
            CheckLineCancel,
            IndentKey(' '),
            IndentKey(' '),
            CheckKeyCancel,
            CheckKeyCancel,
            TypeChar('x'),
            LineDone { typed: 12 },
        ]
    );
}

#[test]
fn web_mode_moves_left_over_excess_indentation() {
    let steps = plan_typing("if a:\nb", true, false);
    let second_line: Vec<TypingStep> = steps
        .iter()
        .skip_while(|s| !matches!(s, Enter { .. }))
        .cloned()
        .collect();
    assert_eq!(
        second_line,
        vec![
            Enter { line: 2, typed: 6 },
            LineBreakPause,
            CheckLineCancel,
            CursorLeft,
            CursorLeft,
            CursorLeft,
            CursorLeft,
            CheckKeyCancel,
            CheckKeyCancel,
            TypeChar('b'),
            LineDone { typed: 7 },
        ]
    );
}

#[test]
fn trailing_newline_adds_no_phantom_indent_moves() {
    let steps = plan_typing("if a:\n    b\n", true, false);
    let after_last_enter: Vec<TypingStep> = steps
        .iter()
        .rev()
        .take_while(|s| !matches!(s, Enter { .. }))
        .cloned()
        .collect();
    assert!(!after_last_enter.iter().any(|s| matches!(s, CursorLeft | IndentKey(_))));
    assert_eq!(steps.last(), Some(&LineDone { typed: 8 }));
}

#[test]
fn empty_text_plans_one_empty_line() {
    let steps = plan_typing("", true, false);
    assert_eq!(
        steps,
        vec![
            StartupDelay,
            CheckLineCancel,
            BeginTyping,
            CheckLineCancel,
            CheckLineCancel,
            LineDone { typed: 0 },
        ]
    );
}

#[test]
fn line_count_matches_str_lines() {
    for text in ["", "a", "a\n", "a\nb", "\n", "\n\n", "a\r\nb\r\n", "x\n\ny"] {
        assert_eq!(line_count(text), text.lines().count(), "{text:?}");
    }
}

#[test]
fn progress_starts_in_countdown() {
    let p = TypingProgress::starting("héllo\nworld\n");
    assert_eq!(p.total_chars, 12);
    assert_eq!(p.total_lines, 2);
    assert_eq!(p.typed_chars, 0);
    assert_eq!(p.state, TypingState::Countdown);
    assert!(p.error.is_none());
}

#[test]
fn progress_default_is_idle() {
    let p = TypingProgress::default();
    assert_eq!(p.state, TypingState::Idle);
    assert_eq!((p.total_chars, p.typed_chars, p.current_line, p.total_lines), (0, 0, 0, 0));
}

#[test]
fn progress_follows_the_plan_and_finishes() {
    let text = "ab\ncd";
    let mut p = TypingProgress::starting(text);
    for step in plan_typing(text, false, false) {
        p.record_step(&step);
    }
    assert_eq!(p.state, TypingState::Typing);
    assert_eq!(p.current_line, 2);
    assert_eq!(p.typed_chars, 5);
    p.finish(false);
    assert_eq!(p.state, TypingState::Finished);
    assert_eq!(p.typed_chars, 5);
}

#[test]
fn canceled_progress_keeps_its_count() {
    let mut p = TypingProgress::starting("abcdef");
    p.record_step(&BeginTyping);
    p.record_step(&Enter { line: 2, typed: 3 });
    p.finish(true);
    assert_eq!(p.state, TypingState::Canceled);
    assert_eq!(p.typed_chars, 3);
    assert_eq!(p.current_line, 2);
}

#[test]
fn session_canceled_by_mark_or_global_escape() {
    assert!(!session_canceled(false, false));
    assert!(session_canceled(true, false));
    assert!(session_canceled(false, true));
}

#[test]
fn stop_inside_a_line_ends_canceled() {
    // The Stop button is pressed while "abcd" is being typed: the check before
    // the next key stops the session and marks it canceled, as Escape would.
    let text = "abcd";
    let mut p = TypingProgress::starting(text);
    let mut marked = false;
    let mut stopped = false;
    let mut keys_seen = 0;
    for step in plan_typing(text, false, false) {
        if matches!(step, CheckKeyCancel | CheckLineCancel) {
            let check = cancel_check(marked, keys_seen == 2);
            marked = check.marked_canceled;
            if check.stop {
                stopped = true;
                break;
            }
        }
        if matches!(step, TypeChar(_)) {
            keys_seen += 1;
        }
        p.record_step(&step);
    }
    assert!(stopped);
    p.finish(session_canceled(marked, false));
    assert_eq!(p.state, TypingState::Canceled);
}

#[test]
fn cancel_check_marks_every_stop() {
    assert_eq!(cancel_check(false, false), CheckResult { stop: false, marked_canceled: false });
    assert_eq!(cancel_check(false, true), CheckResult { stop: true, marked_canceled: true });
    assert_eq!(cancel_check(true, false), CheckResult { stop: false, marked_canceled: true });
}

#[test]
fn shared_count_follows_the_keystrokes() {
    let text = "a(b\n\tc";
    let mut count = 0;
    for step in plan_typing(text, false, false) {
        let next = typed_count_after(count, &step);
        assert!(next >= count);
        assert!(next <= text.chars().count());
        count = next;
    }
    assert_eq!(count, text.chars().count());
    assert_eq!(typed_count_after(4, &Enter { line: 2, typed: 5 }), 5);
    assert_eq!(typed_count_after(4, &TabKey), 5);
    assert_eq!(typed_count_after(4, &TriggerPause), 4);
}
