use vstd::prelude::*;

use crate::plan::{
    body_steps, body_units, content_steps, content_steps_from, cursor_lefts, dismiss_step,
    enter_steps, extend_line, indent_adjust, indent_key_step, indent_keys, key_steps,
    line_plan, line_units, lines_len_before, lines_plan, prelude_steps, prior_indent,
    session_plan, split_lines, trigger_steps, type_char_step, typed_before, TypingStep,
    lemma_lines_len_before_mono, lemma_split_lines_len, lemma_typed_before_bound,
};
use crate::progress::{
    counter_after_steps, finished, progress_after, progress_after_steps, TypingProgress, TypingState,
};
use crate::text::{indent_width, is_trigger, predicted_indent, lemma_indent_width};

verus! {

/// What a step puts into the target field: the character of a keystroke,
/// nothing for waits, checks and cursor moves.
pub open spec fn step_text(s: TypingStep) -> Seq<char> {
    match s {
        TypingStep::TypeChar(c) => seq![c],
        TypingStep::IndentKey(c) => seq![c],
        TypingStep::TabKey => seq!['\t'],
        TypingStep::Enter { .. } => seq!['\n'],
        _ => seq![],
    }
}

/// The characters that a sequence of steps types, in order.
pub open spec fn produced_text(steps: Seq<TypingStep>) -> Seq<char>
    decreases steps.len(),
{
    if steps.len() == 0 {
        seq![]
    } else {
        produced_text(steps.drop_last()) + step_text(steps.last())
    }
}

/// The number of keystrokes in `steps`.
pub open spec fn keystrokes(steps: Seq<TypingStep>) -> nat {
    produced_text(steps).len()
}

/// The lines `ls[0..k]` joined with line feeds.
pub open spec fn join_lines(ls: Seq<Seq<char>>, k: int) -> Seq<char>
    decreases k,
{
    if k <= 0 {
        seq![]
    } else if k == 1 {
        ls[0]
    } else {
        join_lines(ls, k - 1) + seq!['\n'] + ls[k - 1]
    }
}

/// Every progress figure in `steps` counts the keystrokes before it, `base` included:
/// a `LineDone` those strictly before it, an `Enter` those up to and including itself.
pub open spec fn progress_counts_keystrokes(steps: Seq<TypingStep>, base: nat) -> bool {
    forall|p: int|
        0 <= p < steps.len() ==> {
            &&& (#[trigger] steps[p] matches TypingStep::LineDone { typed } ==> typed == base
                + keystrokes(steps.take(p)))
            &&& (steps[p] matches TypingStep::Enter { typed, .. } ==> typed == base + keystrokes(
                steps.take(p + 1),
            ))
        }
}

/// Step `p` of `steps`, if it types a plain (non-trigger) character, comes
/// right after a cancel check.
pub open spec fn plain_char_checked_at(steps: Seq<TypingStep>, p: int) -> bool {
    steps[p] matches TypingStep::TypeChar(c) && !is_trigger(c) ==> p > 0 && steps[p - 1]
        == TypingStep::CheckKeyCancel
}

/// Every plain (non-trigger) character in `steps` is typed right after a cancel check.
pub open spec fn plain_chars_checked(steps: Seq<TypingStep>) -> bool {
    forall|p: int| 0 <= p < steps.len() ==> #[trigger] plain_char_checked_at(steps, p)
}

/// Step `p` of `steps`, if it types a completion trigger, is followed by the
/// trigger pause, and then, when pop-ups are dismissed, by an Escape.
pub open spec fn trigger_paused_at(steps: Seq<TypingStep>, p: int, dismiss: bool) -> bool {
    steps[p] matches TypingStep::TypeChar(c) && is_trigger(c) ==> {
        &&& p + 1 < steps.len()
        &&& steps[p + 1] == TypingStep::TriggerPause
        &&& dismiss ==> p + 2 < steps.len() && steps[p + 2] == TypingStep::DismissAfterTrigger
    }
}

/// Every completion trigger in `steps` is followed by a pause, and then, when
/// pop-ups are dismissed, by an Escape.
pub open spec fn triggers_paused(steps: Seq<TypingStep>, dismiss: bool) -> bool {
    forall|p: int| 0 <= p < steps.len() ==> #[trigger] trigger_paused_at(steps, p, dismiss)
}

// ---------------------------------------------------------------------------
// produced_text
// ---------------------------------------------------------------------------

pub proof fn lemma_produced_concat(a: Seq<TypingStep>, b: Seq<TypingStep>)
    ensures
        produced_text(a + b) == produced_text(a) + produced_text(b),
    decreases b.len(),
{
    if b.len() == 0 {
        assert(a + b =~= a);
    } else {
        lemma_produced_concat(a, b.drop_last());
        assert((a + b).drop_last() =~= a + b.drop_last());
        assert((a + b).last() == b.last());
    }
}

proof fn lemma_produced_small(s: Seq<TypingStep>)
    requires
        s.len() <= 4,
    ensures
        produced_text(s) == (if s.len() >= 1 { step_text(s[0]) } else { seq![] }) + (if s.len()
            >= 2 {
            step_text(s[1])
        } else {
            seq![]
        }) + (if s.len() >= 3 {
            step_text(s[2])
        } else {
            seq![]
        }) + (if s.len() >= 4 {
            step_text(s[3])
        } else {
            seq![]
        }),
    decreases s.len(),
{
    if s.len() > 0 {
        lemma_produced_small(s.drop_last());
    }
    assert(produced_text(s) =~= (if s.len() >= 1 { step_text(s[0]) } else { seq![] }) + (if s.len()
        >= 2 {
        step_text(s[1])
    } else {
        seq![]
    }) + (if s.len() >= 3 {
        step_text(s[2])
    } else {
        seq![]
    }) + (if s.len() >= 4 {
        step_text(s[3])
    } else {
        seq![]
    }));
}

proof fn lemma_produced_key_steps(buf: Seq<char>)
    ensures
        produced_text(key_steps(buf)) == buf,
    decreases buf.len(),
{
    if buf.len() > 0 {
        lemma_produced_key_steps(buf.drop_last());
        let tail = seq![TypingStep::CheckKeyCancel, type_char_step(buf.last())];
        lemma_produced_concat(key_steps(buf.drop_last()), tail);
        lemma_produced_small(tail);
        assert(buf.drop_last() + seq![buf.last()] =~= buf);
    } else {
        assert(key_steps(buf) =~= Seq::<TypingStep>::empty());
    }
}

proof fn lemma_produced_dismiss(dismiss: bool)
    ensures
        produced_text(dismiss_step(dismiss)) == Seq::<char>::empty(),
{
    lemma_produced_small(dismiss_step(dismiss));
}

proof fn lemma_produced_trigger(c: char, dismiss: bool)
    ensures
        produced_text(trigger_steps(c, dismiss)) == seq![c],
{
    lemma_produced_small(trigger_steps(c, dismiss));
    assert(produced_text(trigger_steps(c, dismiss)) =~= seq![c]);
}

/// Content is typed character for character: what is read into the buffer
/// comes out, then the rest of the content.
proof fn lemma_produced_content(s: Seq<char>, buf: Seq<char>, dismiss: bool)
    ensures
        produced_text(content_steps_from(s, buf, dismiss)) == buf + s,
    decreases s.len(),
{
    if s.len() == 0 {
        lemma_produced_key_steps(buf);
        assert(buf + s =~= buf);
    } else {
        let c = s[0];
        let rest = s.drop_first();
        let chk = seq![TypingStep::CheckKeyCancel];
        lemma_produced_small(chk);
        if c == '\t' {
            lemma_produced_content(rest, seq![], dismiss);
            lemma_produced_key_steps(buf);
            let tab = seq![TypingStep::TabKey];
            lemma_produced_small(tab);
            lemma_produced_concat(chk, key_steps(buf));
            lemma_produced_concat(chk + key_steps(buf), tab);
            lemma_produced_concat(chk + key_steps(buf) + tab, content_steps_from(rest, seq![], dismiss));
            assert(buf + s =~= buf + seq!['\t'] + (Seq::<char>::empty() + rest));
        } else if is_trigger(c) {
            lemma_produced_content(rest, seq![], dismiss);
            lemma_produced_key_steps(buf);
            lemma_produced_trigger(c, dismiss);
            lemma_produced_concat(chk, key_steps(buf));
            lemma_produced_concat(chk + key_steps(buf), trigger_steps(c, dismiss));
            lemma_produced_concat(
                chk + key_steps(buf) + trigger_steps(c, dismiss),
                content_steps_from(rest, seq![], dismiss),
            );
            assert(buf + s =~= buf + seq![c] + (Seq::<char>::empty() + rest));
        } else {
            lemma_produced_content(rest, buf.push(c), dismiss);
            lemma_produced_concat(chk, content_steps_from(rest, buf.push(c), dismiss));
            assert(buf + s =~= buf.push(c) + rest);
        }
    }
}

proof fn lemma_produced_indent_keys(s: Seq<char>)
    ensures
        produced_text(indent_keys(s)) == s,
    decreases s.len(),
{
    if s.len() > 0 {
        lemma_produced_indent_keys(s.drop_last());
        assert(indent_keys(s) =~= indent_keys(s.drop_last()).push(indent_key_step(s.last())));
        assert(indent_keys(s).drop_last() =~= indent_keys(s.drop_last()));
        assert(s.drop_last() + seq![s.last()] =~= s);
    } else {
        assert(indent_keys(s) =~= Seq::<TypingStep>::empty());
    }
}

proof fn lemma_produced_cursor_lefts(n: nat)
    ensures
        produced_text(cursor_lefts(n)) == Seq::<char>::empty(),
    decreases n,
{
    if n > 0 {
        lemma_produced_cursor_lefts((n - 1) as nat);
        assert(cursor_lefts(n).drop_last() =~= cursor_lefts((n - 1) as nat));
    }
}

/// What the indentation keys of a line type: the part of its indentation
/// beyond the `p` characters the editor inserted (nothing when `p` covers it).
proof fn lemma_produced_indent_adjust(line: Seq<char>, p: nat)
    ensures
        produced_text(indent_adjust(line, p)) == if indent_width(line) > p {
            line.subrange(p as int, indent_width(line) as int)
        } else {
            Seq::<char>::empty()
        },
{
    let w = indent_width(line);
    if w > p {
        lemma_produced_indent_keys(line.subrange(p as int, w as int));
    } else if p > w {
        lemma_produced_cursor_lefts((p - w) as nat);
    } else {
        assert(indent_adjust(line, p) =~= Seq::<TypingStep>::empty());
    }
}

proof fn lemma_produced_body(lines: Seq<Seq<char>>, i: int, web: bool, dismiss: bool)
    requires
        0 <= i < lines.len(),
    ensures
        keystrokes(body_steps(lines, i, web, dismiss)) == body_units(lines, i, web),
        !web ==> produced_text(body_steps(lines, i, web, dismiss)) == lines[i],
{
    let line = lines[i];
    if web && line.len() > 0 {
        let w = indent_width(line);
        lemma_indent_width(line);
        let p = prior_indent(lines, i);
        lemma_produced_indent_adjust(line, p);
        lemma_produced_content(line.skip(w as int), seq![], dismiss);
        lemma_produced_concat(indent_adjust(line, p), content_steps(line.skip(w as int), dismiss));
        assert(Seq::<char>::empty() + line.skip(w as int) =~= line.skip(w as int));
    } else {
        lemma_produced_content(line, seq![], dismiss);
        assert(Seq::<char>::empty() + line =~= line);
    }
}

proof fn lemma_produced_enter(i: int, typed0: nat, dismiss: bool)
    ensures
        produced_text(enter_steps(i, typed0, dismiss)) == if i > 0 {
            seq!['\n']
        } else {
            Seq::<char>::empty()
        },
{
    if i > 0 {
        let d = dismiss_step(dismiss);
        let a = seq![TypingStep::PreEnterPause];
        let b = seq![
            TypingStep::Enter { line: (i + 1) as usize, typed: (typed0 + 1) as usize },
            TypingStep::LineBreakPause,
        ];
        lemma_produced_small(a);
        lemma_produced_small(b);
        lemma_produced_dismiss(dismiss);
        lemma_produced_concat(a, d);
        lemma_produced_concat(a + d, b);
        lemma_produced_concat(a + d + b, d);
        assert(produced_text(enter_steps(i, typed0, dismiss)) =~= seq!['\n']);
    } else {
        assert(enter_steps(i, typed0, dismiss) =~= Seq::<TypingStep>::empty());
    }
}

proof fn lemma_produced_line(lines: Seq<Seq<char>>, i: int, typed0: nat, web: bool, dismiss: bool)
    requires
        0 <= i < lines.len(),
    ensures
        keystrokes(line_plan(lines, i, typed0, web, dismiss)) == line_units(lines, i, web),
        !web ==> produced_text(line_plan(lines, i, typed0, web, dismiss)) == (if i > 0 {
            seq!['\n']
        } else {
            Seq::<char>::empty()
        }) + lines[i],
{
    let chk = seq![TypingStep::CheckLineCancel];
    let e = enter_steps(i, typed0, dismiss);
    let b = body_steps(lines, i, web, dismiss);
    let done = seq![TypingStep::LineDone { typed: (typed0 + line_units(lines, i, web)) as usize }];
    lemma_produced_small(chk);
    lemma_produced_small(done);
    lemma_produced_enter(i, typed0, dismiss);
    lemma_produced_body(lines, i, web, dismiss);
    lemma_produced_concat(chk, e);
    lemma_produced_concat(chk + e, chk);
    lemma_produced_concat(chk + e + chk, b);
    lemma_produced_concat(chk + e + chk + b, done);
    assert(produced_text(line_plan(lines, i, typed0, web, dismiss)) =~= produced_text(e)
        + produced_text(b));
}

proof fn lemma_produced_lines(lines: Seq<Seq<char>>, k: int, web: bool, dismiss: bool)
    requires
        0 <= k <= lines.len(),
    ensures
        keystrokes(lines_plan(lines, k, web, dismiss)) == typed_before(lines, k, web),
        !web ==> produced_text(lines_plan(lines, k, web, dismiss)) == join_lines(lines, k),
    decreases k,
{
    if k > 0 {
        lemma_produced_lines(lines, k - 1, web, dismiss);
        lemma_produced_line(lines, k - 1, typed_before(lines, k - 1, web), web, dismiss);
        lemma_produced_concat(
            lines_plan(lines, k - 1, web, dismiss),
            line_plan(lines, k - 1, typed_before(lines, k - 1, web), web, dismiss),
        );
        if !web {
            if k == 1 {
                assert(join_lines(lines, 0) == Seq::<char>::empty());
                assert(produced_text(lines_plan(lines, k, web, dismiss)) =~= lines[0]);
            } else {
                assert(produced_text(lines_plan(lines, k, web, dismiss)) =~= join_lines(
                    lines,
                    k - 1,
                ) + seq!['\n'] + lines[k - 1]);
            }
        }
    } else {
        assert(lines_plan(lines, k, web, dismiss) =~= Seq::<TypingStep>::empty());
    }
}

proof fn lemma_join_lines_agree(a: Seq<Seq<char>>, b: Seq<Seq<char>>, k: int)
    requires
        0 <= k <= a.len(),
        k <= b.len(),
        forall|j: int| 0 <= j < k ==> #[trigger] a[j] == b[j],
    ensures
        join_lines(a, k) == join_lines(b, k),
    decreases k,
{
    if k > 1 {
        lemma_join_lines_agree(a, b, k - 1);
    }
}

/// Joining the lines of a text gives the text back.
pub proof fn lemma_join_split(s: Seq<char>)
    ensures
        join_lines(split_lines(s), split_lines(s).len() as int) == s,
    decreases s.len(),
{
    lemma_split_lines_len(s);
    if s.len() > 0 {
        let parts = split_lines(s.drop_last());
        lemma_join_split(s.drop_last());
        lemma_split_lines_len(s.drop_last());
        let n = parts.len() as int;
        if s.last() == '\n' {
            let q = parts.push(Seq::<char>::empty());
            assert forall|j: int| 0 <= j < n implies #[trigger] parts[j] == q[j] by {}
            lemma_join_lines_agree(parts, q, n);
            assert(join_lines(q, n + 1) =~= s);
        } else {
            let q = parts.update(n - 1, extend_line(parts.last(), s.last()));
            assert forall|j: int| 0 <= j < n - 1 implies #[trigger] parts[j] == q[j] by {}
            lemma_join_lines_agree(parts, q, n - 1);
            if n == 1 {
                assert(join_lines(parts, 1) == parts[0]);
                assert(join_lines(q, 1) == q[0]);
                assert(q[0] == parts[0].push(s.last()));
                assert(parts[0] == s.drop_last());
                assert(s.drop_last().push(s.last()) =~= s);
                assert(join_lines(q, 1) == s);
            } else {
                assert(join_lines(q, n) == join_lines(q, n - 1) + seq!['\n'] + q[n - 1]);
                assert(join_lines(parts, n) == join_lines(parts, n - 1) + seq!['\n'] + parts[n
                    - 1]);
                assert(q[n - 1] == parts[n - 1].push(s.last()));
                assert(join_lines(parts, n) == s.drop_last());
                assert(join_lines(q, n) =~= (join_lines(parts, n - 1) + seq!['\n'] + parts[n
                    - 1]).push(s.last()));
                assert(s.drop_last().push(s.last()) =~= s);
            }
        }
    } else {
        assert(join_lines(split_lines(s), 1) =~= s);
    }
}

/// In basic mode (no smart indentation) a session types exactly the given text:
/// its characters, with Tab for tabs and Return for line feeds, in order.
pub proof fn law_basic_mode_types_text(text: Seq<char>, dismiss: bool)
    ensures
        produced_text(session_plan(text, false, dismiss)) == text,
{
    let lines = split_lines(text);
    lemma_split_lines_len(text);
    lemma_produced_lines(lines, lines.len() as int, false, dismiss);
    lemma_join_split(text);
    let pre = prelude_steps(dismiss);
    let a = seq![TypingStep::StartupDelay, TypingStep::CheckLineCancel];
    let b = seq![TypingStep::BeginTyping];
    lemma_produced_small(a);
    lemma_produced_small(b);
    lemma_produced_dismiss(dismiss);
    lemma_produced_concat(a, dismiss_step(dismiss));
    lemma_produced_concat(a + dismiss_step(dismiss), b);
    lemma_produced_concat(pre, lines_plan(lines, lines.len() as int, false, dismiss));
    assert(produced_text(pre) =~= Seq::<char>::empty());
    assert(produced_text(session_plan(text, false, dismiss)) =~= text);
}

/// With smart indentation, when the indentation the editor inserts after a line
/// break is the start of the next line's own indentation, the editor's
/// indentation followed by what the session types for that line is the line.
pub proof fn law_smart_indent_completes_line(lines: Seq<Seq<char>>, i: int, dismiss: bool)
    requires
        0 <= i < lines.len(),
        prior_indent(lines, i) <= indent_width(lines[i]),
        i > 0 ==> lines[i].take(prior_indent(lines, i) as int) == predicted_indent(lines[i - 1]),
    ensures
        (if i > 0 {
            predicted_indent(lines[i - 1])
        } else {
            Seq::<char>::empty()
        }) + produced_text(body_steps(lines, i, true, dismiss)) == lines[i],
{
    let line = lines[i];
    let p = prior_indent(lines, i);
    let w = indent_width(line);
    lemma_indent_width(line);
    let pre = if i > 0 {
        predicted_indent(lines[i - 1])
    } else {
        Seq::<char>::empty()
    };
    assert(pre =~= line.take(p as int));
    if line.len() > 0 {
        lemma_produced_indent_adjust(line, p);
        lemma_produced_content(line.skip(w as int), seq![], dismiss);
        lemma_produced_concat(indent_adjust(line, p), content_steps(line.skip(w as int), dismiss));
        if w > p {
            assert(line.take(p as int) + (line.subrange(p as int, w as int) + (Seq::<char>::empty()
                + line.skip(w as int))) =~= line);
        } else {
            assert(line.take(p as int) + (Seq::<char>::empty() + (Seq::<char>::empty() + line.skip(
                w as int,
            ))) =~= line);
        }
    } else {
        lemma_produced_content(line, seq![], dismiss);
        assert(pre + (Seq::<char>::empty() + line) =~= line);
    }
}

// ---------------------------------------------------------------------------
// Cancel checks, trigger pauses and progress figures
// ---------------------------------------------------------------------------

/// No step of `steps` reports progress.
pub open spec fn no_progress(steps: Seq<TypingStep>) -> bool {
    forall|p: int|
        0 <= p < steps.len() ==> !(#[trigger] steps[p] is LineDone) && !(steps[p] is Enter)
}

/// No step of `steps` types a character of content.
pub open spec fn no_typed_chars(steps: Seq<TypingStep>) -> bool {
    forall|p: int| 0 <= p < steps.len() ==> !(#[trigger] steps[p] is TypeChar)
}

/// The structural facts that hold of every piece of a plan: plain characters
/// right after checks, triggers followed by their pause.
#[verifier::opaque]
pub open spec fn well_paced(steps: Seq<TypingStep>, dismiss: bool) -> bool {
    plain_chars_checked(steps) && triggers_paused(steps, dismiss)
}

proof fn lemma_paced_concat(a: Seq<TypingStep>, b: Seq<TypingStep>, dismiss: bool)
    requires
        well_paced(a, dismiss),
        well_paced(b, dismiss),
    ensures
        well_paced(a + b, dismiss),
{
    reveal(well_paced);
    let ab = a + b;
    assert forall|p: int| 0 <= p < ab.len() implies #[trigger] plain_char_checked_at(ab, p) by {
        if p >= a.len() {
            assert(plain_char_checked_at(b, p - a.len()));
            assert(ab[p] == b[p - a.len()]);
            if p - a.len() > 0 {
                assert(ab[p - 1] == b[p - a.len() - 1]);
            }
        } else {
            assert(plain_char_checked_at(a, p));
            assert(ab[p] == a[p]);
            if p > 0 {
                assert(ab[p - 1] == a[p - 1]);
            }
        }
    }
    assert forall|p: int| 0 <= p < ab.len() implies #[trigger] trigger_paused_at(ab, p, dismiss) by {
        if p >= a.len() {
            assert(trigger_paused_at(b, p - a.len(), dismiss));
            assert(ab[p] == b[p - a.len()]);
            if p + 1 < ab.len() {
                assert(ab[p + 1] == b[p + 1 - a.len()]);
            }
            if p + 2 < ab.len() {
                assert(ab[p + 2] == b[p + 2 - a.len()]);
            }
        } else {
            assert(trigger_paused_at(a, p, dismiss));
            assert(ab[p] == a[p]);
            if p + 1 < a.len() {
                assert(ab[p + 1] == a[p + 1]);
            }
            if p + 2 < a.len() {
                assert(ab[p + 2] == a[p + 2]);
            }
        }
    }
}

proof fn lemma_no_progress_concat(a: Seq<TypingStep>, b: Seq<TypingStep>)
    requires
        no_progress(a),
        no_progress(b),
    ensures
        no_progress(a + b),
{
    let ab = a + b;
    assert forall|p: int| 0 <= p < ab.len() implies !(#[trigger] ab[p] is LineDone) && !(
    ab[p] is Enter) by {
        if p >= a.len() {
            assert(ab[p] == b[p - a.len()]);
        } else {
            assert(ab[p] == a[p]);
        }
    }
}

proof fn lemma_quiet_paced(steps: Seq<TypingStep>, dismiss: bool)
    requires
        no_typed_chars(steps),
    ensures
        well_paced(steps, dismiss),
{
    reveal(well_paced);
    assert forall|p: int| 0 <= p < steps.len() implies #[trigger] plain_char_checked_at(steps, p)
        && trigger_paused_at(steps, p, dismiss) by {
        assert(!(steps[p] is TypeChar));
    }
    assert forall|p: int| 0 <= p < steps.len() implies #[trigger] trigger_paused_at(steps, p, dismiss) by {
        assert(!(steps[p] is TypeChar));
    }
}

proof fn lemma_key_steps_facts(buf: Seq<char>, dismiss: bool)
    requires
        forall|j: int| 0 <= j < buf.len() ==> !is_trigger(#[trigger] buf[j]),
    ensures
        well_paced(key_steps(buf), dismiss),
        no_progress(key_steps(buf)),
    decreases buf.len(),
{
    reveal(well_paced);
    if buf.len() > 0 {
        let c = buf.last();
        assert(!is_trigger(buf[buf.len() - 1]));
        lemma_key_steps_facts(buf.drop_last(), dismiss);
        let pair = seq![TypingStep::CheckKeyCancel, type_char_step(c)];
        assert(pair[1] == TypingStep::TypeChar(c));
        assert(well_paced(pair, dismiss));
        assert(no_progress(pair));
        lemma_paced_concat(key_steps(buf.drop_last()), pair, dismiss);
        lemma_no_progress_concat(key_steps(buf.drop_last()), pair);
    } else {
        assert(key_steps(buf) =~= Seq::<TypingStep>::empty());
    }
}

proof fn lemma_trigger_steps_facts(c: char, dismiss: bool)
    requires
        is_trigger(c),
    ensures
        well_paced(trigger_steps(c, dismiss), dismiss),
        no_progress(trigger_steps(c, dismiss)),
{
    reveal(well_paced);
    let t = trigger_steps(c, dismiss);
    assert(t[0] == TypingStep::TypeChar(c));
    assert(t[1] == TypingStep::TriggerPause);
    if dismiss {
        assert(t[2] == TypingStep::DismissAfterTrigger);
    }
}

proof fn lemma_content_facts(s: Seq<char>, buf: Seq<char>, dismiss: bool)
    requires
        forall|j: int| 0 <= j < buf.len() ==> !is_trigger(#[trigger] buf[j]),
    ensures
        well_paced(content_steps_from(s, buf, dismiss), dismiss),
        no_progress(content_steps_from(s, buf, dismiss)),
    decreases s.len(),
{
    if s.len() == 0 {
        lemma_key_steps_facts(buf, dismiss);
    } else {
        let c = s[0];
        let rest = s.drop_first();
        let chk = seq![TypingStep::CheckKeyCancel];
        assert(no_typed_chars(chk));
        lemma_quiet_paced(chk, dismiss);
        assert(no_progress(chk));
        let e = Seq::<char>::empty();
        if c == '\t' || is_trigger(c) {
            lemma_content_facts(rest, e, dismiss);
            lemma_key_steps_facts(buf, dismiss);
            let mid = if c == '\t' {
                seq![TypingStep::TabKey]
            } else {
                trigger_steps(c, dismiss)
            };
            if c == '\t' {
                assert(no_typed_chars(mid));
                lemma_quiet_paced(mid, dismiss);
                assert(no_progress(mid));
            } else {
                lemma_trigger_steps_facts(c, dismiss);
            }
            lemma_paced_concat(chk, key_steps(buf), dismiss);
            lemma_no_progress_concat(chk, key_steps(buf));
            lemma_paced_concat(chk + key_steps(buf), mid, dismiss);
            lemma_no_progress_concat(chk + key_steps(buf), mid);
            lemma_paced_concat(chk + key_steps(buf) + mid, content_steps_from(rest, e, dismiss), dismiss);
            lemma_no_progress_concat(chk + key_steps(buf) + mid, content_steps_from(rest, e, dismiss));
        } else {
            let b2 = buf.push(c);
            assert forall|j: int| 0 <= j < b2.len() implies !is_trigger(#[trigger] b2[j]) by {
                if j < buf.len() {
                    assert(b2[j] == buf[j]);
                }
            }
            lemma_content_facts(rest, b2, dismiss);
            lemma_paced_concat(chk, content_steps_from(rest, b2, dismiss), dismiss);
            lemma_no_progress_concat(chk, content_steps_from(rest, b2, dismiss));
        }
    }
}

proof fn lemma_body_facts(lines: Seq<Seq<char>>, i: int, web: bool, dismiss: bool)
    requires
        0 <= i < lines.len(),
    ensures
        well_paced(body_steps(lines, i, web, dismiss), dismiss),
        no_progress(body_steps(lines, i, web, dismiss)),
{
    let line = lines[i];
    let e = Seq::<char>::empty();
    if web && line.len() > 0 {
        let w = indent_width(line);
        let p = prior_indent(lines, i);
        let adj = indent_adjust(line, p);
        if w > p {
            let keys = line.subrange(p as int, w as int);
            assert forall|q: int| 0 <= q < adj.len() implies !(#[trigger] adj[q] is TypeChar)
                && !(adj[q] is LineDone) && !(adj[q] is Enter) by {
                assert(adj[q] == indent_key_step(keys[q]));
            }
        }
        assert(no_typed_chars(adj));
        assert(no_progress(adj));
        lemma_quiet_paced(adj, dismiss);
        lemma_content_facts(line.skip(w as int), e, dismiss);
        lemma_paced_concat(adj, content_steps(line.skip(w as int), dismiss), dismiss);
        lemma_no_progress_concat(adj, content_steps(line.skip(w as int), dismiss));
    } else {
        lemma_content_facts(line, e, dismiss);
    }
}

proof fn lemma_enter_facts(i: int, typed0: nat, dismiss: bool)
    requires
        i > 0 ==> typed0 + 1 <= usize::MAX,
    ensures
        well_paced(enter_steps(i, typed0, dismiss), dismiss),
        progress_counts_keystrokes(enter_steps(i, typed0, dismiss), typed0),
{
    let e = enter_steps(i, typed0, dismiss);
    assert(no_typed_chars(e));
    lemma_quiet_paced(e, dismiss);
    if i > 0 {
        let d = dismiss_step(dismiss);
        let k: int = 1 + d.len() as int;
        assert(e[k] == TypingStep::Enter { line: (i + 1) as usize, typed: (typed0 + 1) as usize });
        assert forall|p: int| 0 <= p < e.len() implies {
            &&& (#[trigger] e[p] matches TypingStep::LineDone { typed } ==> typed == typed0
                + keystrokes(e.take(p)))
            &&& (e[p] matches TypingStep::Enter { typed, .. } ==> typed == typed0 + keystrokes(
                e.take(p + 1),
            ))
        } by {
            if p == k {
                let pre = seq![TypingStep::PreEnterPause] + d;
                let ent = seq![
                    TypingStep::Enter { line: (i + 1) as usize, typed: (typed0 + 1) as usize },
                ];
                assert(e.take(p + 1) =~= pre + ent);
                lemma_produced_small(seq![TypingStep::PreEnterPause]);
                lemma_produced_dismiss(dismiss);
                lemma_produced_concat(seq![TypingStep::PreEnterPause], d);
                lemma_produced_small(ent);
                lemma_produced_concat(pre, ent);
            } else {
                assert(!(e[p] is Enter));
            }
        }
    }
}

proof fn lemma_progress_concat(a: Seq<TypingStep>, b: Seq<TypingStep>, base: nat)
    requires
        progress_counts_keystrokes(a, base),
        progress_counts_keystrokes(b, base + keystrokes(a)),
    ensures
        progress_counts_keystrokes(a + b, base),
{
    let ab = a + b;
    assert forall|p: int| 0 <= p < ab.len() implies {
        &&& (#[trigger] ab[p] matches TypingStep::LineDone { typed } ==> typed == base + keystrokes(
            ab.take(p),
        ))
        &&& (ab[p] matches TypingStep::Enter { typed, .. } ==> typed == base + keystrokes(
            ab.take(p + 1),
        ))
    } by {
        if p >= a.len() {
            let q = p - a.len();
            assert(ab[p] == b[q]);
            assert(ab.take(p) =~= a + b.take(q));
            assert(ab.take(p + 1) =~= a + b.take(q + 1));
            lemma_produced_concat(a, b.take(q));
            lemma_produced_concat(a, b.take(q + 1));
        } else {
            assert(ab[p] == a[p]);
            assert(ab.take(p) =~= a.take(p));
            assert(ab.take(p + 1) =~= a.take(p + 1));
        }
    }
}

proof fn lemma_quiet_progress(steps: Seq<TypingStep>, base: nat)
    requires
        no_progress(steps),
    ensures
        progress_counts_keystrokes(steps, base),
{
    assert forall|p: int| 0 <= p < steps.len() implies !(#[trigger] steps[p] is LineDone) && !(
    steps[p] is Enter) by {}
}

proof fn lemma_line_paced(lines: Seq<Seq<char>>, i: int, typed0: nat, web: bool, dismiss: bool)
    requires
        0 <= i < lines.len(),
        typed0 + line_units(lines, i, web) <= usize::MAX,
    ensures
        well_paced(line_plan(lines, i, typed0, web, dismiss), dismiss),
{
    let chk = seq![TypingStep::CheckLineCancel];
    let e = enter_steps(i, typed0, dismiss);
    let b = body_steps(lines, i, web, dismiss);
    let t = (typed0 + line_units(lines, i, web)) as usize;
    let done = seq![TypingStep::LineDone { typed: t }];
    assert(no_typed_chars(chk));
    lemma_quiet_paced(chk, dismiss);
    assert(no_typed_chars(done));
    lemma_quiet_paced(done, dismiss);
    lemma_enter_facts(i, typed0, dismiss);
    lemma_body_facts(lines, i, web, dismiss);
    lemma_paced_concat(chk, e, dismiss);
    lemma_paced_concat(chk + e, chk, dismiss);
    lemma_paced_concat(chk + e + chk, b, dismiss);
    lemma_paced_concat(chk + e + chk + b, done, dismiss);
}

proof fn lemma_line_progress(lines: Seq<Seq<char>>, i: int, typed0: nat, web: bool, dismiss: bool)
    requires
        0 <= i < lines.len(),
        typed0 + line_units(lines, i, web) <= usize::MAX,
    ensures
        progress_counts_keystrokes(line_plan(lines, i, typed0, web, dismiss), typed0),
{
    let chk = seq![TypingStep::CheckLineCancel];
    let e = enter_steps(i, typed0, dismiss);
    let b = body_steps(lines, i, web, dismiss);
    let t = (typed0 + line_units(lines, i, web)) as usize;
    let done = seq![TypingStep::LineDone { typed: t }];
    assert(no_progress(chk));
    lemma_quiet_progress(chk, typed0);
    lemma_enter_facts(i, typed0, dismiss);
    lemma_body_facts(lines, i, web, dismiss);
    lemma_produced_small(chk);
    lemma_produced_enter(i, typed0, dismiss);
    lemma_produced_body(lines, i, web, dismiss);
    lemma_produced_concat(chk, e);
    lemma_progress_concat(chk, e, typed0);
    lemma_produced_concat(chk + e, chk);
    lemma_progress_concat(chk + e, chk, typed0);
    lemma_quiet_progress(b, typed0 + keystrokes(chk + e + chk));
    lemma_progress_concat(chk + e + chk, b, typed0);
    lemma_produced_concat(chk + e + chk, b);
    let before = chk + e + chk + b;
    assert(keystrokes(before) + typed0 == t);
    assert(done.take(0) =~= Seq::<TypingStep>::empty());
    assert(progress_counts_keystrokes(done, typed0 + keystrokes(before)));
    lemma_progress_concat(before, done, typed0);
}

proof fn lemma_lines_facts(lines: Seq<Seq<char>>, k: int, web: bool, dismiss: bool)
    requires
        0 <= k <= lines.len(),
        lines_len_before(lines, lines.len() as int) <= usize::MAX,
    ensures
        well_paced(lines_plan(lines, k, web, dismiss), dismiss),
        progress_counts_keystrokes(lines_plan(lines, k, web, dismiss), 0),
    decreases k,
{
    if k > 0 {
        lemma_lines_facts(lines, k - 1, web, dismiss);
        let t0 = typed_before(lines, k - 1, web);
        lemma_typed_before_bound(lines, k, web);
        lemma_lines_len_before_mono(lines, k, lines.len() as int);
        lemma_line_paced(lines, k - 1, t0, web, dismiss);
        lemma_line_progress(lines, k - 1, t0, web, dismiss);
        lemma_produced_lines(lines, k - 1, web, dismiss);
        lemma_paced_concat(lines_plan(lines, k - 1, web, dismiss), line_plan(lines, k - 1, t0, web, dismiss), dismiss);
        lemma_progress_concat(lines_plan(lines, k - 1, web, dismiss), line_plan(lines, k - 1, t0, web, dismiss), 0);
    } else {
        let e = lines_plan(lines, k, web, dismiss);
        assert(e =~= Seq::<TypingStep>::empty());
        assert(no_typed_chars(e));
        assert(no_progress(e));
        lemma_quiet_paced(e, dismiss);
        lemma_quiet_progress(e, 0);
    }
}

/// Throughout a session: every plain character is typed right after a cancel
/// check, so a stop request takes effect before the next character; every
/// completion trigger is followed by its pause (and an Escape when pop-ups are
/// dismissed); and every progress figure counts exactly the keystrokes made so far.
pub proof fn law_session_pacing_and_progress(text: Seq<char>, web: bool, dismiss: bool)
    requires
        text.len() + 5 <= usize::MAX,
    ensures
        plain_chars_checked(session_plan(text, web, dismiss)),
        triggers_paused(session_plan(text, web, dismiss), dismiss),
        progress_counts_keystrokes(session_plan(text, web, dismiss), 0),
{
    let lines = split_lines(text);
    lemma_split_lines_len(text);
    lemma_lines_facts(lines, lines.len() as int, web, dismiss);
    let pre = prelude_steps(dismiss);
    assert(no_typed_chars(pre));
    assert(no_progress(pre));
    lemma_quiet_paced(pre, dismiss);
    lemma_quiet_progress(pre, 0);
    let rest = lines_plan(lines, lines.len() as int, web, dismiss);
    lemma_paced_concat(pre, rest, dismiss);
    reveal(well_paced);
    let a = seq![TypingStep::StartupDelay, TypingStep::CheckLineCancel];
    let b = seq![TypingStep::BeginTyping];
    lemma_produced_small(a);
    lemma_produced_small(b);
    lemma_produced_dismiss(dismiss);
    lemma_produced_concat(a, dismiss_step(dismiss));
    lemma_produced_concat(a + dismiss_step(dismiss), b);
    assert(keystrokes(pre) == 0);
    lemma_progress_concat(pre, rest, 0);
}

/// An empty line adds nothing but its line break: no indentation keys, no
/// cursor moves, no characters.
pub proof fn law_empty_line_types_nothing(lines: Seq<Seq<char>>, i: int, web: bool, dismiss: bool)
    requires
        0 <= i < lines.len(),
        lines[i].len() == 0,
    ensures
        body_steps(lines, i, web, dismiss) == Seq::<TypingStep>::empty(),
{
    assert(key_steps(Seq::<char>::empty()) =~= Seq::<TypingStep>::empty());
}

/// Once every step of a session has been carried out, its progress reports
/// every keystroke the session made, whatever the progress was before.
pub proof fn law_progress_ends_at_all_keystrokes(
    text: Seq<char>,
    web: bool,
    dismiss: bool,
    start: TypingProgress,
)
    requires
        text.len() + 5 <= usize::MAX,
    ensures
        progress_after_steps(start, session_plan(text, web, dismiss)).typed_chars == keystrokes(
            session_plan(text, web, dismiss),
        ),
{
    let lines = split_lines(text);
    let n = lines.len() as int;
    lemma_split_lines_len(text);
    lemma_typed_before_bound(lines, n, web);
    lemma_produced_lines(lines, n, web, dismiss);
    let pre = prelude_steps(dismiss);
    let a = seq![TypingStep::StartupDelay, TypingStep::CheckLineCancel];
    let b = seq![TypingStep::BeginTyping];
    lemma_produced_small(a);
    lemma_produced_small(b);
    lemma_produced_dismiss(dismiss);
    lemma_produced_concat(a, dismiss_step(dismiss));
    lemma_produced_concat(a + dismiss_step(dismiss), b);
    let rest = lines_plan(lines, n, web, dismiss);
    lemma_produced_concat(pre, rest);
    let plan = session_plan(text, web, dismiss);
    let t0 = typed_before(lines, n - 1, web);
    let last_line = line_plan(lines, n - 1, t0, web, dismiss);
    assert(plan.last() == last_line.last());
    assert(last_line.last() == TypingStep::LineDone {
        typed: (t0 + line_units(lines, n - 1, web)) as usize,
    });
}


// ---------------------------------------------------------------------------
// The course of a run: states and counts
// ---------------------------------------------------------------------------

proof fn lemma_take_step(s: Seq<TypingStep>, j: int)
    requires
        0 <= j < s.len(),
    ensures
        s.take(j + 1).drop_last() == s.take(j),
        s.take(j + 1).last() == s[j],
        s.take(j + 1).len() > 0,
{
    assert(s.take(j + 1).drop_last() =~= s.take(j));
}

proof fn lemma_keystrokes_step(s: Seq<TypingStep>, j: int)
    requires
        0 <= j < s.len(),
    ensures
        keystrokes(s.take(j + 1)) == keystrokes(s.take(j)) + step_text(s[j]).len(),
{
    lemma_take_step(s, j);
}

proof fn lemma_keystrokes_prefix(s: Seq<TypingStep>, j: int)
    requires
        0 <= j <= s.len(),
    ensures
        keystrokes(s.take(j)) <= keystrokes(s),
{
    assert(s =~= s.take(j) + s.skip(j));
    lemma_produced_concat(s.take(j), s.skip(j));
}

proof fn lemma_progress_steps_concat(p: TypingProgress, a: Seq<TypingStep>, b: Seq<TypingStep>)
    ensures
        progress_after_steps(p, a + b) == progress_after_steps(progress_after_steps(p, a), b),
    decreases b.len(),
{
    if b.len() == 0 {
        assert(a + b =~= a);
    } else {
        lemma_progress_steps_concat(p, a, b.drop_last());
        assert((a + b).drop_last() =~= a + b.drop_last());
        assert((a + b).last() == b.last());
    }
}

proof fn lemma_typing_stays(p: TypingProgress, s: Seq<TypingStep>)
    requires
        p.state == TypingState::Typing,
    ensures
        progress_after_steps(p, s).state == TypingState::Typing,
    decreases s.len(),
{
    if s.len() > 0 {
        lemma_typing_stays(p, s.drop_last());
    }
}

proof fn lemma_state_kept(p: TypingProgress, s: Seq<TypingStep>)
    requires
        forall|i: int| 0 <= i < s.len() ==> !(#[trigger] s[i] is BeginTyping),
    ensures
        progress_after_steps(p, s).state == p.state,
        progress_after_steps(p, s).total_chars == p.total_chars,
    decreases s.len(),
{
    if s.len() > 0 {
        let d = s.drop_last();
        assert forall|i: int| 0 <= i < d.len() implies !(#[trigger] d[i] is BeginTyping) by {
            assert(d[i] == s[i]);
        }
        lemma_state_kept(p, d);
        assert(!(s[s.len() - 1] is BeginTyping));
    }
}

proof fn lemma_total_kept(p: TypingProgress, s: Seq<TypingStep>)
    ensures
        progress_after_steps(p, s).total_chars == p.total_chars,
    decreases s.len(),
{
    if s.len() > 0 {
        lemma_total_kept(p, s.drop_last());
    }
}

/// Over a session, the state is `Countdown` until typing begins (the end of
/// the prelude) and `Typing` from then on, whatever step the session stops
/// at; closing the session then makes it `Finished`, or `Canceled` when it
/// was canceled.
pub proof fn law_session_states(
    text: Seq<char>,
    web: bool,
    dismiss: bool,
    start: TypingProgress,
    j: int,
    canceled: bool,
)
    requires
        start.state == TypingState::Countdown,
        0 <= j <= session_plan(text, web, dismiss).len(),
    ensures
        j < prelude_steps(dismiss).len() ==> progress_after_steps(
            start,
            session_plan(text, web, dismiss).take(j),
        ).state == TypingState::Countdown,
        j >= prelude_steps(dismiss).len() ==> progress_after_steps(
            start,
            session_plan(text, web, dismiss).take(j),
        ).state == TypingState::Typing,
        finished(progress_after_steps(start, session_plan(text, web, dismiss).take(j)), canceled).state
            == (if canceled {
            TypingState::Canceled
        } else {
            TypingState::Finished
        }),
{
    let plan = session_plan(text, web, dismiss);
    let pre = prelude_steps(dismiss);
    let lines = split_lines(text);
    let rest = lines_plan(lines, lines.len() as int, web, dismiss);
    assert(plan == pre + rest);
    let b = pre.len() - 1;
    assert(pre[b] == TypingStep::BeginTyping);
    assert forall|i: int| 0 <= i < b implies !(#[trigger] pre[i] is BeginTyping) by {
        if dismiss {
            assert(pre =~= seq![
                TypingStep::StartupDelay,
                TypingStep::CheckLineCancel,
                TypingStep::DismissOverlays,
                TypingStep::BeginTyping,
            ]);
        } else {
            assert(pre =~= seq![
                TypingStep::StartupDelay,
                TypingStep::CheckLineCancel,
                TypingStep::BeginTyping,
            ]);
        }
    }
    if j < pre.len() {
        let t = plan.take(j);
        assert(t =~= pre.take(j));
        assert forall|i: int| 0 <= i < t.len() implies !(#[trigger] t[i] is BeginTyping) by {
            assert(t[i] == pre[i]);
        }
        lemma_state_kept(start, t);
    } else {
        let t = plan.take(j);
        assert(t =~= pre + rest.take(j - pre.len()));
        lemma_progress_steps_concat(start, pre, rest.take(j - pre.len()));
        let d = pre.drop_last();
        assert forall|i: int| 0 <= i < d.len() implies !(#[trigger] d[i] is BeginTyping) by {
            assert(d[i] == pre[i]);
        }
        lemma_state_kept(start, d);
        assert(progress_after_steps(start, pre).state == TypingState::Typing);
        lemma_typing_stays(progress_after_steps(start, pre), rest.take(j - pre.len()));
    }
}

proof fn lemma_counter_prefix(steps: Seq<TypingStep>, j: int)
    requires
        progress_counts_keystrokes(steps, 0),
        0 <= j <= steps.len(),
    ensures
        counter_after_steps(0, steps.take(j)) == keystrokes(steps.take(j)),
    decreases j,
{
    if j > 0 {
        lemma_counter_prefix(steps, j - 1);
        lemma_take_step(steps, j - 1);
        lemma_keystrokes_step(steps, j - 1);
    } else {
        assert(steps.take(0) =~= Seq::<TypingStep>::empty());
    }
}

proof fn lemma_progress_typed_prefix(steps: Seq<TypingStep>, start: TypingProgress, j: int)
    requires
        progress_counts_keystrokes(steps, 0),
        start.typed_chars == 0,
        0 <= j <= steps.len(),
    ensures
        progress_after_steps(start, steps.take(j)).typed_chars <= keystrokes(steps.take(j)),
    decreases j,
{
    if j > 0 {
        lemma_progress_typed_prefix(steps, start, j - 1);
        lemma_take_step(steps, j - 1);
        lemma_keystrokes_step(steps, j - 1);
    } else {
        assert(steps.take(0) =~= Seq::<TypingStep>::empty());
    }
}

proof fn lemma_session_keystrokes(text: Seq<char>, web: bool, dismiss: bool)
    ensures
        keystrokes(session_plan(text, web, dismiss)) <= text.len(),
{
    let lines = split_lines(text);
    let n = lines.len() as int;
    lemma_split_lines_len(text);
    lemma_typed_before_bound(lines, n, web);
    lemma_produced_lines(lines, n, web, dismiss);
    let pre = prelude_steps(dismiss);
    let a = seq![TypingStep::StartupDelay, TypingStep::CheckLineCancel];
    let b = seq![TypingStep::BeginTyping];
    lemma_produced_small(a);
    lemma_produced_small(b);
    lemma_produced_dismiss(dismiss);
    lemma_produced_concat(a, dismiss_step(dismiss));
    lemma_produced_concat(a + dismiss_step(dismiss), b);
    lemma_produced_concat(pre, lines_plan(lines, n, web, dismiss));
}

/// Over a session started with nothing typed, at every step: the shared
/// keystroke count is exactly the keystrokes made so far, never decreases and
/// never exceeds the text's length; the progress count never decreases, never
/// exceeds the text's length, and its total stays the one it started with.
pub proof fn law_typed_counts_grow_within_text(
    text: Seq<char>,
    web: bool,
    dismiss: bool,
    start: TypingProgress,
    j: int,
)
    requires
        text.len() + 5 <= usize::MAX,
        start.typed_chars == 0,
        0 <= j < session_plan(text, web, dismiss).len(),
    ensures
        counter_after_steps(0, session_plan(text, web, dismiss).take(j)) == keystrokes(
            session_plan(text, web, dismiss).take(j),
        ),
        counter_after_steps(0, session_plan(text, web, dismiss).take(j)) <= counter_after_steps(
            0,
            session_plan(text, web, dismiss).take(j + 1),
        ),
        counter_after_steps(0, session_plan(text, web, dismiss).take(j + 1)) <= text.len(),
        progress_after_steps(start, session_plan(text, web, dismiss).take(j)).typed_chars
            <= progress_after_steps(start, session_plan(text, web, dismiss).take(j + 1)).typed_chars,
        progress_after_steps(start, session_plan(text, web, dismiss).take(j + 1)).typed_chars
            <= text.len(),
        progress_after_steps(start, session_plan(text, web, dismiss).take(j + 1)).total_chars
            == start.total_chars,
{
    let plan = session_plan(text, web, dismiss);
    law_session_pacing_and_progress(text, web, dismiss);
    lemma_counter_prefix(plan, j);
    lemma_counter_prefix(plan, j + 1);
    lemma_keystrokes_step(plan, j);
    lemma_keystrokes_prefix(plan, j + 1);
    lemma_session_keystrokes(text, web, dismiss);
    lemma_progress_typed_prefix(plan, start, j);
    lemma_progress_typed_prefix(plan, start, j + 1);
    lemma_take_step(plan, j);
    lemma_total_kept(start, plan.take(j + 1));
}


// ---------------------------------------------------------------------------
// Cursor moves over excess indentation
// ---------------------------------------------------------------------------

/// How many times `steps` move the cursor left.
pub open spec fn cursor_moves(steps: Seq<TypingStep>) -> nat
    decreases steps.len(),
{
    if steps.len() == 0 {
        0
    } else {
        cursor_moves(steps.drop_last()) + if steps.last() is CursorLeft {
            1nat
        } else {
            0nat
        }
    }
}

proof fn lemma_moves_concat(a: Seq<TypingStep>, b: Seq<TypingStep>)
    ensures
        cursor_moves(a + b) == cursor_moves(a) + cursor_moves(b),
    decreases b.len(),
{
    if b.len() == 0 {
        assert(a + b =~= a);
    } else {
        lemma_moves_concat(a, b.drop_last());
        assert((a + b).drop_last() =~= a + b.drop_last());
        assert((a + b).last() == b.last());
    }
}

proof fn lemma_moves_none(s: Seq<TypingStep>)
    requires
        forall|i: int| 0 <= i < s.len() ==> !(#[trigger] s[i] is CursorLeft),
    ensures
        cursor_moves(s) == 0,
    decreases s.len(),
{
    if s.len() > 0 {
        let d = s.drop_last();
        assert forall|i: int| 0 <= i < d.len() implies !(#[trigger] d[i] is CursorLeft) by {
            assert(d[i] == s[i]);
        }
        lemma_moves_none(d);
        assert(!(s[s.len() - 1] is CursorLeft));
    }
}

proof fn lemma_moves_key_steps(buf: Seq<char>)
    ensures
        cursor_moves(key_steps(buf)) == 0,
    decreases buf.len(),
{
    if buf.len() > 0 {
        lemma_moves_key_steps(buf.drop_last());
        let tail = seq![TypingStep::CheckKeyCancel, type_char_step(buf.last())];
        lemma_moves_concat(key_steps(buf.drop_last()), tail);
        lemma_moves_none(tail);
    } else {
        assert(key_steps(buf) =~= Seq::<TypingStep>::empty());
    }
}

proof fn lemma_moves_content(s: Seq<char>, buf: Seq<char>, dismiss: bool)
    ensures
        cursor_moves(content_steps_from(s, buf, dismiss)) == 0,
    decreases s.len(),
{
    if s.len() == 0 {
        lemma_moves_key_steps(buf);
    } else {
        let c = s[0];
        let rest = s.drop_first();
        let chk = seq![TypingStep::CheckKeyCancel];
        lemma_moves_none(chk);
        if c == '\t' {
            lemma_moves_content(rest, seq![], dismiss);
            lemma_moves_key_steps(buf);
            let tab = seq![TypingStep::TabKey];
            lemma_moves_none(tab);
            lemma_moves_concat(chk, key_steps(buf));
            lemma_moves_concat(chk + key_steps(buf), tab);
            lemma_moves_concat(chk + key_steps(buf) + tab, content_steps_from(rest, seq![], dismiss));
        } else if is_trigger(c) {
            lemma_moves_content(rest, seq![], dismiss);
            lemma_moves_key_steps(buf);
            let t = trigger_steps(c, dismiss);
            assert forall|i: int| 0 <= i < t.len() implies !(#[trigger] t[i] is CursorLeft) by {
                if dismiss {
                    assert(t =~= seq![
                        type_char_step(c),
                        TypingStep::TriggerPause,
                        TypingStep::DismissAfterTrigger,
                    ]);
                } else {
                    assert(t =~= seq![type_char_step(c), TypingStep::TriggerPause]);
                }
            }
            lemma_moves_none(t);
            lemma_moves_concat(chk, key_steps(buf));
            lemma_moves_concat(chk + key_steps(buf), t);
            lemma_moves_concat(chk + key_steps(buf) + t, content_steps_from(rest, seq![], dismiss));
        } else {
            lemma_moves_content(rest, buf.push(c), dismiss);
            lemma_moves_concat(chk, content_steps_from(rest, buf.push(c), dismiss));
        }
    }
}

proof fn lemma_moves_cursor_lefts(n: nat)
    ensures
        cursor_moves(cursor_lefts(n)) == n,
    decreases n,
{
    if n > 0 {
        lemma_moves_cursor_lefts((n - 1) as nat);
        assert(cursor_lefts(n).drop_last() =~= cursor_lefts((n - 1) as nat));
    }
}

proof fn lemma_moves_indent_keys(s: Seq<char>)
    ensures
        cursor_moves(indent_keys(s)) == 0,
{
    let k = indent_keys(s);
    assert forall|i: int| 0 <= i < k.len() implies !(#[trigger] k[i] is CursorLeft) by {}
    lemma_moves_none(k);
}

/// In smart-indentation mode, a non-empty line after a line break moves the
/// cursor left exactly over the excess of the indentation the editor inserted
/// (the predicted indentation of the line before) beyond the line's own
/// indentation, and not at all when there is no excess; the first line and
/// empty lines move it not at all.
pub proof fn law_cursor_moves_over_excess_indent(lines: Seq<Seq<char>>, i: int, dismiss: bool)
    requires
        0 <= i < lines.len(),
    ensures
        i > 0 && lines[i].len() > 0 && predicted_indent(lines[i - 1]).len() > indent_width(
            lines[i],
        ) ==> cursor_moves(body_steps(lines, i, true, dismiss)) + indent_width(lines[i])
            == predicted_indent(lines[i - 1]).len(),
        !(i > 0 && lines[i].len() > 0 && predicted_indent(lines[i - 1]).len() > indent_width(
            lines[i],
        )) ==> cursor_moves(body_steps(lines, i, true, dismiss)) == 0,
        cursor_moves(body_steps(lines, i, false, dismiss)) == 0,
{
    let line = lines[i];
    lemma_moves_content(line, seq![], dismiss);
    if line.len() > 0 {
        let w = indent_width(line);
        let p = prior_indent(lines, i);
        let adj = indent_adjust(line, p);
        let body = content_steps(line.skip(w as int), dismiss);
        lemma_moves_content(line.skip(w as int), seq![], dismiss);
        lemma_moves_concat(adj, body);
        if w > p {
            lemma_moves_indent_keys(line.subrange(p as int, w as int));
        } else if p > w {
            lemma_moves_cursor_lefts((p - w) as nat);
        } else {
            assert(adj =~= Seq::<TypingStep>::empty());
        }
    }
}

} // verus!
