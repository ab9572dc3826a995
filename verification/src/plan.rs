use vstd::prelude::*;

use crate::text::{
    chars_of, indent_width, indent_width_of, is_trigger, is_trigger_char, predicted_indent,
    predicted_indent_len, lemma_indent_width,
};

verus! {

/// One step of a typing session, in the order in which it is carried out.
///
/// The steps that press a key which ends up in the target field
/// (`Enter`, `IndentKey`, `TypeChar`, `TabKey`) are the session's keystrokes;
/// the progress figures that `Enter` and `LineDone` carry count them.
#[derive(Clone, Copy, Debug, PartialEq, Eq)]
pub enum TypingStep {
    /// Wait out the start-up countdown.
    StartupDelay,
    /// Between lines: if a stop was requested, mark the session canceled and stop
    /// (see `progress::cancel_check`).
    CheckLineCancel,
    /// Inside a line, before a key: if a stop was requested, mark the session
    /// canceled and stop (see `progress::cancel_check`).
    CheckKeyCancel,
    /// Press Escape to close editor pop-ups, then let the cursor settle.
    DismissOverlays,
    /// The session moves from its countdown to typing.
    BeginTyping,
    /// Let the input queue drain before a line break.
    PreEnterPause,
    /// Press Return; `line` is the (one-based) line now being typed and
    /// `typed` the number of keystrokes made so far.
    Enter { line: usize, typed: usize },
    /// Pause after a line break.
    LineBreakPause,
    /// Press Space or Tab for indentation the editor did not insert itself.
    IndentKey(char),
    /// Move the cursor left over indentation the editor inserted in excess.
    CursorLeft,
    /// Type one character the way a person would.
    TypeChar(char),
    /// Press Tab inside a line's content.
    TabKey,
    /// Pause after a completion-triggering character.
    TriggerPause,
    /// Press Escape after a completion-triggering character.
    DismissAfterTrigger,
    /// A line is done; `typed` keystrokes have been made so far.
    LineDone { typed: usize },
}

/// The step that types `c`.
pub open spec fn type_char_step(c: char) -> TypingStep {
    TypingStep::TypeChar(c)
}

/// The step that presses the indentation key for `c`.
pub open spec fn indent_key_step(c: char) -> TypingStep {
    TypingStep::IndentKey(c)
}

/// The lines of a text: its pieces between line feeds (the last one may be empty).
pub open spec fn split_lines(s: Seq<char>) -> Seq<Seq<char>>
    decreases s.len(),
{
    if s.len() == 0 {
        seq![Seq::<char>::empty()]
    } else {
        let parts = split_lines(s.drop_last());
        if s.last() == '\n' {
            parts.push(Seq::<char>::empty())
        } else {
            parts.update(parts.len() - 1, extend_line(parts.last(), s.last()))
        }
    }
}

/// `line` with `c` added at its end.
pub open spec fn extend_line(line: Seq<char>, c: char) -> Seq<char> {
    line.push(c)
}

/// Characters of the first `k` lines, one more for each line's break.
pub open spec fn lines_len_before(lines: Seq<Seq<char>>, k: int) -> nat
    decreases k,
{
    if k <= 0 {
        0
    } else {
        lines_len_before(lines, k - 1) + lines[k - 1].len() + 1
    }
}

/// The keystrokes of buffered characters: each is typed after a cancel check.
pub open spec fn key_steps(buf: Seq<char>) -> Seq<TypingStep>
    decreases buf.len(),
{
    if buf.len() == 0 {
        seq![]
    } else {
        key_steps(buf.drop_last()) + seq![TypingStep::CheckKeyCancel, type_char_step(buf.last())]
    }
}

/// What follows a completion-triggering character.
pub open spec fn trigger_steps(c: char, dismiss: bool) -> Seq<TypingStep> {
    seq![type_char_step(c), TypingStep::TriggerPause] + if dismiss {
        seq![TypingStep::DismissAfterTrigger]
    } else {
        seq![]
    }
}

/// How a line's content is typed when `buf` holds characters read but not yet typed:
/// every character read is preceded by a cancel check; plain characters wait in the
/// buffer; a tab or a completion trigger first types the buffer out, then itself.
pub open spec fn content_steps_from(s: Seq<char>, buf: Seq<char>, dismiss: bool) -> Seq<TypingStep>
    decreases s.len(),
{
    if s.len() == 0 {
        key_steps(buf)
    } else {
        let c = s[0];
        let rest = s.drop_first();
        if c == '\t' {
            seq![TypingStep::CheckKeyCancel] + key_steps(buf) + seq![TypingStep::TabKey]
                + content_steps_from(rest, seq![], dismiss)
        } else if is_trigger(c) {
            seq![TypingStep::CheckKeyCancel] + key_steps(buf) + trigger_steps(c, dismiss)
                + content_steps_from(rest, seq![], dismiss)
        } else {
            seq![TypingStep::CheckKeyCancel] + content_steps_from(rest, buf.push(c), dismiss)
        }
    }
}

/// How the content `s` of a line is typed.
pub open spec fn content_steps(s: Seq<char>, dismiss: bool) -> Seq<TypingStep> {
    content_steps_from(s, seq![], dismiss)
}

pub open spec fn dismiss_step(dismiss: bool) -> Seq<TypingStep> {
    if dismiss {
        seq![TypingStep::DismissOverlays]
    } else {
        seq![]
    }
}

/// The line break typed before line `i` (none before the first line).
pub open spec fn enter_steps(i: int, typed0: nat, dismiss: bool) -> Seq<TypingStep> {
    if i > 0 {
        seq![TypingStep::PreEnterPause] + dismiss_step(dismiss) + seq![
            TypingStep::Enter { line: (i + 1) as usize, typed: (typed0 + 1) as usize },
            TypingStep::LineBreakPause,
        ] + dismiss_step(dismiss)
    } else {
        seq![]
    }
}

/// Length of the indentation the editor inserts by itself at the start of line `i`.
pub open spec fn prior_indent(lines: Seq<Seq<char>>, i: int) -> nat {
    if i > 0 {
        predicted_indent(lines[i - 1]).len()
    } else {
        0
    }
}

/// Space and Tab presses that type the indentation characters `s`.
pub open spec fn indent_keys(s: Seq<char>) -> Seq<TypingStep> {
    s.map_values(|c: char| indent_key_step(c))
}

/// `n` cursor moves to the left.
pub open spec fn cursor_lefts(n: nat) -> Seq<TypingStep> {
    Seq::new(n, |_j: int| TypingStep::CursorLeft)
}

/// Keys that turn `p` characters of editor-inserted indentation into the
/// indentation of `line`: the missing spaces and tabs, or cursor moves over the excess.
pub open spec fn indent_adjust(line: Seq<char>, p: nat) -> Seq<TypingStep> {
    let w = indent_width(line);
    if w > p {
        indent_keys(line.subrange(p as int, w as int))
    } else if p > w {
        cursor_lefts((p - w) as nat)
    } else {
        seq![]
    }
}

/// How line `i` itself (not its break) is typed.
pub open spec fn body_steps(lines: Seq<Seq<char>>, i: int, web: bool, dismiss: bool) -> Seq<
    TypingStep,
> {
    let line = lines[i];
    if web && line.len() > 0 {
        indent_adjust(line, prior_indent(lines, i)) + content_steps(
            line.skip(indent_width(line) as int),
            dismiss,
        )
    } else {
        content_steps(line, dismiss)
    }
}

/// Keystrokes that typing line `i` itself makes (its line break not included).
pub open spec fn body_units(lines: Seq<Seq<char>>, i: int, web: bool) -> nat {
    let line = lines[i];
    if web && line.len() > 0 {
        let w = indent_width(line);
        let p = prior_indent(lines, i);
        let extra: nat = if w > p {
            (w - p) as nat
        } else {
            0
        };
        extra + (line.len() - w) as nat
    } else {
        line.len()
    }
}

/// Keystrokes that line `i` adds, its line break included.
pub open spec fn line_units(lines: Seq<Seq<char>>, i: int, web: bool) -> nat {
    (if i > 0 {
        1nat
    } else {
        0nat
    }) + body_units(lines, i, web)
}

/// Keystrokes made before line `k` starts.
pub open spec fn typed_before(lines: Seq<Seq<char>>, k: int, web: bool) -> nat
    decreases k,
{
    if k <= 0 {
        0
    } else {
        typed_before(lines, k - 1, web) + line_units(lines, k - 1, web)
    }
}

/// The steps of line `i`, given `typed0` keystrokes before it.
pub open spec fn line_plan(
    lines: Seq<Seq<char>>,
    i: int,
    typed0: nat,
    web: bool,
    dismiss: bool,
) -> Seq<TypingStep> {
    seq![TypingStep::CheckLineCancel] + enter_steps(i, typed0, dismiss) + seq![
        TypingStep::CheckLineCancel,
    ] + body_steps(lines, i, web, dismiss) + seq![
        TypingStep::LineDone { typed: (typed0 + line_units(lines, i, web)) as usize },
    ]
}

/// The steps of the first `k` lines.
pub open spec fn lines_plan(lines: Seq<Seq<char>>, k: int, web: bool, dismiss: bool) -> Seq<
    TypingStep,
>
    decreases k,
{
    if k <= 0 {
        seq![]
    } else {
        lines_plan(lines, k - 1, web, dismiss) + line_plan(
            lines,
            k - 1,
            typed_before(lines, k - 1, web),
            web,
            dismiss,
        )
    }
}

/// What comes before the first line: the countdown, a cancel check, and
/// (when pop-ups are dismissed) one Escape.
pub open spec fn prelude_steps(dismiss: bool) -> Seq<TypingStep> {
    seq![TypingStep::StartupDelay, TypingStep::CheckLineCancel] + dismiss_step(dismiss) + seq![
        TypingStep::BeginTyping,
    ]
}

/// The whole typing session for `text`.
pub open spec fn session_plan(text: Seq<char>, web: bool, dismiss: bool) -> Seq<TypingStep> {
    let lines = split_lines(text);
    prelude_steps(dismiss) + lines_plan(lines, lines.len() as int, web, dismiss)
}

pub open spec fn lines_view(v: Seq<Vec<char>>) -> Seq<Seq<char>> {
    v.map_values(|l: Vec<char>| l@)
}

// ---------------------------------------------------------------------------
// Facts about lines
// ---------------------------------------------------------------------------

pub proof fn lemma_split_lines_len(s: Seq<char>)
    ensures
        split_lines(s).len() >= 1,
        lines_len_before(split_lines(s), split_lines(s).len() as int) == s.len() + 1,
    decreases s.len(),
{
    if s.len() > 0 {
        let parts = split_lines(s.drop_last());
        lemma_split_lines_len(s.drop_last());
        let n = parts.len() as int;
        if s.last() == '\n' {
            let q = parts.push(Seq::<char>::empty());
            assert forall|j: int| 0 <= j < n implies #[trigger] parts[j] == q[j] by {}
            lemma_lines_len_before_agree(parts, q, n);
            assert(split_lines(s) == q);
            assert(lines_len_before(q, n + 1) == lines_len_before(q, n) + 1);
        } else {
            let q = parts.update(n - 1, extend_line(parts.last(), s.last()));
            assert forall|j: int| 0 <= j < n - 1 implies #[trigger] parts[j] == q[j] by {}
            lemma_lines_len_before_agree(parts, q, n - 1);
            assert(split_lines(s) == q);
            assert(lines_len_before(q, n) == lines_len_before(q, n - 1) + q[n - 1].len() + 1);
            assert(lines_len_before(parts, n) == lines_len_before(parts, n - 1) + parts[n - 1].len() + 1);
        }
    } else {
        let q = split_lines(s);
        assert(lines_len_before(q, 0) == 0);
        assert(lines_len_before(q, 1) == lines_len_before(q, 0) + q[0].len() + 1);
    }
}

/// `lines_len_before` only looks at the first `k` lines.
pub proof fn lemma_lines_len_before_agree(a: Seq<Seq<char>>, b: Seq<Seq<char>>, k: int)
    requires
        0 <= k <= a.len(),
        k <= b.len(),
        forall|j: int| 0 <= j < k ==> #[trigger] a[j] == b[j],
    ensures
        lines_len_before(a, k) == lines_len_before(b, k),
    decreases k,
{
    if k > 0 {
        lemma_lines_len_before_agree(a, b, k - 1);
    }
}

pub proof fn lemma_lines_len_before_mono(lines: Seq<Seq<char>>, j: int, k: int)
    requires
        0 <= j <= k,
    ensures
        lines_len_before(lines, j) <= lines_len_before(lines, k),
    decreases k,
{
    if j < k {
        lemma_lines_len_before_mono(lines, j, k - 1);
    }
}

/// Each line counts at least its line break.
pub proof fn lemma_lines_len_before_at_least(lines: Seq<Seq<char>>, k: int)
    requires
        0 <= k,
    ensures
        k <= lines_len_before(lines, k),
    decreases k,
{
    if k > 0 {
        lemma_lines_len_before_at_least(lines, k - 1);
    }
}

pub proof fn lemma_typed_before_bound(lines: Seq<Seq<char>>, k: int, web: bool)
    requires
        0 <= k <= lines.len(),
    ensures
        typed_before(lines, k, web) <= lines_len_before(lines, k),
        k > 0 ==> typed_before(lines, k, web) + 1 <= lines_len_before(lines, k),
    decreases k,
{
    if k > 0 {
        lemma_typed_before_bound(lines, k - 1, web);
        let line = lines[k - 1];
        lemma_indent_width(line);
    }
}

// ---------------------------------------------------------------------------
// Building the plan
// ---------------------------------------------------------------------------

/// Splits a text's characters into lines at each line feed.
pub fn split_lines_of(chars: &Vec<char>) -> (lines: Vec<Vec<char>>)
    ensures
        lines_view(lines@) == split_lines(chars@),
{
    let n = chars.len();
    let mut done: Vec<Vec<char>> = Vec::new();
    let mut cur: Vec<char> = Vec::new();
    proof {
        assert(chars@.take(0) =~= Seq::<char>::empty());
        assert(lines_view(done@).push(cur@) =~= split_lines(chars@.take(0)));
    }
    for i in 0..n
        invariant
            n == chars@.len(),
            lines_view(done@).push(cur@) == split_lines(chars@.take(i as int)),
    {
        let c = chars[i];
        proof {
            assert(chars@.take(i + 1).drop_last() =~= chars@.take(i as int));
            assert(chars@.take(i + 1).last() == c);
            lemma_split_lines_len(chars@.take(i as int));
        }
        if c == '\n' {
            let ghost old_done = done@;
            let finished = cur;
            done.push(finished);
            cur = Vec::new();
            proof {
                assert(lines_view(done@) =~= lines_view(old_done).push(finished@));
                assert(lines_view(done@).push(cur@) =~= split_lines(chars@.take(i + 1)));
            }
        } else {
            let ghost old_cur = cur@;
            cur.push(c);
            proof {
                let parts = lines_view(done@).push(old_cur);
                assert(lines_view(done@).push(cur@) =~= parts.update(
                    parts.len() - 1,
                    extend_line(parts.last(), c),
                ));
            }
        }
    }
    let ghost old_done = done@;
    let last = cur;
    done.push(last);
    proof {
        assert(chars@.take(n as int) =~= chars@);
        assert(lines_view(done@) =~= lines_view(old_done).push(last@));
    }
    done
}

fn push_key_steps(steps: &mut Vec<TypingStep>, buf: &Vec<char>)
    ensures
        final(steps)@ == old(steps)@ + key_steps(buf@),
{
    let n = buf.len();
    let ghost start = steps@;
    proof {
        assert(buf@.take(0) =~= Seq::<char>::empty());
        assert(steps@ =~= start + key_steps(buf@.take(0)));
    }
    for j in 0..n
        invariant
            n == buf@.len(),
            steps@ == start + key_steps(buf@.take(j as int)),
    {
        steps.push(TypingStep::CheckKeyCancel);
        steps.push(TypingStep::TypeChar(buf[j]));
        proof {
            assert(buf@.take(j + 1).drop_last() =~= buf@.take(j as int));
            assert(buf@.take(j + 1).last() == buf@[j as int]);
            assert(key_steps(buf@.take(j + 1)) == key_steps(buf@.take(j as int)) + seq![
                TypingStep::CheckKeyCancel,
                type_char_step(buf@[j as int]),
            ]);
            assert(steps@ =~= start + key_steps(buf@.take(j + 1)));
        }
    }
    proof {
        assert(buf@.take(n as int) =~= buf@);
    }
}

/// Appends the steps that type `line[start..]` as a line's content.
fn push_content_steps(steps: &mut Vec<TypingStep>, line: &Vec<char>, start: usize, dismiss: bool)
    requires
        start <= line@.len(),
    ensures
        final(steps)@ == old(steps)@ + content_steps(line@.skip(start as int), dismiss),
{
    let n = line.len();
    let ghost base = steps@;
    let mut buf: Vec<char> = Vec::new();
    proof {
        assert(steps@ + content_steps_from(line@.skip(start as int), buf@, dismiss) =~= base
            + content_steps(line@.skip(start as int), dismiss));
    }
    for i in start..n
        invariant
            n == line@.len(),
            start <= n,
            steps@ + content_steps_from(line@.skip(i as int), buf@, dismiss) == base
                + content_steps(line@.skip(start as int), dismiss),
    {
        let c = line[i];
        let ghost rest = line@.skip(i + 1);
        let ghost before = steps@;
        let ghost old_buf = buf@;
        proof {
            assert(line@.skip(i as int)[0] == c);
            assert(line@.skip(i as int).drop_first() =~= rest);
        }
        steps.push(TypingStep::CheckKeyCancel);
        if c == '\t' {
            push_key_steps(steps, &buf);
            steps.push(TypingStep::TabKey);
            buf = Vec::new();
            proof {
                assert(steps@ + content_steps_from(rest, buf@, dismiss) =~= before
                    + content_steps_from(line@.skip(i as int), old_buf, dismiss));
            }
        } else if is_trigger_char(c) {
            push_key_steps(steps, &buf);
            steps.push(TypingStep::TypeChar(c));
            steps.push(TypingStep::TriggerPause);
            if dismiss {
                steps.push(TypingStep::DismissAfterTrigger);
            }
            buf = Vec::new();
            proof {
                assert(steps@ + content_steps_from(rest, buf@, dismiss) =~= before
                    + content_steps_from(line@.skip(i as int), old_buf, dismiss));
            }
        } else {
            buf.push(c);
            proof {
                assert(steps@ + content_steps_from(rest, buf@, dismiss) =~= before
                    + content_steps_from(line@.skip(i as int), old_buf, dismiss));
            }
        }
    }
    let ghost before = steps@;
    push_key_steps(steps, &buf);
    proof {
        assert(line@.skip(n as int) =~= Seq::<char>::empty());
    }
}

/// Appends the keys that turn `p` characters of editor-inserted indentation
/// into the `w` characters of indentation that `line` starts with.
fn push_indent_adjust(steps: &mut Vec<TypingStep>, line: &Vec<char>, w: usize, p: usize)
    requires
        w == indent_width(line@),
        w <= line@.len(),
    ensures
        final(steps)@ == old(steps)@ + indent_adjust(line@, p as nat),
{
    let ghost head = steps@;
    if w > p {
        proof {
            assert(line@.subrange(p as int, p as int) =~= Seq::<char>::empty());
            assert(indent_keys(Seq::<char>::empty()) =~= Seq::<TypingStep>::empty());
            assert(steps@ =~= head + indent_keys(line@.subrange(p as int, p as int)));
        }
        for j in p..w
            invariant
                p <= w,
                w <= line@.len(),
                steps@ == head + indent_keys(line@.subrange(p as int, j as int)),
        {
            steps.push(TypingStep::IndentKey(line[j]));
            proof {
                assert(line@.subrange(p as int, j + 1) =~= line@.subrange(p as int, j as int).push(
                    line@[j as int],
                ));
                assert(indent_keys(line@.subrange(p as int, j + 1)) =~= indent_keys(
                    line@.subrange(p as int, j as int),
                ).push(indent_key_step(line@[j as int])));
            }
        }
    } else if p > w {
        let k = p - w;
        proof {
            assert(steps@ =~= head + cursor_lefts(0));
        }
        for j in 0..k
            invariant
                steps@ == head + cursor_lefts(j as nat),
        {
            steps.push(TypingStep::CursorLeft);
            proof {
                assert(cursor_lefts((j + 1) as nat) =~= cursor_lefts(j as nat).push(
                    TypingStep::CursorLeft,
                ));
            }
        }
    } else {
        proof {
            assert(steps@ =~= head + indent_adjust(line@, p as nat));
        }
    }
}

fn push_enter_steps(steps: &mut Vec<TypingStep>, i: usize, typed0: usize, dismiss: bool)
    requires
        i < usize::MAX,
        typed0 < usize::MAX,
    ensures
        final(steps)@ == old(steps)@ + enter_steps(i as int, typed0 as nat, dismiss),
{
    let ghost base = steps@;
    if i > 0 {
        steps.push(TypingStep::PreEnterPause);
        if dismiss {
            steps.push(TypingStep::DismissOverlays);
        }
        steps.push(TypingStep::Enter { line: i + 1, typed: typed0 + 1 });
        steps.push(TypingStep::LineBreakPause);
        if dismiss {
            steps.push(TypingStep::DismissOverlays);
        }
    }
    proof {
        assert(steps@ =~= base + enter_steps(i as int, typed0 as nat, dismiss));
    }
}

/// Appends the steps that type line `i` itself; returns how many keystrokes they make.
fn push_body_steps(
    steps: &mut Vec<TypingStep>,
    lines: &Vec<Vec<char>>,
    i: usize,
    web: bool,
    dismiss: bool,
) -> (units: usize)
    requires
        i < lines@.len(),
        i > 0 ==> lines@[i - 1]@.len() + 4 <= usize::MAX,
    ensures
        final(steps)@ == old(steps)@ + body_steps(lines_view(lines@), i as int, web, dismiss),
        units == body_units(lines_view(lines@), i as int, web),
{
    let ghost lv = lines_view(lines@);
    proof {
        assert(lv[i as int] == lines@[i as int]@);
        if i > 0 {
            assert(lv[i - 1] == lines@[i - 1]@);
        }
    }
    let line = &lines[i];
    if web && line.len() > 0 {
        let w = indent_width_of(line.as_slice());
        let p = if i > 0 {
            predicted_indent_len(lines[i - 1].as_slice())
        } else {
            0
        };
        proof {
            lemma_indent_width(line@);
            assert(p == prior_indent(lv, i as int));
        }
        push_indent_adjust(steps, line, w, p);
        push_content_steps(steps, line, w, dismiss);
        let extra = if w > p {
            w - p
        } else {
            0
        };
        extra + (line.len() - w)
    } else {
        push_content_steps(steps, line, 0, dismiss);
        proof {
            assert(line@.skip(0) =~= line@);
        }
        line.len()
    }
}

/// Appends the steps of line `i`, given `typed0` keystrokes before it;
/// returns the keystroke count after it.
#[verifier::spinoff_prover]
#[verifier::rlimit(40)]
fn push_line_steps(
    steps: &mut Vec<TypingStep>,
    lines: &Vec<Vec<char>>,
    i: usize,
    typed0: usize,
    web: bool,
    dismiss: bool,
) -> (typed: usize)
    requires
        i < lines@.len(),
        typed0 == typed_before(lines_view(lines@), i as int, web),
        lines_len_before(lines_view(lines@), lines@.len() as int) + 4 <= usize::MAX,
    ensures
        final(steps)@ == old(steps)@ + line_plan(lines_view(lines@), i as int, typed0 as nat, web, dismiss),
        typed == typed0 + line_units(lines_view(lines@), i as int, web),
{
    let ghost lv = lines_view(lines@);
    let ghost base = steps@;
    proof {
        lemma_typed_before_bound(lv, i as int + 1, web);
        lemma_lines_len_before_mono(lv, i as int + 1, lines@.len() as int);
        lemma_lines_len_before_at_least(lv, i as int + 1);
        if i > 0 {
            lemma_lines_len_before_mono(lv, i as int, lines@.len() as int);
            assert(lv[i - 1] == lines@[i - 1]@);
        }
    }
    steps.push(TypingStep::CheckLineCancel);
    push_enter_steps(steps, i, typed0, dismiss);
    steps.push(TypingStep::CheckLineCancel);
    let units = push_body_steps(steps, lines, i, web, dismiss);
    let typed = if i > 0 {
        typed0 + 1 + units
    } else {
        typed0 + units
    };
    steps.push(TypingStep::LineDone { typed });
    proof {
        assert(steps@ =~= base + line_plan(lv, i as int, typed0 as nat, web, dismiss));
    }
    typed
}

/// The steps of a typing session for `text`.
///
/// `web_ide_mode` types each non-empty line's indentation relative to what a
/// Python-aware editor inserts by itself after a line break;
/// `dismiss_suggestions` presses Escape after line breaks and completion triggers.
pub fn plan_typing(text: &str, web_ide_mode: bool, dismiss_suggestions: bool) -> (steps: Vec<
    TypingStep,
>)
    requires
        text@.len() + 5 <= usize::MAX,
    ensures
        steps@ == session_plan(text@, web_ide_mode, dismiss_suggestions),
{
    let chars = chars_of(text);
    let lines = split_lines_of(&chars);
    let ghost lv = lines_view(lines@);
    proof {
        lemma_split_lines_len(text@);
    }
    let mut steps: Vec<TypingStep> = Vec::new();
    steps.push(TypingStep::StartupDelay);
    steps.push(TypingStep::CheckLineCancel);
    if dismiss_suggestions {
        steps.push(TypingStep::DismissOverlays);
    }
    steps.push(TypingStep::BeginTyping);
    let ghost pre = steps@;
    proof {
        assert(pre =~= prelude_steps(dismiss_suggestions));
        assert(steps@ =~= pre + lines_plan(lv, 0, web_ide_mode, dismiss_suggestions));
    }
    let n = lines.len();
    let mut typed: usize = 0;
    for i in 0..n
        invariant
            n == lines@.len(),
            lv == lines_view(lines@),
            lines_len_before(lv, n as int) == text@.len() + 1,
            text@.len() + 5 <= usize::MAX,
            typed == typed_before(lv, i as int, web_ide_mode),
            steps@ == pre + lines_plan(lv, i as int, web_ide_mode, dismiss_suggestions),
    {
        typed = push_line_steps(&mut steps, &lines, i, typed, web_ide_mode, dismiss_suggestions);
        proof {
            assert(steps@ =~= pre + lines_plan(lv, i + 1, web_ide_mode, dismiss_suggestions));
        }
    }
    steps
}

} // verus!
