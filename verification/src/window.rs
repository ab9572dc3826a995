use vstd::prelude::*;
use vstd::utf8::{decode_utf8, valid_utf8};

use crate::text::{chars_of, is_unicode_whitespace, is_whitespace_char};

verus! {

/// A top-level window that typing can be aimed at.
#[derive(Clone, Debug)]
pub struct WindowInfo {
    pub id: u64,
    pub title: String,
    pub process_name: String,
}

/// Entry shown in the picker that means "I'll click the target myself".
pub const CUSTOM_PICKER_ID: u64 = 0;

/// A window as plain values: id, title, process name.
pub open spec fn window_view(w: WindowInfo) -> (u64, Seq<char>, Seq<char>) {
    (w.id, w.title@, w.process_name@)
}

pub open spec fn windows_view(ws: Seq<WindowInfo>) -> Seq<(u64, Seq<char>, Seq<char>)> {
    ws.map_values(|w: WindowInfo| window_view(w))
}

/// The stand-in list offered when no window can be enumerated.
pub open spec fn fallback_window_list() -> Seq<(u64, Seq<char>, Seq<char>)> {
    seq![
        (CUSTOM_PICKER_ID, "Custom (click to select)..."@, Seq::<char>::empty()),
        (1u64, "Firefox"@, "firefox"@),
        (2u64, "Chrome"@, "chrome"@),
        (3u64, "VS Code"@, "code"@),
    ]
}

/// A fixed list of common targets, headed by the "click it yourself" entry.
pub fn fallback_windows() -> (ws: Vec<WindowInfo>)
    ensures
        windows_view(ws@) == fallback_window_list(),
{
    let mut ws: Vec<WindowInfo> = Vec::new();
    ws.push(
        WindowInfo {
            id: CUSTOM_PICKER_ID,
            title: String::from_str("Custom (click to select)..."),
            process_name: String::new(),
        },
    );
    ws.push(
        WindowInfo {
            id: 1,
            title: String::from_str("Firefox"),
            process_name: String::from_str("firefox"),
        },
    );
    ws.push(
        WindowInfo {
            id: 2,
            title: String::from_str("Chrome"),
            process_name: String::from_str("chrome"),
        },
    );
    ws.push(
        WindowInfo {
            id: 3,
            title: String::from_str("VS Code"),
            process_name: String::from_str("code"),
        },
    );
    proof {
        assert(windows_view(ws@) =~= fallback_window_list());
    }
    ws
}

/// The windows to offer: those enumerated on screen, or the stand-in list
/// when enumeration failed (`None`) or found nothing.
pub fn list_windows(enumerated: Option<Vec<WindowInfo>>) -> (ws: Vec<WindowInfo>)
    ensures
        match enumerated {
            Some(found) => if found@.len() > 0 {
                ws@ == found@
            } else {
                windows_view(ws@) == fallback_window_list()
            },
            None => windows_view(ws@) == fallback_window_list(),
        },
        ws@.len() > 0,
{
    match enumerated {
        Some(found) => {
            if found.len() > 0 {
                found
            } else {
                let ws = fallback_windows();
                proof {
                    assert(windows_view(ws@).len() == ws@.len());
                }
                ws
            }
        },
        None => {
            let ws = fallback_windows();
            proof {
                assert(windows_view(ws@).len() == ws@.len());
            }
            ws
        },
    }
}

/// Whether an enumerated top-level window belongs in the list: it is mapped
/// and not an override-redirect (pop-up) window.
pub fn is_pickable_window(unmapped: bool, override_redirect: bool) -> (b: bool)
    ensures
        b == (!unmapped && !override_redirect),
{
    !unmapped && !override_redirect
}

/// Focusing a window succeeds when the verified activation produced no error,
/// whether or not focus was confirmed.
pub fn activate_window<E>(verified: Result<bool, E>) -> (r: Result<(), E>)
    ensures
        verified is Ok <==> r is Ok,
        verified matches Err(e) ==> r == Err::<(), E>(e),
{
    match verified {
        Ok(_) => Ok(()),
        Err(e) => Err(e),
    }
}

/// How many activation attempts are made when `attempts` are asked for: at least one.
pub open spec fn attempt_budget(attempts: u32) -> u32 {
    if attempts >= 1 {
        attempts
    } else {
        1
    }
}

/// What to do after an activation attempt.
#[derive(Clone, Copy, Debug, PartialEq, Eq)]
pub enum ActivationStep {
    /// The window holds the focus: report success.
    Focused,
    /// Send the activation request again.
    Retry,
    /// The budget is spent: report that focus was not confirmed.
    GiveUp,
}

/// The decision after `tries_done` activation attempts, the last of which
/// left the focus where `focused` says.
pub fn activation_step(tries_done: u32, attempts: u32, focused: bool) -> (s: ActivationStep)
    ensures
        focused ==> s == ActivationStep::Focused,
        !focused && tries_done < attempt_budget(attempts) ==> s == ActivationStep::Retry,
        !focused && tries_done >= attempt_budget(attempts) ==> s == ActivationStep::GiveUp,
{
    let budget = if attempts >= 1 {
        attempts
    } else {
        1
    };
    if focused {
        ActivationStep::Focused
    } else if tries_done < budget {
        ActivationStep::Retry
    } else {
        ActivationStep::GiveUp
    }
}

// ---------------------------------------------------------------------------
// Window properties
// ---------------------------------------------------------------------------

/// What `String::from_utf8_lossy` makes of `bytes`.
pub uninterp spec fn lossy_utf8(bytes: Seq<u8>) -> Seq<char>;

/// Decodes bytes as UTF-8, putting U+FFFD in place of invalid sequences
/// (`String::from_utf8_lossy`, then made owned). Claimed: the result is
/// `lossy_utf8` of the bytes, and valid UTF-8 is decoded exactly.
#[verifier::external_body]
fn utf8_lossy(bytes: &[u8]) -> (s: String)
    ensures
        s@ == lossy_utf8(bytes@),
        valid_utf8(bytes@) ==> s@ == decode_utf8(bytes@),
{
    String::from_utf8_lossy(bytes).into_owned()
}

/// Number of whitespace characters at the start of `s`.
pub open spec fn leading_space_len(s: Seq<char>) -> nat
    decreases s.len(),
{
    if s.len() == 0 || !is_unicode_whitespace(s[0]) {
        0
    } else {
        1 + leading_space_len(s.drop_first())
    }
}

/// Length of `s` without its trailing whitespace.
pub open spec fn content_end(s: Seq<char>) -> nat
    decreases s.len(),
{
    if s.len() > 0 && is_unicode_whitespace(s.last()) {
        content_end(s.drop_last())
    } else {
        s.len()
    }
}

/// `s` without leading and trailing whitespace (`str::trim`).
pub open spec fn trimmed(s: Seq<char>) -> Seq<char> {
    let t = s.take(content_end(s) as int);
    t.skip(leading_space_len(t) as int)
}

proof fn lemma_leading_space_unique(s: Seq<char>, k: int)
    requires
        0 <= k <= s.len(),
        forall|i: int| 0 <= i < k ==> is_unicode_whitespace(#[trigger] s[i]),
        k < s.len() ==> !is_unicode_whitespace(s[k]),
    ensures
        leading_space_len(s) == k,
    decreases s.len(),
{
    if k > 0 {
        assert(is_unicode_whitespace(s[0]));
        let t = s.drop_first();
        assert forall|i: int| 0 <= i < k - 1 implies is_unicode_whitespace(#[trigger] t[i]) by {
            assert(t[i] == s[i + 1]);
        }
        if k - 1 < t.len() {
            assert(t[k - 1] == s[k]);
        }
        lemma_leading_space_unique(t, k - 1);
    }
}

/// `s` with surrounding whitespace removed (`str::trim`).
pub fn trim_text(s: &str) -> (r: &str)
    ensures
        r@ == trimmed(s@),
{
    let chars = chars_of(s);
    let n = chars.len();
    let mut end: usize = n;
    proof {
        assert(chars@.take(n as int) =~= chars@);
    }
    while end > 0 && is_whitespace_char(chars[end - 1])
        invariant
            end <= n,
            n == chars@.len(),
            chars@ == s@,
            content_end(s@) == content_end(chars@.take(end as int)),
        decreases end,
    {
        proof {
            assert(chars@.take(end as int).drop_last() =~= chars@.take(end - 1));
        }
        end = end - 1;
    }
    proof {
        if end > 0 {
            assert(chars@.take(end as int).last() == chars@[end - 1]);
        }
        assert(content_end(chars@.take(end as int)) == end);
    }
    let mut start: usize = 0;
    while start < end && is_whitespace_char(chars[start])
        invariant
            start <= end,
            end <= n,
            n == chars@.len(),
            chars@ == s@,
            forall|i: int| 0 <= i < start ==> is_unicode_whitespace(#[trigger] chars@[i]),
        decreases end - start,
    {
        start = start + 1;
    }
    proof {
        let t = s@.take(end as int);
        assert forall|i: int| 0 <= i < start implies is_unicode_whitespace(#[trigger] t[i]) by {
            assert(t[i] == chars@[i]);
        }
        if start < end {
            assert(t[start as int] == chars@[start as int]);
        }
        lemma_leading_space_unique(t, start as int);
        assert(t.skip(start as int) =~= s@.subrange(start as int, end as int));
    }
    s.substring_char(start, end)
}

/// The title carried by an `_NET_WM_NAME` property value: the UTF-8 text,
/// trimmed; none when the property is empty.
pub fn net_wm_title(value: &[u8]) -> (title: Option<String>)
    ensures
        value@.len() == 0 ==> title is None,
        value@.len() > 0 ==> (title matches Some(t) && t@ == trimmed(lossy_utf8(value@))),
        value@.len() > 0 && valid_utf8(value@) ==> (title matches Some(t) && t@ == trimmed(
            decode_utf8(value@),
        )),
{
    if value.len() == 0 {
        None
    } else {
        let decoded = utf8_lossy(value);
        Some(String::from_str(trim_text(decoded.as_str())))
    }
}

/// The title carried by a legacy `WM_NAME` property value: the text, trimmed;
/// none when nothing is left.
pub fn legacy_title(value: &[u8]) -> (title: Option<String>)
    ensures
        trimmed(lossy_utf8(value@)).len() == 0 ==> title is None,
        trimmed(lossy_utf8(value@)).len() > 0 ==> (title matches Some(t) && t@ == trimmed(
            lossy_utf8(value@),
        )),
        valid_utf8(value@) ==> (title is None <==> trimmed(decode_utf8(value@)).len() == 0),
        valid_utf8(value@) ==> (title matches Some(t) ==> t@ == trimmed(decode_utf8(value@))),
{
    let decoded = utf8_lossy(value);
    let t = trim_text(decoded.as_str());
    if t.is_empty() {
        None
    } else {
        Some(String::from_str(t))
    }
}

/// The bytes of `v` before its trailing NUL bytes.
pub open spec fn end_before_nuls(v: Seq<u8>) -> nat
    decreases v.len(),
{
    if v.len() > 0 && v.last() == 0 {
        end_before_nuls(v.drop_last())
    } else {
        v.len()
    }
}

/// Start of the last NUL-free run of `v` (the position after its last NUL).
pub open spec fn start_after_last_nul(v: Seq<u8>) -> nat
    decreases v.len(),
{
    if v.len() > 0 && v.last() != 0 {
        start_after_last_nul(v.drop_last())
    } else {
        v.len()
    }
}

/// The last non-empty NUL-separated entry of a `WM_CLASS` value
/// (`"instance\0class\0"`): the class name.
pub open spec fn last_class_entry(v: Seq<u8>) -> Seq<u8> {
    let e = end_before_nuls(v);
    let t = v.take(e as int);
    t.skip(start_after_last_nul(t) as int)
}

/// The application name in a window's `WM_CLASS` property value: its last
/// non-empty entry, decoded; empty when there is none or the property could
/// not be read (`None`).
pub fn window_class_name(wm_class: Option<Vec<u8>>) -> (name: String)
    ensures
        match wm_class {
            Some(v) => if last_class_entry(v@).len() > 0 {
                name@ == lossy_utf8(last_class_entry(v@))
            } else {
                name@ == Seq::<char>::empty()
            },
            None => name@ == Seq::<char>::empty(),
        },
        match wm_class {
            Some(v) => last_class_entry(v@).len() > 0 && valid_utf8(last_class_entry(v@))
                ==> name@ == decode_utf8(last_class_entry(v@)),
            None => true,
        },
{
    match wm_class {
        None => String::new(),
        Some(v) => {
            let n = v.len();
            let mut end: usize = n;
            proof {
                assert(v@.take(n as int) =~= v@);
            }
            while end > 0 && v[end - 1] == 0
                invariant
                    end <= n,
                    n == v@.len(),
                    end_before_nuls(v@) == end_before_nuls(v@.take(end as int)),
                decreases end,
            {
                proof {
                    assert(v@.take(end as int).drop_last() =~= v@.take(end - 1));
                }
                end = end - 1;
            }
            proof {
                if end > 0 {
                    assert(v@.take(end as int).last() == v@[end - 1]);
                }
                assert(end_before_nuls(v@.take(end as int)) == end);
            }
            let ghost t = v@.take(end as int);
            let mut start: usize = end;
            proof {
                assert(t.take(end as int) =~= t);
            }
            while start > 0 && v[start - 1] != 0
                invariant
                    start <= end,
                    end <= n,
                    n == v@.len(),
                    t == v@.take(end as int),
                    start_after_last_nul(t) == start_after_last_nul(t.take(start as int)),
                decreases start,
            {
                proof {
                    assert(t.take(start as int).drop_last() =~= t.take(start - 1));
                    assert(t.take(start as int).last() == v@[start - 1]);
                }
                start = start - 1;
            }
            proof {
                if start > 0 {
                    assert(t.take(start as int).last() == v@[start - 1]);
                }
                assert(start_after_last_nul(t.take(start as int)) == start);
            }
            if start == end {
                proof {
                    assert(last_class_entry(v@) =~= Seq::<u8>::empty());
                }
                String::new()
            } else {
                let mut entry: Vec<u8> = Vec::new();
                for i in start..end
                    invariant
                        start <= end,
                        end <= n,
                        n == v@.len(),
                        entry@ == v@.subrange(start as int, i as int),
                {
                    entry.push(v[i]);
                    proof {
                        assert(v@.subrange(start as int, i + 1) =~= v@.subrange(
                            start as int,
                            i as int,
                        ).push(v@[i as int]));
                    }
                }
                proof {
                    assert(last_class_entry(v@) =~= v@.subrange(start as int, end as int));
                }
                utf8_lossy(entry.as_slice())
            }
        },
    }
}

} // verus!

verus! {

/// Most parents visited while looking for the focused window's title.
pub const MAX_TITLE_HOPS: u32 = 16;

/// The walk up the window tree, from the focused window towards its
/// top-level ancestor, that finds the title of the focused application.
#[derive(Clone, Copy, Debug)]
pub struct TitleWalk {
    root: u32,
    current: u32,
    hops: u32,
}

/// What the walk needs next.
#[derive(Clone, Debug)]
pub enum WalkAction {
    /// Read the title of this window and hand it to `after_title`.
    ReadTitle(u32),
    /// Read the parent of this window and hand it to `after_parent`.
    ReadParent(u32),
    /// The walk is over, with the title found if any.
    Done(Option<String>),
}

impl TitleWalk {
    #[verifier::type_invariant]
    spec fn hops_bounded(self) -> bool {
        self.hops <= MAX_TITLE_HOPS
    }

    pub closed spec fn root_spec(self) -> u32 {
        self.root
    }

    pub closed spec fn current_spec(self) -> u32 {
        self.current
    }

    pub closed spec fn hops_spec(self) -> u32 {
        self.hops
    }

    /// What to do on arriving at `current` after `hops` steps up: stop at the
    /// root or once the hop budget is spent, otherwise read its title.
    pub open spec fn arrival(root: u32, current: u32, hops: u32) -> WalkAction {
        if hops >= MAX_TITLE_HOPS || current == root {
            WalkAction::Done(None)
        } else {
            WalkAction::ReadTitle(current)
        }
    }

    fn arrive(&self) -> (a: WalkAction)
        ensures
            a == Self::arrival(self.root_spec(), self.current_spec(), self.hops_spec()),
    {
        if self.hops >= MAX_TITLE_HOPS || self.current == self.root {
            WalkAction::Done(None)
        } else {
            WalkAction::ReadTitle(self.current)
        }
    }

    /// Starts the walk at the focused window `focus`; no window has the focus
    /// when it is `0`.
    pub fn start(root: u32, focus: u32) -> (r: (TitleWalk, WalkAction))
        ensures
            r.0.root_spec() == root,
            r.0.current_spec() == focus,
            r.0.hops_spec() == 0,
            focus == 0 ==> r.1 == WalkAction::Done(None),
            focus != 0 ==> r.1 == Self::arrival(root, focus, 0),
    {
        let walk = TitleWalk { root, current: focus, hops: 0 };
        if focus == 0 {
            (walk, WalkAction::Done(None))
        } else {
            let a = walk.arrive();
            (walk, a)
        }
    }

    /// Takes the title read for the current window: a non-empty one ends the
    /// walk, otherwise the parent is needed.
    pub fn after_title(&self, title: Option<String>) -> (a: WalkAction)
        ensures
            title matches Some(t) && t@.len() > 0 ==> a == WalkAction::Done(title),
            !(title matches Some(t) && t@.len() > 0) ==> a == WalkAction::ReadParent(
                self.current_spec(),
            ),
    {
        match title {
            Some(t) => {
                if t.as_str().is_empty() {
                    WalkAction::ReadParent(self.current)
                } else {
                    WalkAction::Done(Some(t))
                }
            },
            None => WalkAction::ReadParent(self.current),
        }
    }

    /// Takes the parent read for the current window (`None` if it could not
    /// be read): the walk ends at a missing parent, at `0`, or where the window
    /// is its own parent; otherwise it moves up one step.
    pub fn after_parent(&mut self, parent: Option<u32>) -> (a: WalkAction)
        ensures
            final(self).root_spec() == old(self).root_spec(),
            match parent {
                Some(p) => if p == 0 || p == old(self).current_spec() {
                    a == WalkAction::Done(None) && *final(self) == *old(self)
                } else if old(self).hops_spec() < MAX_TITLE_HOPS {
                    &&& final(self).current_spec() == p
                    &&& final(self).hops_spec() == old(self).hops_spec() + 1
                    &&& a == Self::arrival(
                        old(self).root_spec(),
                        p,
                        (old(self).hops_spec() + 1) as u32,
                    )
                } else {
                    a == WalkAction::Done(None) && *final(self) == *old(self)
                },
                None => a == WalkAction::Done(None) && *final(self) == *old(self),
            },
    {
        proof {
            use_type_invariant(&*self);
        }
        match parent {
            Some(p) => {
                if p == 0 || p == self.current {
                    WalkAction::Done(None)
                } else if self.hops < MAX_TITLE_HOPS {
                    self.current = p;
                    self.hops = self.hops + 1;
                    self.arrive()
                } else {
                    WalkAction::Done(None)
                }
            },
            None => WalkAction::Done(None),
        }
    }
}

/// The title walk never climbs more than `MAX_TITLE_HOPS` parents: once the
/// budget is spent, arriving anywhere ends it without reading a title.
pub proof fn law_title_walk_is_bounded(root: u32, current: u32, hops: u32)
    requires
        hops >= MAX_TITLE_HOPS,
    ensures
        TitleWalk::arrival(root, current, hops) == WalkAction::Done(None),
{
}

} // verus!

verus! {

/// The climb from the window that holds the input focus up through its
/// parents, to learn whether the target window has the focus: it has when the
/// focus is on the target itself or on any of its descendants (toolkits focus
/// inner widgets).
#[derive(Debug)]
pub struct FocusCheck {
    target: u32,
    root: u32,
    visited: Vec<u32>,
    answer: Option<bool>,
}

/// What the focus check needs next.
#[derive(Clone, Copy, Debug, PartialEq, Eq, Structural)]
pub enum FocusAction {
    /// Read the parent of this window and hand it to `after_parent`.
    ReadParent(u32),
    /// The check is over: whether the target holds the focus.
    Answer(bool),
}

/// The value X11 reports as the focus when it follows the pointer
/// (`PointerRoot`); like `0` (no focus), it is no window of the tree.
pub const POINTER_ROOT: u32 = 1;

/// The decision on reaching window `w` whose windows below, `below`, are not
/// the target: the target is found, the top of the tree (`0`, `POINTER_ROOT`, the root, or a
/// window already passed) ends the climb, or the climb goes on.
pub open spec fn focus_arrival(target: u32, root: u32, below: Seq<u32>, w: u32) -> FocusAction {
    if w == target {
        FocusAction::Answer(true)
    } else if w == 0 || w == POINTER_ROOT || w == root || below.contains(w) {
        FocusAction::Answer(false)
    } else {
        FocusAction::ReadParent(w)
    }
}

impl FocusCheck {
    #[verifier::type_invariant]
    spec fn consistent(self) -> bool {
        &&& self.visited@.len() > 0
        &&& (self.visited@.contains(self.target) <==> self.answer == Some(true))
    }

    /// The window that should hold the focus.
    pub closed spec fn target_spec(&self) -> u32 {
        self.target
    }

    /// The root window of the screen.
    pub closed spec fn root_spec(&self) -> u32 {
        self.root
    }

    /// The focused window followed by the ancestors read so far, in order.
    pub closed spec fn chain(&self) -> Seq<u32> {
        self.visited@
    }

    /// The answer given, once the check is over.
    pub closed spec fn answer_spec(&self) -> Option<bool> {
        self.answer
    }

    /// Starts the check for `target` at the window `focus` that holds the input
    /// focus (`0` when none does, `POINTER_ROOT` when the focus follows the pointer).
    pub fn start(target: u32, root: u32, focus: u32) -> (r: (FocusCheck, FocusAction))
        ensures
            r.0.target_spec() == target,
            r.0.root_spec() == root,
            r.0.chain() == seq![focus],
            r.1 == focus_arrival(target, root, Seq::<u32>::empty(), focus),
            r.0.answer_spec() == match r.1 {
                FocusAction::Answer(b) => Some(b),
                FocusAction::ReadParent(_) => None,
            },
            r.0.chain().contains(target) <==> r.1 == FocusAction::Answer(true),
    {
        let mut visited: Vec<u32> = Vec::new();
        visited.push(focus);
        proof {
            assert(visited@ == seq![focus]);
            assert(visited@[0] == focus);
            assert(visited@.contains(target) <==> focus == target);
            assert(!Seq::<u32>::empty().contains(focus));
        }
        let action = if focus == target {
            FocusAction::Answer(true)
        } else if focus == 0 || focus == POINTER_ROOT || focus == root {
            FocusAction::Answer(false)
        } else {
            FocusAction::ReadParent(focus)
        };
        let answer = match action {
            FocusAction::Answer(b) => Some(b),
            FocusAction::ReadParent(_) => None,
        };
        (FocusCheck { target, root, visited, answer }, action)
    }

    /// Whether `w` is among the windows passed so far.
    fn passed(&self, w: u32) -> (b: bool)
        ensures
            b == self.chain().contains(w),
    {
        let n = self.visited.len();
        for i in 0..n
            invariant
                n == self.visited@.len(),
                forall|j: int| 0 <= j < i ==> self.visited@[j] != w,
        {
            if self.visited[i] == w {
                proof {
                    assert(self.visited@[i as int] == w);
                }
                return true;
            }
        }
        false
    }

    /// Takes the parent read for the window reached last. The target holds the
    /// focus exactly when it is the focused window or one of the ancestors
    /// read; reaching `0`, `POINTER_ROOT`, the root, or a window already passed ends the check
    /// without it.
    pub fn after_parent(&mut self, parent: u32) -> (a: FocusAction)
        ensures
            final(self).target_spec() == old(self).target_spec(),
            final(self).root_spec() == old(self).root_spec(),
            match old(self).answer_spec() {
                Some(b) => a == FocusAction::Answer(b) && final(self).chain() == old(self).chain()
                    && final(self).answer_spec() == old(self).answer_spec(),
                None => {
                    &&& final(self).chain() == old(self).chain().push(parent)
                    &&& a == focus_arrival(
                        old(self).target_spec(),
                        old(self).root_spec(),
                        old(self).chain(),
                        parent,
                    )
                    &&& final(self).answer_spec() == match a {
                        FocusAction::Answer(b) => Some(b),
                        FocusAction::ReadParent(_) => None,
                    }
                    &&& (final(self).chain().contains(final(self).target_spec()) <==> a
                        == FocusAction::Answer(true))
                },
            },
    {
        proof {
            use_type_invariant(&*self);
        }
        match self.answer {
            Some(b) => FocusAction::Answer(b),
            None => {
                let seen = self.passed(parent);
                let action = if parent == self.target {
                    FocusAction::Answer(true)
                } else if parent == 0 || parent == POINTER_ROOT || parent == self.root || seen {
                    FocusAction::Answer(false)
                } else {
                    FocusAction::ReadParent(parent)
                };
                let answer = match action {
                    FocusAction::Answer(b) => Some(b),
                    FocusAction::ReadParent(_) => None,
                };
                let mut visited: Vec<u32> = self.visited.clone();
                let ghost before = self.visited@;
                proof {
                    assert(visited@ =~= before);
                }
                visited.push(parent);
                proof {
                    assert(visited@ == before.push(parent));
                    assert(visited@[before.len() as int] == parent);
                    assert(visited@.contains(self.target) <==> (before.contains(self.target)
                        || parent == self.target)) by {
                        if visited@.contains(self.target) {
                            let j = choose|j: int|
                                0 <= j < visited@.len() && visited@[j] == self.target;
                            if j < before.len() {
                                assert(before[j] == self.target);
                            }
                        }
                        if before.contains(self.target) {
                            let j = choose|j: int|
                                0 <= j < before.len() && before[j] == self.target;
                            assert(visited@[j] == self.target);
                        }
                    }
                }
                *self = FocusCheck { target: self.target, root: self.root, visited, answer };
                action
            },
        }
    }
}

} // verus!
