//! Verified core of an automated typing tool.
//!
//! The tool types text into whatever window has the focus, the way a person
//! would: at a set speed, with occasional self-corrected typos, pausing after
//! characters that open completion pop-ups, and (for web IDEs) typing only the
//! indentation the editor does not insert by itself. Escape stops it at once.
//!
//! * `text`: indentation, block openers, trigger characters, comparisons.
//! * `plan`: the step-by-step plan of a typing session; `plan_laws` proves what
//!   every plan guarantees (the text typed, cancel checks, pauses, progress).
//! * `progress`: the session's state and progress figures.
//! * `keystroke`: human-like keystrokes (typos, jitter) and derived delays.
//! * `cancel`: the clock, Escape suppression and stop requests.
//! * `drills`, `training`: practice texts and the training-mode bookkeeping.
//! * `window`, `window_order`: choosing, describing, focusing target windows.
//! * `snippets`: the saved snippets, a store from name to text.

pub mod text;
pub mod plan;
pub mod plan_laws;
pub mod progress;
pub mod cancel;
pub mod drills;
pub mod keystroke;
pub mod window;
pub mod window_order;
pub mod training;
pub mod snippets;
