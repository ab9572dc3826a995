use kraken_rs::drills::{drill_presets, random_drill};
use kraken_rs::keystroke::{
    keystroke_actions, plan_keystroke, session_delays, typo_candidate, KeyAction, Keystroke,
};
use kraken_rs::snippets::SnippetStore;
use kraken_rs::training::{
    attempt_completed, countdown_over, countdown_seconds, record_session, seconds_left,
    seconds_suffix, HISTORY_LIMIT,
};

#[test]
fn random_drill_is_a_preset() {
    let mut rng = rand::rng();
    let presets = drill_presets();
    for _ in 0..20 {
        let d = random_drill(&mut rng);
        assert!(presets.contains(&d));
    }
}

#[test]
fn drills_are_the_eight_presets() {
    let d = drill_presets();
    assert_eq!(d.len(), 8);
    assert!(d[0].starts_with("The quick brown fox"));
    assert!(d[7].starts_with("SELECT u.name"));
}

#[test]
fn typos_only_for_letters_in_human_mode() {
    assert!(typo_candidate('a', true));
    assert!(typo_candidate('Z', true));
    assert!(!typo_candidate('1', true));
    assert!(!typo_candidate('é', true));
    assert!(!typo_candidate('a', false));
}

#[test]
fn keystroke_typo_and_jitter_in_range() {
    let mut rng = rand::rng();
    for _ in 0..100 {
        let k = plan_keystroke(true, true, 30, &mut rng);
        let w = k.typo.unwrap();
        assert!(w.is_ascii_lowercase());
        assert!(k.jitter_ms <= 30);
    }
    let k = plan_keystroke(false, false, 30, &mut rng);
    assert_eq!(k.typo, None);
    assert_eq!(k.jitter_ms, 0);
}

#[test]
fn session_delays_from_configuration() {
    let d = session_delays(60, 350, 100);
    assert_eq!(d.cursor_settle_ms, 15);
    assert_eq!(d.trigger_settle_ms, 87);
    assert_eq!(d.after_backspace_ms, 33);
    assert_eq!(session_delays(20, 0, 0).cursor_settle_ms, 12);
}

#[test]
fn history_keeps_last_twenty() {
    let mut h: Vec<u32> = Vec::new();
    for i in 0..25 {
        record_session(&mut h, i);
        assert!(h.len() <= HISTORY_LIMIT);
        assert_eq!(*h.last().unwrap(), i);
    }
    assert_eq!(h, (5..25).collect::<Vec<u32>>());
}

#[test]
fn countdown_arithmetic() {
    assert_eq!(countdown_seconds(3000), 3);
    assert_eq!(countdown_seconds(2999), 2);
    assert!(!countdown_over(2, 3));
    assert!(countdown_over(3, 3));
    assert_eq!(seconds_left(3, 1), 2);
    assert_eq!(seconds_left(3, 5), 0);
    assert_eq!(seconds_suffix(1), "");
    assert_eq!(seconds_suffix(2), "s");
    assert_eq!(seconds_suffix(0), "s");
}

#[test]
fn attempt_completes_once_on_exact_match() {
    assert!(attempt_completed(false, "abc", "abc"));
    assert!(!attempt_completed(true, "abc", "abc"));
    assert!(!attempt_completed(false, "ab", "abc"));
    assert!(!attempt_completed(false, "abd", "abc"));
}

#[test]
fn snippet_names_sorted() {
    let mut store = SnippetStore::new();
    for name in ["zeta", "Alpha", "beta", "alpha"] {
        store.add_snippet(name.to_string(), format!("text of {name}"));
    }
    assert_eq!(store.snippet_names(), vec!["Alpha", "alpha", "beta", "zeta"]);
}

#[test]
fn saved_snippet_loads_back() {
    let mut store = SnippetStore::default();
    assert_eq!(store.get_snippet("greet"), None);
    store.add_snippet("greet".to_string(), "hello".to_string());
    assert_eq!(store.get_snippet("greet").map(String::as_str), Some("hello"));
    assert_eq!(store.get_snippet("other"), None);
}

#[test]
fn saving_under_a_used_name_replaces_the_text() {
    let mut store = SnippetStore::new();
    store.add_snippet("greet".to_string(), "hello".to_string());
    store.add_snippet("bye".to_string(), "see you".to_string());
    store.add_snippet("greet".to_string(), "hi there".to_string());
    assert_eq!(store.get_snippet("greet").map(String::as_str), Some("hi there"));
    assert_eq!(store.get_snippet("bye").map(String::as_str), Some("see you"));
    assert_eq!(store.snippet_names(), vec!["bye", "greet"]);
}

#[test]
fn removed_snippet_is_gone() {
    let mut store = SnippetStore::new();
    store.add_snippet("a".to_string(), "1".to_string());
    store.add_snippet("b".to_string(), "2".to_string());
    store.remove_snippet("a");
    assert_eq!(store.get_snippet("a"), None);
    assert_eq!(store.get_snippet("b").map(String::as_str), Some("2"));
    assert_eq!(store.snippet_names(), vec!["b"]);
    store.remove_snippet("missing");
    assert_eq!(store.snippet_names(), vec!["b"]);
}

#[test]
fn cloned_store_keeps_the_snippets() {
    let mut store = SnippetStore::new();
    store.add_snippet("a".to_string(), "1".to_string());
    let copy = store.clone();
    store.remove_snippet("a");
    assert_eq!(copy.get_snippet("a").map(String::as_str), Some("1"));
    assert_eq!(store.get_snippet("a"), None);
}

fn net_text(actions: &[KeyAction]) -> String {
    let mut out = String::new();
    for a in actions {
        match a {
            KeyAction::Type(c) => out.push(*c),
            KeyAction::Backspace => {
                out.pop();
            }
            KeyAction::Wait(_) => {}
        }
    }
    out
}

#[test]
fn typo_is_typed_then_erased() {
    let k = Keystroke { typo: Some('q'), jitter_ms: 7 };
    let actions = keystroke_actions('a', k, 20, 100, 33);
    assert_eq!(
        actions,
        vec![
            KeyAction::Type('q'),
            KeyAction::Wait(100),
            KeyAction::Backspace,
            KeyAction::Wait(33),
            KeyAction::Type('a'),
            KeyAction::Wait(20),
            KeyAction::Wait(7),
        ]
    );
    assert_eq!(net_text(&actions), "a");
}

#[test]
fn plain_keystroke_types_once() {
    let k = Keystroke { typo: None, jitter_ms: 0 };
    let actions = keystroke_actions('(', k, 20, 100, 33);
    assert_eq!(actions, vec![KeyAction::Type('('), KeyAction::Wait(20), KeyAction::Wait(0)]);
    assert_eq!(net_text(&actions), "(");
}
