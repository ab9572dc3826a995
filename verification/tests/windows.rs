use kraken_rs::window::{
    activate_window, activation_step, fallback_windows, is_pickable_window,
    legacy_title, list_windows, net_wm_title, window_class_name, ActivationStep, TitleWalk,
    FocusAction, FocusCheck, WalkAction, WindowInfo, CUSTOM_PICKER_ID, POINTER_ROOT,
};
use kraken_rs::window_order::sort_windows;

fn win(id: u64, title: &str) -> WindowInfo {
    WindowInfo { id, title: title.to_string(), process_name: String::new() }
}

#[test]
fn fallback_list_starts_with_custom_entry() {
    let ws = fallback_windows();
    assert_eq!(ws.len(), 4);
    assert_eq!(ws[0].id, CUSTOM_PICKER_ID);
    assert_eq!(ws[0].title, "Custom (click to select)...");
    assert_eq!(ws[0].process_name, "");
    assert_eq!((ws[1].id, ws[1].title.as_str(), ws[1].process_name.as_str()), (1, "Firefox", "firefox"));
    assert_eq!((ws[2].id, ws[2].title.as_str(), ws[2].process_name.as_str()), (2, "Chrome", "chrome"));
    assert_eq!((ws[3].id, ws[3].title.as_str(), ws[3].process_name.as_str()), (3, "VS Code", "code"));
}

#[test]
fn list_windows_falls_back_when_nothing_found() {
    assert_eq!(list_windows(None).len(), 4);
    assert_eq!(list_windows(Some(Vec::new()))[1].title, "Firefox");
    let found = list_windows(Some(vec![win(42, "Terminal")]));
    assert_eq!(found.len(), 1);
    assert_eq!(found[0].id, 42);
}

#[test]
fn pickable_windows_are_mapped_and_managed() {
    assert!(is_pickable_window(false, false));
    assert!(!is_pickable_window(true, false));
    assert!(!is_pickable_window(false, true));
}

#[test]
fn activate_window_drops_the_confirmation() {
    assert_eq!(activate_window::<String>(Ok(false)), Ok(()));
    assert_eq!(activate_window::<String>(Ok(true)), Ok(()));
    assert_eq!(activate_window::<String>(Err("no X".to_string())), Err("no X".to_string()));
}

#[test]
fn activation_retries_up_to_the_budget() {
    assert_eq!(activation_step(1, 3, true), ActivationStep::Focused);
    assert_eq!(activation_step(1, 3, false), ActivationStep::Retry);
    assert_eq!(activation_step(3, 3, false), ActivationStep::GiveUp);
    // Zero attempts still means one try.
    assert_eq!(activation_step(1, 0, false), ActivationStep::GiveUp);
}

#[test]
fn focus_on_window_or_any_descendant() {
    let (_, a) = FocusCheck::start(7, 1, 7);
    assert_eq!(a, FocusAction::Answer(true));
    // A grandchild holds the focus: climb 9 -> 8 -> 7.
    let (mut check, a) = FocusCheck::start(7, 1, 9);
    assert_eq!(a, FocusAction::ReadParent(9));
    assert_eq!(check.after_parent(8), FocusAction::ReadParent(8));
    assert_eq!(check.after_parent(7), FocusAction::Answer(true));
    assert_eq!(check.after_parent(3), FocusAction::Answer(true));
}

#[test]
fn focus_following_the_pointer_is_not_within() {
    let (_, a) = FocusCheck::start(7, 100, POINTER_ROOT);
    assert_eq!(a, FocusAction::Answer(false));
    assert_eq!(POINTER_ROOT, 1);
}

#[test]
fn focus_elsewhere_is_not_within() {
    let (_, a) = FocusCheck::start(7, 1, 0);
    assert_eq!(a, FocusAction::Answer(false));
    let (_, a) = FocusCheck::start(7, 1, 1);
    assert_eq!(a, FocusAction::Answer(false));
    let (mut check, _) = FocusCheck::start(7, 1, 10);
    assert_eq!(check.after_parent(11), FocusAction::ReadParent(11));
    assert_eq!(check.after_parent(1), FocusAction::Answer(false));
    let (mut looped, _) = FocusCheck::start(7, 1, 10);
    assert_eq!(looped.after_parent(11), FocusAction::ReadParent(11));
    assert_eq!(looped.after_parent(10), FocusAction::Answer(false));
    let (mut orphan, _) = FocusCheck::start(7, 1, 10);
    assert_eq!(orphan.after_parent(0), FocusAction::Answer(false));
}

#[test]
fn class_name_is_last_entry() {
    assert_eq!(window_class_name(Some(b"navigator\0Firefox\0".to_vec())), "Firefox");
    assert_eq!(window_class_name(Some(b"xterm\0XTerm\0".to_vec())), "XTerm");
    assert_eq!(window_class_name(Some(b"navigator\0".to_vec())), "navigator");
    assert_eq!(window_class_name(Some(b"code".to_vec())), "code");
    assert_eq!(window_class_name(Some(b"a\0\0b\0\0".to_vec())), "b");
    assert_eq!(window_class_name(Some(b"\0\0".to_vec())), "");
    assert_eq!(window_class_name(Some(Vec::new())), "");
    assert_eq!(window_class_name(None), "");
    // Invalid UTF-8 is replaced, not passed through.
    assert_eq!(window_class_name(Some(vec![b'x', 0xff])), "x\u{fffd}");
}

#[test]
fn titles_are_trimmed() {
    assert_eq!(net_wm_title(b"  Editor \n"), Some("Editor".to_string()));
    assert_eq!(net_wm_title(b"   "), Some(String::new()));
    assert_eq!(net_wm_title(b""), None);
    assert_eq!(legacy_title(b" Term "), Some("Term".to_string()));
    assert_eq!(legacy_title(b" \t "), None);
    assert_eq!(net_wm_title("caf\u{e9}".as_bytes()), Some("caf\u{e9}".to_string()));
}

#[test]
fn windows_sorted_by_title_ignoring_case() {
    let sorted = sort_windows(vec![win(1, "beta"), win(2, "Alpha"), win(3, "gamma"), win(4, "ALPHA")]);
    let ids: Vec<u64> = sorted.iter().map(|w| w.id).collect();
    assert_eq!(ids, vec![2, 4, 1, 3]);
}

#[test]
fn title_walk_climbs_to_a_titled_ancestor() {
    let root = 1;
    let (mut walk, a) = TitleWalk::start(root, 50);
    assert!(matches!(a, WalkAction::ReadTitle(50)));
    let a = walk.after_title(Some(String::new()));
    assert!(matches!(a, WalkAction::ReadParent(50)));
    let a = walk.after_parent(Some(40));
    assert!(matches!(a, WalkAction::ReadTitle(40)));
    let a = walk.after_title(None);
    assert!(matches!(a, WalkAction::ReadParent(40)));
    let a = walk.after_parent(Some(30));
    assert!(matches!(a, WalkAction::ReadTitle(30)));
    match walk.after_title(Some("Editor".to_string())) {
        WalkAction::Done(Some(t)) => assert_eq!(t, "Editor"),
        other => panic!("{other:?}"),
    }
}

#[test]
fn title_walk_stops_at_root_zero_and_loops() {
    let (_, a) = TitleWalk::start(1, 0);
    assert!(matches!(a, WalkAction::Done(None)));
    let (_, a) = TitleWalk::start(1, 1);
    assert!(matches!(a, WalkAction::Done(None)));
    let (mut walk, _) = TitleWalk::start(1, 5);
    assert!(matches!(walk.after_parent(Some(5)), WalkAction::Done(None)));
    assert!(matches!(walk.after_parent(Some(0)), WalkAction::Done(None)));
    assert!(matches!(walk.after_parent(None), WalkAction::Done(None)));
    assert!(matches!(walk.after_parent(Some(1)), WalkAction::Done(None)));
}

#[test]
fn title_walk_gives_up_after_sixteen_hops() {
    let (mut walk, _) = TitleWalk::start(1, 100);
    for i in 0..15u32 {
        assert!(matches!(walk.after_parent(Some(200 + i)), WalkAction::ReadTitle(_)));
    }
    assert!(matches!(walk.after_parent(Some(999)), WalkAction::Done(None)));
}
