use oxwm::TagSet;
use oxwm::{
    ActionArg, Core, CoreRequest, DisplayEvent, GapConfig, KeyAction, KeyBinding, Rect, RunState,
};

fn screen() -> Rect {
    Rect { x: 0, y: 0, width: 1200, height: 800 }
}

fn no_gaps() -> GapConfig {
    GapConfig {
        enabled: false,
        inner_horizontal: 0,
        inner_vertical: 0,
        outer_horizontal: 0,
        outer_vertical: 0,
    }
}

fn fresh_core() -> Core {
    Core::new(screen(), 550, no_gaps())
}

fn small_rect() -> Rect {
    Rect { x: 0, y: 0, width: 10, height: 10 }
}

fn check_invariants(core: &Core) {
    // every client keeps a non-empty tag set
    for c in core.clients.iter() {
        assert_ne!(c.tags.bits, 0);
    }
    assert_ne!(core.monitor.visible.bits, 0);
    // a handle is in the focus stack at most once, and only while a
    // visible client with that handle is managed
    let focus = &core.monitor.focus.order;
    for (i, a) in focus.iter().enumerate() {
        for b in focus.iter().skip(i + 1) {
            assert_ne!(a, b);
        }
        let client = core
            .clients
            .iter()
            .find(|c| c.handle == *a)
            .expect("focus stack entry without a managed client");
        assert_ne!(client.tags.bits & core.monitor.visible.bits, 0);
    }
}

#[test]
fn manage_gives_focus_and_visible_tags() {
    let mut core = fresh_core();
    assert!(core.manage(7, small_rect(), false, 2));
    assert_eq!(core.focused(), Some(7));
    assert_eq!(core.clients.len(), 1);
    assert_eq!(core.clients[0].tags.bits, core.monitor.visible.bits);
    check_invariants(&core);
}

#[test]
fn manage_twice_is_ignored() {
    let mut core = fresh_core();
    assert!(core.manage(7, small_rect(), false, 2));
    assert!(!core.manage(7, small_rect(), false, 2));
    assert_eq!(core.clients.len(), 1);
    check_invariants(&core);
}

#[test]
fn unmanage_unknown_handle_is_ignored() {
    let mut core = fresh_core();
    assert!(!core.unmanage(99));
    assert_eq!(core.clients.len(), 0);
}

#[test]
fn unmap_focused_promotes_next() {
    // focus stack [C, B, A]; unmapping the focused C leaves [B, A] with B focused
    let (a, b, c) = (1u32, 2u32, 3u32);
    let mut core = fresh_core();
    core.manage(a, small_rect(), false, 2);
    core.manage(b, small_rect(), false, 2);
    core.manage(c, small_rect(), false, 2);
    assert_eq!(core.monitor.focus.order, vec![c, b, a]);
    assert!(core.unmanage(c));
    assert_eq!(core.monitor.focus.order, vec![b, a]);
    assert_eq!(core.focused(), Some(b));
    check_invariants(&core);
}

#[test]
fn focus_cycle_round_trip() {
    let mut core = fresh_core();
    core.manage(1, small_rect(), false, 2);
    core.manage(2, small_rect(), false, 2);
    core.manage(3, small_rect(), false, 2);
    let before = core.monitor.focus.order.clone();
    let focused_before = core.focused();
    core.focus_cycle(1);
    assert_ne!(core.focused(), focused_before);
    core.focus_cycle(-1);
    assert_eq!(core.monitor.focus.order, before);
    assert_eq!(core.focused(), focused_before);
    check_invariants(&core);
}

#[test]
fn focus_cycle_single_client_is_noop() {
    let mut core = fresh_core();
    core.manage(1, small_rect(), false, 2);
    core.focus_cycle(1);
    assert_eq!(core.focused(), Some(1));
}

#[test]
fn view_tag_twice_is_idempotent() {
    let mut core = fresh_core();
    core.manage(1, small_rect(), false, 2);
    let first = core.view_tag(2);
    assert!(first);
    let visible = core.monitor.visible;
    let focus = core.monitor.focus.order.clone();
    let second = core.view_tag(2);
    assert!(!second, "second viewing must signal no change");
    assert_eq!(core.monitor.visible, visible);
    assert_eq!(core.monitor.focus.order, focus);
    check_invariants(&core);
}

#[test]
fn move_to_tag_hides_client_until_its_tag_is_viewed() {
    let mut core = fresh_core();
    core.manage(1, small_rect(), false, 2);
    assert_eq!(core.arrange().len(), 1);
    // move the focused client to another tag: it vanishes from this view
    core.move_to_tag(2);
    assert_eq!(core.focused(), None);
    assert!(core.arrange().is_empty());
    check_invariants(&core);
    // viewing that tag shows it again
    assert!(core.view_tag(2));
    assert_eq!(core.focused(), Some(1));
    assert_eq!(core.arrange().len(), 1);
    check_invariants(&core);
}

#[test]
fn arrange_pairs_handles_with_master_stack() {
    let (a, b, c) = (10u32, 20u32, 30u32);
    let mut core = fresh_core();
    // insertion at the head puts the latest first: manage in reverse
    core.manage(c, small_rect(), false, 2);
    core.manage(b, small_rect(), false, 2);
    core.manage(a, small_rect(), false, 2);
    let placed = core.arrange();
    assert_eq!(placed.len(), 3);
    assert_eq!(placed[0], (a, Rect { x: 0, y: 0, width: 660, height: 800 }));
    assert_eq!(placed[1], (b, Rect { x: 660, y: 0, width: 540, height: 400 }));
    assert_eq!(placed[2], (c, Rect { x: 660, y: 400, width: 540, height: 400 }));
}

#[test]
fn arrange_skips_floating_clients() {
    let mut core = fresh_core();
    core.manage(1, small_rect(), false, 2);
    core.manage(2, small_rect(), true, 2);
    let placed = core.arrange();
    assert_eq!(placed.len(), 1);
    assert_eq!(placed[0].0, 1);
}

#[test]
fn configure_request_honored_only_while_floating() {
    let mut core = fresh_core();
    core.manage(1, small_rect(), false, 2);
    core.manage(2, small_rect(), true, 2);
    let wanted = Rect { x: 50, y: 60, width: 300, height: 200 };
    // tiled client: acknowledged without effect
    assert!(!core.configure_request(1, wanted, 1));
    assert_eq!(core.clients[0].geometry, small_rect());
    // floating client: honored
    assert!(core.configure_request(2, wanted, 1));
    let c = core.clients.iter().find(|c| c.handle == 2).unwrap();
    assert_eq!(c.geometry, wanted);
    assert_eq!(c.saved_geometry, wanted);
    // unknown window: the race is expected and ignored
    assert!(!core.configure_request(99, wanted, 1));
}

#[test]
fn toggle_gaps_flips_only_the_toggle() {
    let mut core = fresh_core();
    assert!(!core.monitor.gaps.enabled);
    core.toggle_gaps();
    assert!(core.monitor.gaps.enabled);
    core.toggle_gaps();
    assert!(!core.monitor.gaps.enabled);
}

#[test]
fn quit_and_restart_transitions() {
    let mut core = fresh_core();
    assert_eq!(core.state, RunState::Running);
    core.quit();
    assert_eq!(core.state, RunState::Quitting);
    let mut core2 = fresh_core();
    core2.request_restart();
    assert_eq!(core2.state, RunState::Restarting);
}

#[test]
fn dispatch_spawn_returns_argv_untouched() {
    let mut core = fresh_core();
    let argv = vec!["sh".to_string(), "-c".to_string(), "true".to_string()];
    let reqs = core.dispatch(KeyAction::Spawn, &ActionArg::ArrayArg(argv.clone()));
    assert_eq!(reqs.len(), 1);
    match &reqs[0] {
        CoreRequest::SpawnArgv(v) => assert_eq!(*v, argv),
        _ => panic!("expected a spawn request"),
    }
}

#[test]
fn dispatch_kill_targets_focused_client() {
    let mut core = fresh_core();
    core.manage(5, small_rect(), false, 2);
    let reqs = core.dispatch(KeyAction::KillClient, &ActionArg::NoArg);
    assert_eq!(reqs.len(), 1);
    match &reqs[0] {
        CoreRequest::CloseClient(h) => assert_eq!(*h, 5),
        _ => panic!("expected a close request"),
    }
    // with nothing focused there is nothing to close
    let mut empty = fresh_core();
    assert!(empty.dispatch(KeyAction::KillClient, &ActionArg::NoArg).is_empty());
}

#[test]
fn handle_event_ignores_override_redirect() {
    let mut core = fresh_core();
    let ev = DisplayEvent::MapRequest {
        window: 1,
        geometry: small_rect(),
        override_redirect: true,
        border_width: 2,
    };
    let reqs = core.handle_event(&ev, &Vec::new());
    assert!(reqs.is_empty());
    assert!(core.clients.is_empty());
}

#[test]
fn handle_event_map_unmap_cycle() {
    let mut core = fresh_core();
    let map = DisplayEvent::MapRequest {
        window: 1,
        geometry: small_rect(),
        override_redirect: false,
        border_width: 2,
    };
    let reqs = core.handle_event(&map, &Vec::new());
    assert_eq!(reqs.len(), 2);
    assert!(matches!(reqs[0], CoreRequest::ShowWindow(1)));
    assert!(matches!(reqs[1], CoreRequest::Relayout));
    assert_eq!(core.focused(), Some(1));
    let unmap = DisplayEvent::UnmapNotify { window: 1 };
    core.handle_event(&unmap, &Vec::new());
    assert!(core.clients.is_empty());
    assert_eq!(core.focused(), None);
}

#[test]
fn handle_event_unmatched_key_is_ignored() {
    let mut core = fresh_core();
    core.manage(1, small_rect(), false, 2);
    let bindings = vec![KeyBinding {
        mods: 64,
        keycode: 36,
        action: KeyAction::Quit,
        arg: ActionArg::NoArg,
    }];
    let reqs = core.handle_event(&DisplayEvent::KeyPress { mods: 64, keycode: 99 }, &bindings);
    assert!(reqs.is_empty());
    assert_eq!(core.state, RunState::Running);
    // the bound combination does dispatch
    core.handle_event(&DisplayEvent::KeyPress { mods: 64, keycode: 36 }, &bindings);
    assert_eq!(core.state, RunState::Quitting);
}

#[test]
fn invariants_hold_along_a_busy_session() {
    let mut core = fresh_core();
    for h in 1..=6u32 {
        core.manage(h, small_rect(), h % 3 == 0, 2);
        check_invariants(&core);
    }
    core.view_tag(3);
    check_invariants(&core);
    for h in 1..=6u32 {
        core.manage(100 + h, small_rect(), false, 2);
    }
    check_invariants(&core);
    core.move_to_tag(0);
    check_invariants(&core);
    core.focus_cycle(1);
    core.focus_cycle(1);
    check_invariants(&core);
    core.unmanage(104);
    core.unmanage(2);
    check_invariants(&core);
    core.view_tag(0);
    check_invariants(&core);
}

#[test]
fn assign_empty_tags_falls_back_to_visible_set() {
    let mut core = fresh_core();
    core.manage(1, small_rect(), false, 2);
    // clearing every tag bit is a lifecycle bug: the client gets the
    // currently visible tag set instead of an empty one
    core.assign_tags(1, TagSet::empty());
    assert_eq!(core.clients[0].tags.bits, core.monitor.visible.bits);
    assert_ne!(core.clients[0].tags.bits, 0);
    check_invariants(&core);
}

#[test]
fn assign_invisible_tags_removes_from_focus() {
    let mut core = fresh_core();
    core.manage(1, small_rect(), false, 2);
    core.assign_tags(1, TagSet::single(4));
    assert_eq!(core.focused(), None);
    assert!(core.clients[0].tags.has(4));
    check_invariants(&core);
}

#[test]
fn dispatch_view_and_move_between_tags() {
    let mut core = fresh_core();
    core.manage(1, small_rect(), false, 2);
    // move the focused client to the second tag, then view it
    core.dispatch(KeyAction::MoveToTag, &ActionArg::IntArg(1));
    assert!(core.arrange().is_empty());
    core.dispatch(KeyAction::ViewTag, &ActionArg::IntArg(1));
    assert_eq!(core.arrange().len(), 1);
    assert_eq!(core.monitor.visible.bits, 1 << 1);
    // a tag index outside the tag count is ignored
    core.dispatch(KeyAction::ViewTag, &ActionArg::IntArg(99));
    assert_eq!(core.monitor.visible.bits, 1 << 1);
    check_invariants(&core);
}

#[test]
fn dispatch_focus_stack_cycles() {
    let mut core = fresh_core();
    core.manage(1, small_rect(), false, 2);
    core.manage(2, small_rect(), false, 2);
    core.manage(3, small_rect(), false, 2);
    let before = core.focused();
    core.dispatch(KeyAction::FocusStack, &ActionArg::IntArg(1));
    let after = core.focused();
    assert_ne!(after, before);
    core.dispatch(KeyAction::FocusStack, &ActionArg::IntArg(-1));
    assert_eq!(core.focused(), before);
}
