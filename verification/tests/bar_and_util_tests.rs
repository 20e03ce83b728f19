use oxwm::{
    ActionArg, BarScheduler, CompileResult, KeyAction, KeyBinding, Recompiler, SegmentSource,
    StatusSegment, TagSet, TAG_COUNT,
};
use oxwm::keys::lookup;
use oxwm::recompile::{classify_compile, restart_target};

fn segment(prefix: &str, suffix: &str, source: SegmentSource, interval: u64) -> StatusSegment {
    StatusSegment {
        prefix: prefix.to_string(),
        suffix: suffix.to_string(),
        source,
        interval,
        rendered: String::new(),
        next_due: 0,
        color: 0x0db9d7,
        underline: true,
    }
}

#[test]
fn compose_concatenates_in_order() {
    let mut bar = BarScheduler::new();
    let mut s1 = segment("[", "]", SegmentSource::StaticText("one".to_string()), u64::MAX);
    s1.rendered = "one".to_string();
    let mut s2 = segment(" | ", "", SegmentSource::Ram, 5);
    s2.rendered = "3/8 GB".to_string();
    bar.add_segment(s1);
    bar.add_segment(s2);
    assert_eq!(bar.compose(), "[one] | 3/8 GB");
}

#[test]
fn failing_command_keeps_previous_text_and_never_stalls() {
    let mut bar = BarScheduler::new();
    let mut seg = segment("", "", SegmentSource::Shell("false".to_string()), 1);
    seg.rendered = "n/a".to_string();
    bar.add_segment(seg);
    for tick in 0..5u64 {
        let due = bar.due_segment(tick).expect("segment must come due");
        assert_eq!(due, 0);
        // deadline advances from the scheduled instant before the
        // (failing) sample comes back
        bar.advance(due);
        bar.apply_result(due, None);
        // the placeholder stays; the bar can still be composed
        assert_eq!(bar.compose(), "n/a");
        assert_eq!(bar.segments[0].next_due, tick + 1);
    }
}

#[test]
fn successful_sample_replaces_text() {
    let mut bar = BarScheduler::new();
    bar.add_segment(segment("", "", SegmentSource::DateTime("%H:%M".to_string()), 1));
    bar.apply_result(0, Some("12:30".to_string()));
    assert_eq!(bar.compose(), "12:30");
    bar.apply_result(0, Some("12:31".to_string()));
    assert_eq!(bar.compose(), "12:31");
}

#[test]
fn deadline_advances_from_schedule_and_saturates() {
    let mut bar = BarScheduler::new();
    bar.add_segment(segment("", "", SegmentSource::StaticText(String::new()), u64::MAX));
    bar.add_segment(segment("", "", SegmentSource::Ram, 5));
    // the static segment's deadline saturates instead of wrapping
    bar.advance(0);
    assert_eq!(bar.segments[0].next_due, u64::MAX);
    // the other advances by its interval, regardless of the current time
    bar.advance(1);
    bar.advance(1);
    assert_eq!(bar.segments[1].next_due, 10);
    assert_eq!(bar.next_deadline(), Some(10));
}

#[test]
fn due_segment_reports_first_due_only() {
    let mut bar = BarScheduler::new();
    let mut a = segment("", "", SegmentSource::Ram, 5);
    a.next_due = 10;
    let mut b = segment("", "", SegmentSource::Ram, 5);
    b.next_due = 3;
    bar.add_segment(a);
    bar.add_segment(b);
    assert_eq!(bar.due_segment(2), None);
    assert_eq!(bar.due_segment(3), Some(1));
    assert_eq!(bar.due_segment(10), Some(0));
    assert_eq!(bar.next_deadline(), Some(3));
}

#[test]
fn tag_set_operations() {
    assert_eq!(TAG_COUNT, 9);
    let t0 = TagSet::single(0);
    let t8 = TagSet::single(8);
    assert_eq!(t0.bits, 1);
    assert_eq!(t8.bits, 1 << 8);
    assert!(t0.has(0));
    assert!(!t0.has(1));
    assert!(!t0.overlaps(&t8));
    let both = t0.union(&t8);
    assert!(both.overlaps(&t0));
    assert!(both.overlaps(&t8));
    let cleared = both.toggle(0);
    assert!(!cleared.has(0));
    assert!(cleared.has(8));
    assert!(TagSet::empty().is_empty());
    assert!(!t0.is_empty());
}

#[test]
fn lookup_finds_first_match() {
    let bindings = vec![
        KeyBinding { mods: 64, keycode: 36, action: KeyAction::Spawn, arg: ActionArg::NoArg },
        KeyBinding { mods: 64, keycode: 24, action: KeyAction::Quit, arg: ActionArg::NoArg },
        KeyBinding { mods: 64, keycode: 24, action: KeyAction::Recompile, arg: ActionArg::NoArg },
    ];
    assert_eq!(lookup(&bindings, 64, 36), Some(0));
    assert_eq!(lookup(&bindings, 64, 24), Some(1));
    assert_eq!(lookup(&bindings, 64, 99), None);
    assert_eq!(lookup(&bindings, 65, 36), None);
}

#[test]
fn recompiler_paths_derive_from_home() {
    let r = Recompiler::new("/home/someone");
    assert_eq!(r.get_config_path().as_str(), "/home/someone/.config/oxwm/config.rs");
    assert_eq!(r.get_cache_dir().as_str(), "/home/someone/.cache/oxwm");
    assert_eq!(r.get_binary_path().as_str(), "/home/someone/.cache/oxwm/oxwm");
}

#[test]
fn classify_compile_outcomes() {
    match classify_compile(false, true, String::new()) {
        CompileResult::NoConfig => {},
        _ => panic!("missing configuration must classify as NoConfig"),
    }
    match classify_compile(true, true, String::new()) {
        CompileResult::Success => {},
        _ => panic!("a successful build must classify as Success"),
    }
    match classify_compile(true, false, "expected `;`".to_string()) {
        CompileResult::Error(diag) => assert_eq!(diag, "expected `;`"),
        _ => panic!("a failed build must carry its diagnostics"),
    }
}

#[test]
fn restart_prefers_recompiled_binary() {
    let built = "/home/u/.cache/oxwm/oxwm".to_string();
    let argv0 = "/usr/bin/oxwm".to_string();
    assert_eq!(restart_target(true, &built, &argv0), &built);
    assert_eq!(restart_target(false, &built, &argv0), &argv0);
}
