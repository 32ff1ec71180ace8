use prompt_launcher::lifecycle::{GateDecision, LauncherGate};

#[test]
fn request_show_defers_until_ready() {
    let mut gate = LauncherGate::new();
    assert!(!gate.request_show());
    assert!(gate.set_ui_ready());
}

#[test]
fn request_show_immediate_when_ready() {
    let mut gate = LauncherGate::new();
    gate.set_ui_ready();
    assert!(gate.request_show());
}

#[test]
fn allow_toggle_debounces() {
    let mut gate = LauncherGate::new();
    gate.set_ui_ready();
    let start: u64 = 1_000_000;
    assert_eq!(gate.allow_toggle(start), GateDecision::Proceed);
    assert_eq!(gate.allow_toggle(start + 100), GateDecision::Debounced);
    assert_eq!(gate.allow_toggle(start + 400), GateDecision::Proceed);
}

#[test]
fn allow_toggle_defers_before_ready() {
    let mut gate = LauncherGate::new();
    let start: u64 = 1_000_000;
    assert_eq!(gate.allow_toggle(start), GateDecision::DeferShow);
    assert!(gate.set_ui_ready());
}

#[test]
fn set_ui_ready_without_request_reports_nothing_pending() {
    let mut gate = LauncherGate::new();
    assert!(!gate.set_ui_ready());
    assert!(!gate.set_ui_ready());
}

#[test]
fn allow_toggle_treats_earlier_clock_as_no_time() {
    let mut gate = LauncherGate::new();
    gate.set_ui_ready();
    assert_eq!(gate.allow_toggle(5_000), GateDecision::Proceed);
    assert_eq!(gate.allow_toggle(4_000), GateDecision::Debounced);
    assert_eq!(gate.allow_toggle(5_300), GateDecision::Proceed);
}
