use snooze::{
    compose_status_line, engine_on_message, engine_tick, quiet_mode, route_signal,
    shutdown_message, ui_exit_newline, ui_on_message, user_error_lines, Duration, EngineReaction,
    KnownSignals, SnoozeMessage, SnoozeResult, TickAction, UiAction,
};

fn signals() -> KnownSignals {
    KnownSignals { print_now: 10, suspend: 20, interrupt: 2, quit: 3, terminate: 15 }
}

#[test]
fn test_route_print_now_reaches_display_only() {
    let ks = signals();
    assert_eq!(route_signal(10, &ks), (Some(SnoozeMessage::PrintTime), None));
}

#[test]
fn test_route_suspend_reaches_both() {
    let ks = signals();
    assert_eq!(
        route_signal(20, &ks),
        (Some(SnoozeMessage::Suspend), Some(SnoozeMessage::Suspend))
    );
}

#[test]
fn test_route_terminating_signals_carry_their_number() {
    let ks = signals();
    for sig in [2, 3, 15] {
        assert_eq!(
            route_signal(sig, &ks),
            (
                Some(SnoozeMessage::Terminate(sig)),
                Some(SnoozeMessage::Terminate(sig))
            )
        );
    }
}

#[test]
fn test_route_unknown_signal_is_ignored() {
    let ks = signals();
    assert_eq!(route_signal(1, &ks), (None, None));
}

#[test]
fn test_engine_reactions() {
    assert_eq!(
        engine_on_message(&Some(SnoozeMessage::Suspend)),
        EngineReaction::EmulateStop
    );
    assert_eq!(
        engine_on_message(&Some(SnoozeMessage::Terminate(15))),
        EngineReaction::Stop(15)
    );
    assert_eq!(
        engine_on_message(&Some(SnoozeMessage::PrintTime)),
        EngineReaction::Proceed
    );
    assert_eq!(engine_on_message(&None), EngineReaction::Proceed);
}

#[test]
fn test_engine_tick_expires_at_zero() {
    assert_eq!(engine_tick(&Duration::zero(), false), TickAction::Expire);
}

#[test]
fn test_engine_tick_caps_sleep_at_one_second() {
    let r = engine_tick(&Duration::from_secs(30), false);
    assert_eq!(
        r,
        TickAction::Sleep { refresh: true, duration: Duration::from_secs(1) }
    );
}

#[test]
fn test_engine_tick_sleeps_short_remainder() {
    let r = engine_tick(&Duration::from_millis(400), true);
    assert_eq!(
        r,
        TickAction::Sleep { refresh: false, duration: Duration::from_millis(400) }
    );
}

#[test]
fn test_shutdown_message_carries_signal_or_zero() {
    assert_eq!(shutdown_message(&Some(15)), SnoozeMessage::Terminate(15));
    assert_eq!(shutdown_message(&None), SnoozeMessage::Terminate(0));
}

#[test]
fn test_ui_reactions() {
    assert_eq!(ui_on_message(&SnoozeMessage::PrintTime), UiAction::Refresh);
    assert_eq!(ui_on_message(&SnoozeMessage::Suspend), UiAction::ShowCursor);
    assert_eq!(
        ui_on_message(&SnoozeMessage::Terminate(0)),
        UiAction::Stop { clean: true }
    );
    assert_eq!(
        ui_on_message(&SnoozeMessage::Terminate(2)),
        UiAction::Stop { clean: false }
    );
}

#[test]
fn test_ui_exit_newline_needs_all_three() {
    assert!(ui_exit_newline(true, true, true));
    assert!(!ui_exit_newline(false, true, true));
    assert!(!ui_exit_newline(true, false, true));
    assert!(!ui_exit_newline(true, true, false));
}

#[test]
fn test_compose_status_line() {
    let line = compose_status_line("  2:00:00", "14:00:00");
    assert_eq!(line, "\t  2:00:00\t14:00:00");
}

#[test]
fn test_quiet_mode_conditions() {
    let long = Duration::from_secs(120);
    let short = Duration::from_millis(400);
    assert!(!quiet_mode(false, &long, false));
    assert!(quiet_mode(true, &long, false));
    assert!(quiet_mode(false, &short, false));
    assert!(quiet_mode(false, &long, true));
    // exactly the refresh period is not "short"
    assert!(!quiet_mode(false, &Duration::from_secs(1), false));
}

#[test]
fn test_exit_codes() {
    assert_eq!(SnoozeResult::Good.exit_code(), 0);
    assert_eq!(SnoozeResult::UserError.exit_code(), 1);
    assert_eq!(SnoozeResult::OsError.exit_code(), 2);
}

#[test]
fn test_user_error_lines() {
    let (first, second) = user_error_lines(true);
    assert_eq!(first, "Missing mandatory arguments");
    assert_eq!(second, "Run snooze --help for more information.");
    let (first, _) = user_error_lines(false);
    assert_eq!(first, "Invalid time interval supplied");
}
