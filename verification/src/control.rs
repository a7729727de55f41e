use crate::duration::Duration;
use vstd::prelude::*;

verus! {

/// A cross-thread notice: ask for one repaint, note that the process is
/// about to stop, or shut down carrying the signal code that caused it
/// (zero for a normal finish).
#[derive(Clone, Copy, PartialEq, Eq, Structural, Debug)]
pub enum SnoozeMessage {
    PrintTime,
    Suspend,
    Terminate(i32),
}

/// The signal numbers the router listens for, handed in by the host so the
/// logic does not depend on any one platform's numbering.
#[derive(Clone, Copy, PartialEq, Eq, Structural, Debug)]
pub struct KnownSignals {
    pub print_now: i32,
    pub suspend: i32,
    pub interrupt: i32,
    pub quit: i32,
    pub terminate: i32,
}

/// What one observed signal turns into: a message for the display thread
/// and one for the countdown loop.
pub open spec fn route_signal_spec(sig: i32, ks: KnownSignals) -> (
    Option<SnoozeMessage>,
    Option<SnoozeMessage>,
) {
    if sig == ks.print_now {
        (Some(SnoozeMessage::PrintTime), None)
    } else if sig == ks.suspend {
        (Some(SnoozeMessage::Suspend), Some(SnoozeMessage::Suspend))
    } else if sig == ks.interrupt || sig == ks.quit || sig == ks.terminate {
        (Some(SnoozeMessage::Terminate(sig)), Some(SnoozeMessage::Terminate(sig)))
    } else {
        (None, None)
    }
}

/// Translate one observed signal: print-now refreshes the display only,
/// suspend goes to both threads, a terminating signal goes to both threads
/// carrying its own number, anything else is ignored.
pub fn route_signal(sig: i32, ks: &KnownSignals) -> (r: (
    Option<SnoozeMessage>,
    Option<SnoozeMessage>,
))
    ensures
        r == route_signal_spec(sig, *ks),
{
    if sig == ks.print_now {
        (Some(SnoozeMessage::PrintTime), None)
    } else if sig == ks.suspend {
        (Some(SnoozeMessage::Suspend), Some(SnoozeMessage::Suspend))
    } else if sig == ks.interrupt || sig == ks.quit || sig == ks.terminate {
        (Some(SnoozeMessage::Terminate(sig)), Some(SnoozeMessage::Terminate(sig)))
    } else {
        (None, None)
    }
}

/// The countdown loop's reaction to one polled message.
#[derive(Clone, Copy, PartialEq, Eq, Structural, Debug)]
pub enum EngineReaction {
    /// Replay the platform's stop behaviour, then carry on.
    EmulateStop,
    /// Leave the loop, recording the signal that ended it.
    Stop(i32),
    /// Nothing to react to.
    Proceed,
}

pub open spec fn engine_reaction_spec(msg: Option<SnoozeMessage>) -> EngineReaction {
    match msg {
        Some(SnoozeMessage::Suspend) => EngineReaction::EmulateStop,
        Some(SnoozeMessage::Terminate(s)) => EngineReaction::Stop(s),
        _ => EngineReaction::Proceed,
    }
}

/// React to one non-blocking poll of the loop channel: suspend replays the
/// stop, terminate ends the loop with its signal recorded, a refresh
/// request or an empty poll changes nothing.
pub fn engine_on_message(msg: &Option<SnoozeMessage>) -> (r: EngineReaction)
    ensures
        r == engine_reaction_spec(*msg),
{
    match msg {
        Some(SnoozeMessage::Suspend) => EngineReaction::EmulateStop,
        Some(SnoozeMessage::Terminate(s)) => EngineReaction::Stop(*s),
        _ => EngineReaction::Proceed,
    }
}

/// The fixed repaint cadence, in nanoseconds: one second.
pub open spec fn refresh_nanos() -> int {
    1_000_000_000
}

/// One countdown step once events are handled.
#[derive(Clone, Copy, PartialEq, Eq, Structural, Debug)]
pub enum TickAction {
    /// The target instant has passed: finish normally.
    Expire,
    /// Optionally ask for a repaint, then sleep.
    Sleep { refresh: bool, duration: Duration },
}

/// Decide one countdown step from the time still to run: done when nothing
/// remains; otherwise ask for a repaint unless quiet, and sleep the
/// remaining time capped at the repaint cadence, so the next events are
/// seen within a second.
pub fn engine_tick(remaining: &Duration, quiet: bool) -> (r: TickAction)
    requires
        remaining.wf(),
    ensures
        remaining.total_nanos() == 0 ==> r == TickAction::Expire,
        remaining.total_nanos() > 0 ==> (r matches TickAction::Sleep { refresh, duration } && {
            &&& refresh == !quiet
            &&& duration.wf()
            &&& duration.total_nanos() == if remaining.total_nanos() <= refresh_nanos() {
                remaining.total_nanos()
            } else {
                refresh_nanos()
            }
        }),
{
    if remaining.is_zero() {
        TickAction::Expire
    } else {
        let cap = Duration::from_secs(1);
        TickAction::Sleep { refresh: !quiet, duration: remaining.min_with(&cap) }
    }
}

/// The final notice for the display thread: the recorded terminating
/// signal, or zero for a clean finish.
pub fn shutdown_message(close_signal: &Option<i32>) -> (r: SnoozeMessage)
    ensures
        r == SnoozeMessage::Terminate(
            match *close_signal {
                Some(s) => s,
                None => 0,
            },
        ),
{
    match close_signal {
        Some(s) => SnoozeMessage::Terminate(*s),
        None => SnoozeMessage::Terminate(0),
    }
}

/// The display thread's reaction to one received message.
#[derive(Clone, Copy, PartialEq, Eq, Structural, Debug)]
pub enum UiAction {
    /// Make the cursor visible again before the process stops.
    ShowCursor,
    /// Repaint the countdown line, if the terminal is ours.
    Refresh,
    /// Leave the loop; clean exactly when no signal caused it.
    Stop { clean: bool },
}

pub open spec fn ui_reaction_spec(msg: SnoozeMessage) -> UiAction {
    match msg {
        SnoozeMessage::PrintTime => UiAction::Refresh,
        SnoozeMessage::Suspend => UiAction::ShowCursor,
        SnoozeMessage::Terminate(s) => UiAction::Stop { clean: s == 0 },
    }
}

/// React to one received display message: repaint on request, show the
/// cursor before a suspend, stop on terminate, clean exactly for the
/// neutral code.
pub fn ui_on_message(msg: &SnoozeMessage) -> (r: UiAction)
    ensures
        r == ui_reaction_spec(*msg),
{
    match msg {
        SnoozeMessage::PrintTime => UiAction::Refresh,
        SnoozeMessage::Suspend => UiAction::ShowCursor,
        SnoozeMessage::Terminate(s) => UiAction::Stop { clean: *s == 0 },
    }
}

/// Whether the display thread leaves a trailing newline behind: only after
/// a clean finish that actually painted something, and only on our own
/// terminal.
pub fn ui_exit_newline(did_print: bool, clean: bool, foreground: bool) -> (b: bool)
    ensures
        b == (did_print && clean && foreground),
{
    did_print && clean && foreground
}

/// One countdown line: the remaining-time column and the absolute-end
/// column, tab-separated.
pub fn compose_status_line(remaining: &str, end: &str) -> (r: String)
    ensures
        r@ == seq!['\t'] + remaining@ + seq!['\t'] + end@,
{
    proof {
        reveal_strlit("\t");
        assert("\t"@ =~= seq!['\t']);
    }
    let mut out = String::new();
    out.append("\t");
    out.append(remaining);
    out.append("\t");
    out.append(end);
    out
}

/// Whether periodic repaints are suppressed: an explicit wish, a countdown
/// too short for even one repaint, or being invoked as plain `sleep`.
pub fn quiet_mode(quiet_flag: bool, total: &Duration, invoked_as_sleep: bool) -> (b: bool)
    requires
        total.wf(),
    ensures
        b == (quiet_flag || total.total_nanos() < refresh_nanos() || invoked_as_sleep),
{
    let cap = Duration::from_secs(1);
    quiet_flag || total.lt(&cap) || invoked_as_sleep
}

/// How a run ended, as the host reports it: success, bad user input, or a
/// failure to set up signal handling.
#[derive(Clone, Copy, PartialEq, Eq, Structural, Debug)]
pub enum SnoozeResult {
    Good,
    UserError,
    OsError,
}

impl SnoozeResult {
    /// The conventional process exit code for each outcome.
    pub fn exit_code(&self) -> (c: u8)
        ensures
            c == match *self {
                SnoozeResult::Good => 0u8,
                SnoozeResult::UserError => 1u8,
                SnoozeResult::OsError => 2u8,
            },
    {
        match self {
            SnoozeResult::Good => 0,
            SnoozeResult::UserError => 1,
            SnoozeResult::OsError => 2,
        }
    }
}

/// The two lines reported for bad input: what was wrong, and where to find
/// help.
pub fn user_error_lines(no_args: bool) -> (r: (String, String))
    ensures
        no_args ==> r.0@ == "Missing mandatory arguments"@,
        !no_args ==> r.0@ == "Invalid time interval supplied"@,
        r.1@ == "Run snooze --help for more information."@,
{
    let first = if no_args {
        String::from_str("Missing mandatory arguments")
    } else {
        String::from_str("Invalid time interval supplied")
    };
    (first, String::from_str("Run snooze --help for more information."))
}

} // verus!
