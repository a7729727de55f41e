//! A countdown-sleep library: parses duration expressions, formats remaining
//! and absolute end times, and decides the steps of a countdown runtime that
//! an unverified shell around it can drive.

mod calendar;
mod chars;
mod control;
mod duration;
mod parse;
mod remaining;
mod render;

pub use calendar::{
    civil_from_days, epoch_day_limit, format_end_from_clock, lemma_end_display_date_prefix,
    wall_clock_end_time,
};
pub use control::{
    compose_status_line, engine_on_message, engine_tick, quiet_mode, route_signal,
    shutdown_message, ui_exit_newline, ui_on_message, user_error_lines, EngineReaction,
    KnownSignals, SnoozeMessage, SnoozeResult, TickAction, UiAction,
};
pub use duration::Duration;
pub use parse::{parse_pause_arg, sum_pause_args, SnoozeUnit};
pub use remaining::{format_remaining_time, lemma_remaining_monotone};
