//! The limiter: compares active time with the limit plus today's extension and
//! notifies on the rising edge of "over limit", at most once per logical day
//! unless the overage clears in between.
use vstd::prelude::*;
use crate::clock::LogicalDay;
use crate::duration::{decimal_chars, duration_text, push_decimal_chars, seconds_to_string};

verus! {

/// The daily limit: 7 hours 30 minutes, in milliseconds.
pub const DEFAULT_LIMIT_MILLIS: u64 = 27000000;

/// Interval between two ticks of the poll loop, in milliseconds.
pub const RUN_INTERVAL_MILLIS: u64 = 60000;

#[derive(Clone, Copy, Debug, PartialEq, Eq, Structural)]
pub enum Notice {
    /// Active time went past the default limit (no extension today).
    DefaultLimitReached,
    /// Active time went past the limit plus today's extension.
    ExtendedLimitReached,
}

impl Notice {
    /// The notification's body text.
    pub fn message(&self) -> (r: &'static str)
        ensures
            *self == Notice::DefaultLimitReached ==> r@ == "Reached default active time limit for today"@,
            *self == Notice::ExtendedLimitReached ==> r@ == "Reached extended active time limit for today"@,
    {
        match self {
            Notice::DefaultLimitReached => "Reached default active time limit for today",
            Notice::ExtendedLimitReached => "Reached extended active time limit for today",
        }
    }
}

/// Whether `active` milliseconds exceed the default limit plus `extension`.
pub open spec fn over_limit(active: nat, extension: nat) -> bool {
    active > DEFAULT_LIMIT_MILLIS + extension
}

/// The notice for an overage under a given extension.
pub open spec fn notice_for(extension: nat) -> Notice {
    if extension > 0 {
        Notice::ExtendedLimitReached
    } else {
        Notice::DefaultLimitReached
    }
}

/// One decision: the next "last overage day" and the notice, if any.
pub open spec fn step_result(
    last: Option<LogicalDay>,
    day: LogicalDay,
    extension: nat,
    active: nat,
) -> (Option<LogicalDay>, Option<Notice>) {
    if over_limit(active, extension) {
        if last == Some(day) {
            (last, None)
        } else {
            (Some(day), Some(notice_for(extension)))
        }
    } else {
        (None, None)
    }
}

pub struct TimeLimiter {
    /// The logical day on which the last overage notice went out, while the
    /// overage lasts.
    pub last_overage_day: Option<LogicalDay>,
    /// The extension in force at the last tick, in milliseconds.
    pub extension_millis: u64,
}

impl TimeLimiter {
    pub fn new() -> (r: TimeLimiter)
        ensures
            r.last_overage_day is None,
            r.extension_millis == 0,
    {
        TimeLimiter { last_overage_day: None, extension_millis: 0 }
    }

    /// Takes one tick's day, extension and active time, and returns the
    /// notice to show, if this tick crosses into an overage.
    pub fn run_next(&mut self, day: LogicalDay, extension_millis: u64, active_millis: u64) -> (r: Option<
        Notice,
    >)
        ensures
            final(self).extension_millis == extension_millis,
            (final(self).last_overage_day, r) == step_result(
                old(self).last_overage_day,
                day,
                extension_millis as nat,
                active_millis as nat,
            ),
    {
        self.extension_millis = extension_millis;
        let over = extension_millis <= u64::MAX - DEFAULT_LIMIT_MILLIS && active_millis
            > DEFAULT_LIMIT_MILLIS + extension_millis;
        if over {
            let new_overage = match self.last_overage_day {
                None => true,
                Some(d) => d.epoch_day != day.epoch_day,
            };
            if new_overage {
                self.last_overage_day = Some(day);
                if extension_millis > 0 {
                    Some(Notice::ExtendedLimitReached)
                } else {
                    Some(Notice::DefaultLimitReached)
                }
            } else {
                None
            }
        } else {
            self.last_overage_day = None;
            None
        }
    }
}

/// The overage notice is edge-triggered: a second tick over the limit on the
/// same day gives no notice, and a tick at or under the limit re-arms it, so
/// that the next tick over the limit notifies again.
pub proof fn lemma_edge_triggered(last: Option<LogicalDay>, day: LogicalDay, extension: nat, a1: nat, a2: nat)
    ensures
        over_limit(a1, extension) && over_limit(a2, extension) ==> step_result(
            step_result(last, day, extension, a1).0,
            day,
            extension,
            a2,
        ).1 is None,
        !over_limit(a1, extension) && over_limit(a2, extension) ==> step_result(
            step_result(last, day, extension, a1).0,
            day,
            extension,
            a2,
        ).1 == Some(notice_for(extension)),
{
}

/// How long the poll loop sleeps after a tick that took `elapsed_millis`:
/// the rest of the interval, or nothing when the tick overran it.
pub fn sleep_millis(elapsed_millis: u64) -> (r: u64)
    ensures
        r == if elapsed_millis < RUN_INTERVAL_MILLIS { RUN_INTERVAL_MILLIS - elapsed_millis } else { 0 },
{
    if elapsed_millis < RUN_INTERVAL_MILLIS {
        RUN_INTERVAL_MILLIS - elapsed_millis
    } else {
        0
    }
}

/// A limit line of the status report:
/// `<label><limit> (<percent used>%, <remaining> left)`.
pub open spec fn limit_line(label: Seq<char>, active_secs: int, limit_secs: int) -> Seq<char> {
    label + duration_text(limit_secs) + " ("@ + decimal_chars((active_secs * 100 / limit_secs) as nat)
        + "%, "@ + duration_text(limit_secs - active_secs) + " left)"@
}

fn limit_line_exec(label: &str, active_secs: u64, limit_secs: u64) -> (r: String)
    requires
        0 < limit_secs <= 100000000000000000,
        active_secs <= 18446744073709551,
    ensures
        r@ == limit_line(label@, active_secs as int, limit_secs as int),
{
    let mut out = String::new();
    out.append(label);
    let limit_text = seconds_to_string(limit_secs as i64);
    out.append(limit_text.as_str());
    out.append(" (");
    assert(active_secs * 100 <= u64::MAX) by (nonlinear_arith)
        requires
            active_secs <= 18446744073709551,
    ;
    push_decimal_chars(&mut out, active_secs * 100 / limit_secs);
    out.append("%, ");
    let left = seconds_to_string(limit_secs as i64 - active_secs as i64);
    out.append(left.as_str());
    out.append(" left)");
    assert(out@ =~= limit_line(label@, active_secs as int, limit_secs as int));
    out
}

/// The status report: active time, then the default and the extended limit
/// with the share used and the time left, all in whole seconds.
pub fn status_lines(active_millis: u64, extension_millis: u64) -> (r: Vec<String>)
    ensures
        r@.len() == 3,
        r@[0]@ == "Active time: "@ + duration_text(active_millis as int / 1000),
        r@[1]@ == limit_line(
            "Default limit: "@,
            active_millis as int / 1000,
            DEFAULT_LIMIT_MILLIS as int / 1000,
        ),
        r@[2]@ == limit_line(
            "Extended limit: "@,
            active_millis as int / 1000,
            (DEFAULT_LIMIT_MILLIS + extension_millis) / 1000,
        ),
{
    let active_secs = active_millis / 1000;
    let mut first = String::new();
    first.append("Active time: ");
    let active_text = seconds_to_string(active_secs as i64);
    first.append(active_text.as_str());
    let second = limit_line_exec("Default limit: ", active_secs, DEFAULT_LIMIT_MILLIS / 1000);
    let extended_secs: u64 = ((DEFAULT_LIMIT_MILLIS as u128 + extension_millis as u128) / 1000) as u64;
    let third = limit_line_exec("Extended limit: ", active_secs, extended_secs);
    let mut lines: Vec<String> = Vec::new();
    lines.push(first);
    lines.push(second);
    lines.push(third);
    lines
}

} // verus!
