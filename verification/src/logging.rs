//! Process-wide logging: the threshold, the line of a record, and the throttle for repeated warnings.
//!
//! One line per record, as `<utc> <LEVEL> <target>: <message>`.

pub mod utc;

use vstd::prelude::*;

use crate::config::value::LogLevel;
use crate::logging::utc::Utc;
use crate::number;
use crate::text;

verus! {

/// `log::LevelFilter`, the threshold of the log facade.
#[verifier::external_type_specification]
pub struct ExLevelFilter(log::LevelFilter);

impl From<LogLevel> for log::LevelFilter {
    fn from(level: LogLevel) -> (r: Self) {
        match level {
            LogLevel::Off => log::LevelFilter::Off,
            LogLevel::Error => log::LevelFilter::Error,
            LogLevel::Warn => log::LevelFilter::Warn,
            LogLevel::Info => log::LevelFilter::Info,
            LogLevel::Debug => log::LevelFilter::Debug,
            LogLevel::Trace => log::LevelFilter::Trace,
        }
    }
}

impl vstd::std_specs::convert::FromSpecImpl<LogLevel> for log::LevelFilter {
    open spec fn obeys_from_spec() -> bool {
        true
    }

    open spec fn from_spec(level: LogLevel) -> Self {
        match level {
            LogLevel::Off => log::LevelFilter::Off,
            LogLevel::Error => log::LevelFilter::Error,
            LogLevel::Warn => log::LevelFilter::Warn,
            LogLevel::Info => log::LevelFilter::Info,
            LogLevel::Debug => log::LevelFilter::Debug,
            LogLevel::Trace => log::LevelFilter::Trace,
        }
    }
}

/// Calls `log::set_max_level`, which sets the facade's global threshold. The threshold is state of
/// the process, so nothing is claimed of it here.
#[verifier::external_body]
fn set_max_level(filter: log::LevelFilter) {
    log::set_max_level(filter)
}

/// Set the default threshold, which is returned; `set_level` applies the configured one once the
/// configuration is loaded. The program installs its logger before.
pub fn init() -> (r: log::LevelFilter)
    ensures
        r == log::LevelFilter::Info,
{
    set_level(LogLevel::default())
}

/// Set the threshold, which is returned.
pub fn set_level(level: LogLevel) -> (r: log::LevelFilter)
    ensures
        r == <log::LevelFilter as vstd::std_specs::convert::FromSpec<LogLevel>>::from_spec(level),
{
    let filter = log::LevelFilter::from(level);
    set_max_level(filter);
    filter
}

/// The severity of a record.
#[derive(Clone, Copy, PartialEq, Eq, Structural, Debug)]
pub enum Severity {
    Error,
    Warn,
    Info,
    Debug,
    Trace,
}

impl Severity {
    /// The name, right-aligned to five characters.
    pub open spec fn column(self) -> Seq<char> {
        match self {
            Severity::Error => "ERROR"@,
            Severity::Warn => " WARN"@,
            Severity::Info => " INFO"@,
            Severity::Debug => "DEBUG"@,
            Severity::Trace => "TRACE"@,
        }
    }

    pub fn as_column(&self) -> (r: &'static str)
        ensures
            r@ == self.column(),
    {
        match self {
            Severity::Error => "ERROR",
            Severity::Warn => " WARN",
            Severity::Info => " INFO",
            Severity::Debug => "DEBUG",
            Severity::Trace => "TRACE",
        }
    }
}

/// The line of a record.
pub open spec fn record_line(
    now: Utc,
    severity: Severity,
    target: Seq<char>,
    message: Seq<char>,
) -> Seq<char> {
    now.text() + " "@ + severity.column() + " "@ + target + ": "@ + message + "\n"@
}

/// Append the line of a record.
pub fn format_record(line: &mut String, now: Utc, severity: Severity, target: &str, message: &str)
    ensures
        final(line)@ == old(line)@ + record_line(now, severity, target@, message@),
{
    let stamp = now.to_text();
    line.append(stamp.as_str());
    line.append(" ");
    line.append(severity.as_column());
    line.append(" ");
    line.append(target);
    line.append(": ");
    line.append(message);
    line.append("\n");
    assert(line@ =~= old(line)@ + record_line(now, severity, target@, message@));
}

/// Seconds between warnings of one call site.
pub const WARN_WINDOW: u64 = 60;

/// A throttle for one call site: the second of the last emission, 0 for never, and the calls suppressed
/// since.
pub struct Throttle {
    pub last: u32,
    pub suppressed: u32,
}

/// What a call at `now_secs` makes of the throttle, and whether it is emitted: with the number of calls
/// suppressed since the last emission, which restarts. A call is suppressed, and counted, while less
/// than `window_secs` have passed since the last emission.
pub open spec fn throttled(g: Throttle, now_secs: u32, window_secs: u64) -> (Throttle, Option<u32>) {
    let passed: int = if now_secs > g.last {
        now_secs - g.last
    } else {
        0
    };
    if g.last == 0 || passed >= clamped(window_secs) {
        (
            Throttle {
                last: if now_secs == 0 {
                    1
                } else {
                    now_secs
                },
                suppressed: 0,
            },
            Some(g.suppressed),
        )
    } else {
        (Throttle { last: g.last, suppressed: g.suppressed.wrapping_add(1) }, None)
    }
}

/// `secs`, but at most what 32 bits hold.
pub open spec fn clamped(secs: u64) -> u32 {
    if secs > u32::MAX {
        u32::MAX
    } else {
        secs as u32
    }
}

/// The decision behind a rate-limited log line: `Some(n)` to emit, with `n` suppressed since the
/// last emission; `None` to count this one. Whole-second granularity: a window of 0 emits every
/// call.
pub fn rate_gate(last: &mut u32, suppressed: &mut u32, now_secs: u32, window_secs: u64) -> (r: Option<
    u32,
>)
    ensures
        ({
            let before = Throttle { last: *old(last), suppressed: *old(suppressed) };
            let after = Throttle { last: *final(last), suppressed: *final(suppressed) };
            throttled(before, now_secs, window_secs) == (after, r)
        }),
{
    let window: u32 = monotonic_secs(window_secs);
    let last_emit: u32 = *last;
    if last_emit == 0 || now_secs.saturating_sub(last_emit) >= window {
        // Elapsed 0 s must not read as "never".
        *last = if now_secs == 0 {
            1
        } else {
            now_secs
        };
        let n: u32 = *suppressed;
        *suppressed = 0;
        Some(n)
    } else {
        *suppressed = suppressed.wrapping_add(1);
        None
    }
}

/// What a rate-limited line says: the message, and how many calls were suppressed since the last one.
pub open spec fn rate_text(message: Seq<char>, suppressed: u32) -> Seq<char> {
    if suppressed == 0 {
        message
    } else {
        message + " ("@ + number::decimal(suppressed as nat) + " suppressed)"@
    }
}

/// Disclose on a rate-limited line the calls that were suppressed since the last one.
pub fn disclose(message: &mut String, suppressed: u32)
    ensures
        final(message)@ == rate_text(old(message)@, suppressed),
{
    if suppressed > 0 {
        message.append(" (");
        text::push_decimal(message, suppressed as u64);
        message.append(" suppressed)");
    }
}

/// The seconds elapsed since the first reading of a clock, in 32 bits.
pub fn monotonic_secs(elapsed_secs: u64) -> (r: u32)
    ensures
        r == clamped(elapsed_secs),
{
    if elapsed_secs > u32::MAX as u64 {
        u32::MAX
    } else {
        elapsed_secs as u32
    }
}

/// Of two readings of a clock that never goes back, the later is no smaller.
pub proof fn law_monotonic_secs_never_decrease(a: u64, b: u64)
    requires
        a <= b,
    ensures
        clamped(a) <= clamped(b),
{
}

/// The throttle after calls at the given seconds.
pub open spec fn throttle_after(g: Throttle, calls: Seq<u32>, window_secs: u64) -> Throttle
    decreases calls.len(),
{
    if calls.len() == 0 {
        g
    } else {
        throttled(throttle_after(g, calls.drop_last(), window_secs), calls.last(), window_secs).0
    }
}

/// The calls at the given seconds that were emitted, and those that an emission disclosed as
/// suppressed.
pub open spec fn disclosed(g: Throttle, calls: Seq<u32>, window_secs: u64) -> int
    decreases calls.len(),
{
    if calls.len() == 0 {
        0
    } else {
        let before = throttle_after(g, calls.drop_last(), window_secs);
        disclosed(g, calls.drop_last(), window_secs) + match throttled(
            before,
            calls.last(),
            window_secs,
        ).1 {
            Some(n) => 1 + n,
            None => 0,
        }
    }
}

/// Every call is emitted, disclosed by a later emission, or still counted by the throttle.
pub proof fn law_every_call_is_accounted_for(calls: Seq<u32>, window_secs: u64)
    requires
        calls.len() <= u32::MAX,
    ensures
        ({
            let start = Throttle { last: 0, suppressed: 0 };
            disclosed(start, calls, window_secs) + throttle_after(start, calls, window_secs).suppressed
                == calls.len()
        }),
    decreases calls.len(),
{
    let start = Throttle { last: 0, suppressed: 0 };
    if calls.len() > 0 {
        let t = calls.drop_last();
        law_every_call_is_accounted_for(t, window_secs);
        lemma_disclosed_is_not_negative(start, t, window_secs);
    }
}

proof fn lemma_disclosed_is_not_negative(g: Throttle, calls: Seq<u32>, window_secs: u64)
    ensures
        disclosed(g, calls, window_secs) >= 0,
    decreases calls.len(),
{
    if calls.len() > 0 {
        lemma_disclosed_is_not_negative(g, calls.drop_last(), window_secs);
    }
}

/// After an emission, a call within the window is not emitted.
pub proof fn law_emissions_are_a_window_apart(g: Throttle, first: u32, second: u32, window_secs: u64)
    requires
        throttled(g, first, window_secs).1 is Some,
        first <= second,
        second - first < clamped(window_secs),
    ensures
        throttled(throttled(g, first, window_secs).0, second, window_secs).1 is None,
{
}

/// A line goes out the first time, and again once a window has passed, with what was suppressed since;
/// in between it is counted. A window of no seconds holds nothing back.
pub proof fn law_when_a_line_goes_out(g: Throttle, now_secs: u32, window_secs: u64)
    ensures
        g.last == 0 ==> throttled(g, now_secs, window_secs).1 == Some(g.suppressed),
        throttled(g, now_secs, 0).1 == Some(g.suppressed),
        g.last != 0 && window_secs <= u32::MAX && now_secs - g.last >= window_secs ==> throttled(
            g,
            now_secs,
            window_secs,
        ).1 == Some(g.suppressed),
        g.last != 0 && window_secs > 0 && now_secs - g.last < window_secs && now_secs - g.last
            < u32::MAX ==> {
            let (after, out) = throttled(g, now_secs, window_secs);
            &&& out is None
            &&& after.last == g.last
            &&& g.suppressed < u32::MAX ==> after.suppressed == g.suppressed + 1
        },
        throttled(g, now_secs, window_secs).1 is Some ==> {
            let after = throttled(g, now_secs, window_secs).0;
            &&& after.suppressed == 0
            &&& after.last != 0
            &&& now_secs != 0 ==> after.last == now_secs
        },
        WARN_WINDOW == 60,
{
}

/// Seconds that 32 bits hold are told as they are, and more as the most there are.
pub proof fn law_seconds_are_told_as_they_are(secs: u64)
    ensures
        secs <= 0xffff_ffff ==> clamped(secs) == secs,
        secs > 0xffff_ffff ==> clamped(secs) == 0xffff_ffff,
{
}

/// Each level of the configuration is the facade's level of the same name.
pub proof fn law_a_level_is_the_level_of_its_name()
    ensures
        <log::LevelFilter as vstd::std_specs::convert::FromSpec<LogLevel>>::from_spec(LogLevel::Off)
            == log::LevelFilter::Off,
        <log::LevelFilter as vstd::std_specs::convert::FromSpec<LogLevel>>::from_spec(
            LogLevel::Error,
        ) == log::LevelFilter::Error,
        <log::LevelFilter as vstd::std_specs::convert::FromSpec<LogLevel>>::from_spec(LogLevel::Warn)
            == log::LevelFilter::Warn,
        <log::LevelFilter as vstd::std_specs::convert::FromSpec<LogLevel>>::from_spec(LogLevel::Info)
            == log::LevelFilter::Info,
        <log::LevelFilter as vstd::std_specs::convert::FromSpec<LogLevel>>::from_spec(
            LogLevel::Debug,
        ) == log::LevelFilter::Debug,
        <log::LevelFilter as vstd::std_specs::convert::FromSpec<LogLevel>>::from_spec(
            LogLevel::Trace,
        ) == log::LevelFilter::Trace,
{
}

} // verus!
