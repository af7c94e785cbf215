//! The daily restart: when it is due.

use crate::json;
use crate::json::{Json, Shape};
use crate::text;
use vstd::prelude::*;

verus! {

/// The file that holds the subscription settings.
pub const PPSUB_JSON: &'static str = "/etc/config/clash/clash-dashboard/data/ppsub.json";

/// The file that holds the day of the last restart.
pub const MARKER: &'static str = "/tmp/sniffbox_georestart.last";

/// The hour of the restart that settings name, where it is switched on.
pub open spec fn hour_of(v: Shape) -> Option<u8> {
    match json::field(v, "restart_cron"@) {
        Some(rc) => if json::truth_at(rc, "enable"@) == Some(true) {
            match json::whole_at(rc, "hour"@) {
                Some(h) => if h < 24 {
                    Some(h as u8)
                } else {
                    None
                },
                None => None,
            }
        } else {
            None
        },
        None => None,
    }
}

/// The hour of the restart that a text names.
pub open spec fn restart_hour_of(s: Seq<char>) -> Option<u8> {
    match json::json_value(s) {
        Some(v) => hour_of(v),
        None => None,
    }
}

/// The hour of the restart that settings name, where it is switched on.
pub fn restart_hour(v: &Json) -> (r: Option<u8>)
    ensures
        r == hour_of(v@),
{
    let rc = match v.get("restart_cron") {
        Some(rc) => rc,
        None => return None,
    };
    match rc.bool_at("enable") {
        Some(true) => {},
        _ => return None,
    }
    match rc.u64_at("hour") {
        Some(h) => if h < 24 {
            Some(h as u8)
        } else {
            None
        },
        None => None,
    }
}

/// The hour of the restart that a text names.
pub fn parse_restart_hour(json: &str) -> (r: Option<u8>)
    ensures
        r == restart_hour_of(json@),
        r matches Some(h) ==> h < 24,
{
    match json::parse(json) {
        Some(v) => restart_hour(&v),
        None => None,
    }
}

/// Whether the restart is due: in its hour, once a day. The marker holds the day
/// of the last one.
pub open spec fn due(cfg_hour: u8, now_hour: u8, today: Seq<char>, marker: Option<Seq<char>>) -> bool {
    &&& now_hour == cfg_hour
    &&& match marker {
        Some(m) => text::trimmed(m) != today,
        None => true,
    }
}

/// Whether the restart is due.
pub fn should_fire(cfg_hour: u8, now_hour: u8, today: &str, marker: Option<&str>) -> (r: bool)
    ensures
        r == due(cfg_hour, now_hour, today@, text::opt_str(marker)),
{
    if now_hour != cfg_hour {
        return false;
    }
    match marker {
        Some(m) => {
            let cs = text::chars_of(m);
            !text::same(text::trim(cs.as_slice()), today)
        },
        None => true,
    }
}

/// What a look at the clock comes to.
#[derive(Debug, Clone, Copy, PartialEq, Eq, Structural)]
pub enum Tick {
    /// Nothing is due.
    Idle,
    /// The day is written to the marker, and where that succeeds the restart follows.
    Restart,
}

/// What a look at the clock comes to: a restart is due where subscriptions are in use, the
/// settings can be read, and it is its hour for the first time that day.
pub open spec fn tick_of(
    active: bool,
    settings: Option<Seq<char>>,
    now_hour: u8,
    today: Seq<char>,
    marker: Option<Seq<char>>,
) -> Tick {
    match settings {
        Some(s) => match restart_hour_of(s) {
            Some(h) => if active && due(h, now_hour, today, marker) {
                Tick::Restart
            } else {
                Tick::Idle
            },
            None => Tick::Idle,
        },
        None => Tick::Idle,
    }
}

/// What a look at the clock comes to.
pub fn tick(
    active: bool,
    settings: Option<&str>,
    now_hour: u8,
    today: &str,
    marker: Option<&str>,
) -> (r: Tick)
    ensures
        r == tick_of(active, text::opt_str(settings), now_hour, today@, text::opt_str(marker)),
{
    if !active {
        return Tick::Idle;
    }
    let hour = match settings {
        Some(s) => parse_restart_hour(s),
        None => None,
    };
    match hour {
        Some(h) => if should_fire(h, now_hour, today, marker) {
            Tick::Restart
        } else {
            Tick::Idle
        },
        None => Tick::Idle,
    }
}

/// What follows once the day was to be written to the marker: without the marker the
/// restart would come again and again, so it is left out.
pub fn restarts(tick: Tick, marked: bool) -> (r: bool)
    ensures
        r == (tick is Restart && marked),
{
    tick == Tick::Restart && marked
}

/// The text of a day.
pub open spec fn day_text(year: int, month: int, day: int) -> Seq<char> {
    text::zero_padded(text::decimal(year), 4) + "-"@ + text::zero_padded(text::decimal(month), 2)
        + "-"@ + text::zero_padded(text::decimal(day), 2)
}

/// The text of a day.
pub fn date_text(year: u64, month: u64, day: u64) -> (r: String)
    ensures
        r@ == day_text(year as int, month as int, day as int),
{
    let mut out = String::new();
    text::push_padded(&mut out, year, 10, 4);
    out.append("-");
    text::push_padded(&mut out, month, 10, 2);
    out.append("-");
    text::push_padded(&mut out, day, 10, 2);
    assert(out@ =~= day_text(year as int, month as int, day as int));
    out
}

/// Once the marker holds the day, alone or with spaces around it, no further
/// restart is due on that day, whatever the hour.
pub proof fn law_once_a_day(cfg_hour: u8, now_hour: u8, today: Seq<char>, marker: Seq<char>)
    requires
        text::trimmed(marker) == today,
    ensures
        !due(cfg_hour, now_hour, today, Some(marker)),
        forall|active: bool, settings: Option<Seq<char>>| #[trigger]
            tick_of(active, settings, now_hour, today, Some(marker)) is Idle,
{
}

/// The hour of the restart is the one under its name, where the restart is switched on and
/// the hour is one of the day.
pub proof fn law_when_a_restart_is_set(v: Shape, rc: Shape, h: u64)
    requires
        json::field(v, "restart_cron"@) == Some(rc),
        json::field(rc, "hour"@) == Some(Shape::Number(text::decimal(h as int), Some(h))),
    ensures
        json::field(rc, "enable"@) == Some(Shape::Bool(true)) && h < 24 ==> hour_of(v) == Some(
            h as u8,
        ),
        json::field(rc, "enable"@) != Some(Shape::Bool(true)) ==> hour_of(v) is None,
        h >= 24 ==> hour_of(v) is None,
{
}

/// Without an hour nothing is restarted.
pub proof fn law_no_hour_no_restart(v: Shape, rc: Shape)
    ensures
        json::field(v, "restart_cron"@) is None ==> hour_of(v) is None,
        json::field(v, "restart_cron"@) == Some(rc) && json::field(rc, "hour"@) is None
            ==> hour_of(v) is None,
{
}

/// A restart is due in its hour, once on a day, and in no other hour.
pub proof fn law_when_a_restart_is_due(
    hour: u8,
    now_hour: u8,
    today: Seq<char>,
    marker: Seq<char>,
    active: bool,
    s: Seq<char>,
)
    ensures
        due(hour, hour, today, None),
        now_hour != hour ==> !due(hour, now_hour, today, None) && !due(
            hour,
            now_hour,
            today,
            Some(marker),
        ),
        due(hour, hour, today, Some(marker)) <==> text::trimmed(marker) != today,
        tick_of(active, Some(s), now_hour, today, Some(marker)) is Restart <==> active
            && restart_hour_of(s) == Some(now_hour) && text::trimmed(marker) != today,
        tick_of(active, Some(s), now_hour, today, None) is Restart <==> active
            && restart_hour_of(s) == Some(now_hour),
        tick_of(active, None, now_hour, today, None) is Idle,
{
}

/// A day is written as its year, its month and its day, with lines between them.
pub proof fn law_days_are_written(year: int, month: int, day: int)
    requires
        1000 <= year <= 9999,
        10 <= month <= 12,
        10 <= day <= 31,
    ensures
        day_text(year, month, day) == text::decimal(year) + "-"@ + text::decimal(month) + "-"@
            + text::decimal(day),
{
    reveal_with_fuel(text::written, 5);
}

/// Below ten a month and a day are written behind a nought.
pub proof fn law_short_days_are_written(year: int, month: int, day: int)
    requires
        1000 <= year <= 9999,
        1 <= month < 10,
        1 <= day < 10,
    ensures
        day_text(year, month, day) == text::decimal(year) + "-"@ + (seq!['0'] + text::decimal(
            month,
        )) + "-"@ + (seq!['0'] + text::decimal(day)),
{
    reveal_with_fuel(text::written, 5);
    assert(text::zero_padded(text::decimal(month), 2) =~= seq!['0'] + text::decimal(month));
    assert(text::zero_padded(text::decimal(day), 2) =~= seq!['0'] + text::decimal(day));
}

} // verus!
