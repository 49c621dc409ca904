use chrono::Datelike;
use vstd::prelude::*;
use vstd::arithmetic::div_mod::lemma_fundamental_div_mod;
use crate::naming::tag_shape;

verus! {

/// Seconds in the calendar units the rotation categories use.
pub const QUARTER_HOUR: i64 = 900;
pub const HOUR: i64 = 3600;
pub const DAY: i64 = 86400;
pub const WEEK: i64 = 604800;

/// Bounds, in seconds since the Unix epoch, inside which the calendar
/// helpers may be called; comfortably inside the range chrono represents.
pub const MIN_STAMP: i64 = -8_000_000_000_000;
pub const MAX_STAMP: i64 = 8_000_000_000_000;

/// First instant of the year 10000 (UTC): instants at or beyond it have
/// no four-digit year, so the snapshot tag format excludes them.
pub const YEAR_TEN_THOUSAND: i64 = 253_402_300_800;

/// An instant the policy engine accepts as "now".
pub open spec fn now_ok(t: int) -> bool {
    0 <= t < YEAR_TEN_THOUSAND
}

/// The largest multiple of `step` that is at or before `t`.
pub open spec fn floor_to(t: int, step: int) -> int
    recommends
        0 < step,
{
    (t / step) * step
}

pub open spec fn day_floor(t: int) -> int {
    floor_to(t, 86400)
}

/// Days since Monday of the UTC day holding `t`: the epoch day was a
/// Thursday, three days past a Monday.
pub open spec fn days_from_monday(t: int) -> int
    recommends
        0 <= t,
{
    (t / 86400 + 3) % 7
}

/// Midnight of the most recent Monday on or before `t`.
pub open spec fn week_anchor(t: int) -> int
    recommends
        0 <= t,
{
    day_floor(t) - days_from_monday(t) * 86400
}

/// The largest multiple of `step` at or before `t`, for nonnegative `t`.
pub fn floor_to_step(t: i64, step: i64) -> (r: i64)
    requires
        0 <= t,
        0 < step,
    ensures
        r == floor_to(t as int, step as int),
        0 <= r <= t,
        t - step < r,
{
    let tu = t as u64;
    let su = step as u64;
    let q = tu / su;
    proof {
        lemma_fundamental_div_mod(tu as int, su as int);
    }
    let r = q * su;
    r as i64
}

/// Midnight of the most recent Monday on or before `t`.
pub fn week_anchor_of(t: i64) -> (r: i64)
    requires
        0 <= t,
    ensures
        r == week_anchor(t as int),
        -604800 < r <= t,
{
    let d = floor_to_step(t, 86400);
    let days = (t as u64) / 86400;
    let dfm = (days + 3) % 7;
    d - (dfm as i64) * 86400
}

/// The instant at which the UTC month holding `t` begins.
pub uninterp spec fn month_floor_of(t: int) -> int;

/// The instant at which the UTC month before the one holding `t` begins.
pub uninterp spec fn prev_month_of(t: int) -> int;

/// The snapshot date-time tag of `t`: `YYYY-MM-DDTHHMM` in UTC.
pub uninterp spec fn tag_of(t: int) -> Seq<char>;

/// Relies on chrono's civil-calendar conversion (`DateTime::from_timestamp`,
/// `NaiveDate::with_day`) to find the start of the UTC month holding `t`: it
/// is at or before `t`, and a month spans less than 32 days (2764800 s).
#[verifier::external_body]
pub(crate) fn month_floor(t: i64) -> (r: i64)
    requires
        MIN_STAMP <= t <= MAX_STAMP,
    ensures
        r == month_floor_of(t as int),
        r <= t,
        t - 2764800 < r,
{
    let day = chrono::DateTime::from_timestamp(t, 0)
        .unwrap()
        .date_naive()
        .with_day(1)
        .unwrap();
    day.and_hms_opt(0, 0, 0).unwrap().and_utc().timestamp()
}

/// Relies on chrono's civil-calendar conversion (`NaiveDate::pred_opt`,
/// `NaiveDate::with_day`) to find the start of the UTC month before the one
/// holding `t`: it is strictly before `t`, and two months span less than
/// 62 days (5356800 s).
#[verifier::external_body]
pub(crate) fn prev_month(t: i64) -> (r: i64)
    requires
        MIN_STAMP <= t <= MAX_STAMP,
    ensures
        r == prev_month_of(t as int),
        r < t,
        t - 5356800 < r,
{
    let first = chrono::DateTime::from_timestamp(t, 0)
        .unwrap()
        .date_naive()
        .with_day(1)
        .unwrap();
    let prev = first.pred_opt().unwrap().with_day(1).unwrap();
    prev.and_hms_opt(0, 0, 0).unwrap().and_utc().timestamp()
}

/// Relies on chrono's strftime-style formatting with `"%Y-%m-%dT%H%M"`:
/// zero-padded four-digit year and two-digit month, day, hour and minute of
/// `t` in UTC; the result depends on `t` alone.
#[verifier::external_body]
pub(crate) fn format_tag(t: i64) -> (r: String)
    requires
        now_ok(t as int),
    ensures
        r@ == tag_of(t as int),
        tag_shape(r@),
{
    chrono::DateTime::from_timestamp(t, 0)
        .unwrap()
        .format("%Y-%m-%dT%H%M")
        .to_string()
}

} // verus!
