//! Simulation clock: advancing game time by one tick of the configured unit, and
//! deciding which schedule tiers (primary/secondary/tertiary) are due.
//!
//! The schedules themselves are run by the host around these decisions.

use vstd::prelude::*;
use crate::world::{GameDate, GameTime, TickUnit, TimeConfig};

verus! {

/// How often a system runs when advancing time.
#[derive(Clone, Copy, PartialEq, Eq, Hash, Debug, Structural)]
pub enum TickRate {
    /// Runs every tick (primary schedule).
    EveryTick,
    /// Runs every `secondary_every` ticks (secondary schedule).
    EverySecondary,
    /// Runs every `tertiary_every` ticks (tertiary schedule).
    EveryTertiary,
    EveryDay,
    EveryMonth,
    EveryYear,
}

/// Days in `month` (1-based; month 0 counts as January, months past 12 as December).
/// February always has 28 days.
pub open spec fn days_in_month(month: u8) -> u16 {
    let idx = if month == 0 { 0 } else if month > 12 { 11 } else { month - 1 };
    if idx == 1 {
        28
    } else if idx == 3 || idx == 5 || idx == 8 || idx == 10 {
        30
    } else {
        31
    }
}

fn month_length(month: u8) -> (r: u16)
    ensures
        r == days_in_month(month),
{
    let days: [u16; 12] = [31, 28, 31, 30, 31, 30, 31, 31, 30, 31, 30, 31];
    let idx: usize = if month == 0 { 0 } else if month > 12 { 11 } else { (month - 1) as usize };
    days[idx]
}

// --- one step of each unit, as the engine performs it ---

/// Month step without touching the day: month + 1, wrapping into the next year after 12.
pub open spec fn month_step_ok(t: GameTime) -> bool {
    &&& t.month < u8::MAX
    &&& t.month + 1 > 12 ==> t.year < i32::MAX
}

pub open spec fn month_step(t: GameTime) -> GameTime {
    if t.month + 1 > 12 {
        GameTime { month: 1, year: (t.year + 1) as i32, ..t }
    } else {
        GameTime { month: (t.month + 1) as u8, ..t }
    }
}

pub open spec fn day_step_ok(t: GameTime) -> bool {
    &&& t.day < u16::MAX
    &&& t.day + 1 > days_in_month(t.month) ==> month_step_ok(t)
}

pub open spec fn day_step(t: GameTime) -> GameTime {
    if t.day + 1 > days_in_month(t.month) {
        month_step(GameTime { day: 1, ..t })
    } else {
        GameTime { day: (t.day + 1) as u16, ..t }
    }
}

pub open spec fn hour_step_ok(t: GameTime) -> bool {
    &&& t.hour < u8::MAX
    &&& t.hour + 1 >= 24 ==> day_step_ok(t)
}

pub open spec fn hour_step(t: GameTime) -> GameTime {
    if t.hour + 1 >= 24 {
        day_step(GameTime { hour: 0, ..t })
    } else {
        GameTime { hour: (t.hour + 1) as u8, ..t }
    }
}

pub open spec fn minute_step_ok(t: GameTime) -> bool {
    &&& t.minute < u8::MAX
    &&& t.minute + 1 >= 60 ==> hour_step_ok(t)
}

pub open spec fn minute_step(t: GameTime) -> GameTime {
    if t.minute + 1 >= 60 {
        hour_step(GameTime { minute: 0, ..t })
    } else {
        GameTime { minute: (t.minute + 1) as u8, ..t }
    }
}

pub open spec fn second_step_ok(t: GameTime) -> bool {
    &&& t.second < u8::MAX
    &&& t.second + 1 >= 60 ==> minute_step_ok(t)
}

pub open spec fn second_step(t: GameTime) -> GameTime {
    if t.second + 1 >= 60 {
        minute_step(GameTime { second: 0, ..t })
    } else {
        GameTime { second: (t.second + 1) as u8, ..t }
    }
}

/// `n` day steps in a row.
pub open spec fn days_step(t: GameTime, n: nat) -> GameTime
    decreases n,
{
    if n == 0 { t } else { days_step(day_step(t), (n - 1) as nat) }
}

pub open spec fn days_step_ok(t: GameTime, n: nat) -> bool
    decreases n,
{
    if n == 0 { true } else { day_step_ok(t) && days_step_ok(day_step(t), (n - 1) as nat) }
}

/// The calendar advance of one tick of `unit` (the tick counter aside).
pub open spec fn unit_step(t: GameTime, unit: TickUnit) -> GameTime {
    match unit {
        TickUnit::Second => second_step(t),
        TickUnit::Minute => minute_step(t),
        TickUnit::Hour => hour_step(t),
        TickUnit::Day => day_step(t),
        TickUnit::Week => days_step(t, 7),
        TickUnit::Month => month_step(t),
        TickUnit::Year => GameTime { year: (t.year + 1) as i32, ..t },
    }
}

/// The inputs on which one tick of `unit` stays within the field ranges.
pub open spec fn advance_ok(t0: GameTime, unit: TickUnit) -> bool {
    let t = GameTime { tick: (t0.tick + 1) as u64, ..t0 };
    &&& t0.tick < u64::MAX
    &&& match unit {
        TickUnit::Second => second_step_ok(t),
        TickUnit::Minute => minute_step_ok(t),
        TickUnit::Hour => hour_step_ok(t),
        TickUnit::Day => day_step_ok(t),
        TickUnit::Week => days_step_ok(t, 7),
        TickUnit::Month => month_step_ok(t),
        TickUnit::Year => t.year < i32::MAX,
    }
}

/// One tick of `unit`: the tick counter goes up by one and the calendar advances.
pub open spec fn advanced(t: GameTime, unit: TickUnit) -> GameTime {
    unit_step(GameTime { tick: (t.tick + 1) as u64, ..t }, unit)
}

fn advance_by_month_no_day(time: &mut GameTime)
    requires
        month_step_ok(*old(time)),
    ensures
        *final(time) == month_step(*old(time)),
{
    time.month += 1;
    if time.month > 12 {
        time.month = 1;
        time.year += 1;
    }
}

fn advance_by_day(time: &mut GameTime)
    requires
        day_step_ok(*old(time)),
    ensures
        *final(time) == day_step(*old(time)),
{
    let max_day = month_length(time.month);
    time.day += 1;
    if time.day > max_day {
        time.day = 1;
        advance_by_month_no_day(time);
    }
}

fn advance_by_hour(time: &mut GameTime)
    requires
        hour_step_ok(*old(time)),
    ensures
        *final(time) == hour_step(*old(time)),
{
    time.hour += 1;
    if time.hour >= 24 {
        time.hour = 0;
        advance_by_day(time);
    }
}

fn advance_by_minute(time: &mut GameTime)
    requires
        minute_step_ok(*old(time)),
    ensures
        *final(time) == minute_step(*old(time)),
{
    time.minute += 1;
    if time.minute >= 60 {
        time.minute = 0;
        advance_by_hour(time);
    }
}

fn advance_by_second(time: &mut GameTime)
    requires
        second_step_ok(*old(time)),
    ensures
        *final(time) == second_step(*old(time)),
{
    time.second += 1;
    if time.second >= 60 {
        time.second = 0;
        advance_by_minute(time);
    }
}

/// Advance `time` by one tick of `unit`.
pub fn advance_time_in_place(time: &mut GameTime, unit: TickUnit)
    requires
        advance_ok(*old(time), unit),
    ensures
        *final(time) == advanced(*old(time), unit),
{
    time.tick += 1;
    match unit {
        TickUnit::Second => advance_by_second(time),
        TickUnit::Minute => advance_by_minute(time),
        TickUnit::Hour => advance_by_hour(time),
        TickUnit::Day => advance_by_day(time),
        TickUnit::Week => {
            let mut i: u32 = 0;
            while i < 7
                invariant
                    i <= 7,
                    days_step_ok(*time, (7 - i) as nat),
                    days_step(*time, (7 - i) as nat) == advanced(*old(time), unit),
                decreases 7 - i,
            {
                advance_by_day(time);
                i += 1;
            }
        },
        TickUnit::Month => advance_by_month_no_day(time),
        TickUnit::Year => {
            time.year += 1;
        },
    }
}

/// One day step of a date (the same calendar rule as for game time).
pub open spec fn date_step(d: GameDate) -> GameDate {
    if d.day + 1 > days_in_month(d.month) {
        if d.month + 1 > 12 {
            GameDate { day: 1, month: 1, year: (d.year + 1) as i32 }
        } else {
            GameDate { day: 1, month: (d.month + 1) as u8, year: d.year }
        }
    } else {
        GameDate { day: (d.day + 1) as u16, ..d }
    }
}

pub open spec fn date_step_ok(d: GameDate) -> bool {
    &&& d.day < u16::MAX
    &&& d.day + 1 > days_in_month(d.month) ==> d.month < u8::MAX && (d.month + 1 > 12 ==> d.year < i32::MAX)
}

/// Advance a date by one day in place.
pub fn advance_date_in_place(date: &mut GameDate)
    requires
        date_step_ok(*old(date)),
    ensures
        *final(date) == date_step(*old(date)),
{
    let max_day = month_length(date.month);
    date.day += 1;
    if date.day > max_day {
        date.day = 1;
        date.month += 1;
        if date.month > 12 {
            date.month = 1;
            date.year += 1;
        }
    }
}

/// The date one day after `date`.
pub fn advance_date_by_day_inline(date: GameDate) -> (r: GameDate)
    requires
        date_step_ok(date),
    ensures
        r == date_step(date),
{
    let mut d = date;
    advance_date_in_place(&mut d);
    d
}

/// Whether a tier that fires every `every` ticks is due when the tick counter moves
/// from `prev_tick` to `new_tick`: a multiple of `every` was crossed (never when 0).
pub open spec fn spec_tier_due(prev_tick: u64, new_tick: u64, every: u32) -> bool {
    every > 0 && new_tick / (every as u64) != prev_tick / (every as u64)
}

pub fn tier_due(prev_tick: u64, new_tick: u64, every: u32) -> (r: bool)
    ensures
        r == spec_tier_due(prev_tick, new_tick, every),
{
    every > 0 && (new_tick / every as u64) != (prev_tick / every as u64)
}

/// Which schedule tiers are due after one tick.
#[derive(Clone, Copy, PartialEq, Eq, Debug, Structural)]
pub struct TickPlan {
    pub run_primary: bool,
    pub run_secondary: bool,
    pub run_tertiary: bool,
}

/// One configured tick: advances `time` by the configured unit and reports which tiers
/// are due. The primary tier runs every tick; the secondary and tertiary tiers when
/// their thresholds are crossed.
pub fn plan_tick(time: &mut GameTime, config: &TimeConfig) -> (r: TickPlan)
    requires
        advance_ok(*old(time), config.tick_unit),
    ensures
        *final(time) == advanced(*old(time), config.tick_unit),
        r.run_primary,
        r.run_secondary == spec_tier_due(old(time).tick, final(time).tick, config.secondary_every),
        r.run_tertiary == spec_tier_due(old(time).tick, final(time).tick, config.tertiary_every),
{
    let prev_tick = time.tick;
    advance_time_in_place(time, config.tick_unit);
    let new_tick = time.tick;
    TickPlan {
        run_primary: true,
        run_secondary: tier_due(prev_tick, new_tick, config.secondary_every),
        run_tertiary: tier_due(prev_tick, new_tick, config.tertiary_every),
    }
}

/// Outcome of a legacy day tick: the new date, the new game time (when the world keeps
/// one), and whether the monthly and yearly tiers are due.
pub struct DayTick {
    pub date: GameDate,
    pub time: Option<GameTime>,
    pub run_monthly: bool,
    pub run_yearly: bool,
}

/// Legacy day tick. The monthly tier is due when the day after `date` is the 1st, the
/// yearly tier when that day is also in January. With a game time, the time advances by
/// one day and the date becomes its calendar part; without, the date advances by a day.
pub fn plan_tick_day(date: GameDate, time: Option<GameTime>) -> (r: DayTick)
    requires
        date_step_ok(date),
        time matches Some(t) ==> advance_ok(t, TickUnit::Day),
    ensures
        r.run_monthly == (date_step(date).day == 1),
        r.run_yearly == (date_step(date).day == 1 && date_step(date).month == 1),
        match time {
            Some(t) => r.time == Some(advanced(t, TickUnit::Day)) && r.date == advanced(t, TickUnit::Day).spec_date(),
            None => r.time is None && r.date == date_step(date),
        },
{
    let next = advance_date_by_day_inline(date);
    let run_monthly = next.day == 1;
    let run_yearly = run_monthly && next.month == 1;
    match time {
        Some(t) => {
            let mut t2 = t;
            advance_time_in_place(&mut t2, TickUnit::Day);
            DayTick { date: t2.to_date(), time: Some(t2), run_monthly, run_yearly }
        },
        None => {
            let mut d = date;
            advance_date_in_place(&mut d);
            DayTick { date: d, time: None, run_monthly, run_yearly }
        },
    }
}

fn month_ok(t: &GameTime) -> (r: bool)
    ensures
        r == month_step_ok(*t),
{
    t.month < u8::MAX && (t.month + 1 <= 12 || t.year < i32::MAX)
}

fn day_ok(t: &GameTime) -> (r: bool)
    ensures
        r == day_step_ok(*t),
{
    t.day < u16::MAX && (t.day + 1 <= month_length(t.month) || month_ok(t))
}

fn hour_ok(t: &GameTime) -> (r: bool)
    ensures
        r == hour_step_ok(*t),
{
    t.hour < u8::MAX && (t.hour + 1 < 24 || day_ok(t))
}

fn minute_ok(t: &GameTime) -> (r: bool)
    ensures
        r == minute_step_ok(*t),
{
    t.minute < u8::MAX && (t.minute + 1 < 60 || hour_ok(t))
}

fn second_ok(t: &GameTime) -> (r: bool)
    ensures
        r == second_step_ok(*t),
{
    t.second < u8::MAX && (t.second + 1 < 60 || minute_ok(t))
}

/// Whether one tick of `unit` can advance `time` with every field staying within its
/// type (the tick counter, and the calendar fields it carries into).
pub fn can_advance(time: GameTime, unit: TickUnit) -> (r: bool)
    ensures
        r == advance_ok(time, unit),
{
    if time.tick == u64::MAX {
        return false;
    }
    let t = GameTime { tick: time.tick + 1, ..time };
    match unit {
        TickUnit::Second => second_ok(&t),
        TickUnit::Minute => minute_ok(&t),
        TickUnit::Hour => hour_ok(&t),
        TickUnit::Day => day_ok(&t),
        TickUnit::Week => {
            let mut c = t;
            let mut i: u32 = 0;
            while i < 7
                invariant
                    i <= 7,
                    unit == TickUnit::Week,
                    time.tick < u64::MAX,
                    t == (GameTime { tick: (time.tick + 1) as u64, ..time }),
                    days_step_ok(t, 7) == days_step_ok(c, (7 - i) as nat),
                decreases 7 - i,
            {
                proof {
                    assert(days_step_ok(c, (7 - i) as nat) == (day_step_ok(c) && days_step_ok(day_step(c), (7 - i - 1) as nat)));
                }
                if !day_ok(&c) {
                    return false;
                }
                advance_by_day(&mut c);
                i += 1;
            }
            true
        },
        TickUnit::Month => month_ok(&t),
        TickUnit::Year => t.year < i32::MAX,
    }
}

/// Whether `date` can advance by a day with every field staying within its type.
pub fn can_step_date(date: GameDate) -> (r: bool)
    ensures
        r == date_step_ok(date),
{
    date.day < u16::MAX && (date.day + 1 <= month_length(date.month)
        || (date.month < u8::MAX && (date.month + 1 <= 12 || date.year < i32::MAX)))
}

/// `plan_tick` where the tick can be taken; `None`, with `time` unchanged, where a
/// field would leave its type.
pub fn try_plan_tick(time: &mut GameTime, config: &TimeConfig) -> (r: Option<TickPlan>)
    ensures
        advance_ok(*old(time), config.tick_unit) ==> {
            &&& *final(time) == advanced(*old(time), config.tick_unit)
            &&& r matches Some(p) && p.run_primary
                && p.run_secondary == spec_tier_due(old(time).tick, final(time).tick, config.secondary_every)
                && p.run_tertiary == spec_tier_due(old(time).tick, final(time).tick, config.tertiary_every)
        },
        !advance_ok(*old(time), config.tick_unit) ==> r is None && *final(time) == *old(time),
{
    if can_advance(*time, config.tick_unit) {
        Some(plan_tick(time, config))
    } else {
        None
    }
}

/// `plan_tick_day` where the day can be taken; `None` where a field would leave its
/// type.
pub fn try_plan_tick_day(date: GameDate, time: Option<GameTime>) -> (r: Option<DayTick>)
    ensures
        (date_step_ok(date) && (time matches Some(t) ==> advance_ok(t, TickUnit::Day))) <==> r is Some,
        r matches Some(d) ==> {
            &&& d.run_monthly == (date_step(date).day == 1)
            &&& d.run_yearly == (date_step(date).day == 1 && date_step(date).month == 1)
            &&& match time {
                Some(t) => d.time == Some(advanced(t, TickUnit::Day)) && d.date == advanced(t, TickUnit::Day).spec_date(),
                None => d.time is None && d.date == date_step(date),
            }
        },
{
    let time_ok = match time {
        Some(t) => can_advance(t, TickUnit::Day),
        None => true,
    };
    if can_step_date(date) && time_ok {
        Some(plan_tick_day(date, time))
    } else {
        None
    }
}

/// A calendar time whose fields lie in their ranges.
pub open spec fn valid_calendar(t: GameTime) -> bool {
    &&& t.second < 60
    &&& t.minute < 60
    &&& t.hour < 24
    &&& 1 <= t.month <= 12
    &&& 1 <= t.day <= days_in_month(t.month)
}

/// A calendar date whose fields lie in their ranges.
pub open spec fn valid_date(d: GameDate) -> bool {
    &&& 1 <= d.month <= 12
    &&& 1 <= d.day <= days_in_month(d.month)
}

proof fn lemma_day_step_valid(t: GameTime)
    requires
        valid_calendar(t),
        t.year < i32::MAX || t.month != 12 || t.day < 31,
    ensures
        day_step_ok(t),
        valid_calendar(day_step(t)),
        day_step(t).tick == t.tick,
        day_step(t).year >= t.year,
        day_step(t).year > t.year ==> day_step(t).month == 1 && day_step(t).day == 1,
        day_step(t).year == t.year ==> day_step(t).month >= t.month,
        day_step(t).month == t.month && day_step(t).year == t.year ==> day_step(t).day == t.day + 1,
{
}

proof fn lemma_days_step_valid(t: GameTime, n: nat)
    requires
        valid_calendar(t),
        n <= 7,
        t.year < i32::MAX || (t.month == 1 && t.day + n <= 31),
    ensures
        days_step_ok(t, n),
        valid_calendar(days_step(t, n)),
        days_step(t, n).tick == t.tick,
    decreases n,
{
    if n > 0 {
        lemma_day_step_valid(t);
        lemma_days_step_valid(day_step(t), (n - 1) as nat);
    }
}

/// One tick of any unit from a valid calendar time stays within the field ranges and
/// gives a valid calendar time, unless the tick counter or the year is exhausted, or a
/// month tick lands on a day the next month does not have (the day is kept as is).
pub proof fn law_tick_keeps_calendar_valid(t: GameTime, unit: TickUnit)
    requires
        valid_calendar(t),
        t.tick < u64::MAX,
        t.year < i32::MAX,
        unit == TickUnit::Month ==> t.day <= days_in_month(month_step(t).month),
    ensures
        advance_ok(t, unit),
        valid_calendar(advanced(t, unit)),
        advanced(t, unit).tick == t.tick + 1,
{
    let t1 = GameTime { tick: (t.tick + 1) as u64, ..t };
    lemma_day_step_valid(t1);
    lemma_days_step_valid(t1, 7);
    lemma_day_step_valid(GameTime { hour: 0, ..t1 });
    lemma_day_step_valid(GameTime { hour: 0, minute: 0, ..t1 });
    lemma_day_step_valid(GameTime { hour: 0, minute: 0, second: 0, ..t1 });
}

/// Advancing a game time by one day and advancing its date by one day agree, so the
/// date kept beside the time stays in step with it.
pub proof fn law_day_tick_date_in_step(t: GameTime)
    requires
        advance_ok(t, TickUnit::Day),
    ensures
        date_step_ok(t.spec_date()),
        date_step(t.spec_date()) == advanced(t, TickUnit::Day).spec_date(),
{
}

/// A day step from a valid date gives a valid date, unless the year is exhausted.
pub proof fn law_date_step_valid(d: GameDate)
    requires
        valid_date(d),
        d.year < i32::MAX,
    ensures
        date_step_ok(d),
        valid_date(date_step(d)),
{
}

/// The months have their calendar lengths: February 28 days; April, June, September
/// and November 30; every other month 31.
pub proof fn law_month_lengths(m: u8)
    requires
        1 <= m <= 12,
    ensures
        days_in_month(m) == (if m == 2 { 28u16 } else if m == 4 || m == 6 || m == 9 || m == 11 { 30u16 } else { 31u16 }),
{
}

/// A day step of a calendar date moves to the next day of the month; from the last day
/// of a month (28, 30 or 31 by the calendar) to the 1st of the next month; from
/// December 31 to January 1 of the next year.
pub proof fn law_date_step_calendar(d: GameDate)
    requires
        1 <= d.month <= 12,
        1 <= d.day <= (if d.month == 2 { 28u16 } else if d.month == 4 || d.month == 6 || d.month == 9 || d.month == 11 { 30u16 } else { 31u16 }),
        d.year < i32::MAX,
    ensures
        ({
            let len: u16 = if d.month == 2 { 28 } else if d.month == 4 || d.month == 6 || d.month == 9 || d.month == 11 { 30 } else { 31 };
            date_step(d) == if d.day < len {
                GameDate { day: (d.day + 1) as u16, month: d.month, year: d.year }
            } else if d.month < 12 {
                GameDate { day: 1, month: (d.month + 1) as u8, year: d.year }
            } else {
                GameDate { day: 1, month: 1, year: (d.year + 1) as i32 }
            }
        }),
        date_step_ok(d),
{
}

/// A day tick of a calendar time moves its date exactly as the calendar does (see
/// `law_date_step_calendar`), counts one tick, and keeps the time of day.
pub proof fn law_day_tick_calendar(t: GameTime)
    requires
        1 <= t.month <= 12,
        1 <= t.day <= (if t.month == 2 { 28u16 } else if t.month == 4 || t.month == 6 || t.month == 9 || t.month == 11 { 30u16 } else { 31u16 }),
        t.year < i32::MAX,
        t.tick < u64::MAX,
    ensures
        advance_ok(t, TickUnit::Day),
        ({
            let len: u16 = if t.month == 2 { 28 } else if t.month == 4 || t.month == 6 || t.month == 9 || t.month == 11 { 30 } else { 31 };
            let n = advanced(t, TickUnit::Day);
            &&& n.tick == t.tick + 1
            &&& n.second == t.second && n.minute == t.minute && n.hour == t.hour
            &&& (n.year, n.month, n.day) == if t.day < len {
                (t.year, t.month, (t.day + 1) as u16)
            } else if t.month < 12 {
                (t.year, (t.month + 1) as u8, 1u16)
            } else {
                ((t.year + 1) as i32, 1u8, 1u16)
            }
        }),
{
}

/// Over consecutive ticks, a tier that fires every `every` ticks is due exactly when the
/// new tick count is a multiple of `every`.
pub proof fn law_tier_due_every(prev_tick: u64, every: u32)
    requires
        prev_tick < u64::MAX,
    ensures
        spec_tier_due(prev_tick, (prev_tick + 1) as u64, every)
            == (every > 0 && ((prev_tick + 1) as u64) % (every as u64) == 0),
{
    if every > 0 {
        let e = every as int;
        let p = prev_tick as int;
        assert((p + 1) / e != p / e <==> (p + 1) % e == 0) by (nonlinear_arith)
            requires e > 0, p >= 0,
        {
            vstd::arithmetic::div_mod::lemma_fundamental_div_mod(p, e);
            vstd::arithmetic::div_mod::lemma_fundamental_div_mod(p + 1, e);
        }
    }
}

} // verus!
