//! Week rules and the weeks they derive.
//!
//! A [`WeekSpecification`] holds the weekday a week begins on and how many
//! days of January must fall inside week 1. [`CustomWeek`] is the computed
//! `(week year, week number, week start)` triple of a date under such a rule.

use crate::date::day_in_range;
use crate::date::day_in_week_range;
use crate::date::is_year_of;
use crate::date::jan1_of;
use crate::date::lemma_jan1_mono;
use crate::date::lemma_year_length;
use crate::date::lemma_year_of_unique;
use crate::date::weekday_num_of_day;
use crate::date::weekday_ord;
use crate::date::year_of;
use crate::date::Date;
use crate::date::Weekday;
use crate::error::Error;
use crate::render::chars_of_str;
use crate::render::format_spec;
use crate::render::push_padded;
use crate::render::string_from_chars;
use crate::render::zero_pad;
use vstd::arithmetic::div_mod::lemma_add_mod_noop;
use vstd::arithmetic::div_mod::lemma_add_mod_noop_right;
use vstd::arithmetic::div_mod::lemma_div_is_ordered;
use vstd::arithmetic::div_mod::lemma_fundamental_div_mod;
use vstd::arithmetic::div_mod::lemma_fundamental_div_mod_converse;
use vstd::arithmetic::div_mod::lemma_mod_add_multiples_vanish;
use vstd::arithmetic::div_mod::lemma_mod_division_less_than_divisor;
use vstd::arithmetic::div_mod::lemma_mod_multiples_vanish;
use vstd::arithmetic::div_mod::lemma_mod_sub_multiples_vanish;
use vstd::arithmetic::div_mod::lemma_small_mod;
use vstd::arithmetic::div_mod::lemma_sub_mod_noop_right;
use vstd::prelude::*;

verus! {

/// The mathematical content of a [`WeekSpecification`].
pub ghost struct RuleModel {
    pub first_day: Weekday,
    pub min_days: int,
}

/// The mathematical content of a [`CustomWeek`].
pub ghost struct WeekModel {
    pub year: int,
    pub week: int,
    pub start: int,
    pub rule: RuleModel,
}

/// A valid rule keeps its January-day minimum between 1 and 7.
pub open spec fn rule_wf(r: RuleModel) -> bool {
    1 <= r.min_days <= 7
}

/// How many days after the rule's week-start weekday a day with weekday
/// ordinal `wd` falls, from 0 to 6.
pub open spec fn days_from_first_of(r: RuleModel, wd: int) -> int {
    (7 + wd - weekday_ord(r.first_day)) % 7
}

/// The first day of the week containing day number `d`: the closest day at
/// or before `d` whose weekday is the rule's week start.
pub open spec fn week_start_of(r: RuleModel, d: int) -> int {
    d - days_from_first_of(r, weekday_num_of_day(d))
}

/// The first day of week 1 of week-based year `y`: the start of the week
/// containing January `min_days` (the last day that must lie in week 1).
pub open spec fn first_day_num(r: RuleModel, y: int) -> int {
    week_start_of(r, jan1_of(y) + r.min_days - 1)
}

/// The last day of week-based year `y`: one day before the next week-based
/// year begins.
pub open spec fn last_day_num(r: RuleModel, y: int) -> int {
    first_day_num(r, y + 1) - 1
}

/// The number of weeks in week-based year `y`.
pub open spec fn num_weeks_of(r: RuleModel, y: int) -> int {
    1 + (last_day_num(r, y) - first_day_num(r, y)) / 7
}

/// The week-based year owning the week of day number `d`.
pub open spec fn week_year_of(r: RuleModel, d: int) -> int {
    let y = year_of(d);
    if d < first_day_num(r, y) {
        y - 1
    } else if d > last_day_num(r, y) {
        y + 1
    } else {
        y
    }
}

/// The 1-based week number of day number `d` within its week-based year.
pub open spec fn week_num_of(r: RuleModel, d: int) -> int {
    let y = year_of(d);
    if d < first_day_num(r, y) {
        num_weeks_of(r, y - 1)
    } else if d > last_day_num(r, y) {
        1
    } else {
        1 + (d - first_day_num(r, y)) / 7
    }
}

/// Week starts the crate can produce stay in this band of day numbers.
pub open spec fn week_start_in_range(s: int) -> bool {
    -36_000_006 <= s <= 36_000_000
}

/// Weekday ordinals repeat with period 7 along the day numbers.
proof fn lemma_weekday_shift(d: int, k: int)
    ensures
        weekday_num_of_day(d + k) == (weekday_num_of_day(d) + k) % 7,
{
    lemma_add_mod_noop(d - 1, k, 7);
    lemma_add_mod_noop_right((d - 1) % 7, k, 7);
}

/// A weekday ordinal lies between 0 and 6.
proof fn lemma_weekday_num_bound(d: int)
    ensures
        0 <= weekday_num_of_day(d) < 7,
{
    lemma_mod_division_less_than_divisor(d - 1, 7);
}

/// Two day numbers with the same weekday differ by a multiple of 7.
proof fn lemma_same_weekday_mod(a: int, b: int)
    requires
        weekday_num_of_day(a) == weekday_num_of_day(b),
    ensures
        (a - b) % 7 == 0,
{
    lemma_weekday_shift(b, a - b);
    let w = weekday_num_of_day(b);
    lemma_weekday_num_bound(b);
    let t = (a - b) % 7;
    lemma_mod_division_less_than_divisor(a - b, 7);
    lemma_add_mod_noop_right(w, a - b, 7);
    assert((w + t) % 7 == w);
    if w + t < 7 {
        lemma_small_mod((w + t) as nat, 7nat);
    } else {
        lemma_mod_add_multiples_vanish(w + t - 7, 7);
        lemma_small_mod((w + t - 7) as nat, 7nat);
    }
}

/// The week start lies at most six days before its date and carries the
/// rule's week-start weekday.
proof fn lemma_ws_props(r: RuleModel, d: int)
    ensures
        week_start_of(r, d) <= d < week_start_of(r, d) + 7,
        weekday_num_of_day(week_start_of(r, d)) == weekday_ord(r.first_day),
{
    let fd = weekday_ord(r.first_day);
    let wd = weekday_num_of_day(d);
    lemma_weekday_num_bound(d);
    let o = (7 + wd - fd) % 7;
    lemma_mod_division_less_than_divisor(7 + wd - fd, 7);
    lemma_fundamental_div_mod(d - 1, 7);
    let q = (d - 1) / 7;
    lemma_sub_mod_noop_right(d - 1, 7 + wd - fd, 7);
    assert((d - 1 - o) % 7 == (d - 1 - (7 + wd - fd)) % 7);
    assert(d - 1 - (7 + wd - fd) == 7 * (q - 1) + fd);
    lemma_mod_multiples_vanish(q - 1, fd, 7);
    lemma_small_mod(fd as nat, 7nat);
    assert(weekday_num_of_day(d - o) == fd);
}

/// A day with the rule's week-start weekday, at most six days behind a date,
/// is that date's week start.
proof fn lemma_ws_char(r: RuleModel, f: int, x: int)
    requires
        weekday_num_of_day(f) == weekday_ord(r.first_day),
        f <= x < f + 7,
    ensures
        week_start_of(r, x) == f,
{
    let fd = weekday_ord(r.first_day);
    let t = x - f;
    lemma_weekday_shift(f, t);
    assert(weekday_num_of_day(x) == (fd + t) % 7);
    lemma_add_mod_noop_right(7 - fd, fd + t, 7);
    assert((7 - fd + (fd + t) % 7) % 7 == (7 + t) % 7);
    lemma_mod_add_multiples_vanish(t, 7);
    lemma_small_mod(t as nat, 7nat);
    assert(days_from_first_of(r, weekday_num_of_day(x)) == t);
}

/// No later day with the week-start weekday fits between a week start and
/// its date: such a day at or before `x` lies at or before `x`'s week start.
proof fn lemma_start_day_le(r: RuleModel, f: int, x: int)
    requires
        weekday_num_of_day(f) == weekday_ord(r.first_day),
        f <= x,
    ensures
        f <= week_start_of(r, x),
{
    lemma_ws_props(r, x);
    let s = week_start_of(r, x);
    if f > s {
        lemma_same_weekday_mod(f, s);
        let t = f - s;
        assert(0 < t < 7);
        lemma_mod_division_less_than_divisor(t, 7);
        lemma_small_mod(t as nat, 7nat);
    }
}

/// Moving a date by a whole week moves its week start the same way.
proof fn lemma_ws_shift7(r: RuleModel, d: int)
    ensures
        week_start_of(r, d + 7) == week_start_of(r, d) + 7,
        week_start_of(r, d - 7) == week_start_of(r, d) - 7,
{
    let fd = weekday_ord(r.first_day);
    lemma_ws_props(r, d);
    let s = week_start_of(r, d);
    lemma_weekday_shift(s, 7);
    lemma_mod_add_multiples_vanish(fd, 7);
    lemma_small_mod(fd as nat, 7nat);
    assert(weekday_num_of_day(s + 7) == fd);
    lemma_ws_char(r, s + 7, d + 7);
    lemma_weekday_shift(s - 7, 7);
    lemma_weekday_shift(s, -7);
    lemma_mod_sub_multiples_vanish(fd, 7);
    assert(weekday_num_of_day(s - 7) == fd);
    lemma_ws_char(r, s - 7, d - 7);
}

/// Week 1's first day lies within six days of January 1, carries the
/// week-start weekday, and its week contains January `min_days`.
proof fn lemma_first_window(r: RuleModel, y: int)
    requires
        rule_wf(r),
    ensures
        first_day_num(r, y) <= jan1_of(y) + r.min_days - 1 < first_day_num(r, y) + 7,
        jan1_of(y) - 6 <= first_day_num(r, y) <= jan1_of(y) + 6,
        weekday_num_of_day(first_day_num(r, y)) == weekday_ord(r.first_day),
    {
    lemma_ws_props(r, jan1_of(y) + r.min_days - 1);
}

/// Consecutive week-based years start exactly 52 or 53 weeks apart.
proof fn lemma_first_step(r: RuleModel, y: int)
    requires
        rule_wf(r),
    ensures
        first_day_num(r, y + 1) - first_day_num(r, y) == 364 || first_day_num(r, y + 1)
            - first_day_num(r, y) == 371,
{
    lemma_first_window(r, y);
    lemma_first_window(r, y + 1);
    lemma_year_length(y);
    let f1 = first_day_num(r, y);
    let f2 = first_day_num(r, y + 1);
    lemma_same_weekday_mod(f2, f1);
    let delta = f2 - f1;
    assert(359 <= delta <= 372);
    lemma_fundamental_div_mod(delta, 7);
    assert(delta == 7 * (delta / 7));
}

/// Week-based years never start earlier as the year grows.
proof fn lemma_first_mono(r: RuleModel, y1: int, y2: int)
    requires
        rule_wf(r),
        y1 <= y2,
    ensures
        first_day_num(r, y1) <= first_day_num(r, y2),
    decreases y2 - y1,
{
    if y1 < y2 {
        lemma_first_step(r, y2 - 1);
        lemma_first_mono(r, y1, y2 - 1);
    }
}

/// A day belongs to the range of only one week-based year.
proof fn lemma_owner_unique(r: RuleModel, s: int, w1: int, w2: int)
    requires
        rule_wf(r),
        first_day_num(r, w1) <= s <= last_day_num(r, w1),
        first_day_num(r, w2) <= s <= last_day_num(r, w2),
    ensures
        w1 == w2,
{
    if w1 < w2 {
        lemma_first_mono(r, w1 + 1, w2);
    }
    if w2 < w1 {
        lemma_first_mono(r, w2 + 1, w1);
    }
}

/// A date before week 1 of its calendar year lies in the closing week of
/// the previous week-based year.
proof fn lemma_week_char_before(r: RuleModel, y: int, d: int)
    requires
        rule_wf(r),
        is_year_of(y, d),
        year_of(d) == y,
        d < first_day_num(r, y),
    ensures
        first_day_num(r, y - 1) <= week_start_of(r, d) <= last_day_num(r, y - 1),
        week_year_of(r, d) == y - 1,
        week_num_of(r, d) == num_weeks_of(r, y - 1),
        week_num_of(r, d) == 1 + (week_start_of(r, d) - first_day_num(r, y - 1)) / 7,
        1 <= week_num_of(r, d) <= 53,
{
    lemma_first_window(r, y);
    lemma_first_window(r, y - 1);
    lemma_first_step(r, y - 1);
    lemma_ws_props(r, d);
    let s = week_start_of(r, d);
    let f = first_day_num(r, y);
    let f0 = first_day_num(r, y - 1);
    let delta = f - f0;
    lemma_same_weekday_mod(f, s);
    assert(f - 12 <= s <= f - 1);
    lemma_fundamental_div_mod(f - s, 7);
    lemma_mod_division_less_than_divisor(f - s, 7);
    assert(s == f - 7);
    if delta == 364 {
        assert((363int) / 7 == 51);
        assert((357int) / 7 == 51);
    } else {
        assert((370int) / 7 == 52);
        assert((364int) / 7 == 52);
    }
}

/// A date after the last day of its calendar year's weeks lies in week 1 of
/// the next week-based year.
proof fn lemma_week_char_after(r: RuleModel, y: int, d: int)
    requires
        rule_wf(r),
        is_year_of(y, d),
        year_of(d) == y,
        d > last_day_num(r, y),
    ensures
        first_day_num(r, y + 1) <= week_start_of(r, d) <= last_day_num(r, y + 1),
        week_year_of(r, d) == y + 1,
        week_num_of(r, d) == 1,
        week_num_of(r, d) == 1 + (week_start_of(r, d) - first_day_num(r, y + 1)) / 7,
        1 <= week_num_of(r, d) <= 53,
{
    lemma_first_window(r, y + 1);
    lemma_first_step(r, y + 1);
    lemma_ws_props(r, d);
    let s = week_start_of(r, d);
    let f2 = first_day_num(r, y + 1);
    lemma_start_day_le(r, f2, d);
    lemma_same_weekday_mod(s, f2);
    assert(d < jan1_of(y + 1));
    assert(0 <= s - f2 < 7);
    lemma_small_mod((s - f2) as nat, 7nat);
    assert(s == f2);
    assert((0int) / 7 == 0);
    assert(last_day_num(r, y + 1) == first_day_num(r, y + 2) - 1);
    assert(first_day_num(r, y + 2) - f2 >= 364);
}

/// A date between the first and last day of its calendar year's weeks lies
/// at the week its distance from the first day says.
proof fn lemma_week_char_within(r: RuleModel, y: int, d: int)
    requires
        rule_wf(r),
        is_year_of(y, d),
        year_of(d) == y,
        first_day_num(r, y) <= d <= last_day_num(r, y),
    ensures
        first_day_num(r, y) <= week_start_of(r, d) <= last_day_num(r, y),
        week_year_of(r, d) == y,
        week_num_of(r, d) == 1 + (d - first_day_num(r, y)) / 7,
        week_num_of(r, d) == 1 + (week_start_of(r, d) - first_day_num(r, y)) / 7,
        1 <= week_num_of(r, d) <= 53,
{
    lemma_first_window(r, y);
    lemma_first_step(r, y);
    lemma_ws_props(r, d);
    let s = week_start_of(r, d);
    let f = first_day_num(r, y);
    let l = last_day_num(r, y);
    lemma_start_day_le(r, f, d);
    lemma_same_weekday_mod(s, f);
    lemma_fundamental_div_mod(s - f, 7);
    let j = (s - f) / 7;
    assert(d - f == j * 7 + (d - s)) by {
        assert(s - f == 7 * j);
    }
    lemma_fundamental_div_mod_converse(d - f, 7, j, d - s);
    assert((d - f) / 7 == j);
    assert(d - f <= l - f <= 370);
    lemma_div_is_ordered(0, s - f, 7);
    lemma_div_is_ordered(0, d - f, 7);
    lemma_div_is_ordered(d - f, 370, 7);
    assert((0int) / 7 == 0);
    assert((370int) / 7 == 52);
}

/// The week start of a date lies inside the range of the date's week-based
/// year, at the distance its week number says.
proof fn lemma_week_characterization(r: RuleModel, y: int, d: int)
    requires
        rule_wf(r),
        is_year_of(y, d),
    ensures
        first_day_num(r, week_year_of(r, d)) <= week_start_of(r, d) <= last_day_num(
            r,
            week_year_of(r, d),
        ),
        week_num_of(r, d) == 1 + (week_start_of(r, d) - first_day_num(r, week_year_of(r, d))) / 7,
        1 <= week_num_of(r, d) <= 53,
{
    lemma_year_of_unique(d, y);
    if d < first_day_num(r, y) {
        lemma_week_char_before(r, y, d);
    } else if d > last_day_num(r, y) {
        lemma_week_char_after(r, y, d);
    } else {
        lemma_week_char_within(r, y, d);
    }
}

/// The week triple of a date equals the week triple of its week start, and
/// the week start is a fixed point of taking week starts.
proof fn lemma_week_of_start(r: RuleModel, y: int, d: int)
    requires
        rule_wf(r),
        is_year_of(y, d),
    ensures
        week_start_of(r, week_start_of(r, d)) == week_start_of(r, d),
        is_year_of(year_of(week_start_of(r, d)), week_start_of(r, d)),
        week_year_of(r, week_start_of(r, d)) == week_year_of(r, d),
        week_num_of(r, week_start_of(r, d)) == week_num_of(r, d),
        1 <= week_num_of(r, d) <= 53,
{
    lemma_ws_props(r, d);
    let s = week_start_of(r, d);
    lemma_ws_char(r, s, s);
    lemma_year_length(y - 1);
    let ys = if s >= jan1_of(y) {
        y
    } else {
        y - 1
    };
    assert(is_year_of(ys, s));
    lemma_year_of_unique(s, ys);
    lemma_week_characterization(r, y, d);
    lemma_week_characterization(r, ys, s);
    lemma_owner_unique(r, s, week_year_of(r, d), week_year_of(r, s));
}

/// Every day number in the supported band falls in some calendar year.
proof fn lemma_year_exists_from(y: int, d: int)
    requires
        jan1_of(y) <= d,
        d < jan1_of(100_001),
        y <= 100_000,
    ensures
        exists|c: int| is_year_of(c, d),
    decreases 100_001 - y,
{
    if d < jan1_of(y + 1) {
        assert(is_year_of(y, d));
    } else {
        if y + 1 > 100_000 {
            lemma_jan1_mono(100_001, y + 1);
            assert(false);
        }
        lemma_year_exists_from(y + 1, d);
    }
}

/// Every day number in the supported band has a calendar year, so its
/// `year_of` is that year.
proof fn lemma_year_exists(d: int)
    requires
        day_in_week_range(d),
    ensures
        is_year_of(year_of(d), d),
{
    assert((-100_001) / 4 == -25_001) by {
        lemma_fundamental_div_mod_converse(-100_001, 4, -25_001, 3);
    }
    assert((-100_001) / 100 == -1_001) by {
        lemma_fundamental_div_mod_converse(-100_001, 100, -1_001, 99);
    }
    assert((-100_001) / 400 == -251) by {
        lemma_fundamental_div_mod_converse(-100_001, 400, -251, 399);
    }
    assert(jan1_of(-100_000) <= d);
    assert((100_000int) / 4 == 25_000) by {
        lemma_fundamental_div_mod_converse(100_000, 4, 25_000, 0);
    }
    assert((100_000int) / 100 == 1_000) by {
        lemma_fundamental_div_mod_converse(100_000, 100, 1_000, 0);
    }
    assert((100_000int) / 400 == 250) by {
        lemma_fundamental_div_mod_converse(100_000, 400, 250, 0);
    }
    assert(d < jan1_of(100_001));
    lemma_year_exists_from(-100_000, d);
    let c = choose|c: int| is_year_of(c, d);
    lemma_year_of_unique(d, c);
}

/// Sequence concatenation associates over an emitted piece of formatted
/// output.
proof fn lemma_emit_step(prev: Seq<char>, e: Seq<char>, whole: Seq<char>, inew: int, yy: nat, ww: nat)
    ensures
        (prev + e) + format_spec(whole.skip(inew), yy, ww) == prev + (e + format_spec(
            whole.skip(inew),
            yy,
            ww,
        )),
{
    assert((prev + e) + format_spec(whole.skip(inew), yy, ww) =~= prev + (e + format_spec(
        whole.skip(inew),
        yy,
        ww,
    )));
}

/// Law: under any valid rule a week-based year holds 52 or 53 weeks.
pub proof fn lemma_num_weeks_in_range(r: RuleModel, y: int)
    requires
        rule_wf(r),
    ensures
        num_weeks_of(r, y) == 52 || num_weeks_of(r, y) == 53,
{
    lemma_first_step(r, y);
    let delta = first_day_num(r, y + 1) - first_day_num(r, y);
    if delta == 364 {
        assert((364 - 1) / 7 == 51);
    } else {
        assert((371 - 1) / 7 == 52);
    }
}

/// Law: the week of a date contains the date — its start lies at the date
/// or at most six days before it.
pub proof fn lemma_week_contains(r: RuleModel, d: int)
    requires
        rule_wf(r),
    ensures
        week_start_of(r, d) <= d < week_start_of(r, d) + 7,
{
    lemma_ws_props(r, d);
}

/// Law: a week-based year ends exactly one day before the next one starts.
pub proof fn lemma_adjacent_week_years(r: RuleModel, y: int)
    requires
        rule_wf(r),
    ensures
        last_day_num(r, y) + 1 == first_day_num(r, y + 1),
{
}

/// Law: stepping a week forward and back (or back and forward) returns the
/// original week. The week of a date equals the week of its start; stepping
/// moves that start by exactly seven days, and the week triple computed from
/// the moved start, moved back, is the original triple again.
pub proof fn lemma_succ_pred_round_trip(r: RuleModel, d: int)
    requires
        rule_wf(r),
        day_in_week_range(d),
    ensures
        week_start_of(r, week_start_of(r, d)) == week_start_of(r, d),
        week_start_of(r, week_start_of(r, d) + 7) == week_start_of(r, d) + 7,
        week_start_of(r, week_start_of(r, d) - 7) == week_start_of(r, d) - 7,
        week_year_of(r, week_start_of(r, d)) == week_year_of(r, d),
        week_num_of(r, week_start_of(r, d)) == week_num_of(r, d),
{
    lemma_year_exists(d);
    lemma_week_of_start(r, year_of(d), d);
    lemma_ws_shift7(r, week_start_of(r, d));
}

/// A rule for cutting the calendar into weeks: the weekday a week begins on,
/// and how many days of January must fall within the year's first week.
#[derive(Clone, Copy, PartialEq, Eq, Debug, Structural)]
pub struct WeekSpecification {
    first_day: Weekday,
    min_days_in_first_week: u32,
}

impl View for WeekSpecification {
    type V = RuleModel;

    closed spec fn view(&self) -> RuleModel {
        RuleModel { first_day: self.first_day, min_days: self.min_days_in_first_week as int }
    }
}

impl WeekSpecification {
    /// Whether the rule is valid: the January-day minimum lies in `[1, 7]`.
    pub open spec fn wf(&self) -> bool {
        rule_wf(self@)
    }

    /// Builds a rule, rejecting a January-day minimum outside `[1, 7]`.
    pub fn new(first_day: Weekday, min_days_in_first_week: u32) -> (r: Result<
        WeekSpecification,
        Error,
    >)
        ensures
            1 <= min_days_in_first_week <= 7 ==> (r matches Ok(w) && w@ == (RuleModel {
                first_day,
                min_days: min_days_in_first_week as int,
            }) && w.wf()),
            !(1 <= min_days_in_first_week <= 7) ==> r == Err::<WeekSpecification, Error>(
                Error::OutOfRange(min_days_in_first_week, 1, 7),
            ),
    {
        if min_days_in_first_week < 1 || min_days_in_first_week > 7 {
            Err(Error::OutOfRange(min_days_in_first_week, 1, 7))
        } else {
            Ok(WeekSpecification { first_day, min_days_in_first_week })
        }
    }

    /// The rule of weeks that begin on Sunday, with January 1 always in
    /// week 1.
    pub fn sunday_start() -> (r: WeekSpecification)
        ensures
            r@ == (RuleModel { first_day: Weekday::Sun, min_days: 1 }),
            r.wf(),
    {
        WeekSpecification { first_day: Weekday::Sun, min_days_in_first_week: 1 }
    }

    /// The ISO-8601 rule: weeks begin on Monday and week 1 holds at least
    /// four days of January.
    pub fn iso_week() -> (r: WeekSpecification)
        ensures
            r@ == (RuleModel { first_day: Weekday::Mon, min_days: 4 }),
            r.wf(),
    {
        WeekSpecification { first_day: Weekday::Mon, min_days_in_first_week: 4 }
    }

    /// The French theater rule: weeks begin on Wednesday and week 1 holds at
    /// least four days of January.
    pub fn french_theater_week() -> (r: WeekSpecification)
        ensures
            r@ == (RuleModel { first_day: Weekday::Wed, min_days: 4 }),
            r.wf(),
    {
        WeekSpecification { first_day: Weekday::Wed, min_days_in_first_week: 4 }
    }

    /// The weekday this rule's weeks begin on.
    pub fn first_day(&self) -> (r: Weekday)
        ensures
            r == self@.first_day,
    {
        self.first_day
    }

    /// How many days of January the rule requires inside week 1.
    pub fn min_days_in_first_week(&self) -> (r: u32)
        ensures
            r as int == self@.min_days,
    {
        self.min_days_in_first_week
    }

    /// Number of days from the rule's week start to the given weekday,
    /// from 0 to 6.
    pub fn num_days_from_first_dow(&self, day: Weekday) -> (r: u32)
        ensures
            r as int == days_from_first_of(self@, weekday_ord(day)),
            r < 7,
    {
        proof {
            lemma_mod_division_less_than_divisor(
                7 + weekday_ord(day) - weekday_ord(self@.first_day),
                7,
            );
        }
        (7 + day.num_days_from_monday() - self.first_day.num_days_from_monday()) % 7
    }

    /// Number of the given weekday within the rule's week, from 1 to 7.
    pub fn number_from_first_dow(&self, day: Weekday) -> (r: u32)
        ensures
            r as int == 1 + days_from_first_of(self@, weekday_ord(day)),
            1 <= r <= 7,
    {
        1 + self.num_days_from_first_dow(day)
    }

    /// The first day of week 1 of the given week-based year: the start of
    /// the week containing January `min_days_in_first_week`.
    pub fn first_day_of_week_based_year(&self, year: i32) -> (r: Date)
        requires
            self.wf(),
            -99_500 <= year <= 99_500,
        ensures
            r@ == first_day_num(self@, year as int),
            r.wf(),
    {
        let reference = Date::from_january(year, self.min_days_in_first_week);
        let january_first = Date::from_january(year, 1);
        let offset = self.num_days_from_first_dow(january_first.weekday());
        let delta = 7 - offset;
        let week_date = Date::of_days(january_first.num_days_from_ce() + delta as i32);
        proof {
            let rm = self@;
            let y = year as int;
            let fd = weekday_ord(rm.first_day);
            let j = jan1_of(y);
            let w = weekday_num_of_day(j);
            lemma_weekday_num_bound(j);
            let o = days_from_first_of(rm, w);
            let t = 7 + w - fd;
            lemma_fundamental_div_mod(t, 7);
            lemma_weekday_shift(j, 7 - o);
            assert(w + 7 - o == 7 * (t / 7) + fd);
            lemma_mod_multiples_vanish(t / 7, fd, 7);
            lemma_small_mod(fd as nat, 7nat);
            assert(weekday_num_of_day(week_date@) == fd);
            let refd = jan1_of(y) + rm.min_days - 1;
            if week_date@ <= refd {
                lemma_ws_char(rm, week_date@, refd);
            } else {
                lemma_weekday_shift(week_date@, -7);
                lemma_mod_sub_multiples_vanish(fd, 7);
                assert(weekday_num_of_day(week_date@ - 7) == fd);
                lemma_ws_char(rm, week_date@ - 7, refd);
            }
        }
        if week_date.num_days_from_ce() <= reference.num_days_from_ce() {
            week_date
        } else {
            Date::of_days(week_date.num_days_from_ce() - 7)
        }
    }

    /// The last day of the given week-based year; it may fall inside the
    /// following calendar year.
    pub fn last_day_of_week_based_year(&self, year: i32) -> (r: Date)
        requires
            self.wf(),
            -99_501 <= year <= 99_499,
        ensures
            r@ == last_day_num(self@, year as int),
            r.wf(),
    {
        let f = self.first_day_of_week_based_year(year + 1);
        Date::of_days(f.num_days_from_ce() - 1)
    }

    /// How many weeks the given week-based year holds: always 52 or 53.
    pub fn num_weeks(&self, year: i32) -> (r: u32)
        requires
            self.wf(),
            -99_500 <= year <= 99_499,
        ensures
            r as int == num_weeks_of(self@, year as int),
            52 <= r <= 53,
    {
        let first = self.first_day_of_week_based_year(year);
        let last = self.last_day_of_week_based_year(year);
        proof {
            lemma_first_step(self@, year as int);
            lemma_num_weeks_in_range(self@, year as int);
        }
        let diff = last.num_days_from_ce() - first.num_days_from_ce();
        1 + (diff as u32) / 7
    }

    /// The week of the given date under this rule: its week-based year, its
    /// week number in it, and the date its week starts on.
    pub fn week(&self, date: Date) -> (r: CustomWeek)
        requires
            self.wf(),
            day_in_week_range(date@),
        ensures
            r@.rule == self@,
            r@.start == week_start_of(self@, date@),
            r@.year == week_year_of(self@, date@),
            r@.week == week_num_of(self@, date@),
            r.wf(),
    {
        let date_year = date.year();
        proof {
            let d = date@;
            let y = date_year as int;
            if y >= 99_000 {
                lemma_jan1_mono(99_000, y);
                assert(jan1_of(99_000) > 36_000_000);
                assert(false);
            }
            if y <= -99_000 {
                lemma_jan1_mono(y + 1, -98_999);
                assert(jan1_of(-98_999) < -36_000_000);
                assert(false);
            }
        }
        let first = self.first_day_of_week_based_year(date_year);
        let last = self.last_day_of_week_based_year(date_year);
        let days = date.num_days_from_ce();
        proof {
            lemma_year_of_unique(date@, date_year as int);
        }
        let (year, week) = if days < first.num_days_from_ce() {
            proof {
                lemma_week_char_before(self@, date_year as int, date@);
            }
            (date_year - 1, self.num_weeks(date_year - 1))
        } else if days > last.num_days_from_ce() {
            proof {
                lemma_week_char_after(self@, date_year as int, date@);
            }
            (date_year + 1, 1)
        } else {
            let diff = days - first.num_days_from_ce();
            proof {
                lemma_week_char_within(self@, date_year as int, date@);
            }
            (date_year, 1 + (diff as u32) / 7)
        };
        let offset = self.num_days_from_first_dow(date.weekday());
        let week_start = Date::of_days(days - offset as i32);
        proof {
            lemma_week_of_start(self@, date_year as int, date@);
        }
        CustomWeek { year, week, week_start, specification: *self }
    }
}

/// A computed week: the week-based year that owns it, its 1-based number in
/// that year, the date it starts on, and the rule it was computed under.
///
/// No order is defined across weeks: comparing week numbers computed under
/// different rules would be meaningless. The start date could be recomputed
/// from the other fields; it is kept for the navigation and membership
/// operations.
#[derive(Clone, Copy, PartialEq, Eq, Debug, Structural)]
pub struct CustomWeek {
    year: i32,
    week: u32,
    week_start: Date,
    specification: WeekSpecification,
}

impl View for CustomWeek {
    type V = WeekModel;

    closed spec fn view(&self) -> WeekModel {
        WeekModel {
            year: self.year as int,
            week: self.week as int,
            start: self.week_start@,
            rule: self.specification@,
        }
    }
}

impl CustomWeek {
    /// A well-formed week is one the rule's week computation can produce:
    /// its start is a week start of its rule, inside the supported range,
    /// and year and number are the ones its rule derives for that start.
    pub open spec fn wf(&self) -> bool {
        let m = self@;
        &&& rule_wf(m.rule)
        &&& week_start_in_range(m.start)
        &&& is_year_of(year_of(m.start), m.start)
        &&& week_start_of(m.rule, m.start) == m.start
        &&& m.year == week_year_of(m.rule, m.start)
        &&& m.week == week_num_of(m.rule, m.start)
    }

    /// The week-based year owning this week.
    pub fn year(&self) -> (r: i32)
        ensures
            r as int == self@.year,
    {
        self.year
    }

    /// The 1-based week number within the owning week-based year.
    pub fn week(&self) -> (r: u32)
        ensures
            r as int == self@.week,
    {
        self.week
    }

    /// The 0-based week number within the owning week-based year.
    pub fn week0(&self) -> (r: u32)
        requires
            self.wf(),
        ensures
            r as int == self@.week - 1,
    {
        proof {
            lemma_week_characterization(self@.rule, year_of(self@.start), self@.start);
        }
        self.week - 1
    }

    /// The date this week starts on.
    pub fn week_start(&self) -> (r: Date)
        ensures
            r@ == self@.start,
    {
        self.week_start
    }

    /// The rule this week was computed under.
    pub fn specification(&self) -> (r: WeekSpecification)
        ensures
            r@ == self@.rule,
    {
        self.specification
    }

    /// The next week under the same rule.
    pub fn succ(&self) -> (r: CustomWeek)
        requires
            self.wf(),
            day_in_week_range(self@.start + 7),
        ensures
            r@.rule == self@.rule,
            r@.start == self@.start + 7,
            r@.year == week_year_of(self@.rule, self@.start + 7),
            r@.week == week_num_of(self@.rule, self@.start + 7),
            r.wf(),
    {
        proof {
            lemma_ws_shift7(self@.rule, self@.start);
        }
        self.specification.week(Date::of_days(self.week_start.num_days_from_ce() + 7))
    }

    /// The previous week under the same rule.
    pub fn pred(&self) -> (r: CustomWeek)
        requires
            self.wf(),
            day_in_week_range(self@.start - 7),
        ensures
            r@.rule == self@.rule,
            r@.start == self@.start - 7,
            r@.year == week_year_of(self@.rule, self@.start - 7),
            r@.week == week_num_of(self@.rule, self@.start - 7),
            r.wf(),
    {
        proof {
            lemma_ws_shift7(self@.rule, self@.start);
        }
        self.specification.week(Date::of_days(self.week_start.num_days_from_ce() - 7))
    }

    /// Renders this week by literal token substitution, scanning the pattern
    /// left to right: `%Y` becomes the week year zero-padded to four digits,
    /// `%C` the week year divided by 100 and `%y` the week year modulo 100,
    /// each zero-padded to two digits, and `%W` the week number zero-padded
    /// to two digits. Everything else passes through unchanged. Defined for
    /// weeks of the common era; how a negative week year renders is left
    /// open.
    pub fn format(&self, fmt: &str) -> (r: String)
        requires
            0 <= self@.year,
        ensures
            r@ == format_spec(fmt@, self@.year as nat, self@.week as nat),
    {
        let chars = chars_of_str(fmt);
        let mut out: Vec<char> = Vec::new();
        let year_n: u32 = self.year as u32;
        let week_n: u32 = self.week;
        let ghost yy = self@.year as nat;
        let ghost ww = self@.week as nat;
        let mut i: usize = 0;
        proof {
            assert(chars@.skip(0) =~= chars@);
            assert(out@ + format_spec(chars@, yy, ww) =~= format_spec(chars@, yy, ww));
        }
        while i < chars.len()
            invariant
                i <= chars.len(),
                year_n as nat == yy,
                week_n as nat == ww,
                out@ + format_spec(chars@.skip(i as int), yy, ww) == format_spec(chars@, yy, ww),
            decreases chars.len() - i,
        {
            let ghost io = i as int;
            let ghost s = chars@.skip(io);
            let ghost prev = out@;
            proof {
                assert(s[0] == chars@[io]);
            }
            let c = chars[i];
            if c == '%' && i + 1 < chars.len() {
                proof {
                    assert(s[1] == chars@[io + 1]);
                    assert(s.skip(2) =~= chars@.skip(io + 2));
                }
                let c2 = chars[i + 1];
                if c2 == 'Y' {
                    push_padded(&mut out, year_n, 4);
                    i = i + 2;
                    proof {
                        lemma_emit_step(prev, zero_pad(yy, 4), chars@, io + 2, yy, ww);
                    }
                } else if c2 == 'C' {
                    push_padded(&mut out, year_n / 100, 2);
                    i = i + 2;
                    proof {
                        lemma_emit_step(prev, zero_pad(yy / 100, 2), chars@, io + 2, yy, ww);
                    }
                } else if c2 == 'y' {
                    push_padded(&mut out, year_n % 100, 2);
                    i = i + 2;
                    proof {
                        lemma_emit_step(prev, zero_pad(yy % 100, 2), chars@, io + 2, yy, ww);
                    }
                } else if c2 == 'W' {
                    push_padded(&mut out, week_n, 2);
                    i = i + 2;
                    proof {
                        lemma_emit_step(prev, zero_pad(ww, 2), chars@, io + 2, yy, ww);
                    }
                } else {
                    out.push(c);
                    i = i + 1;
                    proof {
                        assert(s.skip(1) =~= chars@.skip(io + 1));
                        assert(out@ =~= prev + seq![s[0]]);
                        lemma_emit_step(prev, seq![s[0]], chars@, io + 1, yy, ww);
                    }
                }
            } else {
                out.push(c);
                i = i + 1;
                proof {
                    assert(s.skip(1) =~= chars@.skip(io + 1));
                    assert(out@ =~= prev + seq![s[0]]);
                    lemma_emit_step(prev, seq![s[0]], chars@, io + 1, yy, ww);
                }
            }
        }
        proof {
            assert(chars@.skip(chars@.len() as int) =~= Seq::<char>::empty());
            assert(out@ + Seq::<char>::empty() =~= out@);
        }
        string_from_chars(&out)
    }

    /// Whether the given date falls inside this week.
    pub fn contains(&self, date: Date) -> (r: bool)
        requires
            self.wf(),
        ensures
            r == (self@.start <= date@ < self@.start + 7),
    {
        let d = date.num_days_from_ce();
        let s = self.week_start.num_days_from_ce();
        d >= s && d < s + 7
    }
}

} // verus!
