use chrono_ext::CustomWeek;
use chrono_ext::Date;
use chrono_ext::Error;
use chrono_ext::Weekday;
use chrono_ext::WeekSpecification;

fn ymd(y: i32, m: u32, d: u32) -> Date {
    Date::from_ymd(y, m, d).unwrap()
}

#[test]
fn new_rejects_zero_min_days() {
    assert_eq!(
        WeekSpecification::new(Weekday::Mon, 0),
        Err(Error::OutOfRange(0, 1, 7))
    );
}

#[test]
fn new_rejects_eight_min_days() {
    assert_eq!(
        WeekSpecification::new(Weekday::Sat, 8),
        Err(Error::OutOfRange(8, 1, 7))
    );
}

#[test]
fn new_accepts_valid_bounds() {
    let low = WeekSpecification::new(Weekday::Tue, 1).unwrap();
    assert_eq!(low.first_day(), Weekday::Tue);
    assert_eq!(low.min_days_in_first_week(), 1);
    let high = WeekSpecification::new(Weekday::Fri, 7).unwrap();
    assert_eq!(high.first_day(), Weekday::Fri);
    assert_eq!(high.min_days_in_first_week(), 7);
}

#[test]
fn presets_hold_their_rules() {
    let sunday = WeekSpecification::sunday_start();
    assert_eq!(sunday.first_day(), Weekday::Sun);
    assert_eq!(sunday.min_days_in_first_week(), 1);
    let iso = WeekSpecification::iso_week();
    assert_eq!(iso.first_day(), Weekday::Mon);
    assert_eq!(iso.min_days_in_first_week(), 4);
    let french = WeekSpecification::french_theater_week();
    assert_eq!(french.first_day(), Weekday::Wed);
    assert_eq!(french.min_days_in_first_week(), 4);
}

#[test]
fn iso_first_day_of_week_based_year_2019() {
    let iso = WeekSpecification::iso_week();
    assert_eq!(iso.first_day_of_week_based_year(2019), ymd(2018, 12, 31));
}

#[test]
fn french_first_day_of_week_based_year_2019() {
    let french = WeekSpecification::french_theater_week();
    assert_eq!(french.first_day_of_week_based_year(2019), ymd(2019, 1, 2));
}

#[test]
fn last_days_of_week_based_year_2019() {
    let iso = WeekSpecification::iso_week();
    let french = WeekSpecification::french_theater_week();
    assert_eq!(iso.last_day_of_week_based_year(2019), ymd(2019, 12, 29));
    assert_eq!(french.last_day_of_week_based_year(2019), ymd(2019, 12, 31));
}

#[test]
fn num_weeks_of_known_years() {
    let iso = WeekSpecification::iso_week();
    let french = WeekSpecification::french_theater_week();
    assert_eq!(iso.num_weeks(2019), 52);
    assert_eq!(french.num_weeks(2019), 52);
    assert_eq!(french.num_weeks(2016), 53);
    assert_eq!(iso.num_weeks(2020), 53);
}

#[test]
fn num_weeks_is_52_or_53_for_many_rules_and_years() {
    let days = [
        Weekday::Mon,
        Weekday::Tue,
        Weekday::Wed,
        Weekday::Thu,
        Weekday::Fri,
        Weekday::Sat,
        Weekday::Sun,
    ];
    for day in days {
        for min_days in 1..=7 {
            let rule = WeekSpecification::new(day, min_days).unwrap();
            for year in [-400, -1, 0, 1, 1900, 1999, 2000, 2016, 2019, 2400] {
                let n = rule.num_weeks(year);
                assert!(n == 52 || n == 53);
            }
        }
    }
}

#[test]
fn num_days_from_first_dow_examples() {
    let french = WeekSpecification::french_theater_week();
    assert_eq!(french.num_days_from_first_dow(Weekday::Wed), 0);
    assert_eq!(french.num_days_from_first_dow(Weekday::Tue), 6);
    assert_eq!(french.num_days_from_first_dow(Weekday::Sun), 4);
}

#[test]
fn number_from_first_dow_examples() {
    let french = WeekSpecification::french_theater_week();
    assert_eq!(french.number_from_first_dow(Weekday::Wed), 1);
    assert_eq!(french.number_from_first_dow(Weekday::Tue), 7);
}

#[test]
fn french_week_of_early_january_date() {
    let french = WeekSpecification::french_theater_week();
    let week = french.week(ymd(2017, 1, 3));
    assert_eq!(week.year(), 2016);
    assert_eq!(week.week(), 53);
    assert_eq!(week.week0(), 52);
    assert_eq!(week.week_start(), ymd(2016, 12, 28));
    assert_eq!(week.specification(), french);
}

#[test]
fn iso_week_of_early_january_date() {
    let iso = WeekSpecification::iso_week();
    let week = iso.week(ymd(2021, 1, 1));
    assert_eq!(week.year(), 2020);
    assert_eq!(week.week(), 53);
    assert_eq!(week.week_start(), ymd(2020, 12, 28));
}

#[test]
fn iso_week_of_late_december_date() {
    let iso = WeekSpecification::iso_week();
    let week = iso.week(ymd(2018, 12, 31));
    assert_eq!(week.year(), 2019);
    assert_eq!(week.week(), 1);
    assert_eq!(week.week_start(), ymd(2018, 12, 31));
}

#[test]
fn week_within_the_year() {
    let iso = WeekSpecification::iso_week();
    let week = iso.week(ymd(2019, 7, 4));
    assert_eq!(week.year(), 2019);
    assert_eq!(week.week(), 27);
    assert_eq!(week.week_start(), ymd(2019, 7, 1));
}

#[test]
fn week_contains_its_days_and_no_others() {
    let french = WeekSpecification::french_theater_week();
    let week = french.week(ymd(2017, 1, 3));
    for day in 28..=31 {
        assert!(week.contains(ymd(2016, 12, day)));
    }
    for day in 1..=3 {
        assert!(week.contains(ymd(2017, 1, day)));
    }
    assert!(!week.contains(ymd(2016, 12, 27)));
    assert!(!week.contains(ymd(2017, 1, 4)));
}

#[test]
fn every_date_is_contained_in_its_week() {
    let rules = [
        WeekSpecification::iso_week(),
        WeekSpecification::sunday_start(),
        WeekSpecification::french_theater_week(),
    ];
    for rule in rules {
        for day in 1..=31 {
            let date = ymd(2019, 12, day);
            assert!(rule.week(date).contains(date));
        }
    }
}

#[test]
fn succ_moves_to_the_next_week() {
    let french = WeekSpecification::french_theater_week();
    let week = french.week(ymd(2017, 1, 3));
    let next = week.succ();
    assert_eq!(next.year(), 2017);
    assert_eq!(next.week(), 1);
    assert_eq!(next.week_start(), ymd(2017, 1, 4));
}

#[test]
fn pred_moves_to_the_previous_week() {
    let french = WeekSpecification::french_theater_week();
    let week = french.week(ymd(2017, 1, 4));
    let prev = week.pred();
    assert_eq!(prev.year(), 2016);
    assert_eq!(prev.week(), 53);
    assert_eq!(prev.week_start(), ymd(2016, 12, 28));
}

#[test]
fn succ_pred_round_trip() {
    let rules = [
        WeekSpecification::iso_week(),
        WeekSpecification::sunday_start(),
        WeekSpecification::french_theater_week(),
    ];
    let dates = [
        ymd(2016, 12, 28),
        ymd(2017, 1, 3),
        ymd(2019, 7, 4),
        ymd(2021, 1, 1),
        ymd(2018, 12, 31),
        ymd(2000, 2, 29),
    ];
    for rule in rules {
        for date in dates {
            let week = rule.week(date);
            assert_eq!(week.succ().pred(), week);
            assert_eq!(week.pred().succ(), week);
        }
    }
}

#[test]
fn week_based_years_are_adjacent() {
    let rules = [
        WeekSpecification::iso_week(),
        WeekSpecification::sunday_start(),
        WeekSpecification::french_theater_week(),
    ];
    for rule in rules {
        for year in [1999, 2000, 2016, 2019, 2020] {
            let last = rule.last_day_of_week_based_year(year);
            let next_first = rule.first_day_of_week_based_year(year + 1);
            assert_eq!(last.num_days_from_ce() + 1, next_first.num_days_from_ce());
        }
    }
}

#[test]
fn format_substitutes_the_tokens() {
    let french = WeekSpecification::french_theater_week();
    let week = french.week(ymd(2017, 1, 3));
    assert_eq!(week.format("Year %Y"), "Year 2016");
    assert_eq!(week.format("Year %C%y"), "Year 2016");
    assert_eq!(week.format("Week %W"), "Week 53");
    assert_eq!(week.format("S%y%W"), "S1653");
}

#[test]
fn format_pads_small_values() {
    let iso = WeekSpecification::iso_week();
    let week = iso.week(ymd(5, 1, 10));
    assert_eq!(week.format("%Y-%W"), "0005-02");
    assert_eq!(week.format("%C/%y"), "00/05");
}

#[test]
fn format_passes_unknown_sequences_through() {
    let french = WeekSpecification::french_theater_week();
    let week = french.week(ymd(2017, 1, 3));
    assert_eq!(week.format("%Q"), "%Q");
    assert_eq!(week.format("%%Y"), "%2016");
    assert_eq!(week.format("100%"), "100%");
    assert_eq!(week.format(""), "");
}

#[test]
fn date_from_ymd_validates_the_calendar() {
    assert!(Date::from_ymd(2019, 2, 29).is_none());
    assert!(Date::from_ymd(2016, 2, 29).is_some());
    assert!(Date::from_ymd(2019, 13, 1).is_none());
    assert!(Date::from_ymd(2019, 0, 1).is_none());
    assert!(Date::from_ymd(2019, 4, 31).is_none());
}

#[test]
fn date_day_numbers_match_the_common_era_count() {
    assert_eq!(ymd(1, 1, 1).num_days_from_ce(), 1);
    assert_eq!(ymd(1970, 1, 1).num_days_from_ce(), 719_163);
}

#[test]
fn date_exposes_year_and_weekday() {
    assert_eq!(ymd(2016, 12, 28).year(), 2016);
    assert_eq!(ymd(2019, 1, 1).weekday(), Weekday::Tue);
    assert_eq!(ymd(1, 1, 1).weekday(), Weekday::Mon);
    assert_eq!(ymd(2000, 1, 1).weekday(), Weekday::Sat);
}

#[test]
fn weeks_of_the_same_date_under_different_rules_differ() {
    let iso = WeekSpecification::iso_week();
    let sunday = WeekSpecification::sunday_start();
    let date = ymd(2019, 7, 4);
    let a: CustomWeek = iso.week(date);
    let b: CustomWeek = sunday.week(date);
    assert_ne!(a, b);
    assert_eq!(a, a.clone());
}
