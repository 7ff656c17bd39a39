use ledger::window::{
    window_of, window_start, DynamicGroupOptions, Span, TimeGroup, MAX_DAY, MIN_DAY,
};

fn step(group: TimeGroup) -> Span {
    group.into_dynamic_group_opts().every
}

#[test]
fn presets_have_their_widths() {
    let zero = Span { months: 0, weeks: 0 };
    let q = TimeGroup::Quarterly.into_dynamic_group_opts();
    assert_eq!(
        q,
        DynamicGroupOptions {
            every: Span { months: 4, weeks: 0 },
            period: Span { months: 4, weeks: 0 },
            offset: zero,
        }
    );
    let m = TimeGroup::Monthly.into_dynamic_group_opts();
    assert_eq!(m.every, Span { months: 1, weeks: 0 });
    assert_eq!(m.period, m.every);
    assert_eq!(m.offset, zero);
    let b = TimeGroup::Biweekly.into_dynamic_group_opts();
    assert_eq!(b.every, Span { months: 0, weeks: 2 });
    assert_eq!(b.period, b.every);
    assert_eq!(b.offset, zero);
    let w = TimeGroup::Weekly.into_dynamic_group_opts();
    assert_eq!(w.every, Span { months: 0, weeks: 1 });
    assert_eq!(w.period, w.every);
    assert_eq!(w.offset, zero);
}

#[test]
fn a_month_starts_on_its_first_day() {
    let every = step(TimeGroup::Monthly);
    // 2024-01-05, 2024-01-20 and 2024-01-31 lie in the month of 2024-01-01.
    assert_eq!(window_start(every, 19727), 19723);
    assert_eq!(window_start(every, 19742), 19723);
    assert_eq!(window_start(every, 19753), 19723);
    assert_eq!(window_start(every, 19723), 19723);
    // 2024-02-01 and 2024-02-29 lie in the month of 2024-02-01.
    assert_eq!(window_start(every, 19754), 19754);
    assert_eq!(window_start(every, 19782), 19754);
    // 2024-03-01 starts the next one.
    assert_eq!(window_start(every, 19783), 19783);
    // 1970-01-01 and the day before.
    assert_eq!(window_start(every, 0), 0);
    assert_eq!(window_start(every, -1), -31);
}

#[test]
fn months_are_calendar_months_not_thirty_days() {
    let every = step(TimeGroup::Monthly);
    // February 2023 has 28 days: 2023-02-01 is day 19389, 2023-03-01 day 19417.
    assert_eq!(window_start(every, 19389 + 27), 19389);
    assert_eq!(window_start(every, 19389 + 28), 19417);
    // December into January: 2023-12-31 is day 19722.
    assert_eq!(window_start(every, 19722), 19722 - 30);
}

#[test]
fn a_quarter_is_four_months() {
    let every = step(TimeGroup::Quarterly);
    // January to April 2024 lie in the window of 2024-01-01.
    assert_eq!(window_start(every, 19723), 19723);
    assert_eq!(window_start(every, 19727), 19723);
    assert_eq!(window_start(every, 19754), 19723);
    // 2024-04-30 is day 19843, 2024-05-01 day 19844.
    assert_eq!(window_start(every, 19843), 19723);
    assert_eq!(window_start(every, 19844), 19844);
    // 2024-06-15 is day 19889.
    assert_eq!(window_start(every, 19889), 19844);
    // 2023-12-31 lies in the window of 2023-09-01, day 19601.
    assert_eq!(window_start(every, 19722), 19601);
}

#[test]
fn a_week_starts_on_monday() {
    let every = step(TimeGroup::Weekly);
    // 2024-01-01, day 19723, was a Monday.
    assert_eq!(window_start(every, 19723), 19723);
    assert_eq!(window_start(every, 19727), 19723);
    assert_eq!(window_start(every, 19729), 19723);
    assert_eq!(window_start(every, 19730), 19730);
    assert_eq!(window_start(every, 19722), 19716);
    // 1970-01-01 was a Thursday.
    assert_eq!(window_start(every, 0), -3);
    assert_eq!(window_start(every, 3), -3);
    assert_eq!(window_start(every, 4), 4);
    assert_eq!(window_start(every, -3), -3);
    assert_eq!(window_start(every, -4), -10);
}

#[test]
fn two_weeks_start_on_every_other_monday() {
    let every = step(TimeGroup::Biweekly);
    assert_eq!(window_start(every, 4), 4);
    assert_eq!(window_start(every, 17), 4);
    assert_eq!(window_start(every, 18), 18);
    assert_eq!(window_start(every, 3), -10);
    // 2024-01-05 lies in the two weeks from 2023-12-25, day 19716.
    assert_eq!(window_start(every, 19727), 19716);
    assert_eq!(window_start(every, 19729), 19716);
    assert_eq!(window_start(every, 19730), 19730);
}

#[test]
fn every_day_lies_in_the_window_it_is_given() {
    let presets = [TimeGroup::Quarterly, TimeGroup::Monthly, TimeGroup::Biweekly, TimeGroup::Weekly];
    let reach = [124, 31, 14, 7];
    for i in 0..4 {
        let every = step(presets[i]);
        let mut day = 19000;
        let mut last = window_start(every, day);
        while day < 20500 {
            let start = window_start(every, day);
            assert!(start <= day && day - start < reach[i]);
            // the starts never go back, and a start is its own window's start
            assert!(start >= last);
            assert_eq!(window_start(every, start), start);
            last = start;
            day += 1;
        }
    }
}

#[test]
fn windows_at_the_limits_of_the_calendar() {
    for group in [TimeGroup::Quarterly, TimeGroup::Monthly, TimeGroup::Biweekly, TimeGroup::Weekly] {
        let every = step(group);
        let low = window_start(every, MIN_DAY);
        assert!(low <= MIN_DAY && MIN_DAY - low < 124);
        let high = window_start(every, MAX_DAY);
        assert!(high <= MAX_DAY && MAX_DAY - high < 124);
    }
}

#[test]
fn other_widths_than_the_presets() {
    // Three weeks: the grid counts from Monday 1970-01-05, day 4.
    assert_eq!(window_start(Span { months: 0, weeks: 3 }, 4 + 21 * 10 + 20), 4 + 21 * 10);
    // Twelve months: the year.
    assert_eq!(window_start(Span { months: 12, weeks: 0 }, 19889), 19723);
    // Three months: the calendar quarter, 2024-04-01 is day 19814.
    assert_eq!(window_start(Span { months: 3, weeks: 0 }, 19889), 19814);
    // Twenty-four months reach back to 2024-01-01 from 2025-06-15, day 20254.
    assert_eq!(window_start(Span { months: 24, weeks: 0 }, 20254), 19723);
}

#[test]
fn a_window_ends_where_the_next_starts() {
    // January 2024, then February with its 29 days.
    assert_eq!(window_of(step(TimeGroup::Monthly), 19727), (19723, 19754));
    assert_eq!(window_of(step(TimeGroup::Monthly), 19760), (19754, 19783));
    // December 2023 ends with the year.
    assert_eq!(window_of(step(TimeGroup::Monthly), 19722), (19692, 19723));
    // February 2023 has 28 days.
    assert_eq!(window_of(step(TimeGroup::Monthly), 19400), (19389, 19417));
    // Four months from 2024-01-01 end on 2024-05-01, the next on 2024-09-01.
    assert_eq!(window_of(step(TimeGroup::Quarterly), 19727), (19723, 19844));
    assert_eq!(window_of(step(TimeGroup::Quarterly), 19889), (19844, 19967));
    // Four months over the turn of the year: 2023-09-01 to 2024-01-01.
    assert_eq!(window_of(step(TimeGroup::Quarterly), 19722), (19601, 19723));
    assert_eq!(window_of(step(TimeGroup::Weekly), 19727), (19723, 19730));
    assert_eq!(window_of(step(TimeGroup::Biweekly), 19727), (19716, 19730));
    assert_eq!(window_of(step(TimeGroup::Weekly), -4), (-10, -3));
    assert_eq!(window_of(Span { months: 12, weeks: 0 }, 19889), (19723, 20089));
    assert_eq!(window_of(Span { months: 0, weeks: 3 }, 4), (4, 25));
}

#[test]
fn windows_follow_one_another_without_gap_or_overlap() {
    for group in [TimeGroup::Quarterly, TimeGroup::Monthly, TimeGroup::Biweekly, TimeGroup::Weekly] {
        let every = step(group);
        let mut day = 18900;
        while day < 20600 {
            let (start, end) = window_of(every, day);
            assert!(start <= day && day < end);
            assert_eq!(start, window_start(every, day));
            // the last day of the window is in it, the day after starts the next
            assert_eq!(window_start(every, end - 1), start);
            assert_eq!(window_start(every, end), end);
            assert_eq!(window_of(every, end).0, end);
            day += 1;
        }
    }
}

#[test]
fn windows_at_the_first_and_the_last_day_of_the_calendar() {
    for group in [TimeGroup::Quarterly, TimeGroup::Monthly, TimeGroup::Biweekly, TimeGroup::Weekly] {
        let every = step(group);
        let (start, end) = window_of(every, MIN_DAY);
        assert!(start <= MIN_DAY && MIN_DAY < end && end - start <= 124);
        let (start, end) = window_of(every, MAX_DAY);
        assert!(start <= MAX_DAY && MAX_DAY < end && end - start <= 124);
    }
}
