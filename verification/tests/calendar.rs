use zapfast::calendar::{month_label, month_step, CalendarMonth};

#[test]
fn months_step_across_the_year_boundary() {
    let december = CalendarMonth::new(2026, 12).expect("a date");
    assert_eq!(month_step(december, 1).month(), 1);
    assert_eq!(month_step(december, 1).year(), 2027);
    let january = CalendarMonth::new(2026, 1).expect("a date");
    assert_eq!(month_step(january, -1).month(), 12);
    assert_eq!(month_step(january, -1).year(), 2025);
}

#[test]
fn months_stop_at_the_ends_of_the_calendar() {
    let last = CalendarMonth::new(9999, 12).expect("a date");
    assert_eq!(month_step(last, 1), last);
    let first = CalendarMonth::new(-9999, 1).expect("a date");
    assert_eq!(month_step(first, -1), first);
    assert_eq!(month_step(first, 0), CalendarMonth::new(-9999, 2).unwrap());
    assert!(CalendarMonth::new(10000, 1).is_none());
    assert!(CalendarMonth::new(2026, 13).is_none());
    assert!(CalendarMonth::new(2026, 0).is_none());
}

#[test]
fn month_labels_name_the_month_and_year() {
    assert_eq!(month_label(CalendarMonth::new(2026, 3).unwrap()), "March 2026");
    assert_eq!(month_label(CalendarMonth::new(0, 12).unwrap()), "December 0");
    assert_eq!(month_label(CalendarMonth::new(-44, 1).unwrap()), "January -44");
    assert_eq!(month_label(CalendarMonth { year: 7, month: 13 }), "January 7");
}

use zapfast::calendar::{cells_from, day_clicked, days_in_month, month_cells, weekday_header};

#[test]
fn days_in_month_follow_the_leap_year_rule() {
    let days = |y: i16, m: i8| days_in_month(CalendarMonth::new(y, m).unwrap());
    assert_eq!(days(2024, 2), 29);
    assert_eq!(days(2023, 2), 28);
    assert_eq!(days(1900, 2), 28);
    assert_eq!(days(2000, 2), 29);
    assert_eq!(days(0, 2), 29);
    assert_eq!(days(-4, 2), 29);
    assert_eq!(days(-100, 2), 28);
    assert_eq!(days(2024, 8), 31);
    assert_eq!(days(2024, 11), 30);
}

#[test]
fn the_grid_starts_on_the_weekday_of_the_first() {
    // 1 March 2026 is a Sunday.
    let cells = month_cells(CalendarMonth::new(2026, 3).unwrap());
    assert_eq!(cells.len(), 31);
    assert_eq!(cells[0], (1, 6, 0));
    assert_eq!(cells[1], (2, 0, 1));
    assert_eq!(cells[30], (31, 1, 5));
    // 1 June 2026 is a Monday.
    let cells = month_cells(CalendarMonth::new(2026, 6).unwrap());
    assert_eq!(cells[0], (1, 0, 0));
    assert_eq!(cells[29], (30, 1, 4));
    // 1 January 1970 was a Thursday.
    assert_eq!(month_cells(CalendarMonth::new(1970, 1).unwrap())[0], (1, 3, 0));
}

#[test]
fn cells_wrap_every_seven_days() {
    assert_eq!(cells_from(5, 3), vec![(1, 5, 0), (2, 6, 0), (3, 0, 1)]);
    assert!(cells_from(0, 0).is_empty());
}

#[test]
fn clicking_the_selected_day_clears_the_filter() {
    assert_eq!(day_clicked(Some((2026, 3, 4)), (2026, 3, 4)), None);
    assert_eq!(day_clicked(Some((2026, 3, 4)), (2026, 3, 5)), Some((2026, 3, 5)));
    assert_eq!(day_clicked(None, (2026, 3, 4)), Some((2026, 3, 4)));
}

#[test]
fn weekday_headers_start_on_monday() {
    let headers: Vec<&str> = (0..7).map(weekday_header).collect();
    assert_eq!(headers, vec!["Mo", "Tu", "We", "Th", "Fr", "Sa", "Su"]);
}

#[test]
fn each_grid_starts_where_the_month_before_ended() {
    let mut month = CalendarMonth::new(2023, 11).unwrap();
    for _ in 0..30 {
        let next = month_step(month, 1);
        let lead = month_cells(month)[0].1 as i32;
        let days = days_in_month(month) as i32;
        assert_eq!(month_cells(next)[0].1 as i32, (lead + days) % 7);
        month = next;
    }
}
