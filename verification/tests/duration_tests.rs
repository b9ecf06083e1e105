use todo_store::duration::format_duration;

#[test]
fn durations_under_an_hour_show_minutes_only() {
    assert_eq!(format_duration(0), "0 minutes");
    assert_eq!(format_duration(59), "0 minutes");
    assert_eq!(format_duration(60), "1 minutes");
    assert_eq!(format_duration(3599), "59 minutes");
}

#[test]
fn durations_under_a_day_show_hours_and_minutes() {
    assert_eq!(format_duration(3600), "1 hours, 0 minutes");
    assert_eq!(format_duration(3660), "1 hours, 1 minutes");
    assert_eq!(format_duration(86399), "23 hours, 59 minutes");
}

#[test]
fn durations_from_a_day_on_show_days_and_hours() {
    assert_eq!(format_duration(86400), "1 days, 0 hours");
    assert_eq!(format_duration(90000), "1 days, 1 hours");
    assert_eq!(format_duration(180000), "2 days, 2 hours");
}
