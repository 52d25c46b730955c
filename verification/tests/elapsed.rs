use zb::report::format_elapsed;

fn elapsed(ms: i64) -> String {
    let mut text = String::new();
    format_elapsed(ms, &mut text);
    text
}

#[test]
fn elapsed_below_a_day_has_no_days() {
    assert_eq!(elapsed(0), "00:00:00.000 ");
    assert_eq!(elapsed(1), "00:00:00.001 ");
    assert_eq!(elapsed(3_725_123), "01:02:05.123 ");
    assert_eq!(elapsed(86_399_999), "23:59:59.999 ");
}

#[test]
fn elapsed_of_a_day_or_more_shows_days() {
    assert_eq!(elapsed(86_400_000), "001d 00:00:00.000 ");
    assert_eq!(elapsed(2 * 86_400_000 + 3_725_123), "002d 01:02:05.123 ");
    assert_eq!(elapsed(1234 * 86_400_000), "1234d 00:00:00.000 ");
}

#[test]
fn elapsed_appends_to_what_is_there() {
    let mut text = String::from("at ");
    format_elapsed(61_000, &mut text);
    assert_eq!(text, "at 00:01:01.000 ");
}

#[test]
fn negative_elapsed_signs_each_part() {
    assert_eq!(elapsed(-5), "00:00:00.-05 ");
    assert_eq!(elapsed(-3_725_123), "-1:-2:-5.-123 ");
    assert_eq!(elapsed(-86_400_000), "00:00:00.000 ");
}
