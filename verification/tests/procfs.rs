use zb::procfs::{parse_schedstat, parse_stat, split_cmdline};

#[test]
fn schedstat_gives_its_first_field() {
    assert_eq!(parse_schedstat(b"123456789 4567 89\n"), 123_456_789);
    assert_eq!(parse_schedstat(b"  \t42\n"), 42);
    assert_eq!(parse_schedstat(b"+7 1 1"), 7);
    assert_eq!(parse_schedstat(b"0 0 0\n"), 0);
    assert_eq!(parse_schedstat(b"9223372036854775807 0 0"), 9_223_372_036_854_775_807);
}

#[test]
fn schedstat_that_is_missing_or_malformed_gives_zero() {
    assert_eq!(parse_schedstat(b""), 0);
    assert_eq!(parse_schedstat(b"   \n"), 0);
    assert_eq!(parse_schedstat(b"12x 5 6"), 0);
    assert_eq!(parse_schedstat(b"-12 5 6"), 0);
    assert_eq!(parse_schedstat(b"+ 5 6"), 0);
    assert_eq!(parse_schedstat(b"9223372036854775808 0 0"), 0);
    assert_eq!(parse_schedstat(b"99999999999999999999999999999 0 0"), 0);
}

const STAT: &[u8] = b"4242 (my prog) S 1 4242 4242 0 -1 4194304 120 0 3 0 250 50 0 0 20 0 1 0 100 1000 10 18446744073709551615\n";

#[test]
fn stat_gives_user_and_kernel_ticks_as_milliseconds() {
    // 250 + 50 ticks at 100 ticks a second are 3 seconds.
    assert_eq!(parse_stat(STAT, 100), 3_000_000_000);
    // At 1000 ticks a second they are 300 ms.
    assert_eq!(parse_stat(STAT, 1000), 300_000_000);
    // 300 ticks at 7 ticks a second are 42857 whole milliseconds.
    assert_eq!(parse_stat(STAT, 7), 42_857_000_000);
}

#[test]
fn stat_fields_are_counted_from_the_first_closing_bracket() {
    let line = b"1 (a) b) R 1 1 1 0 -1 0 0 0 0 0 10 20 0 0";
    // After the first bracket the fields are: b) R 1 1 1 0 -1 0 0 0 0 0 10 ...
    // so field 11 is 0 and field 12 is 10.
    assert_eq!(parse_stat(line, 100), 100_000_000);
}

#[test]
fn stat_that_is_missing_or_malformed_gives_zero() {
    assert_eq!(parse_stat(b"", 100), 0);
    assert_eq!(parse_stat(b"4242 my prog S 1 2 3", 100), 0);
    assert_eq!(parse_stat(b"4242 (prog) S 1 4242 4242 0 -1 4194304 120 0 3 0 250", 100), 0);
    assert_eq!(parse_stat(STAT, 0), 0);
}

#[test]
fn a_stat_field_that_is_no_number_counts_as_zero() {
    let line = b"1 (p) S 1 1 1 0 -1 0 0 0 0 0 abc 50 0";
    assert_eq!(parse_stat(line, 100), 500_000_000);
}

#[test]
fn cmdline_is_split_at_nuls() {
    assert_eq!(split_cmdline("ls\0-l\0/tmp"), vec!["ls", "-l", "/tmp"]);
    assert_eq!(split_cmdline("unknown"), vec!["unknown"]);
    assert_eq!(split_cmdline(""), vec![""]);
}

#[test]
fn cmdline_with_a_nul_at_its_end_has_an_empty_last_argument() {
    assert_eq!(split_cmdline("ls\0-l\0"), vec!["ls", "-l", ""]);
    assert_eq!(split_cmdline("a\0\0b"), vec!["a", "", "b"]);
    assert_eq!(split_cmdline("\0"), vec!["", ""]);
    assert_eq!(split_cmdline("gr\u{fc}n\0\u{2502}\0"), vec!["gr\u{fc}n", "\u{2502}", ""]);
}
