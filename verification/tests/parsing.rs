use zone_score::{BoardPart, LogEntry, ParseError, ParseFault, TimeOfDay};

fn log_entry(h: u32, m: u32, s: u32, team: &str) -> LogEntry {
    LogEntry::new(TimeOfDay::from_hms(h, m, s).unwrap(), team.to_string())
}

#[test]
fn parsing() {
    let reference = BoardPart::new(3, vec![
        log_entry(14, 1, 2, "red"),
        log_entry(14, 1, 8, "red"),
        log_entry(14, 1, 40, "blue"),
        log_entry(14, 1, 52, "green"),
        log_entry(14, 2, 20, "green"),
        log_entry(14, 2, 24, "orange"),
        log_entry(14, 2, 41, "red"),
        log_entry(14, 2, 59, "yellow"),
        log_entry(14, 3, 4, "yellow"),
        log_entry(14, 4, 8, "orange"),
        log_entry(14, 4, 10, "orange"),
        log_entry(14, 4, 13, "orange"),
        log_entry(14, 4, 15, "orange"),
        log_entry(14, 5, 0, "red"),
        log_entry(14, 5, 7, "blue"),
        log_entry(14, 5, 30, "red"),
        log_entry(14, 6, 44, "blue"),
        log_entry(14, 6, 56, "red"),
        log_entry(14, 7, 23, "blue"),
        log_entry(14, 7, 48, "red"),
        log_entry(14, 7, 57, "blue"),
        log_entry(14, 8, 2, "yellow"),
        log_entry(14, 8, 6, "yellow"),
        log_entry(14, 14, 2, "orange"),
    ]);
    let text = r#"14:01:02,red
14:01:08,red
14:01:40,blue
14:01:52,green
14:02:20,green
14:02:24,orange
14:02:41,red
14:02:59,yellow
14:03:04,yellow
14:04:08,orange
14:04:10,orange
14:04:13,orange
14:04:15,orange
14:05:00,red
14:05:07,blue
14:05:30,red
14:06:44,blue
14:06:56,red
14:07:23,blue
14:07:48,red
14:07:57,blue
14:08:02,yellow
14:08:06,yellow
14:14:02,orange
"#;
    let parsed = BoardPart::parse(3, text);
    assert_eq!(parsed, Ok(reference))
}

#[test]
fn parse_reads_time_and_team_of_a_line() {
    let part = BoardPart::parse(7, "14:01:02,red").unwrap();
    assert_eq!(part.size(), 7);
    assert_eq!(part.log().len(), 1);
    let entry = &part.log()[0];
    assert_eq!(entry.time(), TimeOfDay { secs: 14 * 3600 + 62, frac: 0 });
    assert_eq!(entry.time().secs, 50_462);
    assert_eq!(entry.team(), "red");
}

#[test]
fn parse_of_empty_text_is_an_empty_log() {
    let part = BoardPart::parse(1, "").unwrap();
    assert_eq!(part.log().len(), 0);
    assert_eq!(part, BoardPart::new(1, vec![]));
}

#[test]
fn parse_keeps_fraction_of_a_second() {
    let part = BoardPart::parse(1, "10:00:00.25,a\n").unwrap();
    assert_eq!(part.log()[0].time(), TimeOfDay { secs: 36_000, frac: 250_000_000 });
}

#[test]
fn parse_reads_a_leap_second() {
    let part = BoardPart::parse(1, "23:59:60,a").unwrap();
    assert_eq!(part.log()[0].time(), TimeOfDay { secs: 86_399, frac: 1_000_000_000 });
}

#[test]
fn parse_takes_carriage_return_before_line_feed_as_line_end() {
    let part = BoardPart::parse(2, "10:00:00,a\r\n10:00:05,b\r\n").unwrap();
    assert_eq!(
        part,
        BoardPart::new(2, vec![log_entry(10, 0, 0, "a"), log_entry(10, 0, 5, "b")])
    );
}

#[test]
fn parse_keeps_carriage_return_without_line_feed() {
    let part = BoardPart::parse(2, "10:00:00,a\r").unwrap();
    assert_eq!(part.log()[0].team(), "a\r");
}

#[test]
fn parse_last_line_needs_no_line_feed() {
    let part = BoardPart::parse(2, "10:00:00,a\n10:00:05,b").unwrap();
    assert_eq!(part.log().len(), 2);
    assert_eq!(part.log()[1].team(), "b");
}

#[test]
fn parse_team_is_all_after_first_comma() {
    let part = BoardPart::parse(2, "10:00:00,a,b,\n10:00:01,\n").unwrap();
    assert_eq!(part.log()[0].team(), "a,b,");
    assert_eq!(part.log()[1].team(), "");
}

#[test]
fn parse_team_may_hold_any_character() {
    let part = BoardPart::parse(2, "10:00:00,équipe ü\n").unwrap();
    assert_eq!(part.log()[0].team(), "équipe ü");
}

#[test]
fn parse_reports_line_without_comma() {
    let parsed = BoardPart::parse(3, "14:01:02,red\n14:01:08 red\n14:01:40,blue\n");
    assert_eq!(parsed, Err(ParseError { line: 1, fault: ParseFault::MissingSeparator }));
}

#[test]
fn parse_reports_empty_line_as_without_comma() {
    let parsed = BoardPart::parse(3, "14:01:02,red\n\n14:01:40,blue\n");
    assert_eq!(parsed, Err(ParseError { line: 1, fault: ParseFault::MissingSeparator }));
}

#[test]
fn parse_reports_bad_time() {
    let parsed = BoardPart::parse(3, "14:01:02,red\n14:01:08,red\n25:00:00,blue\n");
    assert_eq!(parsed, Err(ParseError { line: 2, fault: ParseFault::MalformedTimestamp }));
    let parsed = BoardPart::parse(3, "noon,red\n");
    assert_eq!(parsed, Err(ParseError { line: 0, fault: ParseFault::MalformedTimestamp }));
    let parsed = BoardPart::parse(3, ",red\n");
    assert_eq!(parsed, Err(ParseError { line: 0, fault: ParseFault::MalformedTimestamp }));
}

#[test]
fn parse_reports_first_bad_line_only() {
    let parsed = BoardPart::parse(3, "x,red\nno comma\n");
    assert_eq!(parsed, Err(ParseError { line: 0, fault: ParseFault::MalformedTimestamp }));
    let parsed = BoardPart::parse(3, "no comma\nx,red\n");
    assert_eq!(parsed, Err(ParseError { line: 0, fault: ParseFault::MissingSeparator }));
}

#[test]
fn from_reading_builds_entry_or_reports_fault() {
    let entry = LogEntry::from_reading(Some((3_723, 5)), "a".to_string()).unwrap();
    assert_eq!(entry.time(), TimeOfDay { secs: 3_723, frac: 5 });
    assert_eq!(entry.team(), "a");
    assert_eq!(
        LogEntry::from_reading(None, "a".to_string()),
        Err(ParseFault::MalformedTimestamp)
    );
    assert_eq!(
        LogEntry::from_reading(Some((86_400, 0)), "a".to_string()),
        Err(ParseFault::MalformedTimestamp)
    );
    assert_eq!(
        LogEntry::from_reading(Some((10, 1_000_000_000)), "a".to_string()),
        Err(ParseFault::MalformedTimestamp)
    );
}

#[test]
fn parse_refuses_time_earlier_than_the_line_before() {
    let parsed = BoardPart::parse(1, "14:00:10,a\n14:00:00,b");
    assert_eq!(parsed, Err(ParseError { line: 1, fault: ParseFault::OutOfOrder }));
    let parsed = BoardPart::parse(1, "14:00:10,a\n14:00:00,b\n");
    assert_eq!(parsed, Err(ParseError { line: 1, fault: ParseFault::OutOfOrder }));
}

#[test]
fn parse_refuses_disorder_late_in_the_log() {
    let text = "10:00:00,a\n10:00:05,b\n10:00:09,c\n10:00:08,a\n10:00:20,b\n";
    let parsed = BoardPart::parse(4, text);
    assert_eq!(parsed, Err(ParseError { line: 3, fault: ParseFault::OutOfOrder }));
}

#[test]
fn parse_refuses_disorder_within_a_second() {
    let parsed = BoardPart::parse(1, "10:00:00.5,a\n10:00:00.25,b\n");
    assert_eq!(parsed, Err(ParseError { line: 1, fault: ParseFault::OutOfOrder }));
    let parsed = BoardPart::parse(1, "10:00:00.25,a\n10:00:00.5,b\n").unwrap();
    assert_eq!(parsed.log().len(), 2);
}

#[test]
fn parse_takes_equal_times_as_in_order() {
    let part = BoardPart::parse(1, "10:00:00,a\n10:00:00,b\n10:00:00,a\n").unwrap();
    assert_eq!(part.log().len(), 3);
    assert!(part.is_ordered());
    assert_eq!(
        part,
        BoardPart::new(
            1,
            vec![log_entry(10, 0, 0, "a"), log_entry(10, 0, 0, "b"), log_entry(10, 0, 0, "a")]
        )
    );
}

#[test]
fn parse_reports_the_first_fault_of_either_kind() {
    let parsed = BoardPart::parse(1, "10:00:05,a\n10:00:00,b\nno comma\n");
    assert_eq!(parsed, Err(ParseError { line: 1, fault: ParseFault::OutOfOrder }));
    let parsed = BoardPart::parse(1, "10:00:05,a\nno comma\n10:00:00,b\n");
    assert_eq!(parsed, Err(ParseError { line: 1, fault: ParseFault::MissingSeparator }));
    let parsed = BoardPart::parse(1, "10:00:05,a\nx,b\n10:00:00,b\n");
    assert_eq!(parsed, Err(ParseError { line: 1, fault: ParseFault::MalformedTimestamp }));
}

#[test]
fn parse_does_not_put_lines_in_order() {
    let parsed = BoardPart::parse(1, "14:00:10,a\n14:00:00,b");
    assert!(parsed.is_err());
    assert_ne!(
        parsed,
        Ok(BoardPart::new(1, vec![log_entry(14, 0, 0, "b"), log_entry(14, 0, 10, "a")]))
    );
    assert_ne!(
        parsed,
        Ok(BoardPart::new(1, vec![log_entry(14, 0, 10, "a"), log_entry(14, 0, 0, "b")]))
    );
}

#[test]
fn parsed_log_is_in_time_order() {
    let part = BoardPart::parse(3, "14:01:02,red\n14:01:08,red\n14:01:40,blue\n").unwrap();
    assert!(part.is_ordered());
}

#[test]
fn parse_orders_leap_second_after_second_59() {
    let part = BoardPart::parse(1, "23:59:59.5,a\n23:59:60,b\n").unwrap();
    assert_eq!(part.log().len(), 2);
    let parsed = BoardPart::parse(1, "23:59:60,a\n23:59:59.5,b\n");
    assert_eq!(parsed, Err(ParseError { line: 1, fault: ParseFault::OutOfOrder }));
}

#[test]
fn parse_takes_leap_second_before_the_next_minute_as_in_order() {
    let part = BoardPart::parse(1, "23:58:60.5,a\n23:59:00,b").unwrap();
    assert_eq!(part.log().len(), 2);
    assert_eq!(part.log()[0].time(), TimeOfDay { secs: 86_339, frac: 1_500_000_000 });
    assert_eq!(part.log()[0].team(), "a");
    assert_eq!(part.log()[1].time(), TimeOfDay { secs: 86_340, frac: 0 });
    assert_eq!(part.log()[1].team(), "b");
    assert!(part.is_ordered());
    let parsed = BoardPart::parse(1, "23:59:00,b\n23:58:60.5,a");
    assert_eq!(parsed, Err(ParseError { line: 1, fault: ParseFault::OutOfOrder }));
}

#[test]
fn parse_orders_times_within_a_leap_second() {
    let part = BoardPart::parse(1, "10:00:59.9,a\n10:00:60,b\n10:00:60.5,c\n10:01:00,d\n").unwrap();
    assert_eq!(part.log().len(), 4);
    let parsed = BoardPart::parse(1, "10:00:60.5,a\n10:00:60.25,b\n");
    assert_eq!(parsed, Err(ParseError { line: 1, fault: ParseFault::OutOfOrder }));
}
