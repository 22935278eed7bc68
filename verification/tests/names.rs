use snapshot_retention::namer::{snapshot_name, NameParseError, Namer};
use snapshot_retention::pattern::{InvalidFormat, Pattern, Token};
use snapshot_retention::timestamp::Timestamp;

const DEFAULT_FORMAT: &str = "%Y-%m-%d-%H%M%S";

fn ts(year: u16, month: u8, day: u8, hour: u8, minute: u8, second: u8) -> Timestamp {
    Timestamp::new(year, month, day, hour, minute, second).unwrap()
}

#[test]
fn compile_reads_the_default_format() {
    let pattern = Pattern::compile(DEFAULT_FORMAT).unwrap();
    assert_eq!(
        pattern.tokens,
        vec![
            Token::Year,
            Token::Literal('-'),
            Token::Month,
            Token::Literal('-'),
            Token::Day,
            Token::Literal('-'),
            Token::Hour,
            Token::Minute,
            Token::Second,
        ]
    );
}

#[test]
fn compile_reads_a_doubled_percent_as_a_percent() {
    let pattern = Pattern::compile("%%%Y%%").unwrap();
    assert_eq!(
        pattern.tokens,
        vec![Token::Literal('%'), Token::Year, Token::Literal('%')]
    );
}

#[test]
fn compile_rejects_a_dangling_percent() {
    assert_eq!(Pattern::compile("%").unwrap_err(), InvalidFormat::DanglingPercent);
    assert_eq!(Pattern::compile("%Y-%").unwrap_err(), InvalidFormat::DanglingPercent);
    assert_eq!(Pattern::compile("%%%").unwrap_err(), InvalidFormat::DanglingPercent);
}

#[test]
fn compile_rejects_an_unknown_specifier() {
    assert_eq!(Pattern::compile("%Q").unwrap_err(), InvalidFormat::UnknownSpecifier);
    assert_eq!(Pattern::compile("%Y-%y").unwrap_err(), InvalidFormat::UnknownSpecifier);
    assert_eq!(Pattern::compile("% Y").unwrap_err(), InvalidFormat::UnknownSpecifier);
    assert_eq!(Pattern::compile("%j%").unwrap_err(), InvalidFormat::UnknownSpecifier);
}

#[test]
fn compile_rejects_a_format_without_a_field() {
    assert_eq!(Pattern::compile("").unwrap_err(), InvalidFormat::NoSpecifier);
    assert_eq!(Pattern::compile("latest").unwrap_err(), InvalidFormat::NoSpecifier);
    assert_eq!(Pattern::compile("100%%").unwrap_err(), InvalidFormat::NoSpecifier);
}

#[test]
fn render_writes_fixed_widths() {
    let pattern = Pattern::compile(DEFAULT_FORMAT).unwrap();
    assert_eq!(pattern.render(&ts(2024, 1, 10, 9, 30, 5)), "2024-01-10-093005");
    assert_eq!(pattern.render(&ts(7, 12, 31, 23, 59, 59)), "0007-12-31-235959");
    assert_eq!(pattern.render(&ts(0, 1, 1, 0, 0, 0)), "0000-01-01-000000");
    assert_eq!(pattern.render(&ts(9999, 12, 31, 23, 59, 59)), "9999-12-31-235959");
}

#[test]
fn render_writes_literals_as_they_are() {
    let pattern = Pattern::compile("am %d.%m.%Y um %H:%M Uhr, 100%% sicher \u{2713}").unwrap();
    assert_eq!(
        pattern.render(&ts(2024, 3, 7, 8, 5, 0)),
        "am 07.03.2024 um 08:05 Uhr, 100% sicher \u{2713}"
    );
}

#[test]
fn parse_reads_what_render_wrote() {
    let pattern = Pattern::compile(DEFAULT_FORMAT).unwrap();
    assert_eq!(pattern.parse("2024-01-10-093005"), Some(ts(2024, 1, 10, 9, 30, 5)));
    assert_eq!(pattern.parse("0000-01-01-000000"), Some(ts(0, 1, 1, 0, 0, 0)));
    assert_eq!(pattern.parse("2024-02-29-235959"), Some(ts(2024, 2, 29, 23, 59, 59)));
}

#[test]
fn parse_rejects_text_of_another_shape() {
    let pattern = Pattern::compile(DEFAULT_FORMAT).unwrap();
    assert_eq!(pattern.parse(""), None);
    assert_eq!(pattern.parse("2024-01-10-09300"), None);
    assert_eq!(pattern.parse("2024-01-10-0930050"), None);
    assert_eq!(pattern.parse("2024-01-10 093005"), None);
    assert_eq!(pattern.parse("2024_01-10-093005"), None);
    assert_eq!(pattern.parse("2024-01-10-09300x"), None);
    assert_eq!(pattern.parse("+024-01-10-093005"), None);
    assert_eq!(pattern.parse("2024-01-1\u{0660}-093005"), None);
    assert_eq!(pattern.parse("random_file"), None);
}

#[test]
fn parse_rejects_moments_that_do_not_exist() {
    let pattern = Pattern::compile(DEFAULT_FORMAT).unwrap();
    assert_eq!(pattern.parse("2024-00-10-093005"), None);
    assert_eq!(pattern.parse("2024-13-10-093005"), None);
    assert_eq!(pattern.parse("2024-01-00-093005"), None);
    assert_eq!(pattern.parse("2024-01-32-093005"), None);
    assert_eq!(pattern.parse("2023-02-29-093005"), None);
    assert_eq!(pattern.parse("2024-02-30-093005"), None);
    assert_eq!(pattern.parse("2024-01-10-240000"), None);
    assert_eq!(pattern.parse("2024-01-10-096000"), None);
    assert_eq!(pattern.parse("2024-01-10-093060"), None);
}

#[test]
fn parse_sets_fields_that_the_pattern_lacks_to_their_first_value() {
    let time_only = Pattern::compile("%H%M").unwrap();
    assert_eq!(time_only.parse("1230"), Some(ts(0, 1, 1, 12, 30, 0)));
    let date_only = Pattern::compile("%Y%m%d").unwrap();
    assert_eq!(date_only.parse("20240110"), Some(ts(2024, 1, 10, 0, 0, 0)));
    let month_and_day = Pattern::compile("%m-%d").unwrap();
    assert_eq!(month_and_day.parse("02-29"), Some(ts(0, 2, 29, 0, 0, 0)));
    assert_eq!(month_and_day.parse("02-30"), None);
    let day_only = Pattern::compile("%d").unwrap();
    assert_eq!(day_only.parse("31"), Some(ts(0, 1, 31, 0, 0, 0)));
}

#[test]
fn parse_wants_a_repeated_field_to_agree() {
    let pattern = Pattern::compile("%d/%d").unwrap();
    assert_eq!(pattern.render(&ts(2024, 1, 5, 0, 0, 0)), "05/05");
    assert_eq!(pattern.parse("05/05"), Some(ts(0, 1, 5, 0, 0, 0)));
    assert_eq!(pattern.parse("05/06"), None);
}

#[test]
fn name_joins_prefix_and_timestamp_with_a_hyphen() {
    let namer = Namer::new("snap", DEFAULT_FORMAT).unwrap();
    assert_eq!(namer.name(&ts(2024, 1, 10, 0, 0, 0)), "snap-2024-01-10-000000");
    assert_eq!(namer.name(&ts(2024, 12, 3, 4, 5, 6)), "snap-2024-12-03-040506");
    let home = Namer::new("my-home", "%Y%m%dT%H%M").unwrap();
    assert_eq!(home.name(&ts(2024, 1, 10, 7, 45, 59)), "my-home-20240110T0745");
    let bare = Namer::new("", "%Y").unwrap();
    assert_eq!(bare.name(&ts(2024, 1, 10, 7, 45, 59)), "-2024");
}

#[test]
fn snapshot_name_gives_the_name_or_the_fault_in_the_format() {
    let now = ts(2024, 1, 10, 9, 30, 5);
    assert_eq!(
        snapshot_name("root", DEFAULT_FORMAT, &now),
        Ok(String::from("root-2024-01-10-093005"))
    );
    assert_eq!(snapshot_name("root", "%Y-%", &now), Err(InvalidFormat::DanglingPercent));
    assert_eq!(snapshot_name("root", "%Y-%e", &now), Err(InvalidFormat::UnknownSpecifier));
    assert_eq!(snapshot_name("root", "fixed", &now), Err(InvalidFormat::NoSpecifier));
}

#[test]
fn namer_new_keeps_prefix_and_pattern() {
    let namer = Namer::new("données", "%Y").unwrap();
    assert_eq!(namer.prefix, "données");
    assert_eq!(namer.pattern.tokens, vec![Token::Year]);
    assert_eq!(Namer::new("p", "%").unwrap_err(), InvalidFormat::DanglingPercent);
}

#[test]
fn namer_parse_reads_the_moment() {
    let namer = Namer::new("snap", DEFAULT_FORMAT).unwrap();
    assert_eq!(namer.parse("snap-2024-01-10-000000"), Ok(ts(2024, 1, 10, 0, 0, 0)));
    let home = Namer::new("my-home", DEFAULT_FORMAT).unwrap();
    assert_eq!(home.parse("my-home-2024-01-10-093005"), Ok(ts(2024, 1, 10, 9, 30, 5)));
    let accented = Namer::new("données", DEFAULT_FORMAT).unwrap();
    assert_eq!(accented.parse("données-2024-01-10-093005"), Ok(ts(2024, 1, 10, 9, 30, 5)));
}

#[test]
fn namer_parse_rejects_another_prefix() {
    let namer = Namer::new("snap", DEFAULT_FORMAT).unwrap();
    assert_eq!(namer.parse("random_file"), Err(NameParseError::Prefix));
    assert_eq!(namer.parse(""), Err(NameParseError::Prefix));
    assert_eq!(namer.parse("snap"), Err(NameParseError::Prefix));
    assert_eq!(namer.parse("sna"), Err(NameParseError::Prefix));
    assert_eq!(namer.parse("snap_2024-01-10-000000"), Err(NameParseError::Prefix));
    assert_eq!(namer.parse("snip-2024-01-10-000000"), Err(NameParseError::Prefix));
    assert_eq!(namer.parse("Snap-2024-01-10-000000"), Err(NameParseError::Prefix));
    assert_eq!(namer.parse("2024-01-10-000000"), Err(NameParseError::Prefix));
    assert_eq!(namer.parse("my-snap-2024-01-10-000000"), Err(NameParseError::Prefix));
}

#[test]
fn namer_parse_rejects_what_is_no_timestamp() {
    let namer = Namer::new("snap", DEFAULT_FORMAT).unwrap();
    assert_eq!(namer.parse("snap-"), Err(NameParseError::Timestamp));
    assert_eq!(namer.parse("snap-latest"), Err(NameParseError::Timestamp));
    assert_eq!(namer.parse("snap-2024-01-10"), Err(NameParseError::Timestamp));
    assert_eq!(namer.parse("snap-2024-02-30-000000"), Err(NameParseError::Timestamp));
    assert_eq!(namer.parse("snap-2024-01-10-000000.bak"), Err(NameParseError::Timestamp));
    assert_eq!(namer.parse("snap--2024-01-10-000000"), Err(NameParseError::Timestamp));
}

#[test]
fn names_read_back_as_the_moment_they_were_given_for() {
    let prefixes = vec!["snap", "", "my-home", "données", "a-2024-01-01-000000"];
    let moments = vec![
        ts(0, 1, 1, 0, 0, 0),
        ts(1970, 1, 1, 0, 0, 0),
        ts(2023, 2, 28, 23, 59, 59),
        ts(2024, 2, 29, 12, 0, 1),
        ts(2024, 10, 31, 1, 2, 3),
        ts(9999, 12, 31, 23, 59, 59),
    ];
    for prefix in prefixes.iter() {
        let namer = Namer::new(prefix, DEFAULT_FORMAT).unwrap();
        for t in moments.iter() {
            let name = namer.name(t);
            assert_eq!(namer.parse(&name), Ok(*t));
        }
    }
}

#[test]
fn names_read_back_as_far_as_the_pattern_writes() {
    let namer = Namer::new("snap", "%Y-%m-%d_%H").unwrap();
    let name = namer.name(&ts(2024, 2, 29, 13, 45, 59));
    assert_eq!(name, "snap-2024-02-29_13");
    assert_eq!(namer.parse(&name), Ok(ts(2024, 2, 29, 13, 0, 0)));
    let yearless = Namer::new("snap", "%m%d").unwrap();
    let name = yearless.name(&ts(2024, 2, 29, 13, 45, 59));
    assert_eq!(name, "snap-0229");
    assert_eq!(yearless.parse(&name), Ok(ts(0, 2, 29, 0, 0, 0)));
}
