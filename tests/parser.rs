use log_ingest::models::LogEntry;
use log_ingest::parser::{pseudonym, split_line, ParseError};

const MINIMAL: &str =
    r#"127.0.0.1 - - [10/Oct/2000:13:55:36 -0700] "GET /a HTTP/1.0" 200 2326 "-" "UA/1.0""#;

fn md5_pseudonym(text: &str) -> i64 {
    let digest = md5::compute(text).0;
    let mut first = [0u8; 8];
    first.copy_from_slice(&digest[0..8]);
    i64::from_le_bytes(first)
}

// The address field as written is already in standard form in these lines.
fn parse(line: &str) -> Result<LogEntry, ParseError> {
    let fields = split_line(line).ok_or_else(|| ParseError::new(line))?;
    let ip = Some(fields.ip.clone());
    fields.to_entry(ip).ok_or_else(|| ParseError::new(line))
}

fn parse_with_ip(line: &str, ip: Option<&str>) -> Result<LogEntry, ParseError> {
    let fields = split_line(line).ok_or_else(|| ParseError::new(line))?;
    fields.to_entry(ip.map(|s| s.to_owned())).ok_or_else(|| ParseError::new(line))
}

#[test]
fn minimal_line_fields() {
    let l = split_line(MINIMAL).unwrap();
    assert_eq!(l.ip, "127.0.0.1");
    assert_eq!(l.date, "10/Oct/2000:13:55:36 -0700");
    assert_eq!(l.method, "GET");
    assert_eq!(l.url, "/a");
    assert_eq!(l.status, "200");
    assert_eq!(l.referrer, "-");
    assert_eq!(l.useragent, "UA/1.0");
}

#[test]
fn minimal_line_entry() {
    let e = parse(MINIMAL).unwrap();
    assert_eq!(e.timestamp, 971211336);
    assert_eq!(e.request.method, "GET");
    assert_eq!(e.request.url, "/a");
    assert_eq!(e.request.status_code, 200);
    assert_eq!(e.user.useragent.as_ref().unwrap().value, "UA/1.0");
    assert!(e.referrer.is_none());
    assert_eq!(e.user.hash, md5_pseudonym("127.0.0.1UA/1.0"));
}

#[test]
fn pseudonym_is_truncated_md5() {
    let h = pseudonym("10.0.0.1", "Mozilla/5.0");
    assert_eq!(h, md5_pseudonym("10.0.0.1Mozilla/5.0"));
    assert_ne!(h, pseudonym("10.0.0.2", "Mozilla/5.0"));
    assert_eq!(h, pseudonym("10.0.0.1", "Mozilla/5.0"));
}

#[test]
fn pseudonym_uses_written_useragent_even_when_dash() {
    let line = r#"127.0.0.1 - - [10/Oct/2000:13:55:36 -0700] "GET /a HTTP/1.0" 200 2326 "-" "-""#;
    let e = parse(line).unwrap();
    assert!(e.user.useragent.is_none());
    assert_eq!(e.user.hash, md5_pseudonym("127.0.0.1-"));
}

#[test]
fn referrer_kept_verbatim() {
    let line =
        r#"127.0.0.1 - - [10/Oct/2000:13:55:36 -0700] "GET /a HTTP/1.0" 200 2326 "http://r" "UA/1.0""#;
    let e = parse(line).unwrap();
    assert_eq!(e.referrer.unwrap().url, "http://r");
}

#[test]
fn empty_referrer_is_present_and_empty() {
    let line = r#"127.0.0.1 - - [10/Oct/2000:13:55:36 -0700] "GET /a HTTP/1.0" 200 2326 "" "UA/1.0""#;
    let e = parse(line).unwrap();
    assert_eq!(e.referrer.unwrap().url, "");
}

#[test]
fn text_after_the_line_is_ignored() {
    let line = format!("{} trailing words", MINIMAL);
    let e = parse(&line).unwrap();
    assert_eq!(e.timestamp, 971211336);
}

#[test]
fn ipv6_address_is_written_in_standard_form() {
    let line = r#"2001:db8:0:0:0:0:0:1 - - [10/Oct/2000:13:55:36 +0000] "GET /a HTTP/1.0" 200 1 "-" "UA""#;
    let e = parse_with_ip(line, Some("2001:db8::1")).unwrap();
    assert_eq!(e.user.hash, md5_pseudonym("2001:db8::1UA"));
    assert_eq!(e.timestamp, 971186136);
}

#[test]
fn bad_address_is_an_error() {
    let line = r#"not-an-ip - - [10/Oct/2000:13:55:36 -0700] "GET /a HTTP/1.0" 200 2326 "-" "UA/1.0""#;
    let err = parse_with_ip(line, None).unwrap_err();
    assert_eq!(err.0, line);
    assert_eq!(err.message(), format!("Unable to parse line '{}'", line));
}

#[test]
fn bad_date_is_an_error() {
    let line = r#"127.0.0.1 - - [10/Foo/2000:13:55:36 -0700] "GET /a HTTP/1.0" 200 2326 "-" "UA/1.0""#;
    assert!(split_line(line).is_some());
    assert!(parse(line).is_err());
}

#[test]
fn status_beyond_i32_is_an_error() {
    let line =
        r#"127.0.0.1 - - [10/Oct/2000:13:55:36 -0700] "GET /a HTTP/1.0" 2147483648 2326 "-" "UA/1.0""#;
    assert!(split_line(line).is_some());
    assert!(parse(line).is_err());
    let line =
        r#"127.0.0.1 - - [10/Oct/2000:13:55:36 -0700] "GET /a HTTP/1.0" 2147483647 2326 "-" "UA/1.0""#;
    assert_eq!(parse(line).unwrap().request.status_code, 2147483647);
}

#[test]
fn malformed_lines_have_no_reading() {
    assert!(split_line("").is_none());
    assert!(split_line("garbage").is_none());
    // size is not a number
    assert!(split_line(
        r#"127.0.0.1 - - [10/Oct/2000:13:55:36 -0700] "GET /a HTTP/1.0" 200 - "-" "UA/1.0""#
    )
    .is_none());
    // missing closing quote of the user agent
    assert!(split_line(
        r#"127.0.0.1 - - [10/Oct/2000:13:55:36 -0700] "GET /a HTTP/1.0" 200 2326 "-" "UA/1.0"#
    )
    .is_none());
    // a quote inside the URL
    assert!(split_line(
        r#"127.0.0.1 - - [10/Oct/2000:13:55:36 -0700] "GET /a"b HTTP/1.0" 200 2326 "-" "UA/1.0""#
    )
    .is_none());
}

#[test]
fn written_fields_read_back() {
    let fields = ["::1", "id", "bob", "01/Jan/2020:00:00:00 +0100", "POST", "/x?y=1", "HTTP/1.1", "404", "0", "http://ref/a b", "Agent 1.0 (X)"];
    let line = format!(
        "{} {} {} [{}] \"{} {} {}\" {} {} \"{}\" \"{}\"",
        fields[0], fields[1], fields[2], fields[3], fields[4], fields[5], fields[6], fields[7], fields[8], fields[9], fields[10]
    );
    let l = split_line(&line).unwrap();
    assert_eq!(l.ip, fields[0]);
    assert_eq!(l.date, fields[3]);
    assert_eq!(l.method, fields[4]);
    assert_eq!(l.url, fields[5]);
    assert_eq!(l.status, fields[7]);
    assert_eq!(l.referrer, fields[9]);
    assert_eq!(l.useragent, fields[10]);
    let e = parse_with_ip(&line, Some("::1")).unwrap();
    assert_eq!(e.timestamp, 1577833200);
    assert_eq!(e.request.status_code, 404);
}
