use chrono::TimeZone;

use textparse::combinator::ErrorKind;
use textparse::nginx_log::{parse_datetime, parse_http, parse_ip, parse_nginx_log, HttpMethod,
    HttpVersion, Ipv4};

const SAMPLE: &str = "93.180.71.3 - - [17/May/2015:08:05:32 +0000] \"GET /downloads/product_1 HTTP/1.1\" 304 0 \"-\" \"Debian APT-HTTP/1.3 (0.8.16~exp12ubuntu10.21)\"";

#[test]
fn parse_ip_should_work() {
    let s = "1.1.1.1";
    let (ip, next) = parse_ip(s, 0).unwrap();
    assert_eq!(next, s.len());
    assert_eq!(ip, Ipv4 { a: 1, b: 1, c: 1, d: 1 });
}

#[test]
fn parse_datetime_should_work() {
    let s = "[17/May/2015:08:05:32 +0000]";
    let (dt, next) = parse_datetime(s, 0).unwrap();
    assert_eq!(next, s.len());
    let expected = chrono::Utc.with_ymd_and_hms(2015, 5, 17, 8, 5, 32).unwrap();
    assert_eq!(dt, expected.timestamp());
}

#[test]
fn parse_http_should_work() {
    let s = "\"GET /downloads/product_1 HTTP/1.1\"";
    let ((method, url, protocol), next) = parse_http(s, 0).unwrap();
    assert_eq!(next, s.len());
    assert_eq!(method, HttpMethod::Get);
    assert_eq!(url, "/downloads/product_1");
    assert_eq!(protocol, HttpVersion::Http1_1);
}

#[test]
fn full_combined_line_parses_to_the_expected_record() {
    let log = parse_nginx_log(SAMPLE).unwrap();
    assert_eq!(log.addr, Ipv4 { a: 93, b: 180, c: 71, d: 3 });
    let expected = chrono::Utc.with_ymd_and_hms(2015, 5, 17, 8, 5, 32).unwrap();
    assert_eq!(log.datetime, expected.timestamp());
    assert_eq!(log.method, HttpMethod::Get);
    assert_eq!(log.path, "/downloads/product_1");
    assert_eq!(log.http_version, HttpVersion::Http1_1);
    assert_eq!(log.status_code, 304);
    assert_eq!(log.size, 0);
    assert_eq!(log.referer, "-");
    assert_eq!(log.user_agent, "Debian APT-HTTP/1.3 (0.8.16~exp12ubuntu10.21)");
}

#[test]
fn zone_offset_shifts_the_instant() {
    let west = "[17/May/2015:08:05:32 -0130]";
    let (dt, _) = parse_datetime(west, 0).unwrap();
    let base = chrono::Utc.with_ymd_and_hms(2015, 5, 17, 8, 5, 32).unwrap().timestamp();
    assert_eq!(dt, base + 90 * 60);
}

#[test]
fn out_of_range_octet_fails_with_no_record() {
    let err = parse_ip("999.1.1.1", 0).unwrap_err();
    assert_eq!(err.kind, ErrorKind::Format);
    assert_eq!(err.at, 0);

    let line = "999.1.1.1 - - [17/May/2015:08:05:32 +0000] \"GET /x HTTP/1.1\" 200 1 \"-\" \"ua\"";
    assert!(parse_nginx_log(line).is_err());
}

#[test]
fn unknown_verb_or_protocol_is_a_conversion_failure() {
    let line = "93.180.71.3 - - [17/May/2015:08:05:32 +0000] \"FETCH /x HTTP/1.1\" 200 1 \"-\" \"ua\"";
    let err = parse_nginx_log(line).unwrap_err();
    assert_eq!(err.kind, ErrorKind::Conversion);

    let line = "93.180.71.3 - - [17/May/2015:08:05:32 +0000] \"GET /x HTTP/9.9\" 200 1 \"-\" \"ua\"";
    let err = parse_nginx_log(line).unwrap_err();
    assert_eq!(err.kind, ErrorKind::Conversion);
}

#[test]
fn malformed_fields_fail_the_whole_line() {
    assert!(parse_nginx_log("93.180.71 - - [17/May/2015:08:05:32 +0000] \"GET /x HTTP/1.1\" 200 1 \"-\" \"ua\"").is_err());
    assert!(parse_nginx_log("93.180.71.3 - - [99/May/2015:08:05:32 +0000] \"GET /x HTTP/1.1\" 200 1 \"-\" \"ua\"").is_err());
    assert!(parse_nginx_log("93.180.71.3 - - [17/Mai/2015:08:05:32 +0000] \"GET /x HTTP/1.1\" 200 1 \"-\" \"ua\"").is_err());
    assert!(parse_nginx_log("93.180.71.3 - - [17/May/2015:08:05:32 +0000] \"GET /x HTTP/1.1\" 70000 1 \"-\" \"ua\"").is_err());
    assert!(parse_nginx_log("93.180.71.3 - - [17/May/2015:08:05:32 +0000] \"GET /x HTTP/1.1\" 200 1 \"\" \"ua\"").is_err());
}
