//! The NGINX combined-log-line grammar: a strictly sequential record of
//! an IPv4 address, two ignored identity fields, a bracketed timestamp,
//! the quoted request line, a status code, a response size, and the
//! quoted referer and user agent.
//!
//! Each field consumes its token and then the run of spaces after it; the
//! whole line parse is atomic, so the first failing field aborts the
//! record.

use vstd::prelude::*;

use chrono::TimeZone;

use crate::combinator::{
    digit_val, digits_val, is_digit_char, spec_digits_end, spec_find_char,
    spec_has_lit, spec_skip_spaces,
};
use crate::combinator::{char_at_is, find_char, match_lit, scan_digits, skip_spaces, str_eq_str,
    take_range, digits_to_u64};
use crate::combinator::{res_err, res_ok};
use crate::combinator::{ErrorKind, PRes, ParseError};
use vstd::string::StrSliceExecFns;

verus! {

/// A dotted-quad IPv4 address, one octet per field.
#[derive(Clone, Copy, Debug, PartialEq, Eq, Structural)]
pub struct Ipv4 {
    pub a: u8,
    pub b: u8,
    pub c: u8,
    pub d: u8,
}

/// The nine request verbs the request line accepts.
#[derive(Clone, Copy, Debug, PartialEq, Eq, Structural)]
pub enum HttpMethod {
    Get,
    Post,
    Put,
    Delete,
    Head,
    Options,
    Connect,
    Trace,
    Patch,
}

/// The four protocol tokens the request line accepts.
#[derive(Clone, Copy, Debug, PartialEq, Eq, Structural)]
pub enum HttpVersion {
    Http1_0,
    Http1_1,
    Http2_0,
    Http3_0,
}

/// One parsed log line. The timestamp is the UTC instant of the
/// bracketed local time, in seconds since the epoch.
#[derive(Debug)]
pub struct NginxLog {
    pub addr: Ipv4,
    pub datetime: i64,
    pub method: HttpMethod,
    pub path: String,
    pub http_version: HttpVersion,
    pub status_code: u16,
    pub size: u64,
    pub referer: String,
    pub user_agent: String,
}

/// The model of a parsed log line.
pub struct LogModel {
    pub addr: Ipv4,
    pub datetime: int,
    pub method: HttpMethod,
    pub path: Seq<char>,
    pub http_version: HttpVersion,
    pub status_code: u16,
    pub size: u64,
    pub referer: Seq<char>,
    pub user_agent: Seq<char>,
}

impl View for NginxLog {
    type V = LogModel;

    open spec fn view(&self) -> LogModel {
        LogModel {
            addr: self.addr,
            datetime: self.datetime as int,
            method: self.method,
            path: self.path@,
            http_version: self.http_version,
            status_code: self.status_code,
            size: self.size,
            referer: self.referer@,
            user_agent: self.user_agent@,
        }
    }
}

/// The UTC epoch second of the given proleptic-Gregorian civil time at
/// the given offset east of UTC, or `None` when the offset or the
/// calendar components are out of range. The calendar arithmetic belongs
/// to the chrono crate, so the result is named rather than spelled out.
pub uninterp spec fn utc_epoch_of(
    year: int,
    month: int,
    day: int,
    hour: int,
    minute: int,
    second: int,
    offset_seconds: int,
) -> Option<int>;

/// Relies on chrono: `FixedOffset::east_opt` (rejects offsets of a day
/// or more), `TimeZone::with_ymd_and_hms` on the proleptic Gregorian
/// calendar (`None` on invalid civil data or when the instant leaves
/// chrono's representable range) and `DateTime::timestamp`. The result
/// depends on the arguments alone, so it is named by `utc_epoch_of`.
#[verifier::external_body]
fn civil_to_epoch(
    year: i32,
    month: u32,
    day: u32,
    hour: u32,
    minute: u32,
    second: u32,
    offset_seconds: i32,
) -> (r: Option<i64>)
    ensures
        (r is Some <==> utc_epoch_of(
            year as int,
            month as int,
            day as int,
            hour as int,
            minute as int,
            second as int,
            offset_seconds as int,
        ) is Some),
        (match r {
            Some(t) => utc_epoch_of(
                year as int,
                month as int,
                day as int,
                hour as int,
                minute as int,
                second as int,
                offset_seconds as int,
            ) == Some(t as int),
            None => true,
        }),
{
    let off = chrono::FixedOffset::east_opt(offset_seconds)?;
    off.with_ymd_and_hms(year, month, day, hour, minute, second).single().map(|dt| dt.timestamp())
}

/// The month number of a three-letter abbreviation at offset `i`.
pub open spec fn spec_month_at(s: Seq<char>, i: int) -> Option<int> {
    if spec_has_lit(s, i, "Jan"@) {
        Some(1int)
    } else if spec_has_lit(s, i, "Feb"@) {
        Some(2int)
    } else if spec_has_lit(s, i, "Mar"@) {
        Some(3int)
    } else if spec_has_lit(s, i, "Apr"@) {
        Some(4int)
    } else if spec_has_lit(s, i, "May"@) {
        Some(5int)
    } else if spec_has_lit(s, i, "Jun"@) {
        Some(6int)
    } else if spec_has_lit(s, i, "Jul"@) {
        Some(7int)
    } else if spec_has_lit(s, i, "Aug"@) {
        Some(8int)
    } else if spec_has_lit(s, i, "Sep"@) {
        Some(9int)
    } else if spec_has_lit(s, i, "Oct"@) {
        Some(10int)
    } else if spec_has_lit(s, i, "Nov"@) {
        Some(11int)
    } else if spec_has_lit(s, i, "Dec"@) {
        Some(12int)
    } else {
        None
    }
}

fn month_at(s: &str, i: usize) -> (r: Option<u32>)
    ensures
        (match r {
            Some(m) => spec_month_at(s@, i as int) == Some(m as int) && 1 <= m <= 12 && i + 3
                <= s@.len(),
            None => spec_month_at(s@, i as int) is None,
        }),
{
    proof {
        reveal_strlit("Jan");
        reveal_strlit("Feb");
        reveal_strlit("Mar");
        reveal_strlit("Apr");
        reveal_strlit("May");
        reveal_strlit("Jun");
        reveal_strlit("Jul");
        reveal_strlit("Aug");
        reveal_strlit("Sep");
        reveal_strlit("Oct");
        reveal_strlit("Nov");
        reveal_strlit("Dec");
    }
    if match_lit(s, i, "Jan") {
        Some(1)
    } else if match_lit(s, i, "Feb") {
        Some(2)
    } else if match_lit(s, i, "Mar") {
        Some(3)
    } else if match_lit(s, i, "Apr") {
        Some(4)
    } else if match_lit(s, i, "May") {
        Some(5)
    } else if match_lit(s, i, "Jun") {
        Some(6)
    } else if match_lit(s, i, "Jul") {
        Some(7)
    } else if match_lit(s, i, "Aug") {
        Some(8)
    } else if match_lit(s, i, "Sep") {
        Some(9)
    } else if match_lit(s, i, "Oct") {
        Some(10)
    } else if match_lit(s, i, "Nov") {
        Some(11)
    } else if match_lit(s, i, "Dec") {
        Some(12)
    } else {
        None
    }
}

/// The verb denoted by a request-line token.
pub open spec fn spec_method_of(t: Seq<char>) -> Option<HttpMethod> {
    if t == "GET"@ {
        Some(HttpMethod::Get)
    } else if t == "POST"@ {
        Some(HttpMethod::Post)
    } else if t == "PUT"@ {
        Some(HttpMethod::Put)
    } else if t == "DELETE"@ {
        Some(HttpMethod::Delete)
    } else if t == "HEAD"@ {
        Some(HttpMethod::Head)
    } else if t == "OPTIONS"@ {
        Some(HttpMethod::Options)
    } else if t == "CONNECT"@ {
        Some(HttpMethod::Connect)
    } else if t == "TRACE"@ {
        Some(HttpMethod::Trace)
    } else if t == "PATCH"@ {
        Some(HttpMethod::Patch)
    } else {
        None
    }
}

/// The protocol denoted by a request-line token.
pub open spec fn spec_version_of(t: Seq<char>) -> Option<HttpVersion> {
    if t == "HTTP/1.0"@ {
        Some(HttpVersion::Http1_0)
    } else if t == "HTTP/1.1"@ {
        Some(HttpVersion::Http1_1)
    } else if t == "HTTP/2.0"@ {
        Some(HttpVersion::Http2_0)
    } else if t == "HTTP/3.0"@ {
        Some(HttpVersion::Http3_0)
    } else {
        None
    }
}

impl HttpMethod {
    /// The exhaustive verb conversion: any token outside the nine fixed
    /// verbs is rejected rather than defaulted.
    pub fn from_str(t: &str) -> (r: Option<HttpMethod>)
        ensures
            r == spec_method_of(t@),
    {
        if str_eq_str(t, "GET") {
            Some(HttpMethod::Get)
        } else if str_eq_str(t, "POST") {
            Some(HttpMethod::Post)
        } else if str_eq_str(t, "PUT") {
            Some(HttpMethod::Put)
        } else if str_eq_str(t, "DELETE") {
            Some(HttpMethod::Delete)
        } else if str_eq_str(t, "HEAD") {
            Some(HttpMethod::Head)
        } else if str_eq_str(t, "OPTIONS") {
            Some(HttpMethod::Options)
        } else if str_eq_str(t, "CONNECT") {
            Some(HttpMethod::Connect)
        } else if str_eq_str(t, "TRACE") {
            Some(HttpMethod::Trace)
        } else if str_eq_str(t, "PATCH") {
            Some(HttpMethod::Patch)
        } else {
            None
        }
    }
}

impl HttpVersion {
    /// The exhaustive protocol conversion: any token outside the four
    /// fixed versions is rejected rather than defaulted.
    pub fn from_str(t: &str) -> (r: Option<HttpVersion>)
        ensures
            r == spec_version_of(t@),
    {
        if str_eq_str(t, "HTTP/1.0") {
            Some(HttpVersion::Http1_0)
        } else if str_eq_str(t, "HTTP/1.1") {
            Some(HttpVersion::Http1_1)
        } else if str_eq_str(t, "HTTP/2.0") {
            Some(HttpVersion::Http2_0)
        } else if str_eq_str(t, "HTTP/3.0") {
            Some(HttpVersion::Http3_0)
        } else {
            None
        }
    }
}

/// Offset of the first character at or after `i` that cannot belong to a
/// request-line token: a space or a quote.
pub open spec fn spec_token_end(s: Seq<char>, i: int) -> int
    recommends
        0 <= i <= s.len(),
    decreases s.len() - i,
{
    if i < s.len() && s[i] != ' ' && s[i] != '"' {
        spec_token_end(s, i + 1)
    } else {
        i
    }
}

fn token_char_at(s: &str, i: usize) -> (r: bool)
    ensures
        r == (i < s@.len() && s@[i as int] != ' ' && s@[i as int] != '"'),
{
    if i < s.unicode_len() {
        let c = s.get_char(i);
        c != ' ' && c != '"'
    } else {
        false
    }
}

/// Consume the run of request-line token characters starting at `i`.
fn scan_token(s: &str, i: usize) -> (j: usize)
    requires
        i as int <= s@.len(),
    ensures
        j as int == spec_token_end(s@, i as int),
        i <= j <= s@.len(),
{
    let n = s.unicode_len();
    let mut j: usize = i;
    while token_char_at(s, j)
        invariant
            i <= j <= s@.len(),
            n == s@.len(),
            spec_token_end(s@, i as int) == spec_token_end(s@, j as int),
        decreases s@.len() - j,
    {
        j = j + 1;
    }
    j
}

/// Parse one decimal octet: a digit run read as an unsigned 8-bit value,
/// any value above 255 failing the field.
pub open spec fn spec_parse_octet(s: Seq<char>, i: int) -> PRes<u8> {
    let e = spec_digits_end(s, i);
    let v = digits_val(s.subrange(i, e));
    if e == i {
        PRes::Failed { kind: ErrorKind::Token, at: i }
    } else if v > 255 {
        PRes::Failed { kind: ErrorKind::Format, at: i }
    } else {
        PRes::Parsed { v: v as u8, next: e }
    }
}

fn parse_octet(s: &str, i: usize) -> (r: Result<(u8, usize), ParseError>)
    requires
        i as int <= s@.len(),
    ensures
        (match r {
            Ok((v, j)) => res_ok(spec_parse_octet(s@, i as int), v, j as int) && i < j
                <= s@.len(),
            Err(e) => res_err(spec_parse_octet(s@, i as int), e.kind, e.at as int),
        }),
{
    let e = scan_digits(s, i);
    if e == i {
        return Err(ParseError { kind: ErrorKind::Token, at: i });
    }
    match digits_to_u64(s, i, e) {
        None => Err(ParseError { kind: ErrorKind::Format, at: i }),
        Some(v) => {
            if v > 255 {
                Err(ParseError { kind: ErrorKind::Format, at: i })
            } else {
                Ok((v as u8, e))
            }
        },
    }
}

/// Parse the IPv4 address: four octets separated by dots, then the run
/// of spaces after the field.
pub open spec fn spec_parse_ip(s: Seq<char>, i: int) -> PRes<Ipv4> {
    match spec_parse_octet(s, i) {
        PRes::Failed { kind, at } => PRes::Failed { kind, at },
        PRes::Parsed { v: a, next: p1 } => if !(p1 < s.len() && s[p1] == '.') {
            PRes::Failed { kind: ErrorKind::Token, at: p1 }
        } else {
            match spec_parse_octet(s, p1 + 1) {
                PRes::Failed { kind, at } => PRes::Failed { kind, at },
                PRes::Parsed { v: b, next: p2 } => if !(p2 < s.len() && s[p2] == '.') {
                    PRes::Failed { kind: ErrorKind::Token, at: p2 }
                } else {
                    match spec_parse_octet(s, p2 + 1) {
                        PRes::Failed { kind, at } => PRes::Failed { kind, at },
                        PRes::Parsed { v: c, next: p3 } => if !(p3 < s.len() && s[p3] == '.') {
                            PRes::Failed { kind: ErrorKind::Token, at: p3 }
                        } else {
                            match spec_parse_octet(s, p3 + 1) {
                                PRes::Failed { kind, at } => PRes::Failed { kind, at },
                                PRes::Parsed { v: d, next: p4 } => PRes::Parsed {
                                    v: Ipv4 { a, b, c, d },
                                    next: spec_skip_spaces(s, p4),
                                },
                            }
                        },
                    }
                },
            }
        },
    }
}

/// Parse the IPv4 address field at offset `i`.
pub fn parse_ip(s: &str, i: usize) -> (r: Result<(Ipv4, usize), ParseError>)
    requires
        i as int <= s@.len(),
    ensures
        (match r {
            Ok((v, j)) => res_ok(spec_parse_ip(s@, i as int), v, j as int) && i < j <= s@.len(),
            Err(e) => res_err(spec_parse_ip(s@, i as int), e.kind, e.at as int),
        }),
{
    let (a, p1) = match parse_octet(s, i) {
        Ok(x) => x,
        Err(e) => {
            return Err(e);
        },
    };
    if !char_at_is(s, p1, '.') {
        return Err(ParseError { kind: ErrorKind::Token, at: p1 });
    }
    let (b, p2) = match parse_octet(s, p1 + 1) {
        Ok(x) => x,
        Err(e) => {
            return Err(e);
        },
    };
    if !char_at_is(s, p2, '.') {
        return Err(ParseError { kind: ErrorKind::Token, at: p2 });
    }
    let (c, p3) = match parse_octet(s, p2 + 1) {
        Ok(x) => x,
        Err(e) => {
            return Err(e);
        },
    };
    if !char_at_is(s, p3, '.') {
        return Err(ParseError { kind: ErrorKind::Token, at: p3 });
    }
    let (d, p4) = match parse_octet(s, p3 + 1) {
        Ok(x) => x,
        Err(e) => {
            return Err(e);
        },
    };
    let j = skip_spaces(s, p4);
    Ok((Ipv4 { a, b, c, d }, j))
}

/// Parse the two ignored identity fields, matched as one fixed literal.
pub open spec fn spec_parse_ignore(s: Seq<char>, i: int) -> PRes<()> {
    if spec_has_lit(s, i, "- - "@) {
        PRes::Parsed { v: (), next: i + 4 }
    } else {
        PRes::Failed { kind: ErrorKind::Token, at: i }
    }
}

/// Match the ignored identity fields at offset `i`.
pub fn parse_ignore(s: &str, i: usize) -> (r: Result<usize, ParseError>)
    requires
        i as int <= s@.len(),
    ensures
        (match r {
            Ok(j) => res_ok(spec_parse_ignore(s@, i as int), (), j as int) && i < j <= s@.len(),
            Err(e) => res_err(spec_parse_ignore(s@, i as int), e.kind, e.at as int),
        }),
{
    proof {
        reveal_strlit("- - ");
    }
    if match_lit(s, i, "- - ") {
        Ok(i + 4)
    } else {
        Err(ParseError { kind: ErrorKind::Token, at: i })
    }
}

proof fn lemma_two_digit_bound(s: Seq<char>, a: int)
    requires
        0 <= a,
        a + 2 <= s.len(),
        is_digit_char(s[a]),
        is_digit_char(s[a + 1]),
    ensures
        0 <= digits_val(s.subrange(a, a + 2)) <= 99,
{
    let t2 = s.subrange(a, a + 2);
    let t1 = s.subrange(a, a + 1);
    let t0 = s.subrange(a, a);
    assert(t2.drop_last() =~= t1);
    assert(t1.drop_last() =~= t0);
    assert(t0 =~= Seq::<char>::empty());
    assert(digits_val(t0) == 0);
    assert(t1.last() == s[a]);
    assert(t2.last() == s[a + 1]);
    assert(digits_val(t1) == digits_val(t0) * 10 + digit_val(s[a]));
    assert(digits_val(t2) == digits_val(t1) * 10 + digit_val(s[a + 1]));
    assert(0 <= digit_val(s[a]) <= 9);
    assert(0 <= digit_val(s[a + 1]) <= 9);
}

/// Parse the bracketed timestamp: `[day/MonthAbbrev/Year:H:M:S +ZZZZ]`,
/// converted to the UTC epoch second of the described instant, then the
/// run of spaces after the field. A malformed interior is a token or
/// format failure; out-of-range calendar components fail through the
/// calendar conversion.
pub open spec fn spec_parse_datetime(s: Seq<char>, i: int) -> PRes<int>
    recommends
        0 <= i <= s.len(),
{
    if !(i < s.len() && s[i] == '[') {
        PRes::Failed { kind: ErrorKind::Token, at: i }
    } else {
        let close = spec_find_char(s, i + 1, ']');
        if close >= s.len() {
            PRes::Failed { kind: ErrorKind::Token, at: close }
        } else {
            let d_end = spec_digits_end(s, i + 1);
            let day = digits_val(s.subrange(i + 1, d_end));
            if d_end == i + 1 {
                PRes::Failed { kind: ErrorKind::Token, at: i + 1 }
            } else if day > u32::MAX as int {
                PRes::Failed { kind: ErrorKind::Format, at: i + 1 }
            } else if !(d_end < s.len() && s[d_end] == '/') {
                PRes::Failed { kind: ErrorKind::Token, at: d_end }
            } else {
                match spec_month_at(s, d_end + 1) {
                    None => PRes::Failed { kind: ErrorKind::Format, at: d_end + 1 },
                    Some(month) => spec_parse_datetime_tail(s, i, close, day, month, d_end + 4),
                }
            }
        }
    }
}

/// The timestamp interior after the month abbreviation: `/Year:H:M:S`,
/// then the signed four-digit zone offset, which must end the interior.
pub open spec fn spec_parse_datetime_tail(
    s: Seq<char>,
    i: int,
    close: int,
    day: int,
    month: int,
    slash2: int,
) -> PRes<int>
    recommends
        0 <= i,
        i < close < s.len(),
{
    if !(slash2 < s.len() && s[slash2] == '/') {
        PRes::Failed { kind: ErrorKind::Token, at: slash2 }
    } else {
        let y_end = spec_digits_end(s, slash2 + 1);
        let year = digits_val(s.subrange(slash2 + 1, y_end));
        if y_end == slash2 + 1 {
            PRes::Failed { kind: ErrorKind::Token, at: slash2 + 1 }
        } else if year > i32::MAX as int {
            PRes::Failed { kind: ErrorKind::Format, at: slash2 + 1 }
        } else if !(y_end < s.len() && s[y_end] == ':') {
            PRes::Failed { kind: ErrorKind::Token, at: y_end }
        } else {
            let h_end = spec_digits_end(s, y_end + 1);
            let hour = digits_val(s.subrange(y_end + 1, h_end));
            if h_end == y_end + 1 {
                PRes::Failed { kind: ErrorKind::Token, at: y_end + 1 }
            } else if hour > u32::MAX as int {
                PRes::Failed { kind: ErrorKind::Format, at: y_end + 1 }
            } else if !(h_end < s.len() && s[h_end] == ':') {
                PRes::Failed { kind: ErrorKind::Token, at: h_end }
            } else {
                let mi_end = spec_digits_end(s, h_end + 1);
                let minute = digits_val(s.subrange(h_end + 1, mi_end));
                if mi_end == h_end + 1 {
                    PRes::Failed { kind: ErrorKind::Token, at: h_end + 1 }
                } else if minute > u32::MAX as int {
                    PRes::Failed { kind: ErrorKind::Format, at: h_end + 1 }
                } else if !(mi_end < s.len() && s[mi_end] == ':') {
                    PRes::Failed { kind: ErrorKind::Token, at: mi_end }
                } else {
                    let sec_end = spec_digits_end(s, mi_end + 1);
                    let second = digits_val(s.subrange(mi_end + 1, sec_end));
                    if sec_end == mi_end + 1 {
                        PRes::Failed { kind: ErrorKind::Token, at: mi_end + 1 }
                    } else if second > u32::MAX as int {
                        PRes::Failed { kind: ErrorKind::Format, at: mi_end + 1 }
                    } else if !(sec_end < s.len() && s[sec_end] == ' ') {
                        PRes::Failed { kind: ErrorKind::Token, at: sec_end }
                    } else if !(sec_end + 1 < s.len() && (s[sec_end + 1] == '+' || s[sec_end + 1]
                        == '-')) {
                        PRes::Failed { kind: ErrorKind::Token, at: sec_end + 1 }
                    } else {
                        let os = sec_end + 2;
                        let o_end = spec_digits_end(s, os);
                        if o_end - os != 4 {
                            PRes::Failed { kind: ErrorKind::Format, at: os }
                        } else if o_end != close {
                            PRes::Failed { kind: ErrorKind::Format, at: o_end }
                        } else {
                            let hh = digits_val(s.subrange(os, os + 2));
                            let mm = digits_val(s.subrange(os + 2, os + 4));
                            let off = if s[sec_end + 1] == '-' {
                                -(hh * 3600 + mm * 60)
                            } else {
                                hh * 3600 + mm * 60
                            };
                            match utc_epoch_of(year, month, day, hour, minute, second, off) {
                                None => PRes::Failed { kind: ErrorKind::Format, at: i + 1 },
                                Some(t) => PRes::Parsed {
                                    v: t,
                                    next: spec_skip_spaces(s, close + 1),
                                },
                            }
                        }
                    }
                }
            }
        }
    }
}

/// Parse the timestamp field at offset `i`, yielding the UTC epoch
/// second of the bracketed instant.
pub fn parse_datetime(s: &str, i: usize) -> (r: Result<(i64, usize), ParseError>)
    requires
        i as int <= s@.len(),
    ensures
        (match r {
            Ok((t, j)) => res_ok(spec_parse_datetime(s@, i as int), t as int, j as int) && i < j
                <= s@.len(),
            Err(e) => res_err(spec_parse_datetime(s@, i as int), e.kind, e.at as int),
        }),
{
    if !char_at_is(s, i, '[') {
        return Err(ParseError { kind: ErrorKind::Token, at: i });
    }
    let close = find_char(s, i + 1, ']');
    if close >= s.unicode_len() {
        return Err(ParseError { kind: ErrorKind::Token, at: close });
    }
    let d_end = scan_digits(s, i + 1);
    if d_end == i + 1 {
        return Err(ParseError { kind: ErrorKind::Token, at: i + 1 });
    }
    let day = match digits_to_u64(s, i + 1, d_end) {
        None => {
            return Err(ParseError { kind: ErrorKind::Format, at: i + 1 });
        },
        Some(v) => {
            if v > u32::MAX as u64 {
                return Err(ParseError { kind: ErrorKind::Format, at: i + 1 });
            }
            v as u32
        },
    };
    if !char_at_is(s, d_end, '/') {
        return Err(ParseError { kind: ErrorKind::Token, at: d_end });
    }
    let month = match month_at(s, d_end + 1) {
        None => {
            return Err(ParseError { kind: ErrorKind::Format, at: d_end + 1 });
        },
        Some(m) => m,
    };
    parse_datetime_tail(s, i, close, day, month, d_end + 4)
}

#[verifier::rlimit(100)]
fn parse_datetime_tail(
    s: &str,
    i: usize,
    close: usize,
    day: u32,
    month: u32,
    slash2: usize,
) -> (r: Result<(i64, usize), ParseError>)
    requires
        i as int <= s@.len(),
        i < close < s@.len(),
        slash2 as int <= s@.len(),
    ensures
        (match r {
            Ok((t, j)) => res_ok(
                spec_parse_datetime_tail(
                    s@,
                    i as int,
                    close as int,
                    day as int,
                    month as int,
                    slash2 as int,
                ),
                t as int,
                j as int,
            ) && i < j <= s@.len(),
            Err(e) => res_err(
                spec_parse_datetime_tail(
                    s@,
                    i as int,
                    close as int,
                    day as int,
                    month as int,
                    slash2 as int,
                ),
                e.kind,
                e.at as int,
            ),
        }),
{
    if !char_at_is(s, slash2, '/') {
        return Err(ParseError { kind: ErrorKind::Token, at: slash2 });
    }
    let y_end = scan_digits(s, slash2 + 1);
    if y_end == slash2 + 1 {
        return Err(ParseError { kind: ErrorKind::Token, at: slash2 + 1 });
    }
    let year = match digits_to_u64(s, slash2 + 1, y_end) {
        None => {
            return Err(ParseError { kind: ErrorKind::Format, at: slash2 + 1 });
        },
        Some(v) => {
            if v > i32::MAX as u64 {
                return Err(ParseError { kind: ErrorKind::Format, at: slash2 + 1 });
            }
            v as i32
        },
    };
    if !char_at_is(s, y_end, ':') {
        return Err(ParseError { kind: ErrorKind::Token, at: y_end });
    }
    let h_end = scan_digits(s, y_end + 1);
    if h_end == y_end + 1 {
        return Err(ParseError { kind: ErrorKind::Token, at: y_end + 1 });
    }
    let hour = match digits_to_u64(s, y_end + 1, h_end) {
        None => {
            return Err(ParseError { kind: ErrorKind::Format, at: y_end + 1 });
        },
        Some(v) => {
            if v > u32::MAX as u64 {
                return Err(ParseError { kind: ErrorKind::Format, at: y_end + 1 });
            }
            v as u32
        },
    };
    if !char_at_is(s, h_end, ':') {
        return Err(ParseError { kind: ErrorKind::Token, at: h_end });
    }
    let mi_end = scan_digits(s, h_end + 1);
    if mi_end == h_end + 1 {
        return Err(ParseError { kind: ErrorKind::Token, at: h_end + 1 });
    }
    let minute = match digits_to_u64(s, h_end + 1, mi_end) {
        None => {
            return Err(ParseError { kind: ErrorKind::Format, at: h_end + 1 });
        },
        Some(v) => {
            if v > u32::MAX as u64 {
                return Err(ParseError { kind: ErrorKind::Format, at: h_end + 1 });
            }
            v as u32
        },
    };
    if !char_at_is(s, mi_end, ':') {
        return Err(ParseError { kind: ErrorKind::Token, at: mi_end });
    }
    let sec_end = scan_digits(s, mi_end + 1);
    if sec_end == mi_end + 1 {
        return Err(ParseError { kind: ErrorKind::Token, at: mi_end + 1 });
    }
    let second = match digits_to_u64(s, mi_end + 1, sec_end) {
        None => {
            return Err(ParseError { kind: ErrorKind::Format, at: mi_end + 1 });
        },
        Some(v) => {
            if v > u32::MAX as u64 {
                return Err(ParseError { kind: ErrorKind::Format, at: mi_end + 1 });
            }
            v as u32
        },
    };
    if !char_at_is(s, sec_end, ' ') {
        return Err(ParseError { kind: ErrorKind::Token, at: sec_end });
    }
    let plus = char_at_is(s, sec_end + 1, '+');
    let minus = char_at_is(s, sec_end + 1, '-');
    if !(plus || minus) {
        return Err(ParseError { kind: ErrorKind::Token, at: sec_end + 1 });
    }
    let os = sec_end + 2;
    let o_end = scan_digits(s, os);
    if o_end - os != 4 {
        return Err(ParseError { kind: ErrorKind::Format, at: os });
    }
    if o_end != close {
        return Err(ParseError { kind: ErrorKind::Format, at: o_end });
    }
    proof {
        lemma_two_digit_bound(s@, os as int);
        lemma_two_digit_bound(s@, os as int + 2);
    }
    let hh = match digits_to_u64(s, os, os + 2) {
        None => {
            proof {
                assert(false);
            }
            return Err(ParseError { kind: ErrorKind::Format, at: os });
        },
        Some(v) => v,
    };
    let mm = match digits_to_u64(s, os + 2, os + 4) {
        None => {
            proof {
                assert(false);
            }
            return Err(ParseError { kind: ErrorKind::Format, at: os });
        },
        Some(v) => v,
    };
    let off_abs: i64 = (hh as i64) * 3600 + (mm as i64) * 60;
    let off: i32 = if minus {
        -(off_abs as i32)
    } else {
        off_abs as i32
    };
    match civil_to_epoch(year, month, day, hour, minute, second, off) {
        None => Err(ParseError { kind: ErrorKind::Format, at: i + 1 }),
        Some(t) => {
            let j = skip_spaces(s, close + 1);
            Ok((t, j))
        },
    }
}

/// Parse a digit run as an unsigned 16-bit value, then the spaces after
/// it; a value that does not fit is a format failure.
pub open spec fn spec_parse_u16(s: Seq<char>, i: int) -> PRes<u16> {
    let e = spec_digits_end(s, i);
    let v = digits_val(s.subrange(i, e));
    if e == i {
        PRes::Failed { kind: ErrorKind::Token, at: i }
    } else if v > u16::MAX as int {
        PRes::Failed { kind: ErrorKind::Format, at: i }
    } else {
        PRes::Parsed { v: v as u16, next: spec_skip_spaces(s, e) }
    }
}

/// Parse a digit run as an unsigned 64-bit value, then the spaces after
/// it; a value that does not fit is a format failure.
pub open spec fn spec_parse_u64(s: Seq<char>, i: int) -> PRes<u64> {
    let e = spec_digits_end(s, i);
    let v = digits_val(s.subrange(i, e));
    if e == i {
        PRes::Failed { kind: ErrorKind::Token, at: i }
    } else if v > u64::MAX as int {
        PRes::Failed { kind: ErrorKind::Format, at: i }
    } else {
        PRes::Parsed { v: v as u64, next: spec_skip_spaces(s, e) }
    }
}

/// Parse the status-code field at offset `i`.
pub fn parse_status(s: &str, i: usize) -> (r: Result<(u16, usize), ParseError>)
    requires
        i as int <= s@.len(),
    ensures
        (match r {
            Ok((v, j)) => res_ok(spec_parse_u16(s@, i as int), v, j as int) && i < j <= s@.len(),
            Err(e) => res_err(spec_parse_u16(s@, i as int), e.kind, e.at as int),
        }),
{
    let e = scan_digits(s, i);
    if e == i {
        return Err(ParseError { kind: ErrorKind::Token, at: i });
    }
    match digits_to_u64(s, i, e) {
        None => Err(ParseError { kind: ErrorKind::Format, at: i }),
        Some(v) => {
            if v > u16::MAX as u64 {
                Err(ParseError { kind: ErrorKind::Format, at: i })
            } else {
                let j = skip_spaces(s, e);
                Ok((v as u16, j))
            }
        },
    }
}

/// Parse the response-size field at offset `i`.
pub fn parse_body_bytes(s: &str, i: usize) -> (r: Result<(u64, usize), ParseError>)
    requires
        i as int <= s@.len(),
    ensures
        (match r {
            Ok((v, j)) => res_ok(spec_parse_u64(s@, i as int), v, j as int) && i < j <= s@.len(),
            Err(e) => res_err(spec_parse_u64(s@, i as int), e.kind, e.at as int),
        }),
{
    let e = scan_digits(s, i);
    if e == i {
        return Err(ParseError { kind: ErrorKind::Token, at: i });
    }
    match digits_to_u64(s, i, e) {
        None => Err(ParseError { kind: ErrorKind::Format, at: i }),
        Some(v) => {
            let j = skip_spaces(s, e);
            Ok((v, j))
        },
    }
}

/// Parse a quoted field of at least one character, with no escape
/// interpretation, then the spaces after it.
pub open spec fn spec_parse_quoted(s: Seq<char>, i: int) -> PRes<Seq<char>> {
    if !(i < s.len() && s[i] == '"') {
        PRes::Failed { kind: ErrorKind::Token, at: i }
    } else {
        let j = spec_find_char(s, i + 1, '"');
        if j >= s.len() || j == i + 1 {
            PRes::Failed { kind: ErrorKind::Token, at: i + 1 }
        } else {
            PRes::Parsed { v: s.subrange(i + 1, j), next: spec_skip_spaces(s, j + 1) }
        }
    }
}

/// Parse a quoted field (referer or user agent) at offset `i`.
pub fn parse_quoted_string(s: &str, i: usize) -> (r: Result<(String, usize), ParseError>)
    requires
        i as int <= s@.len(),
    ensures
        (match r {
            Ok((v, j)) => res_ok(spec_parse_quoted(s@, i as int), v@, j as int) && i < j
                <= s@.len(),
            Err(e) => res_err(spec_parse_quoted(s@, i as int), e.kind, e.at as int),
        }),
{
    if !char_at_is(s, i, '"') {
        return Err(ParseError { kind: ErrorKind::Token, at: i });
    }
    let j = find_char(s, i + 1, '"');
    if j >= s.unicode_len() || j == i + 1 {
        return Err(ParseError { kind: ErrorKind::Token, at: i + 1 });
    }
    let content = take_range(s, i + 1, j);
    let next = skip_spaces(s, j + 1);
    Ok((content, next))
}

/// Parse the request verb: the token before the next space or quote,
/// converted exhaustively, then the spaces after it. An unrecognized
/// verb is a conversion failure, distinct from a token mismatch.
pub open spec fn spec_parse_http_method(s: Seq<char>, i: int) -> PRes<HttpMethod> {
    let e = spec_token_end(s, i);
    if e == i {
        PRes::Failed { kind: ErrorKind::Token, at: i }
    } else {
        match spec_method_of(s.subrange(i, e)) {
            None => PRes::Failed { kind: ErrorKind::Conversion, at: i },
            Some(m) => PRes::Parsed { v: m, next: spec_skip_spaces(s, e) },
        }
    }
}

/// Parse the request verb at offset `i`.
pub fn parse_http_method(s: &str, i: usize) -> (r: Result<(HttpMethod, usize), ParseError>)
    requires
        i as int <= s@.len(),
    ensures
        (match r {
            Ok((v, j)) => res_ok(spec_parse_http_method(s@, i as int), v, j as int) && i < j
                <= s@.len(),
            Err(e) => res_err(spec_parse_http_method(s@, i as int), e.kind, e.at as int),
        }),
{
    let e = scan_token(s, i);
    if e == i {
        return Err(ParseError { kind: ErrorKind::Token, at: i });
    }
    let tok = take_range(s, i, e);
    match HttpMethod::from_str(tok.as_str()) {
        None => Err(ParseError { kind: ErrorKind::Conversion, at: i }),
        Some(m) => {
            let j = skip_spaces(s, e);
            Ok((m, j))
        },
    }
}

/// Parse the request path: a run of at least one non-space character,
/// then the spaces after it.
pub open spec fn spec_parse_url(s: Seq<char>, i: int) -> PRes<Seq<char>> {
    let e = spec_find_char(s, i, ' ');
    if e == i {
        PRes::Failed { kind: ErrorKind::Token, at: i }
    } else {
        PRes::Parsed { v: s.subrange(i, e), next: spec_skip_spaces(s, e) }
    }
}

/// Parse the request path at offset `i`.
pub fn parse_url(s: &str, i: usize) -> (r: Result<(String, usize), ParseError>)
    requires
        i as int <= s@.len(),
    ensures
        (match r {
            Ok((v, j)) => res_ok(spec_parse_url(s@, i as int), v@, j as int) && i < j
                <= s@.len(),
            Err(e) => res_err(spec_parse_url(s@, i as int), e.kind, e.at as int),
        }),
{
    let e = find_char(s, i, ' ');
    if e == i {
        return Err(ParseError { kind: ErrorKind::Token, at: i });
    }
    let path = take_range(s, i, e);
    let j = skip_spaces(s, e);
    Ok((path, j))
}

/// Parse the protocol token, converted exhaustively, then the spaces
/// after it. An unrecognized protocol is a conversion failure.
pub open spec fn spec_parse_http_version(s: Seq<char>, i: int) -> PRes<HttpVersion> {
    let e = spec_token_end(s, i);
    if e == i {
        PRes::Failed { kind: ErrorKind::Token, at: i }
    } else {
        match spec_version_of(s.subrange(i, e)) {
            None => PRes::Failed { kind: ErrorKind::Conversion, at: i },
            Some(v) => PRes::Parsed { v, next: spec_skip_spaces(s, e) },
        }
    }
}

/// Parse the protocol token at offset `i`.
pub fn parse_http_version(s: &str, i: usize) -> (r: Result<(HttpVersion, usize), ParseError>)
    requires
        i as int <= s@.len(),
    ensures
        (match r {
            Ok((v, j)) => res_ok(spec_parse_http_version(s@, i as int), v, j as int) && i < j
                <= s@.len(),
            Err(e) => res_err(spec_parse_http_version(s@, i as int), e.kind, e.at as int),
        }),
{
    let e = scan_token(s, i);
    if e == i {
        return Err(ParseError { kind: ErrorKind::Token, at: i });
    }
    let tok = take_range(s, i, e);
    match HttpVersion::from_str(tok.as_str()) {
        None => Err(ParseError { kind: ErrorKind::Conversion, at: i }),
        Some(v) => {
            let j = skip_spaces(s, e);
            Ok((v, j))
        },
    }
}

/// Parse the quoted request line: verb, path and protocol between one
/// pair of quotes, then the spaces after the closing quote.
pub open spec fn spec_parse_http(s: Seq<char>, i: int) -> PRes<(HttpMethod, Seq<char>, HttpVersion)>
    recommends
        0 <= i <= s.len(),
{
    if !(i < s.len() && s[i] == '"') {
        PRes::Failed { kind: ErrorKind::Token, at: i }
    } else {
        match spec_parse_http_method(s, i + 1) {
            PRes::Failed { kind, at } => PRes::Failed { kind, at },
            PRes::Parsed { v: method, next: q1 } => match spec_parse_url(s, q1) {
                PRes::Failed { kind, at } => PRes::Failed { kind, at },
                PRes::Parsed { v: path, next: q2 } => match spec_parse_http_version(s, q2) {
                    PRes::Failed { kind, at } => PRes::Failed { kind, at },
                    PRes::Parsed { v: version, next: q3 } => if q3 < s.len() && s[q3] == '"' {
                        PRes::Parsed {
                            v: (method, path, version),
                            next: spec_skip_spaces(s, q3 + 1),
                        }
                    } else {
                        PRes::Failed { kind: ErrorKind::Token, at: q3 }
                    },
                },
            },
        }
    }
}

/// Parse the request line at offset `i`.
pub fn parse_http(s: &str, i: usize) -> (r: Result<
    ((HttpMethod, String, HttpVersion), usize),
    ParseError,
>)
    requires
        i as int <= s@.len(),
    ensures
        (match r {
            Ok(((m, p, v), j)) => res_ok(
                spec_parse_http(s@, i as int),
                (m, p@, v),
                j as int,
            ) && i < j <= s@.len(),
            Err(e) => res_err(spec_parse_http(s@, i as int), e.kind, e.at as int),
        }),
{
    if !char_at_is(s, i, '"') {
        return Err(ParseError { kind: ErrorKind::Token, at: i });
    }
    let (method, q1) = match parse_http_method(s, i + 1) {
        Ok(x) => x,
        Err(e) => {
            return Err(e);
        },
    };
    let (path, q2) = match parse_url(s, q1) {
        Ok(x) => x,
        Err(e) => {
            return Err(e);
        },
    };
    let (version, q3) = match parse_http_version(s, q2) {
        Ok(x) => x,
        Err(e) => {
            return Err(e);
        },
    };
    if !char_at_is(s, q3, '"') {
        return Err(ParseError { kind: ErrorKind::Token, at: q3 });
    }
    let j = skip_spaces(s, q3 + 1);
    Ok(((method, path, version), j))
}

/// Parse one combined log line from the start of the text: every field
/// in strict left-to-right order. The parse is atomic: the first failing
/// field aborts the record, and no partial record is ever produced.
pub open spec fn spec_parse_nginx_log(s: Seq<char>) -> PRes<LogModel> {
    match spec_parse_ip(s, 0) {
        PRes::Failed { kind, at } => PRes::Failed { kind, at },
        PRes::Parsed { v: addr, next: p1 } => match spec_parse_ignore(s, p1) {
            PRes::Failed { kind, at } => PRes::Failed { kind, at },
            PRes::Parsed { v: _, next: p2 } => match spec_parse_datetime(s, p2) {
                PRes::Failed { kind, at } => PRes::Failed { kind, at },
                PRes::Parsed { v: datetime, next: p3 } => match spec_parse_http(s, p3) {
                    PRes::Failed { kind, at } => PRes::Failed { kind, at },
                    PRes::Parsed { v: (method, path, http_version), next: p4 } => match
                        spec_parse_u16(s, p4) {
                        PRes::Failed { kind, at } => PRes::Failed { kind, at },
                        PRes::Parsed { v: status_code, next: p5 } => match spec_parse_u64(
                            s,
                            p5,
                        ) {
                            PRes::Failed { kind, at } => PRes::Failed { kind, at },
                            PRes::Parsed { v: size, next: p6 } => match spec_parse_quoted(
                                s,
                                p6,
                            ) {
                                PRes::Failed { kind, at } => PRes::Failed { kind, at },
                                PRes::Parsed { v: referer, next: p7 } => match spec_parse_quoted(
                                    s,
                                    p7,
                                ) {
                                    PRes::Failed { kind, at } => PRes::Failed { kind, at },
                                    PRes::Parsed { v: user_agent, next: p8 } => PRes::Parsed {
                                        v: LogModel {
                                            addr,
                                            datetime,
                                            method,
                                            path,
                                            http_version,
                                            status_code,
                                            size,
                                            referer,
                                            user_agent,
                                        },
                                        next: p8,
                                    },
                                },
                            },
                        },
                    },
                },
            },
        },
    }
}

/// Parse one complete combined log line. Text after the user agent's
/// trailing spaces is left unread.
pub fn parse_nginx_log(s: &str) -> (r: Result<NginxLog, ParseError>)
    ensures
        (match r {
            Ok(rec) => (match spec_parse_nginx_log(s@) {
                PRes::Parsed { v, .. } => rec@ == v,
                PRes::Failed { .. } => false,
            }),
            Err(e) => res_err(spec_parse_nginx_log(s@), e.kind, e.at as int),
        }),
{
    let (addr, p1) = match parse_ip(s, 0) {
        Ok(x) => x,
        Err(e) => {
            return Err(e);
        },
    };
    let p2 = match parse_ignore(s, p1) {
        Ok(x) => x,
        Err(e) => {
            return Err(e);
        },
    };
    let (datetime, p3) = match parse_datetime(s, p2) {
        Ok(x) => x,
        Err(e) => {
            return Err(e);
        },
    };
    let ((method, path, http_version), p4) = match parse_http(s, p3) {
        Ok(x) => x,
        Err(e) => {
            return Err(e);
        },
    };
    let (status_code, p5) = match parse_status(s, p4) {
        Ok(x) => x,
        Err(e) => {
            return Err(e);
        },
    };
    let (size, p6) = match parse_body_bytes(s, p5) {
        Ok(x) => x,
        Err(e) => {
            return Err(e);
        },
    };
    let (referer, p7) = match parse_quoted_string(s, p6) {
        Ok(x) => x,
        Err(e) => {
            return Err(e);
        },
    };
    let (user_agent, _p8) = match parse_quoted_string(s, p7) {
        Ok(x) => x,
        Err(e) => {
            return Err(e);
        },
    };
    Ok(NginxLog {
        addr,
        datetime,
        method,
        path,
        http_version,
        status_code,
        size,
        referer,
        user_agent,
    })
}

} // verus!
