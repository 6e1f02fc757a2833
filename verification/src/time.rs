//! Points in time (seconds and nanoseconds since the Unix epoch) and the
//! clock.

use vstd::prelude::*;

verus! {

/// A point in time: seconds since 1970-01-01T00:00:00Z and the nanoseconds
/// past that second.
#[derive(Clone, Copy, Debug, PartialEq, Eq, Structural)]
pub struct Timestamp {
    pub secs: i64,
    pub nanos: u32,
}

/// The point in time in nanoseconds since the epoch.
pub open spec fn nanos_of(t: Timestamp) -> int {
    t.secs * 1_000_000_000 + t.nanos
}

/// `t` is later than `u`: seconds first, then nanoseconds (the order of
/// `DateTime<Utc>`).
pub open spec fn later(t: Timestamp, u: Timestamp) -> bool {
    t.secs > u.secs || (t.secs == u.secs && t.nanos > u.nanos)
}

/// Whether `t` is later than `u`.
pub fn is_later(t: Timestamp, u: Timestamp) -> (b: bool)
    ensures
        b == later(t, u),
{
    t.secs > u.secs || (t.secs == u.secs && t.nanos > u.nanos)
}

/// `chrono::Utc::now()`: the current time of the system clock. It is not
/// before the epoch (the call panics otherwise) and its nanoseconds are
/// below one second; nothing else is stated of it.
#[verifier::external_body]
pub(crate) fn now() -> (t: Timestamp)
    ensures
        t.secs >= 0,
        t.nanos < 1_000_000_000,
{
    let d = chrono::Utc::now();
    Timestamp { secs: d.timestamp(), nanos: d.timestamp_subsec_nanos() }
}

/// A format made of text and the fields `%Y`, `%m`, `%d`, `%H`, `%M`, `%S`
/// (year, month, day, hour, minute, second).
pub open spec fn simple_format(f: Seq<char>) -> bool {
    forall|i: int|
        0 <= i < f.len() && #[trigger] f[i] == '%' ==> i + 1 < f.len() && (f[i + 1] == 'Y' || f[i
            + 1] == 'm' || f[i + 1] == 'd' || f[i + 1] == 'H' || f[i + 1] == 'M' || f[i + 1] == 'S')
}

/// The format of the time of writing shown on a page.
pub open spec fn date_format() -> Seq<char> {
    "%Y-%m-%d %H:%M:%S"@
}

/// A decimal digit.
pub open spec fn is_digit(c: char) -> bool {
    '0' <= c && c <= '9'
}

/// Text shaped `dddd-dd-dd dd:dd:dd`.
pub open spec fn date_time_shape(s: Seq<char>) -> bool {
    &&& s.len() == 19
    &&& forall|i: int|
        0 <= i < 19 ==> if i == 4 || i == 7 {
            #[trigger] s[i] == '-'
        } else if i == 10 {
            s[i] == ' '
        } else if i == 13 || i == 16 {
            s[i] == ':'
        } else {
            is_digit(s[i])
        }
}

/// A point in time from the year 1 to the year 9998 (UTC), with its
/// nanoseconds below one second: in any time zone its local date has a
/// four-digit year.
pub open spec fn local_formattable(t: Timestamp) -> bool {
    -62_135_596_800 <= t.secs < 253_370_764_800 && t.nanos < 1_000_000_000
}

/// `chrono::DateTime::from_timestamp` turned into the machine's local time
/// (`DateTime<Local>::from`) and written with `format`; `None` when the
/// timestamp is out of chrono's range. The text depends on the machine's
/// time zone, so only its shape is stated: with the page date format and
/// a year that stays between 0 and 9999 in every time zone, it is
/// `dddd-dd-dd dd:dd:dd` (chrono writes `%Y` as four digits for those
/// years and the other fields as two). Which digits is not stated.
#[verifier::external_body]
pub(crate) fn local_time_text(t: Timestamp, format: &str) -> (r: Option<String>)
    requires
        simple_format(format@),
    ensures
        match r {
            Some(s) => format@ == date_format() && local_formattable(t) ==> date_time_shape(s@),
            None => !(format@ == date_format() && local_formattable(t)),
        },
{
    match chrono::DateTime::from_timestamp(t.secs, t.nanos) {
        Some(d) => Some(chrono::DateTime::<chrono::Local>::from(d).format(format).to_string()),
        None => None,
    }
}

/// The RFC 3339 text that chrono writes for the point in time
/// (`DateTime::from_timestamp(secs, nanos)` then `to_rfc3339`), or `None`
/// when the point is outside chrono's range.
pub uninterp spec fn rfc3339_text(secs: i64, nanos: u32) -> Option<Seq<char>>;

/// The point in time that chrono reads from an RFC 3339 text
/// (`DateTime::parse_from_rfc3339`, as seconds and nanoseconds since the
/// epoch), or `None` when the text is not RFC 3339.
pub uninterp spec fn parsed_rfc3339(s: Seq<char>) -> Option<(i64, u32)>;

/// A point in time between the years 0 and 9999 whose nanoseconds are
/// below one second, or below two seconds in the last second of a minute
/// (a leap second): chrono writes it in RFC 3339 with a four-digit year,
/// a leap second as second `60`.
pub open spec fn rfc3339_writable(t: Timestamp) -> bool {
    &&& -62_167_219_200 <= t.secs < 253_402_300_800
    &&& (t.nanos < 1_000_000_000 || (t.nanos < 2_000_000_000 && t.secs % 60 == 59))
}

/// `chrono::DateTime::from_timestamp` followed by `to_rfc3339`. For a
/// writable point in time the text is
/// `YYYY-MM-DDTHH:MM:SS[.fraction]+00:00`, with as many fraction digits as
/// the nanoseconds need (a leap second written as second `60`), and
/// `parse_from_rfc3339` reads the same point back (second `60` as second 59
/// and one more second of nanoseconds).
#[verifier::external_body]
pub(crate) fn to_rfc3339(t: Timestamp) -> (r: Option<String>)
    ensures
        match r {
            Some(s) => {
                &&& rfc3339_text(t.secs, t.nanos) == Some(s@)
                &&& rfc3339_writable(t) ==> parsed_rfc3339(s@) == Some((t.secs, t.nanos))
            },
            None => rfc3339_text(t.secs, t.nanos) is None && !rfc3339_writable(t),
        },
{
    match chrono::DateTime::from_timestamp(t.secs, t.nanos) {
        Some(d) => Some(d.to_rfc3339()),
        None => None,
    }
}

/// `chrono::DateTime::parse_from_rfc3339`, read as seconds and nanoseconds
/// since the epoch.
#[verifier::external_body]
pub(crate) fn parse_rfc3339(s: &str) -> (r: Option<Timestamp>)
    ensures
        match r {
            Some(t) => parsed_rfc3339(s@) == Some((t.secs, t.nanos)),
            None => parsed_rfc3339(s@) is None,
        },
{
    match chrono::DateTime::parse_from_rfc3339(s) {
        Ok(d) => Some(Timestamp { secs: d.timestamp(), nanos: d.timestamp_subsec_nanos() }),
        Err(_) => None,
    }
}

} // verus!
