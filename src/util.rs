//! Timestamps: the instants that post identifiers name, and the clock.
use vstd::prelude::*;

verus! {

/// An instant with the UTC offset it was written in: seconds since the Unix
/// epoch, nanoseconds within that second, and the offset in seconds east of
/// UTC. Instants are ordered by `secs` and `nanos`; the offset only affects
/// how an instant is displayed.
#[derive(Debug, Clone, Copy, PartialEq, Eq)]
pub struct Moment {
    pub secs: i64,
    pub nanos: u32,
    pub offset: i32,
}

/// `a` is strictly earlier than `b`.
pub open spec fn earlier(a: Moment, b: Moment) -> bool {
    a.secs < b.secs || (a.secs == b.secs && a.nanos < b.nanos)
}

/// `a` and `b` name the same instant.
pub open spec fn same_instant(a: Moment, b: Moment) -> bool {
    a.secs == b.secs && a.nanos == b.nanos
}

/// Whether `a` comes strictly before `b`.
pub fn is_earlier(a: Moment, b: Moment) -> (r: bool)
    ensures
        r == earlier(a, b),
{
    a.secs < b.secs || (a.secs == b.secs && a.nanos < b.nanos)
}

/// An optional time; "no time" is earlier than every time.
pub open spec fn opt_earlier(a: Option<Moment>, b: Option<Moment>) -> bool {
    match (a, b) {
        (Some(x), Some(y)) => earlier(x, y),
        (None, Some(_)) => true,
        _ => false,
    }
}

pub fn opt_is_earlier(a: Option<Moment>, b: Option<Moment>) -> (r: bool)
    ensures
        r == opt_earlier(a, b),
{
    match (a, b) {
        (Some(x), Some(y)) => is_earlier(x, y),
        (None, Some(_)) => true,
        _ => false,
    }
}

/// The later of two optional times (the first when they name the same instant).
pub open spec fn later_of(a: Option<Moment>, b: Option<Moment>) -> Option<Moment> {
    if opt_earlier(a, b) {
        b
    } else {
        a
    }
}

/// The instant an RFC 3339 date-time names.
pub uninterp spec fn rfc3339_moment(s: Seq<char>) -> Option<Moment>;

/// The instant a `YYYY-MM-DDTHH:MM:SS±HHMM` date-time names.
pub uninterp spec fn compact_moment(s: Seq<char>) -> Option<Moment>;

/// `%Y-%m-%d %H:%M` of an instant, written in its own offset.
pub uninterp spec fn minute_text(m: Moment) -> Option<Seq<char>>;

/// Relies on chrono's `DateTime::parse_from_rfc3339`: the instant and offset
/// of an RFC 3339 date-time, or nothing when `s` is not one.
#[verifier::external_body]
fn parse_rfc3339(s: &str) -> (r: Option<Moment>)
    ensures
        r == rfc3339_moment(s@),
{
    match chrono::DateTime::parse_from_rfc3339(s) {
        Ok(d) => Some(
            Moment {
                secs: d.timestamp(),
                nanos: d.timestamp_subsec_nanos(),
                offset: d.offset().local_minus_utc(),
            },
        ),
        Err(_) => None,
    }
}

/// Relies on chrono's `DateTime::parse_from_str` with the pattern
/// `%Y-%m-%dT%H:%M:%S%z`.
#[verifier::external_body]
fn parse_compact(s: &str) -> (r: Option<Moment>)
    ensures
        r == compact_moment(s@),
{
    match chrono::DateTime::parse_from_str(s, "%Y-%m-%dT%H:%M:%S%z") {
        Ok(d) => Some(
            Moment {
                secs: d.timestamp(),
                nanos: d.timestamp_subsec_nanos(),
                offset: d.offset().local_minus_utc(),
            },
        ),
        Err(_) => None,
    }
}

/// Relies on chrono's `DelayedFormat` for `%Y-%m-%d %H:%M`, applied to the
/// instant shown in its own offset.
#[verifier::external_body]
pub(crate) fn format_minutes(m: Moment) -> (r: Option<String>)
    ensures
        opt_string_view(r) == minute_text(m),
{
    let off = chrono::FixedOffset::east_opt(m.offset)?;
    let d = chrono::DateTime::from_timestamp(m.secs, m.nanos)?;
    Some(d.with_timezone(&off).format("%Y-%m-%d %H:%M").to_string())
}

/// Relies on chrono's `Utc::now`: the current instant, whatever it is.
#[verifier::external_body]
pub(crate) fn now_moment() -> (r: Moment)
    ensures
        r.offset == 0,
{
    let d = chrono::Utc::now();
    Moment { secs: d.timestamp(), nanos: d.timestamp_subsec_nanos(), offset: 0 }
}

/// Relies on chrono's `Local::now` and `to_rfc3339`: the current local time as
/// RFC 3339 text, whatever it is.
#[verifier::external_body]
pub fn get_current_timestamp() -> (r: String) {
    let now: chrono::DateTime<chrono::FixedOffset> = chrono::Local::now().into();
    now.to_rfc3339()
}

pub open spec fn opt_string_view(o: Option<String>) -> Option<Seq<char>> {
    match o {
        Some(s) => Some(s@),
        None => None,
    }
}

/// The instant a timestamp names: RFC 3339 first, then the compact
/// `YYYY-MM-DDTHH:MM:SS±HHMM` form.
pub open spec fn moment_of(s: Seq<char>) -> Option<Moment> {
    match rfc3339_moment(s) {
        Some(m) => Some(m),
        None => compact_moment(s),
    }
}

/// Reads a timestamp in either accepted form.
pub fn parse_timestamp(s: &str) -> (r: Option<Moment>)
    ensures
        r == moment_of(s@),
{
    match parse_rfc3339(s) {
        Some(m) => Some(m),
        None => parse_compact(s),
    }
}

} // verus!
