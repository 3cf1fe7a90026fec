//! Framing the activity query for a time range, and reading its answer: a
//! bracket-wrapped number of seconds.
use vstd::prelude::*;
use crate::decimal::{json_millis, parse_json_millis, sub_bytes};

verus! {

/// The query text before the time period: the AFK bucket's "not-afk" events, summed.
pub const QUERY_PREFIX: &'static str = "{\"query\":[\"afk_events = query_bucket(find_bucket(\\\"aw-watcher-afk_\\\"));\",\"afk_events = filter_keyvals(afk_events, \\\"status\\\", [\\\"not-afk\\\"]);\",\"RETURN = sum_durations(afk_events);\",\";\"],\"timeperiods\":[\"";

/// The query text after the time period.
pub const QUERY_SUFFIX: &'static str = "\"]}";

#[derive(Clone, Copy, Debug, PartialEq, Eq, Structural)]
pub enum QueryError {
    /// The service answered with a status other than 200.
    BadStatus(u16),
    /// The answer is not a bracket-wrapped non-negative number.
    BadBody,
    /// An instant of the range cannot be written as a date.
    BadRange,
}

/// RFC 3339 text of an instant given in Unix seconds.
pub uninterp spec fn rfc3339_text(instant: int) -> Seq<char>;

/// Relies on chrono's `DateTime::from_timestamp` and `DateTime::to_rfc3339`:
/// the RFC 3339 text of an instant, `None` only outside chrono's range
/// (years within 262143 of year 0, which covers every instant within
/// 7_000_000_000_000 s of 1970).
#[verifier::external_body]
fn rfc3339_of(instant: i64) -> (r: Option<String>)
    ensures
        r matches Some(t) ==> t@ == rfc3339_text(instant as int),
        -7_000_000_000_000 <= instant <= 7_000_000_000_000 ==> r is Some,
{
    chrono::DateTime::from_timestamp(instant, 0).map(|t| t.to_rfc3339())
}

pub open spec fn query_text(start: Seq<char>, end: Seq<char>) -> Seq<char> {
    QUERY_PREFIX@ + start + "/"@ + end + QUERY_SUFFIX@
}

/// The query body for the time period `start`/`end`, given as date texts.
pub fn query_body_for(start: &str, end: &str) -> (r: String)
    ensures
        r@ == query_text(start@, end@),
{
    let mut out = String::new();
    out.append(QUERY_PREFIX);
    out.append(start);
    out.append("/");
    out.append(end);
    out.append(QUERY_SUFFIX);
    assert(out@ =~= query_text(start@, end@));
    out
}

/// The query body for the half-open range of instants `[start, end)`.
pub fn query_body(start: i64, end: i64) -> (r: Result<String, QueryError>)
    ensures
        match r {
            Ok(b) => b@ == query_text(rfc3339_text(start as int), rfc3339_text(end as int)),
            Err(e) => e == QueryError::BadRange,
        },
        -7_000_000_000_000 <= start <= 7_000_000_000_000 && -7_000_000_000_000 <= end <= 7_000_000_000_000
            ==> r is Ok,
{
    match (rfc3339_of(start), rfc3339_of(end)) {
        (Some(s), Some(e)) => Ok(query_body_for(s.as_str(), e.as_str())),
        _ => Err(QueryError::BadRange),
    }
}

pub open spec fn is_blank(b: u8) -> bool {
    b == 32 || b == 9 || b == 13 || b == 10
}

/// The length of `s` without its trailing blanks.
pub open spec fn trimmed_len(s: Seq<u8>) -> nat
    decreases s.len(),
{
    if s.len() > 0 && is_blank(s.last()) {
        trimmed_len(s.drop_last())
    } else {
        s.len()
    }
}

/// The number that an answer body holds: `[<number>]` with a non-negative
/// JSON number, trailing blanks allowed.
pub open spec fn answer_millis(body: Seq<u8>) -> Option<nat> {
    let n = trimmed_len(body) as int;
    if n >= 3 && body[0] == 91 && body[n - 1] == 93 {
        json_millis(body.subrange(1, n - 1))
    } else {
        None
    }
}

/// Reads the service's answer: the active time, in milliseconds, when the
/// status is 200 and the body holds one non-negative number in brackets.
pub fn parse_query_response(status: u16, body: &[u8]) -> (r: Result<u64, QueryError>)
    ensures
        status != 200 ==> r == Err::<u64, QueryError>(QueryError::BadStatus(status)),
        status == 200 ==> match answer_millis(body@) {
            Some(v) => r == Ok::<u64, QueryError>(v as u64),
            None => r == Err::<u64, QueryError>(QueryError::BadBody),
        },
        r matches Ok(v) ==> answer_millis(body@) == Some(v as nat),
{
    if status != 200 {
        return Err(QueryError::BadStatus(status));
    }
    let mut n: usize = body.len();
    assert(body@.take(n as int) =~= body@);
    while n > 0 && (body[n - 1] == 32 || body[n - 1] == 9 || body[n - 1] == 13 || body[n - 1] == 10)
        invariant
            n <= body@.len(),
            trimmed_len(body@) == trimmed_len(body@.take(n as int)),
        decreases n,
    {
        assert(body@.take(n as int).drop_last() =~= body@.take(n - 1));
        n = n - 1;
    }
    assert(trimmed_len(body@.take(n as int)) == n);
    if n < 3 || body[0] != 91 || body[n - 1] != 93 {
        return Err(QueryError::BadBody);
    }
    let inner = sub_bytes(body, 1, n - 1);
    match parse_json_millis(inner.as_slice()) {
        Some(v) => Ok(v),
        None => Err(QueryError::BadBody),
    }
}

} // verus!
