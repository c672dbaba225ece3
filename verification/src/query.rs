use vstd::prelude::*;
use crate::model::QueryRange;

verus! {

/// A segment no longer than this many seconds is a blip and is never
/// chunk-averaged.
pub const BLIP_THRESHOLD_SECS: i64 = 1200;

/// The default port of a newly registered server.
pub const DEFAULT_PORT: i64 = 25565;

/// The width of the time window a range resolves to, in seconds.
pub open spec fn spec_window_seconds(range: QueryRange) -> u64 {
    match range {
        QueryRange::Day => 86400,
        QueryRange::Week => 604800,
        QueryRange::Month => 2592000,
    }
}

pub fn window_seconds(range: QueryRange) -> (secs: u64)
    ensures
        secs == spec_window_seconds(range),
{
    match range {
        QueryRange::Day => 60 * 60 * 24,
        QueryRange::Week => 60 * 60 * 24 * 7,
        QueryRange::Month => 60 * 60 * 24 * 30,
    }
}

/// The window that a history request is answered from: an incremental request
/// (one carrying `since_id`) gets no window at all, any other request gets the
/// window its range resolves to.
pub open spec fn spec_resolved_window(range: QueryRange, since_id: Option<i64>) -> Option<u64> {
    if since_id is Some {
        None
    } else {
        Some(spec_window_seconds(range))
    }
}

pub fn resolved_window(range: QueryRange, since_id: Option<i64>) -> (window: Option<u64>)
    ensures
        window == spec_resolved_window(range, since_id),
{
    if since_id.is_some() {
        None
    } else {
        Some(window_seconds(range))
    }
}

/// Whether a history request is answered with the downsampled series: only a
/// non-incremental request for a week or month range is; a day request or any
/// incremental request is answered with the raw rows.
pub open spec fn spec_should_downsample(range: QueryRange, since_id: Option<i64>) -> bool {
    since_id is None && (range == QueryRange::Week || range == QueryRange::Month)
}

pub fn should_downsample(range: QueryRange, since_id: Option<i64>) -> (b: bool)
    ensures
        b == spec_should_downsample(range, since_id),
{
    since_id.is_none() && (matches!(range, QueryRange::Week) || matches!(
        range,
        QueryRange::Month,
    ))
}

/// The chunk width used when averaging a long online segment, in seconds.
/// Only the week and month widths are ever reached: a day range is never
/// downsampled.
pub open spec fn spec_chunk_seconds(range: QueryRange) -> i64 {
    match range {
        QueryRange::Month => 21600,
        QueryRange::Week => 3600,
        QueryRange::Day => 900,
    }
}

pub fn chunk_seconds(range: QueryRange) -> (secs: i64)
    ensures
        secs == spec_chunk_seconds(range),
{
    match range {
        QueryRange::Month => 6 * 60 * 60,
        QueryRange::Week => 60 * 60,
        QueryRange::Day => 15 * 60,
    }
}

/// The range that a request's optional tag names: `week` and `month` name
/// their ranges, anything else (a different tag, or none) defaults to a day.
pub open spec fn spec_range_from_tag(tag: Option<Seq<char>>) -> QueryRange {
    match tag {
        Some(s) => if s == "week"@ {
            QueryRange::Week
        } else if s == "month"@ {
            QueryRange::Month
        } else {
            QueryRange::Day
        },
        None => QueryRange::Day,
    }
}

pub fn range_from_tag(tag: &Option<String>) -> (range: QueryRange)
    ensures
        range == spec_range_from_tag(match *tag {
            Some(s) => Some(s@),
            None => None,
        }),
{
    match tag {
        Some(s) => {
            let week = String::from_str("week");
            let month = String::from_str("month");
            if *s == week {
                QueryRange::Week
            } else if *s == month {
                QueryRange::Month
            } else {
                QueryRange::Day
            }
        },
        None => QueryRange::Day,
    }
}

/// The port a registration request asks for, with the default filled in.
pub open spec fn spec_effective_port(port: Option<i64>) -> i64 {
    match port {
        Some(p) => p,
        None => DEFAULT_PORT as i64,
    }
}

/// Whether a registration request is acceptable: the name must be non-empty
/// and the requested (or defaulted) port positive.
pub fn new_server_acceptable(name: &String, port: Option<i64>) -> (ok: bool)
    ensures
        ok == (spec_effective_port(port) >= 1 && name@.len() > 0),
{
    let p = match port {
        Some(p) => p,
        None => DEFAULT_PORT,
    };
    p >= 1 && !name.as_str().is_empty()
}

} // verus!
