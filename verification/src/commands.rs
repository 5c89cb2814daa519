//! The tool's three commands on text: convert a timestamp to another
//! offset, add a duration to it, and measure the time between two.

use vstd::prelude::*;
use crate::datetime::{
    datetime_from_text, datetime_text, error_subject_text, lemma_epoch_seconds_bound, reading_at,
    with_nanosecond, DateTime,
};
use crate::duration::{duration_from_text, duration_text, format_duration, parse_duration};
use crate::error::ParseError;
use crate::message::error_message;
use crate::offset::{offset_from_text, Offset};
use crate::text::{trim, trimmed};

verus! {

/// The message for the error `e` from parsing the timestamp `s`.
pub open spec fn timestamp_error(s: Seq<char>, e: ParseError) -> Seq<char> {
    error_message(e.0, error_subject_text(s, e.0))
}

/// Whether moving a reading under `offset` to the instant `epoch` stays
/// within 64-bit seconds, its local time included.
pub open spec fn instant_fits(epoch: int, offset: Offset) -> bool {
    i64::MIN <= epoch <= i64::MAX && i64::MIN <= epoch + offset@ * 60 <= i64::MAX
}

fn parse_timestamp(ts: &str) -> (r: Result<DateTime, String>)
    ensures
        match datetime_from_text(ts@) {
            Ok(dt) => r == Ok::<DateTime, String>(dt),
            Err(e) => r matches Err(m) && m@ == timestamp_error(ts@, e),
        },
{
    match DateTime::parse(ts) {
        Ok(dt) => Ok(dt),
        Err(e) => Err(e.message(DateTime::error_subject(ts, &e))),
    }
}

/// `ts` re-expressed under the offset `offset`, as canonical text, or the
/// message for the first of the two that is refused.
pub fn convert(ts: &str, offset: &str) -> (r: Result<String, String>)
    ensures
        match datetime_from_text(ts@) {
            Err(e) => r matches Err(m) && m@ == timestamp_error(ts@, e),
            Ok(dt) => match offset_from_text(offset@) {
                Err(e) => r matches Err(m) && m@ == error_message(e.0, offset@),
                Ok(o) => r matches Ok(t) && t@ == datetime_text(
                    with_nanosecond(reading_at(dt.epoch_seconds(), o), dt.nanosecond),
                ),
            },
        },
{
    let dt = match parse_timestamp(ts) {
        Ok(dt) => dt,
        Err(m) => return Err(m),
    };
    let o = match Offset::parse(offset) {
        Ok(o) => o,
        Err(e) => return Err(e.message(offset)),
    };
    Ok(dt.with_offset(o).to_string())
}

/// `ts` moved by the duration `duration`, as canonical text, or the message
/// for the first of the two that is refused; `None` where the new instant
/// leaves 64-bit seconds.
pub fn add(ts: &str, duration: &str) -> (r: Option<Result<String, String>>)
    ensures
        match datetime_from_text(ts@) {
            Err(e) => r matches Some(Err(m)) && m@ == timestamp_error(ts@, e),
            Ok(dt) => match duration_from_text(duration@) {
                Err(e) => r matches Some(Err(m)) && m@ == error_message(e.0, trimmed(duration@)),
                Ok(delta) => if instant_fits(dt.epoch_seconds() + delta, dt.offset) {
                    r matches Some(Ok(t)) && t@ == datetime_text(
                        with_nanosecond(
                            reading_at(dt.epoch_seconds() + delta, dt.offset),
                            dt.nanosecond,
                        ),
                    )
                } else {
                    r is None
                },
            },
        },
{
    let dt = match parse_timestamp(ts) {
        Ok(dt) => dt,
        Err(m) => return Some(Err(m)),
    };
    let delta = match parse_duration(duration) {
        Ok(d) => d,
        Err(e) => return Some(Err(e.message(trim(duration)))),
    };
    let epoch = match dt.to_epoch_seconds().checked_add(delta) {
        Some(v) => v,
        None => return None,
    };
    let shift = dt.offset.minutes() as i64 * 60;
    if epoch.checked_add(shift).is_none() {
        return None;
    }
    Some(Ok(dt.add_seconds(delta).to_string()))
}

/// The time from `from` to `to` as a duration's text, or the message for
/// the first of the two that is refused.
pub fn diff(from: &str, to: &str) -> (r: Result<String, String>)
    ensures
        match datetime_from_text(from@) {
            Err(e) => r matches Err(m) && m@ == timestamp_error(from@, e),
            Ok(a) => match datetime_from_text(to@) {
                Err(e) => r matches Err(m) && m@ == timestamp_error(to@, e),
                Ok(b) => r matches Ok(t) && t@ == duration_text(
                    b.epoch_seconds() - a.epoch_seconds(),
                ),
            },
        },
{
    let a = match parse_timestamp(from) {
        Ok(dt) => dt,
        Err(m) => return Err(m),
    };
    let b = match parse_timestamp(to) {
        Ok(dt) => dt,
        Err(m) => return Err(m),
    };
    proof {
        use_type_invariant(&a.offset);
        use_type_invariant(&b.offset);
        lemma_epoch_seconds_bound(a);
        lemma_epoch_seconds_bound(b);
    }
    Ok(format_duration(b.to_epoch_seconds() - a.to_epoch_seconds()))
}

} // verus!
