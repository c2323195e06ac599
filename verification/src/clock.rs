//! Points in time as seconds since the Unix epoch.
use chrono::DateTime;
use std::time::{Duration, SystemTime, SystemTimeError, UNIX_EPOCH};
use vstd::prelude::*;

verus! {

#[verifier::external_type_specification]
#[verifier::external_body]
pub struct ExSystemTime(SystemTime);

#[verifier::external_type_specification]
#[verifier::external_body]
pub struct ExSystemTimeError(SystemTimeError);

#[verifier::external_type_specification]
#[verifier::external_body]
pub struct ExParseError(chrono::ParseError);

/// `SystemTime::now` reads the clock. What it shows is left open.
#[verifier::external_body]
fn clock_now() -> SystemTime {
    SystemTime::now()
}

/// `SystemTime::duration_since` gives the time from the Unix epoch to `t`, or fails
/// where `t` is before it. Which of the two it is, is left open.
#[verifier::external_body]
fn since_unix_epoch(t: &SystemTime) -> Result<Duration, SystemTimeError> {
    t.duration_since(UNIX_EPOCH)
}

/// `Duration::as_secs` gives the whole seconds of a duration. How many there are is
/// left open.
#[verifier::external_body]
fn whole_seconds(d: &Duration) -> u64 {
    d.as_secs()
}

/// Why there is no current time.
#[derive(Debug)]
pub enum ClockError {
    /// The system time is before the Unix epoch.
    BeforeEpoch(SystemTimeError),
}

/// The current time, given what the clock shows since the Unix epoch.
pub fn epoch_since(elapsed: Result<u64, SystemTimeError>) -> (r: Result<u64, ClockError>)
    ensures
        match elapsed {
            Ok(secs) => r == Ok::<u64, ClockError>(secs),
            Err(e) => r == Err::<u64, ClockError>(ClockError::BeforeEpoch(e)),
        },
{
    match elapsed {
        Ok(secs) => Ok(secs),
        Err(e) => Err(ClockError::BeforeEpoch(e)),
    }
}

/// Calls a function without arguments. What comes back is what the function gives.
fn call<T, F: Fn() -> T>(f: F) -> (r: T)
    requires
        f.requires(()),
    ensures
        f.ensures((), r),
{
    f()
}

/// Calls a function of one argument. What comes back is what the function gives of it.
fn call_on<A, T, F: Fn(&A) -> T>(f: F, a: &A) -> (r: T)
    requires
        f.requires((a,)),
    ensures
        f.ensures((a,), r),
{
    f(a)
}

/// Whether the clock may show so many whole seconds since the Unix epoch, or a time
/// before it: they are the seconds of the time from the epoch to a point in time that
/// reading the clock gives, or that point is before the epoch.
pub closed spec fn clock_shows(elapsed: Result<u64, SystemTimeError>) -> bool {
    match elapsed {
        Ok(secs) => exists|t: SystemTime, d: Duration|
            call_ensures(clock_now, (), t) && #[trigger] call_ensures(
                since_unix_epoch,
                (&t,),
                Ok::<Duration, SystemTimeError>(d),
            ) && call_ensures(whole_seconds, (&d,), secs),
        Err(e) => exists|t: SystemTime| #[trigger]
            call_ensures(clock_now, (), t) && call_ensures(
                since_unix_epoch,
                (&t,),
                Err::<Duration, SystemTimeError>(e),
            ),
    }
}

/// The current time in seconds since the Unix epoch: what the clock shows, or an error
/// where that is before the epoch. What it shows is left open.
pub fn get_current_epoch() -> (r: Result<u64, ClockError>)
    ensures
        exists|elapsed: Result<u64, SystemTimeError>| #[trigger]
            clock_shows(elapsed) && match elapsed {
                Ok(secs) => r == Ok::<u64, ClockError>(secs),
                Err(e) => r == Err::<u64, ClockError>(ClockError::BeforeEpoch(e)),
            },
{
    let now: SystemTime = call(clock_now);
    match call_on(since_unix_epoch, &now) {
        Ok(d) => {
            let secs: u64 = call_on(whole_seconds, &d);
            assert(clock_shows(Ok(secs)));
            epoch_since(Ok(secs))
        },
        Err(e) => {
            assert(clock_shows(Err(e)));
            epoch_since(Err(e))
        },
    }
}

/// The seconds from the Unix epoch to the point in time that an RFC 3339 timestamp
/// stands for, negative where it is before the epoch; nothing where the text is no
/// such timestamp.
pub uninterp spec fn rfc3339_timestamp(s: Seq<char>) -> Option<i64>;

/// `DateTime::parse_from_rfc3339` reads an RFC 3339 timestamp, and
/// `DateTime::timestamp` gives its seconds since the Unix epoch. Both depend on the
/// text alone.
#[verifier::external_body]
fn parse_timestamp(s: &str) -> (r: Result<i64, chrono::ParseError>)
    ensures
        match r {
            Ok(t) => rfc3339_timestamp(s@) == Some(t),
            Err(_) => rfc3339_timestamp(s@) is None,
        },
{
    match DateTime::parse_from_rfc3339(s) {
        Ok(time) => Ok(time.timestamp()),
        Err(e) => Err(e),
    }
}

/// Why a timestamp stands for no epoch.
#[derive(Debug)]
pub enum TimestampError {
    /// The text is no RFC 3339 timestamp.
    Parse { text: String, cause: chrono::ParseError },
    /// The timestamp is before the Unix epoch.
    Negative { text: String },
}

/// The epoch of a timestamp, given what came of reading it.
pub fn epoch_of_timestamp(text: &str, timestamp: Result<i64, chrono::ParseError>) -> (r: Result<
    u64,
    TimestampError,
>)
    ensures
        match (timestamp, r) {
            (Err(cause), Err(TimestampError::Parse { text: t, cause: c })) => t@ == text@ && c
                == cause,
            (Ok(t), Ok(epoch)) => t >= 0 && epoch == t,
            (Ok(n), Err(TimestampError::Negative { text: t })) => n < 0 && t@ == text@,
            _ => false,
        },
{
    match timestamp {
        Err(cause) => Err(TimestampError::Parse { text: text.to_owned(), cause }),
        Ok(t) => {
            if t < 0 {
                Err(TimestampError::Negative { text: text.to_owned() })
            } else {
                Ok(t as u64)
            }
        },
    }
}

/// Parse an RFC 3339 timestamp string into a Unix epoch (seconds).
pub fn parse_rfc3339_epoch(s: &str) -> (r: Result<u64, TimestampError>)
    ensures
        match rfc3339_timestamp(s@) {
            None => r matches Err(TimestampError::Parse { text, cause }) && text@ == s@,
            Some(t) => if t >= 0 {
                r == Ok::<u64, TimestampError>(t as u64)
            } else {
                r matches Err(TimestampError::Negative { text }) && text@ == s@
            },
        },
{
    epoch_of_timestamp(s, parse_timestamp(s))
}

/// Timestamps are seconds since the Unix epoch, and those before it have no epoch: one
/// comes out where, and only where, the timestamp is that number itself.
pub proof fn lemma_epoch_is_timestamp(
    text: &str,
    timestamp: Result<i64, chrono::ParseError>,
    r: Result<u64, TimestampError>,
)
    requires
        call_ensures(epoch_of_timestamp, (text, timestamp), r),
    ensures
        r is Ok <==> timestamp is Ok && timestamp->Ok_0 >= 0,
        r matches Ok(epoch) ==> timestamp->Ok_0 == epoch,
        r matches Err(TimestampError::Negative { .. }) ==> timestamp is Ok,
        r matches Err(TimestampError::Parse { cause, .. }) ==> timestamp == Err::<i64, _>(cause),
{
}

} // verus!
