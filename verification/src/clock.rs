//! Instants: what the clock says, and which instants a timestamp can hold.

use std::time::{Duration, SystemTime, SystemTimeError, UNIX_EPOCH};

use sea_streamer_types::Timestamp;
use vstd::prelude::*;
use vstd::string::*;

use crate::error::{self, SeaFileError};
use crate::text::{self, decimal_text};

verus! {

/// A reading of the system clock.
#[verifier::external_type_specification]
#[verifier::external_body]
pub struct ExSystemTime(std::time::SystemTime);

/// Why a reading of the system clock has no distance from an earlier instant.
#[verifier::external_type_specification]
#[verifier::external_body]
pub struct ExSystemTimeError(std::time::SystemTimeError);

/// The instants a timestamp can hold, in nanoseconds since the Unix epoch: the years from -9999
/// to 9999.
pub open spec fn is_instant(nanos: int) -> bool {
    -377_705_116_800_000_000_000 <= nanos <= 253_402_300_799_999_999_999
}

/// What the client says of an instant no timestamp can hold.
pub open spec fn instant_refusal() -> Seq<char> {
    "timestamp was not in range"@
}

/// The refusal of a millisecond count no instant answers to, naming it.
pub open spec fn refused_millis(millis: nat) -> error::ErrorView {
    error::ErrorView::Invalid(
        "'"@ + text::decimal(millis) + "' is not a valid timestamp: "@ + instant_refusal(),
    )
}

/// `OffsetDateTime::from_unix_timestamp_nanos`: the instant, when it is one of the years from
/// -9999 to 9999, and the text of the `ComponentRange` error when it is not.
#[verifier::external_body]
fn parse_instant(nanos: i128) -> (instant: Result<i128, String>)
    ensures
        instant is Ok <==> is_instant(nanos as int),
        instant matches Ok(instant) ==> instant == nanos,
        instant matches Err(why) ==> why@ == instant_refusal(),
{
    Timestamp::from_unix_timestamp_nanos(nanos).map(|instant| instant.unix_timestamp_nanos())
        .map_err(|err| err.to_string())
}

/// The instant `millis` after the Unix epoch, in nanoseconds, or the error that says no timestamp
/// can hold it.
pub fn instant_of(millis: u64) -> (instant: Result<i128, SeaFileError>)
    ensures
        instant is Ok <==> is_instant(millis * 1_000_000),
        instant matches Ok(instant) ==> instant == millis * 1_000_000,
        instant matches Err(error) ==> error@ == refused_millis(millis as nat),
{
    match parse_instant(millis as i128 * 1_000_000) {
        Ok(instant) => Ok(instant),
        Err(refusal) => {
            let mut why = "'".to_owned();
            why.append(decimal_text(millis).as_str());
            why.append("' is not a valid timestamp: ");
            why.append(refusal.as_str());
            Err(SeaFileError::Invalid(why))
        },
    }
}

/// `OffsetDateTime::now_utc`: the moment the clock says, in nanoseconds since the Unix epoch. It
/// is one a timestamp can hold; which one is up to the clock.
#[verifier::external_body]
pub(crate) fn now_nanos() -> (now: i128)
    ensures
        is_instant(now as int),
{
    Timestamp::now_utc().unix_timestamp_nanos()
}

/// Whether the clock said `at`, in nanoseconds since the Unix epoch.
pub closed spec fn was_read(at: int) -> bool {
    exists|now: i128| #[trigger] call_ensures(now_nanos, (), now) && at == now
}

/// Whether `at` is a moment the clock said, which is one a timestamp can hold.
pub open spec fn is_moment(at: int) -> bool {
    was_read(at) && is_instant(at)
}

/// The moment the clock says, in nanoseconds since the Unix epoch.
pub(crate) fn read_moment() -> (at: i128)
    ensures
        is_moment(at as int),
{
    now_nanos()
}

/// `SystemTime::now`: what the clock says. Which instant that is, is up to the clock.
#[verifier::external_body]
pub(crate) fn read_clock() -> (now: SystemTime) {
    SystemTime::now()
}

/// `SystemTime::duration_since` the Unix epoch: how long ago that was, unless the clock stands
/// before it. A clock reading is opaque here, so nothing is said of the distance.
#[verifier::external_body]
pub(crate) fn since_epoch(now: &SystemTime) -> (since: Result<Duration, SystemTimeError>) {
    now.duration_since(UNIX_EPOCH)
}

/// `Duration::as_millis`: whole milliseconds. A duration is opaque here, so nothing is said of
/// their number.
#[verifier::external_body]
pub(crate) fn whole_millis(since: &Duration) -> (millis: u128) {
    since.as_millis()
}

/// The milliseconds a clock reading comes to: none for a clock before the epoch, and no more than
/// 64 bits hold.
pub open spec fn clamped(since: Option<u128>) -> nat {
    match since {
        Some(since) => if since <= u64::MAX {
            since as nat
        } else {
            u64::MAX as nat
        },
        None => 0,
    }
}

/// The milliseconds a clock reading comes to.
pub fn clamped_millis(since: Option<u128>) -> (millis: u64)
    ensures
        millis == clamped(since),
{
    match since {
        Some(since) => if since <= 0xffff_ffff_ffff_ffff {
            since as u64
        } else {
            u64::MAX
        },
        None => 0,
    }
}

/// Whether `since` is how many whole milliseconds after the Unix epoch the reading `now` of the
/// clock stands, or nothing for a reading before it.
closed spec fn is_distance_read(now: SystemTime, since: Option<u128>) -> bool {
    exists|reading: Result<Duration, SystemTimeError>|
        #[trigger] call_ensures(since_epoch, (&now,), reading) && match reading {
            Ok(distance) => since matches Some(millis) && call_ensures(
                whole_millis,
                (&distance,),
                millis,
            ),
            Err(_) => since is None,
        }
}

/// Whether `millis` is what a reading of the clock comes to, in milliseconds since the Unix epoch.
pub closed spec fn is_millis(millis: nat) -> bool {
    exists|now: SystemTime, since: Option<u128>|
        call_ensures(read_clock, (), now) && #[trigger] is_distance_read(now, since) && millis
            == clamped(since)
}

/// Milliseconds since the Unix epoch, as the clock says. Any number is one a clock can come to;
/// what is made of a reading is [`clamped_millis`].
pub fn now_millis() -> (millis: u64)
    ensures
        is_millis(millis as nat),
{
    let now = read_clock();
    let reading = since_epoch(&now);
    proof {
        assert(call_ensures(since_epoch, (&now,), reading));
    }
    match reading {
        Ok(distance) => {
            let since = whole_millis(&distance);
            proof {
                assert(call_ensures(whole_millis, (&distance,), since));
                assert(is_distance_read(now, Some(since)));
            }
            clamped_millis(Some(since))
        },
        Err(_) => {
            proof {
                assert(is_distance_read(now, None));
            }
            clamped_millis(None)
        },
    }
}

/// The moment a message is stamped with is what the clock said, in nanoseconds since the Unix
/// epoch, to the nanosecond.
pub(crate) proof fn law_a_moment_is_what_the_clock_said(at: int)
    requires
        is_moment(at),
    ensures
        exists|now: i128| #[trigger] call_ensures(now_nanos, (), now) && now == at,
        -377_705_116_800_000_000_000 <= at <= 253_402_300_799_999_999_999,
{
}

/// The milliseconds an entry is stamped with are the whole milliseconds between the Unix epoch
/// and what the clock said, none where the clock stands before the epoch, and as many as 64 bits
/// hold where there are more.
pub(crate) proof fn law_the_milliseconds_are_what_the_clock_said(millis: nat)
    requires
        is_millis(millis),
    ensures
        exists|now: SystemTime, reading: Result<Duration, SystemTimeError>|
            call_ensures(read_clock, (), now) && #[trigger] call_ensures(
                since_epoch,
                (&now,),
                reading,
            ) && match reading {
                Ok(distance) => exists|whole: u128|
                    #[trigger] call_ensures(whole_millis, (&distance,), whole) && (whole
                        <= u64::MAX ==> millis == whole) && (whole > u64::MAX ==> millis
                        == u64::MAX),
                Err(_) => millis == 0,
            },
{
    let (now, since) = choose|now: SystemTime, since: Option<u128>|
        call_ensures(read_clock, (), now) && #[trigger] is_distance_read(now, since) && millis
            == clamped(since);
    let reading = choose|reading: Result<Duration, SystemTimeError>|
        #[trigger] call_ensures(since_epoch, (&now,), reading) && match reading {
            Ok(distance) => since matches Some(millis) && call_ensures(
                whole_millis,
                (&distance,),
                millis,
            ),
            Err(_) => since is None,
        };
    if let Ok(distance) = reading {
        if let Some(whole) = since {
            assert(call_ensures(whole_millis, (&distance,), whole));
        }
    }
    assert(call_ensures(since_epoch, (&now,), reading));
}

/// A number of milliseconds since the epoch names the instant a million times as many nanoseconds
/// after it, and is refused exactly past the last one a timestamp can hold.
pub proof fn law_an_instant_is_refused_past_the_last(millis: nat)
    ensures
        is_instant((millis * 1_000_000) as int) <==> millis <= 253_402_300_799_999,
        refused_millis(millis) == error::ErrorView::Invalid(
            "'"@ + text::decimal(millis) + "' is not a valid timestamp: "@
                + "timestamp was not in range"@,
        ),
{
}

/// What stamps a message in process is what the clock said, and what stamps an entry of a stand is
/// the clock's milliseconds.
pub(crate) proof fn law_a_stamp_is_what_the_clock_said(at: i128, millis: u64)
    requires
        call_ensures(read_moment, (), at),
        call_ensures(now_millis, (), millis),
    ensures
        call_ensures(now_nanos, (), at),
        exists|now: SystemTime, reading: Result<Duration, SystemTimeError>|
            call_ensures(read_clock, (), now) && #[trigger] call_ensures(
                since_epoch,
                (&now,),
                reading,
            ) && match reading {
                Ok(distance) => exists|whole: u128|
                    #[trigger] call_ensures(whole_millis, (&distance,), whole) && (whole
                        <= u64::MAX ==> millis == whole),
                Err(_) => millis == 0,
            },
{
    law_a_moment_is_what_the_clock_said(at as int);
    law_the_milliseconds_are_what_the_clock_said(millis as nat);
    let (now, reading) = choose|now: SystemTime, reading: Result<Duration, SystemTimeError>|
        call_ensures(read_clock, (), now) && #[trigger] call_ensures(
            since_epoch,
            (&now,),
            reading,
        ) && match reading {
            Ok(distance) => exists|whole: u128|
                #[trigger] call_ensures(whole_millis, (&distance,), whole) && (whole <= u64::MAX
                    ==> millis == whole) && (whole > u64::MAX ==> millis == u64::MAX),
            Err(_) => millis == 0,
        };
    assert(call_ensures(since_epoch, (&now,), reading));
    if let Ok(distance) = reading {
        let whole = choose|whole: u128|
            #[trigger] call_ensures(whole_millis, (&distance,), whole) && (whole <= u64::MAX
                ==> millis == whole) && (whole > u64::MAX ==> millis == u64::MAX);
        assert(call_ensures(whole_millis, (&distance,), whole));
    }
}

/// The instant of a number of milliseconds lies a million times as many nanoseconds after the
/// epoch. A number past the last instant is refused by an error that names it.
pub proof fn law_an_instant_is_a_million_nanoseconds_a_millisecond(
    millis: u64,
    instant: Result<i128, SeaFileError>,
)
    requires
        call_ensures(instant_of, (millis,), instant),
    ensures
        instant matches Ok(instant) ==> instant == millis * 1_000_000,
        millis <= 253_402_300_799_999 ==> instant is Ok,
        millis > 253_402_300_799_999 ==> (instant matches Err(error) && error@
            == error::ErrorView::Invalid(
            "'"@ + text::decimal(millis as nat) + "' is not a valid timestamp: "@
                + "timestamp was not in range"@,
        )),
{
}

} // verus!
