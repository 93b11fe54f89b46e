//! The in-process stands: a router over a retained log that counts from zero and otherwise answers
//! what a file answers.

use bytes::Bytes;
use ruststream::{BytesMut, HeaderMap};
use ruststream_sea_file::clock::{clamped_millis, now_millis};
use ruststream_sea_file::message::SettleError;
use ruststream_sea_file::queue::Sought;
use ruststream_sea_file::router::{AddressRouter, FileTestMessage, TestNext};
use ruststream_sea_file::testing::TestState;
use ruststream_sea_file::{FilePosition, FileStream, SeaFileError, SEQUENCE_HEADER};

fn ready(next: TestNext) -> FileTestMessage {
    match next {
        TestNext::Ready(message) => message,
        TestNext::End => panic!("the subscription ended"),
        TestNext::Pending => panic!("nothing is ready"),
    }
}

fn record(state: &mut TestState, stream: &str, bodies: &[u8]) {
    for body in bodies {
        state
            .publish(stream, Bytes::from(vec![*body]), HeaderMap::new())
            .expect("publish");
    }
}

fn drain(state: &mut TestState, id: usize) -> Vec<(u8, FilePosition)> {
    let mut read = Vec::new();
    while let TestNext::Ready(message) = state.poll_next(id).next {
        read.push((message.payload()[0], message.position()));
    }
    read
}

#[test]
fn a_handler_reads_its_position_off_the_delivery_context() {
    let mut state = TestState::new();
    let jobs = state.open("jobs").expect("opens");
    record(&mut state, "jobs", &[1, 2]);
    assert_eq!(
        drain(&mut state, jobs),
        [
            (1, FilePosition::sequence(0)),
            (2, FilePosition::sequence(1)),
        ],
    );
}

#[test]
fn a_handler_repositions_its_own_subscription_through_the_seek_key() {
    let mut state = TestState::new();
    record(&mut state, "jobs", &[1, 2, 3, 4]);
    let (jobs, _) = state
        .subscribe_stream(&FileStream::new("jobs"))
        .expect("opens");
    state.seek(jobs, FilePosition::beginning()).expect("seeks");

    let first = ready(state.poll_next(jobs).next);
    assert_eq!(first.payload(), [1]);
    assert_eq!(first.headers().get_str(SEQUENCE_HEADER), Some("0"));
    let second = ready(state.poll_next(jobs).next);
    assert_eq!(second.payload(), [2]);
    assert_eq!(second.position(), FilePosition::sequence(1));
    // The second job names where to resume: position 3, the fourth entry.
    state.seek(jobs, FilePosition::sequence(3)).expect("seeks");
    assert_eq!(drain(&mut state, jobs), [(4, FilePosition::sequence(3))]);
}

#[test]
fn the_replay_mode_opens_at_the_start_of_the_retained_log() {
    let mut state = TestState::new();
    record(&mut state, "recorded", &[1, 2, 3]);
    record(&mut state, "tailed", &[1, 2, 3]);
    let (replayed, queued) = state
        .subscribe_stream(&FileStream::new("recorded").replay())
        .expect("opens");
    let (tailed, none) = state
        .subscribe_stream(&FileStream::new("tailed"))
        .expect("opens");
    assert_eq!((queued, none), (3, 0));
    assert_eq!(drain(&mut state, replayed).len(), 3);
    assert_eq!(drain(&mut state, tailed).len(), 0);
    record(&mut state, "tailed", &[4]);
    assert_eq!(drain(&mut state, tailed), [(4, FilePosition::sequence(3))]);
}

#[test]
fn the_end_position_waits_at_the_tail() {
    let mut state = TestState::new();
    record(&mut state, "jobs", &[1, 2]);
    let jobs = state.open("jobs").expect("opens");
    assert_eq!(state.seek(jobs, FilePosition::end()).expect("seeks").queued, 0);
    assert!(matches!(state.poll_next(jobs).next, TestNext::Pending));
    record(&mut state, "jobs", &[3]);
    assert_eq!(drain(&mut state, jobs), [(3, FilePosition::sequence(2))]);
}

#[test]
fn a_position_the_stand_has_not_reached_is_refused_and_ends_the_subscription() {
    for (past_the_end, why) in [
        (
            FilePosition::sequence(2),
            "seek error on 'jobs': no message carries that sequence",
        ),
        (
            FilePosition::sequence(99),
            "seek error on 'jobs': no message carries that sequence",
        ),
        (
            FilePosition::timestamp(253_402_300_799_999),
            "seek error on 'jobs': no message is later than that instant",
        ),
    ] {
        let mut state = TestState::new();
        record(&mut state, "jobs", &[1, 2]);
        let jobs = state.open("jobs").expect("opens");
        let refused = state
            .seek(jobs, past_the_end)
            .expect_err("the log has not reached it");
        assert_eq!(refused.message(), why);
        assert!(matches!(state.poll_next(jobs).next, TestNext::End));
        record(&mut state, "jobs", &[3]);
        assert!(matches!(state.poll_next(jobs).next, TestNext::End));
        let closed = state
            .seek(jobs, FilePosition::beginning())
            .expect_err("the subscription is closed");
        assert_eq!(
            closed.message(),
            "seek error on '<closed>': the subscription has been closed"
        );
    }
}

#[test]
fn the_start_of_an_empty_log_can_be_sought() {
    let mut state = TestState::new();
    let jobs = state.open("jobs").expect("opens");
    for to in [
        FilePosition::beginning(),
        FilePosition::sequence(0),
        FilePosition::end(),
    ] {
        assert_eq!(state.seek(jobs, to).expect("seeks").queued, 0);
        assert!(matches!(state.poll_next(jobs).next, TestNext::Pending));
    }
    assert!(state.seek(jobs, FilePosition::sequence(1)).is_err());
}

#[test]
fn an_instant_no_timestamp_holds_leaves_the_stand_subscription_where_it_was() {
    let mut state = TestState::new();
    let jobs = state.open("jobs").expect("opens");
    record(&mut state, "jobs", &[1]);
    let refused = state
        .seek(jobs, FilePosition::timestamp(u64::MAX))
        .expect_err("no such instant");
    assert!(matches!(refused, SeaFileError::Invalid(_)));
    assert_eq!(drain(&mut state, jobs), [(1, FilePosition::sequence(0))]);
}

#[test]
fn an_instant_resumes_at_the_first_entry_after_it() {
    let mut router = AddressRouter::new();
    for at in [5u64, 6, 6, 7] {
        router.publish_at("jobs", Bytes::from(vec![at as u8]), HeaderMap::new(), at);
    }
    let jobs = router.subscribe("jobs");
    assert_eq!(
        router
            .request_seek(jobs, FilePosition::timestamp(5))
            .expect("seeks")
            .queued,
        3
    );
    assert_eq!(
        router
            .request_seek(jobs, FilePosition::timestamp(6))
            .expect("seeks"),
        Sought { queued: 1, overtaken: 3 }
    );
    assert_eq!(ready(router.poll_next(jobs).next).payload(), [7]);
    assert!(router
        .request_seek(jobs, FilePosition::timestamp(7))
        .is_err());
}

#[test]
fn a_stand_settles_the_way_a_file_does() {
    let mut state = TestState::new();
    let jobs = state.open("jobs").expect("opens");
    record(&mut state, "jobs", &[1, 2, 3]);
    assert_eq!(
        ready(state.poll_next(jobs).next).ack(),
        Err(SettleError::Unsupported)
    );
    assert_eq!(
        ready(state.poll_next(jobs).next).nack(true),
        Err(SettleError::Unsupported)
    );
    assert_eq!(
        ready(state.poll_next(jobs).next).nack(false),
        Err(SettleError::Unsupported)
    );
    // Nothing was taken back.
    assert!(matches!(state.poll_next(jobs).next, TestNext::Pending));
}

#[test]
fn a_seek_takes_the_place_of_what_is_queued_on_a_stand() {
    let mut state = TestState::new();
    let jobs = state.open("jobs").expect("opens");
    record(&mut state, "jobs", &[1, 2, 3]);
    assert_eq!(ready(state.poll_next(jobs).next).payload(), [1]);
    assert_eq!(state.seek(jobs, FilePosition::sequence(2)).expect("seeks").queued, 1);
    let moved = state.poll_next(jobs);
    assert_eq!((moved.superseded, moved.stale), (2, 0));
    assert_eq!(ready(moved.next).payload(), [3]);
    assert!(matches!(state.poll_next(jobs).next, TestNext::Pending));
}

#[test]
fn a_message_published_behind_a_seek_follows_its_replay() {
    let mut state = TestState::new();
    record(&mut state, "jobs", &[1, 2]);
    let jobs = state.open("jobs").expect("opens");
    assert_eq!(state.seek(jobs, FilePosition::sequence(1)).expect("seeks").queued, 1);
    record(&mut state, "jobs", &[3]);
    assert_eq!(
        drain(&mut state, jobs),
        [
            (2, FilePosition::sequence(1)),
            (3, FilePosition::sequence(2)),
        ],
    );
}

#[test]
fn a_message_is_routed_by_its_exact_name() {
    let mut state = TestState::new();
    let jobs = state.open("jobs").expect("opens");
    let again = state.open("jobs").expect("opens");
    let other = state.open("jobs.retry").expect("opens");
    let mut headers = HeaderMap::new();
    headers.insert("x-tenant", "acme");
    assert_eq!(
        state
            .publish("jobs", Bytes::from_static(b"x"), headers)
            .expect("publish"),
        2
    );
    for id in [jobs, again] {
        let message = ready(state.poll_next(id).next);
        assert_eq!(message.headers().get_str("x-tenant"), Some("acme"));
        assert_eq!(message.headers().len(), 2);
    }
    assert!(matches!(state.poll_next(other).next, TestNext::Pending));
    let logged = state.published("jobs");
    assert_eq!(logged.len(), 1);
    assert_eq!(logged[0].payload.as_ref(), b"x");
    assert_eq!(logged[0].headers.len(), 1);
    assert!(state.published("jobs.retry").is_empty());
}

#[test]
fn a_stand_that_was_shut_down_reports_it() {
    let mut state = TestState::new();
    let jobs = state.open("jobs").expect("opens");
    record(&mut state, "jobs", &[1]);
    state.shutdown();
    assert!(matches!(
        state.publish("jobs", Bytes::from_static(b"late"), HeaderMap::new()),
        Err(SeaFileError::NotConnected)
    ));
    assert!(matches!(state.open("jobs"), Err(SeaFileError::NotConnected)));
    assert!(matches!(
        state.subscribe_stream(&FileStream::new("jobs")),
        Err(SeaFileError::NotConnected)
    ));
    assert!(matches!(
        state.subscribe_stream(&FileStream::new("")),
        Err(SeaFileError::Invalid(_))
    ));
    assert!(state.published("jobs").is_empty());
    let closed = state
        .seek(jobs, FilePosition::beginning())
        .expect_err("the subscription is gone");
    assert_eq!(
        closed.message(),
        "seek error on '<closed>': the subscription has been closed"
    );
    // What was queued is still there to read.
    assert_eq!(drain(&mut state, jobs), [(1, FilePosition::sequence(0))]);
    assert_eq!(state.inject("jobs", Bytes::from_static(b"x"), HeaderMap::new()), 0);
    assert_eq!(state.published("jobs").len(), 1);
}

#[test]
fn a_dropped_stand_subscription_is_closed() {
    let mut state = TestState::new();
    let jobs = state.open("jobs").expect("opens");
    record(&mut state, "jobs", &[1]);
    assert_eq!(ready(state.poll_next(jobs).next).payload(), [1]);
    assert_eq!(state.unsubscribe(jobs), 0);
    assert!(state.seek(jobs, FilePosition::end()).is_err());
}

#[test]
fn a_stand_subscription_dropped_between_a_seek_and_its_poll_releases_both() {
    let mut state = TestState::new();
    record(&mut state, "jobs", &[1, 2]);
    let jobs = state.open("jobs").expect("opens");
    record(&mut state, "jobs", &[3]);
    assert_eq!(
        state.seek(jobs, FilePosition::beginning()).expect("seeks"),
        Sought { queued: 3, overtaken: 0 }
    );
    // The queued copy of the third, and the three the seek holds.
    assert_eq!(state.unsubscribe(jobs), 4);
    assert_eq!(state.unsubscribe(jobs), 0);
}

/// A payload buffer of the kind the publish path produces, with the address it was written at.
fn body() -> (BytesMut, usize) {
    let body = BytesMut::from(&br#"{"id":7}"#[..]);
    let at = body.as_ptr() as usize;
    (body, at)
}

#[test]
fn the_file_stand_records_the_buffer_it_was_handed() {
    let mut state = TestState::new();
    let (orders, _) = state
        .subscribe_stream(&FileStream::new("orders"))
        .expect("opens");
    let (body, written_at) = body();
    state
        .publish("orders", body.freeze(), HeaderMap::new())
        .expect("the stand accepts the publish");
    let logged = state.published("orders");
    assert_eq!(logged[0].payload.as_ref(), br#"{"id":7}"#);
    assert_eq!(logged[0].payload.as_ptr() as usize, written_at);
    let delivered = ready(state.poll_next(orders).next);
    assert_eq!(delivered.payload().as_ptr() as usize, written_at);
    state.seek(orders, FilePosition::beginning()).expect("seeks");
    let again = ready(state.poll_next(orders).next);
    assert_eq!(again.payload().as_ptr() as usize, written_at);
}

#[test]
fn the_stdio_stand_records_the_buffer_it_was_handed() {
    let mut state = TestState::new();
    let orders = state.open("orders").expect("opens");
    let (body, written_at) = body();
    state
        .publish("orders", body.freeze(), HeaderMap::new())
        .expect("the stand accepts the publish");
    let logged = state.published("orders");
    assert_eq!(logged[0].payload.as_ref(), br#"{"id":7}"#);
    assert_eq!(logged[0].payload.as_ptr() as usize, written_at);
    let delivered = ready(state.poll_next(orders).next);
    assert_eq!(delivered.payload().as_ptr() as usize, written_at);
}

#[test]
fn the_clock_is_read_in_milliseconds() {
    assert_eq!(clamped_millis(None), 0);
    assert_eq!(clamped_millis(Some(17)), 17);
    assert_eq!(clamped_millis(Some(u128::from(u64::MAX))), u64::MAX);
    assert_eq!(clamped_millis(Some(u128::from(u64::MAX) + 1)), u64::MAX);
    let now = now_millis();
    assert!(now > 1_600_000_000_000, "{now}");
    assert!(now < 253_402_300_800_000, "{now}");
}
