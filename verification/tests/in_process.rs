//! What the brokers' in-process mode answers where a stream file or a pipe answers something
//! particular: the stream keys the client refuses, positions and seeking, the end of a replay,
//! the end-of-stream mark, and where a line on standard output goes.

use ruststream::HeaderMap;
use ruststream_sea_file::file::InProcessFile;
use ruststream_sea_file::memory_file::{resolve, MemoryFile, Next, Stored, Unresolved};
use ruststream_sea_file::message::SettleError;
use ruststream_sea_file::queue::Sought;
use ruststream_sea_file::stdio::InProcessPipe;
use ruststream_sea_file::{
    FileBroker, FilePosition, FileStream, SeaFileError, SeaMessage, StdioBroker, SEQUENCE_HEADER,
};

/// The file the brokers here are built with; nothing is opened at it.
const PATH: &str = "/var/lib/orders/orders.ss";

/// A stream key the client refuses.
const REFUSED_KEY: &str = "orders/eu";

fn connected() -> InProcessFile {
    FileBroker::new(PATH).connect_in_process().expect("connects")
}

fn publish(file: &mut InProcessFile, stream: &str, body: &[u8]) {
    file.publish(stream, &HeaderMap::new(), body).expect("publish");
}

fn open(file: &mut InProcessFile, descriptor: &FileStream) -> usize {
    file.subscribe_stream(descriptor).expect("subscription opens").0
}

fn ready(next: Next) -> SeaMessage {
    match next {
        Next::Ready(message) => message,
        Next::End => panic!("the subscription ended"),
        Next::Pending => panic!("nothing is ready"),
    }
}

/// Every body a subscription has ready.
fn drain(file: &mut InProcessFile, id: usize) -> Vec<Vec<u8>> {
    let mut bodies = Vec::new();
    while let Next::Ready(message) = file.poll_next(id).next {
        bodies.push(message.payload().to_vec());
    }
    bodies
}

#[test]
fn a_stream_key_the_file_refuses_is_refused_in_process() {
    let mut connected = connected();
    let published = connected
        .publish(REFUSED_KEY, &HeaderMap::new(), b"{}")
        .expect_err("the file takes no such stream key");
    assert!(
        matches!(published, SeaFileError::Invalid(ref why) if why.contains(REFUSED_KEY)),
        "got {published:?}",
    );
    let subscribed = connected
        .subscribe_stream(&FileStream::new(REFUSED_KEY))
        .expect_err("the file reads no such stream key");
    assert!(
        matches!(subscribed, SeaFileError::Invalid(_)),
        "got {subscribed:?}"
    );
    connected.shutdown();
}

#[test]
fn a_stream_key_a_pipe_refuses_is_refused_in_process() {
    let mut connected = StdioBroker::new().connect_in_process();
    let published = connected
        .publish(REFUSED_KEY, &HeaderMap::new(), b"{}")
        .expect_err("a line takes no such stream key");
    assert!(
        matches!(published, SeaFileError::Invalid(_)),
        "got {published:?}"
    );
    let subscribed = connected
        .subscribe(REFUSED_KEY)
        .expect_err("standard input reads no such stream key");
    assert!(
        matches!(subscribed, SeaFileError::Invalid(_)),
        "got {subscribed:?}"
    );
    connected.shutdown();
}

#[test]
fn an_empty_line_is_refused_in_process() {
    let mut connected = StdioBroker::new().connect_in_process();
    let refused = connected
        .publish("lines", &HeaderMap::new(), b"")
        .expect_err("an empty message must not be transmitted");
    assert!(
        matches!(refused, SeaFileError::Invalid(ref why) if why.contains("empty")),
        "got {refused:?}",
    );
    connected.shutdown();
}

#[test]
fn an_invalid_beacon_interval_is_refused_in_process() {
    let refused = match FileBroker::new(PATH).beacon_interval(1000).connect_in_process() {
        Ok(_) => panic!("an interval that is not a multiple of 1024 must be refused"),
        Err(refused) => refused,
    };
    assert!(
        matches!(refused, SeaFileError::Invalid(ref why) if why.contains("beacon interval")),
        "got {refused:?}",
    );
}

#[test]
fn a_replay_completes_at_the_end_of_the_file_in_process() {
    let mut connected = connected();
    for body in [b"one".as_slice(), b"two".as_slice()] {
        publish(&mut connected, "orders", body);
    }

    let replay = open(&mut connected, &FileStream::new("orders").replay());
    let mut read = Vec::new();
    loop {
        match connected.poll_next(replay).next {
            Next::Ready(message) => read.push((message.position(), message.payload().to_vec())),
            Next::End => break,
            Next::Pending => panic!("the replay ends at the end of the file rather than waiting"),
        }
    }
    assert_eq!(
        read,
        [
            (FilePosition::sequence(1), b"one".to_vec()),
            (FilePosition::sequence(2), b"two".to_vec()),
        ],
    );
    connected.shutdown();
}

#[test]
fn a_seek_after_a_replay_ended_replays_again_in_process() {
    let mut connected = connected();
    for body in [b"one".as_slice(), b"two".as_slice()] {
        publish(&mut connected, "orders", body);
    }

    let replay = open(&mut connected, &FileStream::new("orders").replay());
    assert_eq!(
        drain(&mut connected, replay),
        [b"one".to_vec(), b"two".to_vec()]
    );

    connected
        .seek(replay, FilePosition::sequence(2))
        .expect("a replay that reached the end can be moved");
    let again = ready(connected.poll_next(replay).next);
    assert_eq!(again.payload(), b"two".as_slice());
    assert!(matches!(connected.poll_next(replay).next, Next::End));
    connected.shutdown();
}

#[test]
fn a_refused_seek_leaves_a_replay_where_it_was_in_process() {
    let mut connected = connected();
    for body in [b"one".as_slice(), b"two".as_slice()] {
        publish(&mut connected, "orders", body);
    }

    let replay = open(&mut connected, &FileStream::new("orders").replay());
    let first = ready(connected.poll_next(replay).next);
    assert_eq!(first.payload(), b"one".as_slice());

    connected
        .seek(replay, FilePosition::sequence(9))
        .expect_err("no message carries that sequence");
    let second = ready(connected.poll_next(replay).next);
    assert_eq!(second.payload(), b"two".as_slice());
    assert!(matches!(connected.poll_next(replay).next, Next::End));
    connected.shutdown();
}

#[test]
fn a_seek_after_the_end_of_stream_mark_is_refused_in_process() {
    let mut connected = FileBroker::new(PATH)
        .end_with_eos()
        .connect_in_process()
        .expect("connects");
    let tail = open(&mut connected, &FileStream::new("orders"));
    publish(&mut connected, "orders", b"one");
    connected.shutdown();

    let refused = connected
        .seek(tail, FilePosition::beginning())
        .expect_err("a subscription that ended at the mark cannot be moved");
    assert!(
        matches!(refused, SeaFileError::Seek { ref stream, .. } if stream == "orders"),
        "got {refused:?}",
    );
    assert_eq!(
        refused.message(),
        "seek error on 'orders': the stream ended at its end-of-stream mark"
    );
    let delivered = ready(connected.poll_next(tail).next);
    assert_eq!(delivered.payload(), b"one".as_slice());
    assert!(
        matches!(connected.poll_next(tail).next, Next::End),
        "the mark ends the subscription after what was queued",
    );
}

#[test]
fn the_end_of_stream_mark_ends_a_live_subscription_in_process() {
    for (end_with_eos, ends) in [(true, true), (false, false)] {
        let broker = FileBroker::new(PATH);
        let broker = if end_with_eos {
            broker.end_with_eos()
        } else {
            broker
        };
        let mut connected = broker.connect_in_process().expect("connects");
        let tail = open(&mut connected, &FileStream::new("orders"));
        connected.shutdown();

        let next = connected.poll_next(tail).next;
        if ends {
            assert!(
                matches!(next, Next::End),
                "the mark must end the subscription"
            );
        } else {
            assert!(
                matches!(next, Next::Pending),
                "without the mark nothing ends it"
            );
        }
    }
}

#[test]
fn each_transport_numbers_its_messages_as_its_client_does() {
    let mut file = connected();
    let from_file = open(&mut file, &FileStream::new("orders"));
    publish(&mut file, "orders", b"{}");
    let filed = ready(file.poll_next(from_file).next);
    assert_eq!(filed.headers().get_str(SEQUENCE_HEADER), Some("1"));

    let mut pipe = StdioBroker::new().loopback().connect_in_process();
    let from_pipe = pipe.subscribe("orders").expect("opens");
    pipe.publish("orders", &HeaderMap::new(), b"{}").expect("publish");
    let piped = ready(pipe.poll_next(from_pipe).next);
    assert_eq!(piped.headers().get_str(SEQUENCE_HEADER), Some("0"));

    file.shutdown();
    pipe.shutdown();
}

#[test]
fn a_header_crosses_the_envelope_the_file_writes() {
    let mut connected = connected();
    let subscriber = open(&mut connected, &FileStream::new("orders"));
    let mut headers = HeaderMap::new();
    headers.insert("x-tenant", "  acme  ");
    connected.publish("orders", &headers, b"{}").expect("publish");
    let delivered = ready(connected.poll_next(subscriber).next);
    assert_eq!(delivered.headers().get_str("x-tenant"), Some("acme"));
    connected.shutdown();
}

#[test]
fn a_line_the_service_writes_goes_downstream() {
    let mut pipe = StdioBroker::new().connect_in_process();
    let jobs = pipe.subscribe("jobs").expect("opens");
    let tee = pipe.subscribe("lines").expect("opens");
    assert_eq!(pipe.inject("jobs", &HeaderMap::new(), b"{\"id\":1}"), 1);
    assert_eq!(ready(pipe.poll_next(jobs).next).payload(), b"{\"id\":1}");
    let sent = pipe
        .publish("lines", &HeaderMap::new(), b"{\"job\":1}")
        .expect("publish");
    assert_eq!(sent, 0);

    let written = pipe.published("lines");
    assert_eq!(written.len(), 1);
    assert_eq!(written[0].payload.as_ref(), b"{\"job\":1}");
    assert!(matches!(pipe.poll_next(tee).next, Next::Pending));
    assert!(pipe.connected().routes("lines", &["jobs", "lines"]).is_empty());
}

#[test]
fn a_line_comes_back_under_loopback() {
    let mut pipe = StdioBroker::new().loopback().connect_in_process();
    let tee = pipe.subscribe("lines").expect("opens");
    let sent = pipe
        .publish("lines", &HeaderMap::new(), b"{\"job\":2}")
        .expect("publish");
    assert_eq!(sent, 1);
    assert_eq!(ready(pipe.poll_next(tee).next).payload(), b"{\"job\":2}");
    assert_eq!(
        pipe.connected().routes("lines", &["lines", "jobs", "lines"]),
        [0, 2]
    );
}

#[test]
fn a_published_message_is_delivered_with_its_payload_and_headers() {
    let mut connected = connected();
    let subscriber = open(&mut connected, &FileStream::new("orders"));
    let mut headers = HeaderMap::new();
    headers.insert("content-type", "application/json");
    headers.insert("x-tenant", "acme");
    connected
        .publish("orders", &headers, b"{\"id\":1}")
        .expect("publish succeeds");
    let message = ready(connected.poll_next(subscriber).next);
    assert_eq!(message.payload(), b"{\"id\":1}");
    assert_eq!(
        message.headers().get_str("content-type"),
        Some("application/json")
    );
    assert_eq!(message.headers().get_str("x-tenant"), Some("acme"));
    assert_eq!(message.headers().get_str(SEQUENCE_HEADER), Some("1"));
    assert_eq!(message.position(), FilePosition::sequence(1));
    assert_eq!(message.ack(), Err(SettleError::Unsupported));

    let logged = connected.published("orders");
    assert_eq!(logged.len(), 1);
    assert_eq!(logged[0].name, "orders");
    assert_eq!(logged[0].payload.as_ref(), b"{\"id\":1}");
    assert_eq!(logged[0].headers.get_str("x-tenant"), Some("acme"));
    assert!(connected.published("receipts").is_empty());
}

#[test]
fn a_handle_that_outlived_the_connection_reports_it() {
    let mut file = connected();
    file.shutdown();
    assert!(matches!(
        file.publish("orders", &HeaderMap::new(), b"late"),
        Err(SeaFileError::NotConnected)
    ));
    assert!(matches!(
        file.subscribe_stream(&FileStream::new("orders")),
        Err(SeaFileError::NotConnected)
    ));
    // An empty key is refused before the connection is looked at.
    assert!(matches!(
        file.subscribe_stream(&FileStream::new("")),
        Err(SeaFileError::Invalid(_))
    ));
    let mut pipe = StdioBroker::new().connect_in_process();
    pipe.shutdown();
    assert!(matches!(
        pipe.publish("pipe", &HeaderMap::new(), b"late"),
        Err(SeaFileError::NotConnected)
    ));
    assert!(matches!(
        pipe.subscribe("pipe"),
        Err(SeaFileError::NotConnected)
    ));
}

/// A file with `count` one-byte bodies under `orders`, the first written a millisecond after the
/// epoch and each of the others a millisecond after the one before.
fn recorded(count: u8) -> MemoryFile {
    let mut file = MemoryFile::new(false);
    for body in 1..=count {
        file.append_at("orders", vec![body], i128::from(body) * 1_000_000);
    }
    file
}

fn bodies(file: &mut MemoryFile, id: usize) -> Vec<u8> {
    let mut read = Vec::new();
    while let Next::Ready(message) = file.poll_next(id).next {
        read.push(message.payload()[0]);
    }
    read
}

#[test]
fn a_literal_sequence_position_resumes_at_that_message() {
    let mut file = recorded(4);
    let (tail, queued) = file.subscribe("orders", false);
    assert_eq!(queued, 0);
    assert_eq!(
        file.request_seek(tail, FilePosition::sequence(3))
            .expect("seeking to a sequence succeeds"),
        Sought { queued: 2, overtaken: 0 }
    );
    assert_eq!(bodies(&mut file, tail), [3, 4]);
    file.append_at("orders", vec![5], 9_000_000);
    assert_eq!(bodies(&mut file, tail), [5]);
    // Sequence zero is the position before the first message.
    file.request_seek(tail, FilePosition::sequence(0)).expect("seeks");
    assert_eq!(bodies(&mut file, tail), [1, 2, 3, 4, 5]);
}

#[test]
fn the_end_position_leaves_the_retained_file_behind() {
    let mut file = recorded(3);
    let (tail, _) = file.subscribe("orders", false);
    file.request_seek(tail, FilePosition::beginning()).expect("seeks");
    assert_eq!(ready(file.poll_next(tail).next).payload(), [1]);
    assert_eq!(
        file.request_seek(tail, FilePosition::end()).expect("seeks"),
        Sought { queued: 0, overtaken: 0 }
    );
    file.append_at("orders", vec![9], 9_000_000);
    let poll = file.poll_next(tail);
    assert_eq!(poll.superseded, 2);
    assert_eq!(poll.stale, 0);
    assert_eq!(ready(poll.next).payload(), [9]);
}

#[test]
fn a_timestamp_position_resumes_strictly_after_the_instant() {
    let mut file = recorded(3);
    let (tail, _) = file.subscribe("orders", false);
    file.request_seek(tail, FilePosition::timestamp(0))
        .expect("seeking to the epoch succeeds");
    assert_eq!(bodies(&mut file, tail), [1, 2, 3]);
    file.request_seek(tail, FilePosition::timestamp(1)).expect("seeks");
    assert_eq!(bodies(&mut file, tail), [2, 3]);
}

#[test]
fn a_position_past_the_end_of_the_stream_is_refused_and_ends_the_subscription() {
    for (past_the_end, why) in [
        (
            FilePosition::timestamp(3),
            "seek error on 'orders': no message is later than that instant",
        ),
        (
            FilePosition::sequence(99),
            "seek error on 'orders': no message carries that sequence",
        ),
    ] {
        let mut file = recorded(3);
        let (tail, _) = file.subscribe("orders", false);
        let refused = file
            .request_seek(tail, past_the_end)
            .expect_err("a position past the end must be refused");
        assert_eq!(refused.message(), why);
        assert!(matches!(file.poll_next(tail).next, Next::End));
        assert_eq!(file.append_at("orders", vec![4], 4_000_000), 0);
        assert!(matches!(file.poll_next(tail).next, Next::End));
        let closed = file
            .request_seek(tail, FilePosition::beginning())
            .expect_err("the subscription is closed");
        assert_eq!(
            closed.message(),
            "seek error on 'orders': the subscription has been closed"
        );
    }
}

#[test]
fn a_timestamp_outside_the_representable_range_is_refused() {
    let mut file = recorded(2);
    let (tail, _) = file.subscribe("orders", false);
    let refused = file
        .request_seek(tail, FilePosition::timestamp(u64::MAX))
        .expect_err("a millisecond count no instant answers to must be refused");
    assert_eq!(
        refused.message(),
        "invalid descriptor: '18446744073709551615' is not a valid timestamp: \
         timestamp was not in range",
    );
    // The subscription is still the live one it was, so a publish still reaches it.
    assert_eq!(file.append_at("orders", vec![9], 9_000_000), 1);
    assert_eq!(bodies(&mut file, tail), [9]);
    // The last instant of the year 9999 is one, and the millisecond after it is not.
    let last = file
        .request_seek(tail, FilePosition::timestamp(253_402_300_799_999))
        .expect_err("no message is that late");
    assert!(matches!(last, SeaFileError::Seek { .. }));
    let (other, _) = file.subscribe("orders", false);
    let past = file
        .request_seek(other, FilePosition::timestamp(253_402_300_800_000))
        .expect_err("no such instant");
    assert!(matches!(past, SeaFileError::Invalid(_)));
}

#[test]
fn a_seek_moves_a_subscription_with_a_backlog_larger_than_its_buffer() {
    let mut file = recorded(200);
    let (replay, queued) = file.subscribe("orders", true);
    assert_eq!(queued, 200);
    assert_eq!(ready(file.poll_next(replay).next).payload(), [1]);
    file.request_seek(replay, FilePosition::sequence(150)).expect("seeks");
    let expected: Vec<u8> = (150..=200).collect();
    assert_eq!(bodies(&mut file, replay), expected);
    assert!(matches!(file.poll_next(replay).next, Next::End));
}

#[test]
fn a_message_appended_after_a_seek_follows_the_replay_once() {
    let mut file = recorded(2);
    let (tail, _) = file.subscribe("orders", false);
    file.append_at("orders", vec![3], 3_000_000);
    assert_eq!(
        file.request_seek(tail, FilePosition::sequence(2)).expect("seeks"),
        Sought { queued: 2, overtaken: 0 }
    );
    file.append_at("orders", vec![4], 4_000_000);
    let poll = file.poll_next(tail);
    assert_eq!(poll.superseded, 1, "the queued copy of message 3 goes");
    assert_eq!(ready(poll.next).payload(), [2]);
    assert_eq!(bodies(&mut file, tail), [3, 4]);
    assert!(matches!(file.poll_next(tail).next, Next::Pending));
}

#[test]
fn a_replay_of_a_key_with_no_messages_finishes_instead_of_waiting() {
    let mut file = recorded(2);
    let (replay, queued) = file.subscribe("receipts", true);
    assert_eq!(queued, 0);
    assert!(matches!(file.poll_next(replay).next, Next::End));
    assert_eq!(file.append_at("receipts", vec![1], 0), 0, "it closed");
}

#[test]
fn a_dropped_subscription_reads_nothing_more() {
    let mut file = MemoryFile::new(true);
    let (tail, _) = file.subscribe("orders", false);
    let (other, _) = file.subscribe("receipts", false);
    assert_eq!(file.append_at("orders", vec![1], 0), 1);
    assert_eq!(file.append("orders", vec![2]), 1);
    file.finish();
    assert_eq!(file.unsubscribe(tail), 2);
    assert!(matches!(file.poll_next(tail).next, Next::End));
    assert_eq!(file.append_at("orders", vec![3], 0), 0);
    assert_eq!(file.published("orders").len(), 3);
    assert!(file.request_seek(tail, FilePosition::beginning()).is_err());
    assert!(matches!(file.poll_next(other).next, Next::End));
}

#[test]
fn a_message_written_now_is_later_than_the_epoch() {
    let mut file = MemoryFile::new(false);
    file.append("orders", b"one".to_vec());
    let (tail, _) = file.subscribe("orders", false);
    file.request_seek(tail, FilePosition::timestamp(0)).expect("seeks");
    assert_eq!(ready(file.poll_next(tail).next).payload(), b"one");
    let next_year = 4_102_444_800_000;
    assert!(file
        .request_seek(tail, FilePosition::timestamp(next_year))
        .is_err());
}

fn looped() -> InProcessPipe {
    StdioBroker::new().loopback().connect_in_process()
}

#[test]
fn a_looped_pipe_carries_binary_payloads() {
    let mut pipe = looped();
    let subscriber = pipe.subscribe("pipe").expect("subscription opens");
    let raw = [0u8, 159, 146, 150, 255];
    pipe.publish("pipe", &HeaderMap::new(), &raw)
        .expect("publish succeeds");
    let message = ready(pipe.poll_next(subscriber).next);
    assert_eq!(message.payload(), raw.as_slice());
    assert_eq!(message.headers().get_str(SEQUENCE_HEADER), Some("0"));
    assert_eq!(message.ack(), Err(SettleError::Unsupported));
    pipe.publish("pipe", &HeaderMap::new(), &raw)
        .expect("publish succeeds");
    let requeued = ready(pipe.poll_next(subscriber).next);
    assert_eq!(requeued.headers().get_str(SEQUENCE_HEADER), Some("1"));
    assert_eq!(requeued.nack(true), Err(SettleError::Unsupported));
    let empty = pipe
        .publish("pipe", &HeaderMap::new(), b"")
        .expect_err("an empty message must not be transmitted");
    assert!(matches!(empty, SeaFileError::Invalid(ref why) if why.contains("empty")));
    for i in 0..3u8 {
        pipe.publish("pipe", &HeaderMap::new(), &[i])
            .expect("publish succeeds");
    }
    let mut received = Vec::new();
    while let Next::Ready(message) = pipe.poll_next(subscriber).next {
        received.push(message.payload().to_vec());
    }
    assert_eq!(received, vec![vec![0], vec![1], vec![2]]);
    pipe.shutdown();
    assert!(matches!(
        pipe.publish("pipe", &HeaderMap::new(), b"late"),
        Err(SeaFileError::NotConnected)
    ));
}

#[test]
fn the_directions_of_a_pipe_count_apart() {
    let mut pipe = looped();
    let subscriber = pipe.subscribe("jobs").expect("opens");
    pipe.inject("jobs", &HeaderMap::new(), b"in");
    pipe.publish("jobs", &HeaderMap::new(), b"out").expect("publish");
    pipe.inject("jobs", &HeaderMap::new(), b"in again");
    let mut read = Vec::new();
    while let Next::Ready(message) = pipe.poll_next(subscriber).next {
        read.push((message.position(), message.payload().to_vec()));
    }
    assert_eq!(
        read,
        [
            (FilePosition::sequence(0), b"in".to_vec()),
            (FilePosition::sequence(0), b"out".to_vec()),
            (FilePosition::sequence(1), b"in again".to_vec()),
        ],
    );
    assert_eq!(pipe.published("jobs").len(), 3);
    pipe.inject("jobs", &HeaderMap::new(), b"unread");
    assert_eq!(pipe.unsubscribe(subscriber), 1);
    assert_eq!(pipe.inject("jobs", &HeaderMap::new(), b"nobody"), 0);
}

#[test]
fn a_message_with_headers_and_no_payload_is_a_line() {
    let mut pipe = looped();
    let subscriber = pipe.subscribe("jobs").expect("opens");
    let mut headers = HeaderMap::new();
    headers.insert("x-tenant", "acme");
    pipe.publish("jobs", &headers, b"").expect("publish");
    let message = ready(pipe.poll_next(subscriber).next);
    assert_eq!(message.payload(), b"");
    assert_eq!(message.headers().get_str("x-tenant"), Some("acme"));
}

#[test]
fn a_subscription_dropped_between_a_seek_and_its_poll_releases_both() {
    let mut file = recorded(3);
    let (tail, _) = file.subscribe("orders", false);
    file.append_at("orders", vec![4], 4_000_000);
    assert_eq!(
        file.request_seek(tail, FilePosition::sequence(2)).expect("seeks"),
        Sought { queued: 3, overtaken: 0 }
    );
    // The queued copy of message 4, and the three messages the seek holds.
    assert_eq!(file.unsubscribe(tail), 4);
    assert!(matches!(file.poll_next(tail).next, Next::End));
    let closed = file
        .request_seek(tail, FilePosition::beginning())
        .expect_err("the subscription is gone");
    assert_eq!(
        closed.message(),
        "seek error on 'orders': the subscription has been closed"
    );
    assert_eq!(file.append_at("orders", vec![5], 5_000_000), 0);
    assert_eq!(file.unsubscribe(tail), 0);
}

#[test]
fn a_connected_subscription_dropped_between_a_seek_and_its_poll_releases_both() {
    let mut connected = connected();
    let subscriber = open(&mut connected, &FileStream::new("orders"));
    publish(&mut connected, "orders", b"one");
    publish(&mut connected, "orders", b"two");
    connected
        .seek(subscriber, FilePosition::beginning())
        .expect("seeks");
    assert_eq!(connected.unsubscribe(subscriber), 4);
}

#[test]
fn a_seek_reports_the_replay_of_a_seek_it_overtakes() {
    let mut file = recorded(3);
    let (tail, _) = file.subscribe("orders", false);
    let first = file
        .request_seek(tail, FilePosition::beginning())
        .expect("seeks");
    assert_eq!(first, Sought { queued: 3, overtaken: 0 });
    let second = file
        .request_seek(tail, FilePosition::sequence(3))
        .expect("seeks");
    assert_eq!(second, Sought { queued: 1, overtaken: 3 });
    let poll = file.poll_next(tail);
    assert_eq!((poll.superseded, poll.stale), (0, 0));
    assert_eq!(ready(poll.next).payload(), [3]);
    assert_eq!(file.unsubscribe(tail), 0);
}

#[test]
fn deliveries_carry_consecutive_numbers_whatever_happens_between_them() {
    let mut file = MemoryFile::new(true);
    let (tail, _) = file.subscribe("orders", false);
    let mut read = Vec::new();
    for body in 1..=3u8 {
        file.append_at("orders", vec![body], i128::from(body));
        file.append_at("receipts", vec![9], 9);
        file.request_seek(tail, FilePosition::timestamp(u64::MAX))
            .expect_err("no such instant");
        let message = ready(file.poll_next(tail).next);
        assert!(matches!(file.poll_next(tail).next, Next::Pending));
        read.push((message.position(), message.payload()[0]));
    }
    file.append_at("orders", vec![4], 4);
    file.finish();
    let last = ready(file.poll_next(tail).next);
    read.push((last.position(), last.payload()[0]));
    assert_eq!(
        read,
        [
            (FilePosition::sequence(1), 1),
            (FilePosition::sequence(2), 2),
            (FilePosition::sequence(3), 3),
            (FilePosition::sequence(4), 4),
        ],
    );
    assert!(matches!(file.poll_next(tail).next, Next::End));
}

#[test]
fn what_is_written_after_a_seek_follows_the_log_from_its_target() {
    let mut file = recorded(3);
    let (tail, _) = file.subscribe("orders", false);
    file.request_seek(tail, FilePosition::sequence(2)).expect("seeks");
    file.append_at("orders", vec![4], 4_000_000);
    file.append_at("orders", vec![5], 5_000_000);
    assert_eq!(bodies(&mut file, tail), [2, 3, 4, 5]);
    // The number of a message names it however long the log has grown.
    file.request_seek(tail, FilePosition::sequence(2)).expect("seeks");
    assert_eq!(ready(file.poll_next(tail).next).payload(), [2]);
}

#[test]
fn a_captured_position_resolves_to_its_message_however_the_log_grows() {
    let mut log: Vec<Stored> = Vec::new();
    for body in 1..=3u8 {
        log.push(Stored { at: i128::from(body), bytes: vec![body] });
    }
    assert!(matches!(resolve(Some(&log), FilePosition::sequence(2)), Ok(2)));
    for body in 4..=9u8 {
        log.push(Stored { at: i128::from(body), bytes: vec![body] });
        assert!(matches!(resolve(Some(&log), FilePosition::sequence(2)), Ok(2)));
    }
    assert!(matches!(resolve(Some(&log), FilePosition::end()), Ok(10)));
    assert!(matches!(resolve(None, FilePosition::sequence(0)), Ok(1)));
    assert!(matches!(
        resolve(None, FilePosition::sequence(1)),
        Err(Unresolved::Refused(_))
    ));
    assert!(matches!(
        resolve(None, FilePosition::timestamp(u64::MAX)),
        Err(Unresolved::Invalid(_))
    ));
}
