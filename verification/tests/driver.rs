//! The driver of a file's subscription, run over a log held in memory the way a replay reads a
//! file: every message in order, then the end of the file.

use std::collections::VecDeque;

use ruststream::HeaderMap;
use ruststream_sea_file::driver::{
    delivery, driver_gone, is_clean_end, let_through, replay_step, seek_target, Admitted, After,
    Driver, ReadError, Reader, ReplayStep, SeekTarget, Stamped, Wait, CHANNEL_CAPACITY,
};
use ruststream_sea_file::message::Record;
use ruststream_sea_file::wire::encode;
use ruststream_sea_file::{FilePosition, SeaFileError};

/// A stream key's log, and where the reader stands in it.
struct Log {
    count: u8,
    next: u8,
}

impl Log {
    fn read(&mut self) -> Result<Record, ReadError> {
        if self.next == self.count {
            return Err(ReadError::NotEnoughBytes);
        }
        self.next += 1;
        Ok(Record {
            key: "orders".to_owned(),
            sequence: u64::from(self.next),
            at: 0,
            bytes: encode(&HeaderMap::new(), &[self.next], false),
        })
    }

    fn reposition(&mut self, target: SeekTarget) -> Result<(), String> {
        self.next = match target {
            SeekTarget::Beginning => 0,
            SeekTarget::End => self.count,
            // Past the last message, as the file refuses it: the reader stays where it was.
            SeekTarget::SeqNo(sequence) if sequence > u64::from(self.count) => {
                return Err("Out Of Bound".to_owned());
            }
            SeekTarget::SeqNo(sequence) => (sequence.max(1) - 1) as u8,
            SeekTarget::Instant(_) => unreachable!("these tests seek by sequence"),
        };
        Ok(())
    }
}

/// A subscription: the driver, the log it reads and the channel it feeds.
struct Subscription {
    driver: Driver,
    log: Log,
    channel: VecDeque<Stamped>,
}

impl Subscription {
    fn of(count: u8) -> Self {
        Self {
            driver: Driver::new("orders", Reader::Replay),
            log: Log { count, next: 0 },
            channel: VecDeque::new(),
        }
    }

    /// Runs the driver until it has to wait for a command or for room.
    fn run(&mut self) {
        loop {
            match self.driver.wait() {
                Wait::Select { read: true } => {
                    let next = self.log.read();
                    self.driver.read(next);
                }
                Wait::Room if self.channel.len() < CHANNEL_CAPACITY => {
                    let stamped = self.driver.send();
                    self.channel.push_back(stamped);
                }
                _ => return,
            }
        }
    }

    fn seek(&mut self, to: FilePosition) -> Result<(), SeaFileError> {
        let target = seek_target(to)?;
        let result = self.log.reposition(target);
        self.driver.served(result)
    }

    /// What the subscription delivers next: the body of a message, or `None` at its end.
    fn next_body(&mut self) -> Option<u8> {
        loop {
            self.run();
            let stamped = self.channel.pop_front().expect("the subscription moves on");
            match let_through(stamped, self.driver.generation()) {
                Admitted::Stale => {}
                Admitted::End => return None,
                Admitted::Item(item) => {
                    return Some(item.expect("the delivery is ok").payload()[0]);
                }
            }
        }
    }
}

#[test]
fn a_seek_completes_while_the_delivery_channel_is_full() {
    let backlog = u8::try_from(CHANNEL_CAPACITY * 2).expect("the backlog fits");
    let mut subscription = Subscription::of(backlog);
    assert_eq!(subscription.next_body(), Some(1));
    // Lets the driver run until it parks: the channel is full and a read waits for room.
    subscription.run();
    assert_eq!(subscription.channel.len(), CHANNEL_CAPACITY);
    assert_eq!(subscription.driver.wait(), Wait::Room);

    subscription
        .seek(FilePosition::sequence(100))
        .expect("the seek succeeds");

    for expected in 100..=backlog {
        assert_eq!(subscription.next_body(), Some(expected));
    }
    assert_eq!(subscription.next_body(), None, "the replay ends");
}

#[test]
fn a_seek_after_the_replay_reached_the_end_replays_again() {
    let mut subscription = Subscription::of(3);
    for expected in 1..=3 {
        assert_eq!(subscription.next_body(), Some(expected));
    }
    // Lets the driver read past the last message and report the end.
    subscription.run();

    subscription
        .seek(FilePosition::beginning())
        .expect("a seek after the end of the file succeeds");

    for expected in 1..=3 {
        assert_eq!(subscription.next_body(), Some(expected));
    }
    assert_eq!(subscription.next_body(), None, "the replay ends again");
}

#[test]
fn a_seek_after_the_stream_ended_reopens_it() {
    let mut subscription = Subscription::of(2);
    assert_eq!(subscription.next_body(), Some(1));
    assert_eq!(subscription.next_body(), Some(2));
    assert_eq!(subscription.next_body(), None);

    subscription
        .seek(FilePosition::sequence(2))
        .expect("a seek after the stream ended succeeds");

    assert_eq!(subscription.next_body(), Some(2));
    assert_eq!(subscription.next_body(), None);
}

#[test]
fn a_refused_seek_keeps_what_was_queued() {
    let mut subscription = Subscription::of(5);
    assert_eq!(subscription.next_body(), Some(1));
    // Lets the driver queue the rest of the file and its end.
    subscription.run();

    let refused = subscription
        .seek(FilePosition::sequence(9))
        .expect_err("no message carries that sequence");
    assert_eq!(refused.message(), "seek error on 'orders': Out Of Bound");

    for expected in 2..=5 {
        assert_eq!(subscription.next_body(), Some(expected));
    }
    assert_eq!(subscription.next_body(), None);
}

#[test]
fn an_instant_that_is_none_moves_nothing() {
    let mut subscription = Subscription::of(3);
    assert_eq!(subscription.next_body(), Some(1));
    let refused = subscription
        .seek(FilePosition::timestamp(u64::MAX))
        .expect_err("no such instant");
    assert!(matches!(refused, SeaFileError::Invalid(ref why) if why.contains("valid timestamp")));
    assert_eq!(subscription.driver.generation(), 0);
    assert_eq!(subscription.next_body(), Some(2));
}

#[test]
fn a_position_names_where_the_reader_goes() {
    assert_eq!(
        seek_target(FilePosition::beginning()).expect("a target"),
        SeekTarget::Beginning
    );
    assert_eq!(
        seek_target(FilePosition::end()).expect("a target"),
        SeekTarget::End
    );
    assert_eq!(
        seek_target(FilePosition::sequence(7)).expect("a target"),
        SeekTarget::SeqNo(7)
    );
    assert_eq!(
        seek_target(FilePosition::timestamp(1_700_000_000_123)).expect("a target"),
        SeekTarget::Instant(1_700_000_000_123_000_000)
    );
}

#[test]
fn a_live_subscription_ends_for_good_at_its_mark() {
    let mut driver = Driver::new("orders", Reader::Tail);
    assert_eq!(driver.wait(), Wait::Select { read: true });
    driver.read(Err(ReadError::StreamEnded));
    assert_eq!(driver.wait(), Wait::Room);
    let end = driver.send();
    assert_eq!(end.epoch, 0);
    assert!(end.item.is_none());
    assert_eq!(driver.wait(), Wait::Stopped);
}

#[test]
fn a_failed_read_is_reported_and_ends_the_subscription() {
    let mut driver = Driver::new("orders", Reader::Replay);
    driver.read(Err(ReadError::Other("disk".to_owned())));
    let failed = driver.send();
    match failed.item {
        Some(Err(error)) => assert_eq!(error.message(), "receive error on 'orders': disk"),
        _ => panic!("the failure must be reported"),
    }
    assert_eq!(driver.wait(), Wait::Stopped);

    let mut gone = Driver::new("orders", Reader::Replay);
    gone.stop();
    assert_eq!(gone.wait(), Wait::Stopped);
    assert_eq!(
        driver_gone("orders").message(),
        "seek error on 'orders': the subscription's driver task has shut down"
    );
}

#[test]
fn both_endings_are_clean() {
    assert!(is_clean_end(&ReadError::StreamEnded));
    assert!(is_clean_end(&ReadError::NotEnoughBytes));
    assert!(!is_clean_end(&ReadError::Other("x".to_owned())));
    for (reader, after) in [(Reader::Tail, After::Stop), (Reader::Replay, After::Idle)] {
        let (item, then) = delivery(Err(ReadError::NotEnoughBytes), reader, "orders");
        assert!(item.is_none());
        assert_eq!(then, after);
        assert_eq!(reader.repositions_after_end(), after == After::Idle);
    }
}

#[test]
fn a_replay_passes_over_the_other_keys_of_the_file() {
    assert_eq!(replay_step("orders", "orders", b"{}"), ReplayStep::Deliver);
    assert_eq!(replay_step("orders", "receipts", b"{}"), ReplayStep::Skip);
    let internal = "SEA_STREAMER_INTERNAL";
    assert_eq!(replay_step("orders", internal, b"EOS"), ReplayStep::Ended);
    // Neither the letters under a key of the service nor another internal message ends it.
    assert_eq!(replay_step("orders", "orders", b"EOS"), ReplayStep::Deliver);
    assert_eq!(replay_step("orders", internal, b"PULSE"), ReplayStep::Skip);
    assert_eq!(replay_step("orders", "a key no message has", b"EOS"), ReplayStep::Skip);
}
