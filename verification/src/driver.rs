//! The driver of a stream file's subscription: what it reads next, what it delivers, and how it
//! serves repositioning.
//!
//! The client's seek needs the consumer for itself and is not cancel-safe, so one task owns the
//! consumer: seeks arrive as commands and run to completion, while reads feed the delivery
//! channel. [`Driver`] is what that task decides by; the task performs it and reports back.
//!
//! Every seek that moved the reader opens a new generation. A delivery is stamped with the
//! generation it was read in, and the subscription lets through only those of the current one.

use sea_streamer_types::{MessageHeader, OwnedMessage, ShardId, StreamKey, Timestamp};
use vstd::prelude::*;
use vstd::string::*;

use crate::clock::{self, instant_of};
use crate::error::{self, SeaFileError};
use crate::message::{self, FilePosition, Record, SeaMessage};
use crate::wire;

verus! {

/// How many undelivered messages may sit between the driver and the consumer.
pub const CHANNEL_CAPACITY: usize = 64;

/// Where the reader is asked to go.
#[derive(Debug, Clone, Copy, PartialEq, Eq, Structural)]
pub enum SeekTarget {
    /// The start of the retained file.
    Beginning,
    /// The tip of the stream.
    End,
    /// The message with this sequence.
    SeqNo(u64),
    /// The first message later than this instant, in nanoseconds since the Unix epoch.
    Instant(i128),
}

/// Where `position` asks the reader to go, or the error that says no timestamp can hold it.
pub fn seek_target(position: FilePosition) -> (target: Result<SeekTarget, SeaFileError>)
    ensures
        match position {
            FilePosition::Beginning => target == Ok::<_, SeaFileError>(SeekTarget::Beginning),
            FilePosition::End => target == Ok::<_, SeaFileError>(SeekTarget::End),
            FilePosition::Sequence(sequence) => target == Ok::<_, SeaFileError>(
                SeekTarget::SeqNo(sequence),
            ),
            FilePosition::Timestamp(millis) => if clock::is_instant(millis * 1_000_000) {
                target == Ok::<_, SeaFileError>(
                    SeekTarget::Instant((millis * 1_000_000) as i128),
                )
            } else {
                target matches Err(error) && error@ == clock::refused_millis(millis as nat)
            },
        },
{
    match position {
        FilePosition::Beginning => Ok(SeekTarget::Beginning),
        FilePosition::End => Ok(SeekTarget::End),
        FilePosition::Sequence(sequence) => Ok(SeekTarget::SeqNo(sequence)),
        FilePosition::Timestamp(millis) => match instant_of(millis) {
            Ok(instant) => Ok(SeekTarget::Instant(instant)),
            Err(error) => Err(error),
        },
    }
}

/// What a subscription's driver reads the file through.
#[derive(Debug, Clone, Copy, PartialEq, Eq, Structural)]
pub enum Reader {
    /// The client's consumer, which follows the live tail.
    Tail,
    /// The file read directly, from the beginning, one message at a time.
    Replay,
}

impl Reader {
    /// Whether a seek can still move the reader once it reported the end of the stream: the
    /// client's consumer ends with the stream it tails, and the file itself stays readable from
    /// anywhere.
    pub fn repositions_after_end(&self) -> (repositions: bool)
        ensures
            repositions == (self is Replay),
    {
        match self {
            Reader::Tail => false,
            Reader::Replay => true,
        }
    }
}

/// What a replay does with a message it read off the file.
#[derive(Debug, Clone, Copy, PartialEq, Eq, Structural)]
pub enum ReplayStep {
    /// The end-of-stream mark: the stream ended.
    Ended,
    /// A message of the subscription's stream key.
    Deliver,
    /// A message of another key: one file holds every stream key, the client's internal ones
    /// included.
    Skip,
}

/// Whether `bytes` under `key` is the end-of-stream mark: the client's internal key, and the three
/// letters of the mark.
pub open spec fn is_end_mark(key: Seq<char>, bytes: Seq<u8>) -> bool {
    key == "SEA_STREAMER_INTERNAL"@ && bytes == seq![69u8, 79u8, 83u8]
}

/// `sea_streamer_file::is_end_of_stream`, on the message with this key and these bytes: whether
/// the key is the client's internal one and the bytes are `EOS`. A key that no message can have
/// is not the internal one.
#[verifier::external_body]
fn is_end_of_stream(key: &str, bytes: &[u8]) -> (end: bool)
    ensures
        end == is_end_mark(key@, bytes@),
{
    match StreamKey::new(key) {
        Ok(key) => {
            let header = MessageHeader::new(key, ShardId::new(0), 0, Timestamp::UNIX_EPOCH);
            sea_streamer_file::is_end_of_stream(&OwnedMessage::new(header, bytes.to_vec()))
        },
        Err(_) => false,
    }
}

/// What a replay of `wanted` does with a message of the key `found` that holds `bytes`.
pub fn replay_step(wanted: &str, found: &str, bytes: &[u8]) -> (step: ReplayStep)
    ensures
        step == (if is_end_mark(found@, bytes@) {
            ReplayStep::Ended
        } else if found@ == wanted@ {
            ReplayStep::Deliver
        } else {
            ReplayStep::Skip
        }),
{
    if is_end_of_stream(found, bytes) {
        ReplayStep::Ended
    } else if found.to_owned() == wanted.to_owned() {
        ReplayStep::Deliver
    } else {
        ReplayStep::Skip
    }
}

/// Why a read gave no message.
#[derive(Debug)]
pub enum ReadError {
    /// The writer's end-of-stream mark.
    StreamEnded,
    /// The end of the file.
    NotEnoughBytes,
    /// Anything else, as the client tells it.
    Other(String),
}

/// A receive failure that means the stream ended cleanly: the writer's end-of-stream mark, or the
/// end of the file in replay mode.
pub fn is_clean_end(error: &ReadError) -> (clean: bool)
    ensures
        clean == !(error is Other),
{
    match error {
        ReadError::StreamEnded => true,
        ReadError::NotEnoughBytes => true,
        ReadError::Other(_) => false,
    }
}

/// What the driver does once a read's outcome is delivered.
#[derive(Debug, Clone, Copy, PartialEq, Eq, Structural)]
pub enum After {
    /// Reads on.
    Read,
    /// The stream ended cleanly: nothing is read until a seek moves the reader again.
    Idle,
    /// The stream ended or the read failed, and the reader cannot move again: the driver stops.
    Stop,
}

/// One delivery of the driver: a message, a failure, or, with nothing in it, the clean end of the
/// stream.
pub type Item = Option<Result<SeaMessage, SeaFileError>>;

/// What an [`Item`] delivers.
pub type ItemView = Option<Result<message::MessageView, error::ErrorView>>;

/// What an item delivers.
pub open spec fn item_view(item: Item) -> ItemView {
    match item {
        Some(Ok(message)) => Some(Ok(message@)),
        Some(Err(error)) => Some(Err(error@)),
        None => None,
    }
}

/// The delivery one outcome of the reader's `next` produces, and what the driver does after it.
pub open spec fn delivery_of(
    next: Result<Record, ReadError>,
    reader: Reader,
    stream: Seq<char>,
) -> (ItemView, After) {
    match next {
        Ok(record) => (Some(Ok(message::delivered(record@))), After::Read),
        Err(ReadError::Other(source)) => (
            Some(Err(error::ErrorView::Receive { stream, source: source@ })),
            After::Stop,
        ),
        Err(_) => (
            None,
            if reader is Replay {
                After::Idle
            } else {
                After::Stop
            },
        ),
    }
}

/// The delivery one outcome of the reader's `next` produces, and what the driver does after it.
///
/// A stream that ended is not a failure. Both endings arrive here: the writer's end-of-stream
/// mark, which is the only thing that ends a live subscription, and the end of the retained file,
/// which ends a replay.
pub fn delivery(next: Result<Record, ReadError>, reader: Reader, stream: &str) -> (delivery: (
    Item,
    After,
))
    ensures
        item_view(delivery.0) == delivery_of(next, reader, stream@).0,
        delivery.1 == delivery_of(next, reader, stream@).1,
{
    match next {
        Ok(record) => (Some(Ok(SeaMessage::new(&record))), After::Read),
        Err(error) => {
            if is_clean_end(&error) {
                let after = if reader.repositions_after_end() {
                    After::Idle
                } else {
                    After::Stop
                };
                return (None, after);
            }
            match error {
                ReadError::Other(source) => (
                    Some(Err(SeaFileError::Receive { stream: stream.to_owned(), source })),
                    After::Stop,
                ),
                _ => (None, After::Stop),
            }
        },
    }
}

/// A delivery under the generation it was read in.
pub struct Stamped {
    /// The generation the reader was positioned in.
    pub epoch: u64,
    /// What is delivered.
    pub item: Item,
}

/// What a [`Stamped`] delivery holds.
pub struct StampedView {
    pub epoch: nat,
    pub item: ItemView,
}

impl View for Stamped {
    type V = StampedView;

    open spec fn view(&self) -> StampedView {
        StampedView { epoch: self.epoch as nat, item: item_view(self.item) }
    }
}

/// What the subscription makes of a delivery off the driver's channel.
pub enum Admitted {
    /// It was read before a seek, and is discarded.
    Stale,
    /// The clean end of the stream.
    End,
    /// A message, or the failure to read one.
    Item(Result<SeaMessage, SeaFileError>),
}

/// Lets a delivery through that was read in the current generation, and no other.
pub fn let_through(stamped: Stamped, epoch: u64) -> (admitted: Admitted)
    ensures
        admitted is Stale <==> stamped@.epoch != epoch,
        stamped@.epoch == epoch ==> match stamped@.item {
            Some(delivered) => admitted matches Admitted::Item(item) && item_view(Some(item))
                == Some(delivered),
            None => admitted is End,
        },
{
    if stamped.epoch != epoch {
        return Admitted::Stale;
    }
    match stamped.item {
        Some(item) => Admitted::Item(item),
        None => Admitted::End,
    }
}

/// A read that waits for room in the delivery channel.
struct Held {
    item: Item,
    after: After,
}

/// What the driver waits for.
#[derive(Debug, Clone, Copy, PartialEq, Eq, Structural)]
pub enum Wait {
    /// A command, the end of the subscription, or, with `read`, the next read, in that order.
    Select {
        /// Whether the reader is read.
        read: bool,
    },
    /// Room in the delivery channel for what was read; while there is none, a command as well, and
    /// a command first.
    Room,
    /// Nothing: the driver has stopped.
    Stopped,
}

/// What a subscription's driver task decides by.
pub struct Driver {
    stream: String,
    reader: Reader,
    /// The generation the reader is positioned in. Only a reposition that has run advances it.
    generation: u64,
    /// Set once the stream ended. The driver then serves seeks only, and the subscription stays
    /// repositionable until it is dropped.
    idle: bool,
    held: Option<Held>,
    stopped: bool,
}

/// What a [`Driver`] knows.
pub struct DriverView {
    pub stream: Seq<char>,
    pub reader: Reader,
    pub generation: nat,
    pub idle: bool,
    pub held: Option<(ItemView, After)>,
    pub stopped: bool,
}

impl View for Driver {
    type V = DriverView;

    closed spec fn view(&self) -> DriverView {
        DriverView {
            stream: self.stream@,
            reader: self.reader,
            generation: self.generation as nat,
            idle: self.idle,
            held: match self.held {
                Some(held) => Some((item_view(held.item), held.after)),
                None => None,
            },
            stopped: self.stopped,
        }
    }
}

/// What a driver waits for.
pub open spec fn waits(driver: DriverView) -> Wait {
    if driver.stopped {
        Wait::Stopped
    } else if driver.held is Some {
        Wait::Room
    } else {
        Wait::Select { read: !driver.idle }
    }
}

/// A driver after a reposition: one that ran opens a new generation, what was read before it goes
/// with the old position, and the reader is read again; a refused one leaves everything where it
/// was.
pub open spec fn repositioned(driver: DriverView, moved: bool) -> DriverView {
    if moved {
        DriverView { generation: driver.generation + 1, idle: false, held: None, ..driver }
    } else {
        driver
    }
}

/// What a driver holds until the delivery channel has room.
pub open spec fn held_item(driver: DriverView) -> ItemView {
    match driver.held {
        Some((item, _)) => item,
        None => None,
    }
}

/// A driver after what it held was sent on.
pub open spec fn sent(driver: DriverView) -> DriverView {
    match driver.held {
        Some((_, after)) => DriverView {
            held: None,
            idle: driver.idle || after is Idle,
            stopped: driver.stopped || after is Stop,
            ..driver
        },
        None => driver,
    }
}

impl Driver {
    /// The driver of a subscription on `stream`, at the start of its first generation.
    pub fn new(stream: &str, reader: Reader) -> (driver: Self)
        ensures
            driver@ == (DriverView {
                stream: stream@,
                reader,
                generation: 0,
                idle: false,
                held: None,
                stopped: false,
            }),
    {
        Driver {
            stream: stream.to_owned(),
            reader,
            generation: 0,
            idle: false,
            held: None,
            stopped: false,
        }
    }

    /// What the driver waits for.
    pub fn wait(&self) -> (wait: Wait)
        ensures
            wait == waits(self@),
    {
        if self.stopped {
            Wait::Stopped
        } else if self.held.is_some() {
            Wait::Room
        } else {
            Wait::Select { read: !self.idle }
        }
    }

    /// The generation the reader is positioned in, which the subscription filters by.
    pub fn generation(&self) -> (generation: u64)
        ensures
            generation == self@.generation,
    {
        self.generation
    }

    /// Nothing is left to serve: every seeker is gone, or the subscription is.
    pub fn stop(&mut self)
        ensures
            final(self)@ == (DriverView { stopped: true, ..old(self)@ }),
    {
        self.stopped = true;
    }

    /// The reader was read: what came of it is held until the delivery channel has room.
    pub fn read(&mut self, next: Result<Record, ReadError>)
        requires
            waits(old(self)@) == (Wait::Select { read: true }),
        ensures
            final(self)@ == (DriverView {
                held: Some(delivery_of(next, old(self)@.reader, old(self)@.stream)),
                ..old(self)@
            }),
    {
        let (item, after) = delivery(next, self.reader, self.stream.as_str());
        self.held = Some(Held { item, after });
    }

    /// The delivery channel has room: what was read goes out, under the generation it was read
    /// in.
    pub fn send(&mut self) -> (stamped: Stamped)
        requires
            waits(old(self)@) == Wait::Room,
        ensures
            old(self)@.held matches Some(held) && stamped@ == (StampedView {
                epoch: old(self)@.generation,
                item: held.0,
            }),
            final(self)@ == sent(old(self)@),
    {
        let epoch = self.generation;
        match self.held.take() {
            Some(held) => {
                match held.after {
                    After::Read => {},
                    After::Idle => {
                        self.idle = true;
                    },
                    After::Stop => {
                        self.stopped = true;
                    },
                }
                Stamped { epoch, item: held.item }
            },
            None => Stamped { epoch, item: None },
        }
    }

    /// A reposition ran, or was refused: the answer to the seek that asked for it.
    ///
    /// A reader that moved opens a new generation: everything read before it, queued for the
    /// handler or still held by the driver, is discarded on the way out. A refused seek leaves
    /// the reader and every queued delivery where they were.
    pub fn served(&mut self, result: Result<(), String>) -> (answer: Result<(), SeaFileError>)
        requires
            old(self)@.generation < u64::MAX,
        ensures
            final(self)@ == repositioned(old(self)@, result is Ok),
            match result {
                Ok(()) => answer is Ok,
                Err(source) => answer matches Err(error) && error@ == (error::ErrorView::Seek {
                    stream: old(self)@.stream,
                    source: source@,
                }),
            },
    {
        match result {
            Ok(()) => {
                self.generation = self.generation + 1;
                self.idle = false;
                self.held = None;
                Ok(())
            },
            Err(source) => Err(SeaFileError::Seek { stream: self.stream.clone(), source }),
        }
    }
}

/// The error of a seek whose subscription has no driver any more.
pub fn driver_gone(stream: &str) -> (error: SeaFileError)
    ensures
        error@ == (error::ErrorView::Seek {
            stream: stream@,
            source: "the subscription's driver task has shut down"@,
        }),
{
    SeaFileError::Seek {
        stream: stream.to_owned(),
        source: "the subscription's driver task has shut down".to_owned(),
    }
}

/// The deliveries of a channel that the subscription lets through in generation `epoch`.
pub open spec fn visible(channel: Seq<StampedView>, epoch: nat) -> Seq<StampedView> {
    channel.filter(|stamped: StampedView| stamped.epoch == epoch)
}

/// Whether a channel holds what `driver` sent: nothing is stamped with a generation that has not
/// begun.
pub open spec fn channel_of(channel: Seq<StampedView>, driver: DriverView) -> bool {
    forall|i: int| 0 <= i < channel.len() ==> (#[trigger] channel[i]).epoch <= driver.generation
}

/// What a driver sends on is let through, behind everything that was going to be, until a seek
/// moves the reader.
pub proof fn law_a_sent_delivery_is_let_through(channel: Seq<StampedView>, driver: DriverView)
    requires
        channel_of(channel, driver),
        driver.held is Some,
    ensures
        ({
            let stamped = StampedView { epoch: driver.generation, item: held_item(driver) };
            &&& channel_of(channel.push(stamped), sent(driver))
            &&& visible(channel.push(stamped), sent(driver).generation) == visible(
                channel,
                driver.generation,
            ).push(stamped)
        }),
{
    let stamped = StampedView { epoch: driver.generation, item: held_item(driver) };
    let current = |other: StampedView| other.epoch == driver.generation;
    assert(channel.push(stamped).drop_last() =~= channel);
    reveal(Seq::filter);
    assert(current(stamped));
}

/// A seek that moved the reader discards everything read before it: what is queued in the channel
/// is let through no more, and what the driver held is gone.
pub proof fn law_a_served_seek_discards_what_was_read(
    channel: Seq<StampedView>,
    driver: DriverView,
)
    requires
        channel_of(channel, driver),
    ensures
        ({
            let after = repositioned(driver, true);
            &&& channel_of(channel, after)
            &&& visible(channel, after.generation).len() == 0
            &&& after.held is None
        }),
{
    let after = repositioned(driver, true);
    lemma_nothing_visible(channel, after.generation);
}

proof fn lemma_nothing_visible(channel: Seq<StampedView>, epoch: nat)
    requires
        forall|i: int| 0 <= i < channel.len() ==> (#[trigger] channel[i]).epoch < epoch,
    ensures
        visible(channel, epoch).len() == 0,
    decreases channel.len(),
{
    reveal(Seq::filter);
    if channel.len() > 0 {
        lemma_nothing_visible(channel.drop_last(), epoch);
    }
}

/// What a driver comes to, and what it sends on, over reads that come one after another with no
/// seek between them.
pub open spec fn driven(driver: DriverView, reads: Seq<Result<Record, ReadError>>) -> (
    DriverView,
    Seq<StampedView>,
)
    decreases reads.len(),
{
    if reads.len() == 0 {
        (driver, Seq::empty())
    } else {
        let holding = DriverView {
            held: Some(delivery_of(reads[0], driver.reader, driver.stream)),
            ..driver
        };
        let stamped = StampedView { epoch: driver.generation, item: held_item(holding) };
        let rest = driven(sent(holding), reads.drop_first());
        (rest.0, seq![stamped] + rest.1)
    }
}

/// The reads of some messages.
pub open spec fn reads_of(records: Seq<Record>) -> Seq<Result<Record, ReadError>> {
    records.map_values(|record: Record| Ok(record))
}

/// The deliveries of some messages in one generation.
pub open spec fn deliveries_of(records: Seq<Record>, epoch: nat) -> Seq<StampedView> {
    records.map_values(
        |record: Record|
            StampedView { epoch, item: Some(Ok(message::delivered(record@))) },
    )
}

/// A stream is delivered whole before its end is: every message that is read goes out in order,
/// then the clean end. A replay that ended waits for a seek; a live subscription that read the
/// end-of-stream mark is over.
pub proof fn law_everything_read_is_delivered_before_the_end(
    driver: DriverView,
    records: Seq<Record>,
    end: ReadError,
)
    requires
        waits(driver) == (Wait::Select { read: true }),
        !(end is Other),
    ensures
        ({
            let (after, sent) = driven(driver, reads_of(records).push(Err(end)));
            &&& sent == deliveries_of(records, driver.generation).push(
                StampedView { epoch: driver.generation, item: None },
            )
            &&& waits(after) == (if driver.reader is Replay {
                Wait::Select { read: false }
            } else {
                Wait::Stopped
            })
        }),
    decreases records.len(),
{
    let reads = reads_of(records).push(Err(end));
    let expected = deliveries_of(records, driver.generation).push(
        StampedView { epoch: driver.generation, item: None },
    );
    if records.len() == 0 {
        reveal_with_fuel(driven, 2);
        assert(reads[0] == Err::<Record, ReadError>(end));
        assert(driven(driver, reads).1 =~= expected);
    } else {
        let rest = records.drop_first();
        assert(reads.drop_first() =~= reads_of(rest).push(Err(end)));
        assert(reads[0] == Ok::<Record, ReadError>(records[0]));
        law_everything_read_is_delivered_before_the_end(driver, rest, end);
        assert(driven(driver, reads).1 =~= expected);
    }
}

/// A read that fails for any other reason is reported, and is the last thing the driver delivers.
pub proof fn law_a_failed_read_is_reported_and_stops_the_driver(
    driver: DriverView,
    source: String,
)
    requires
        waits(driver) == (Wait::Select { read: true }),
    ensures
        ({
            let (after, sent) = driven(driver, seq![Err(ReadError::Other(source))]);
            &&& sent == seq![
                StampedView {
                    epoch: driver.generation,
                    item: Some(
                        Err(
                            error::ErrorView::Receive { stream: driver.stream, source: source@ },
                        ),
                    ),
                },
            ]
            &&& waits(after) == Wait::Stopped
        }),
{
    reveal_with_fuel(driven, 2);
    let reads = seq![Err::<Record, ReadError>(ReadError::Other(source))];
    assert(driven(driver, reads).1 =~= seq![driven(driver, reads).1[0]]);
}

/// A refused seek keeps what was queued: the channel lets through what it did, and the driver goes
/// on from where it was.
pub proof fn law_a_refused_seek_keeps_what_was_read(
    channel: Seq<StampedView>,
    driver: DriverView,
)
    requires
        channel_of(channel, driver),
    ensures
        ({
            let after = repositioned(driver, false);
            &&& after == driver
            &&& visible(channel, after.generation) == visible(channel, driver.generation)
        }),
{
}

/// A seek that moved the reader reopens a stream that had ended, and one the driver had stopped
/// reading for good stays stopped.
pub proof fn law_a_served_seek_reads_on(driver: DriverView)
    ensures
        !driver.stopped ==> waits(repositioned(driver, true)) == (Wait::Select { read: true }),
        driver.stopped ==> waits(repositioned(driver, true)) == Wait::Stopped,
{
}

/// A seek leaves the driver the reader and the stream it has, and does not stop it. One that moved
/// the reader opens the next generation with nothing read yet; a refused one changes nothing.
pub proof fn law_a_seek_leaves_the_reader_what_it_was(driver: DriverView, moved: bool)
    ensures
        repositioned(driver, moved).reader == driver.reader,
        repositioned(driver, moved).stream == driver.stream,
        repositioned(driver, moved).stopped == driver.stopped,
        moved ==> repositioned(driver, moved).generation == driver.generation + 1,
        moved ==> repositioned(driver, moved).held is None,
        moved ==> !repositioned(driver, moved).idle,
        !moved ==> repositioned(driver, moved) == driver,
{
}

/// Sending on what was read leaves the driver the reader, the stream and the generation it has, and
/// room for the next read. It goes on reading after a message, waits for a seek after the end of
/// a replay, and stops after the end of a live stream and after a failure.
pub proof fn law_the_driver_goes_on_until_the_stream_is_over(
    driver: DriverView,
    next: Result<Record, ReadError>,
)
    requires
        !driver.stopped,
        !driver.idle,
        driver.held is None,
    ensures
        ({
            let holding = DriverView {
                held: Some(delivery_of(next, driver.reader, driver.stream)),
                ..driver
            };
            let after = sent(holding);
            &&& waits(holding) == Wait::Room
            &&& after.reader == driver.reader
            &&& after.stream == driver.stream
            &&& after.generation == driver.generation
            &&& after.held is None
            &&& waits(after) == (match next {
                Ok(_) => Wait::Select { read: true },
                Err(ReadError::Other(_)) => Wait::Stopped,
                Err(_) => match driver.reader {
                    Reader::Replay => Wait::Select { read: false },
                    Reader::Tail => Wait::Stopped,
                },
            })
        }),
{
}

/// What a read delivers: the message that was read, under its key, with its number and its payload;
/// the failure, naming the stream and telling what the client told; or the end.
pub proof fn law_a_read_delivers_what_was_read(
    next: Result<Record, ReadError>,
    reader: Reader,
    stream: Seq<char>,
)
    ensures
        match next {
            Ok(record) => delivery_of(next, reader, stream).0 matches Some(Ok(delivered))
                && delivered.stream == record.key@ && delivered.sequence == record.sequence
                && delivered.payload == wire::opened(record.bytes@).1 && delivered
                == message::delivered(record@),
            Err(ReadError::Other(source)) => delivery_of(next, reader, stream).0 == Some(
                Err::<message::MessageView, _>(
                    error::ErrorView::Receive { stream, source: source@ },
                ),
            ),
            Err(_) => delivery_of(next, reader, stream).0 is None,
        },
{
}

/// Everything that is read goes out, one delivery for each message and in order, each with its
/// number, its key and its payload and under the generation it was read in; then comes the end,
/// once.
pub proof fn law_every_message_read_goes_out_once(
    driver: DriverView,
    records: Seq<Record>,
    end: ReadError,
)
    requires
        waits(driver) == (Wait::Select { read: true }),
        !(end is Other),
    ensures
        ({
            let (after, out) = driven(driver, reads_of(records).push(Err(end)));
            &&& out.len() == records.len() + 1
            &&& forall|i: int|
                0 <= i < records.len() ==> (#[trigger] out[i]).epoch == driver.generation && (
                out[i].item matches Some(Ok(delivered)) && delivered.stream == records[i].key@
                    && delivered.sequence == records[i].sequence && delivered.payload
                    == wire::opened(records[i].bytes@).1 && delivered == message::delivered(
                    records[i]@,
                ))
            &&& out.last().epoch == driver.generation
            &&& out.last().item is None
            &&& after.reader == driver.reader
            &&& after.stream == driver.stream
            &&& after.generation == driver.generation
            &&& waits(after) == (match driver.reader {
                Reader::Replay => Wait::Select { read: false },
                Reader::Tail => Wait::Stopped,
            })
        }),
{
    let reads = reads_of(records).push(Err(end));
    law_everything_read_is_delivered_before_the_end(driver, records, end);
    lemma_driven_keeps(driver, reads);
    let out = driven(driver, reads).1;
    assert forall|i: int| 0 <= i < records.len() implies (#[trigger] out[i]).epoch
        == driver.generation && (out[i].item matches Some(Ok(delivered)) && delivered.stream
        == records[i].key@ && delivered.sequence == records[i].sequence && delivered.payload
        == wire::opened(records[i].bytes@).1 && delivered == message::delivered(
        records[i]@,
    )) by {
        assert(out[i] == deliveries_of(records, driver.generation)[i]);
    }
}

proof fn lemma_driven_keeps(driver: DriverView, reads: Seq<Result<Record, ReadError>>)
    ensures
        driven(driver, reads).0.reader == driver.reader,
        driven(driver, reads).0.stream == driver.stream,
        driven(driver, reads).0.generation == driver.generation,
    decreases reads.len(),
{
    if reads.len() > 0 {
        let holding = DriverView {
            held: Some(delivery_of(reads[0], driver.reader, driver.stream)),
            ..driver
        };
        lemma_driven_keeps(sent(holding), reads.drop_first());
    }
}

/// A driver whose reader reads some messages to the end and is then moved, once for each of
/// `rounds`.
pub open spec fn after_rounds(
    driver: DriverView,
    rounds: Seq<Seq<Record>>,
    end: ReadError,
) -> DriverView
    decreases rounds.len(),
{
    if rounds.len() == 0 {
        driver
    } else {
        after_rounds(
            repositioned(driven(driver, reads_of(rounds[0]).push(Err(end))).0, true),
            rounds.drop_first(),
            end,
        )
    }
}

/// A replay can be moved for as long as it is there: however often it was read to its end and
/// moved again, it reads on when it was moved and waits for the next seek at its end.
pub proof fn law_a_replay_is_moved_any_number_of_times(
    driver: DriverView,
    rounds: Seq<Seq<Record>>,
    last: Seq<Record>,
    end: ReadError,
)
    requires
        driver.reader is Replay,
        waits(driver) == (Wait::Select { read: true }),
        !(end is Other),
    ensures
        ({
            let moved = after_rounds(driver, rounds, end);
            let (ended, out) = driven(moved, reads_of(last).push(Err(end)));
            &&& moved.reader is Replay
            &&& moved.stream == driver.stream
            &&& moved.generation == driver.generation + rounds.len()
            &&& waits(moved) == (Wait::Select { read: true })
            &&& out.len() == last.len() + 1
            &&& waits(ended) == (Wait::Select { read: false })
        }),
    decreases rounds.len(),
{
    if rounds.len() == 0 {
        law_every_message_read_goes_out_once(driver, last, end);
    } else {
        law_every_message_read_goes_out_once(driver, rounds[0], end);
        let ended = driven(driver, reads_of(rounds[0]).push(Err(end))).0;
        law_a_replay_is_moved_any_number_of_times(
            repositioned(ended, true),
            rounds.drop_first(),
            last,
            end,
        );
    }
}

/// A driver waits for room where it holds a read, for a command where it has read its stream to
/// the end, and for a command or the next read where it has not; one that has stopped waits for
/// nothing.
pub proof fn law_what_a_driver_waits_for(driver: DriverView)
    ensures
        waits(driver) == Wait::Stopped <==> driver.stopped,
        waits(driver) == Wait::Room <==> !driver.stopped && driver.held is Some,
        waits(driver) == (Wait::Select { read: true }) <==> !driver.stopped && driver.held is None
            && !driver.idle,
        waits(driver) == (Wait::Select { read: false }) <==> !driver.stopped && driver.held is None
            && driver.idle,
{
}

/// The end-of-stream mark is `EOS` under the client's own key, and nothing else is.
pub proof fn law_the_mark_is_told_from_messages(key: Seq<char>, bytes: Seq<u8>)
    ensures
        is_end_mark(key, bytes) <==> key == "SEA_STREAMER_INTERNAL"@ && bytes.len() == 3
            && bytes[0] == 69 && bytes[1] == 79 && bytes[2] == 83,
{
    if bytes.len() == 3 && bytes[0] == 69 && bytes[1] == 79 && bytes[2] == 83 {
        assert(bytes =~= seq![69u8, 79u8, 83u8]);
    }
}

/// A delivery holds the message or the failure it was made with, or neither, and the generation it
/// was read in.
pub proof fn law_a_delivery_holds_what_it_was_made_with(stamped: Stamped)
    ensures
        stamped@.epoch == stamped.epoch,
        stamped@.item == item_view(stamped.item),
        match stamped.item {
            Some(Ok(message)) => stamped@.item == Some(
                Ok::<message::MessageView, error::ErrorView>(message@),
            ),
            Some(Err(error)) => stamped@.item == Some(
                Err::<message::MessageView, error::ErrorView>(error@),
            ),
            None => stamped@.item is None,
        },
{
}

/// A replay delivers the messages of its own key and passes over every other, up to the mark.
pub proof fn law_a_replay_reads_its_own_key(
    wanted: &str,
    found: &str,
    bytes: &[u8],
    step: ReplayStep,
)
    requires
        call_ensures(replay_step, (wanted, found, bytes), step),
    ensures
        step is Ended <==> found@ == "SEA_STREAMER_INTERNAL"@ && bytes@.len() == 3 && bytes@[0]
            == 69 && bytes@[1] == 79 && bytes@[2] == 83,
        step is Deliver ==> found@ == wanted@,
        found@ != wanted@ && found@ != "SEA_STREAMER_INTERNAL"@ ==> step is Skip,
        found@ == wanted@ && found@ != "SEA_STREAMER_INTERNAL"@ ==> step is Deliver,
{
    law_the_mark_is_told_from_messages(found@, bytes@);
}

/// A seek asks the reader to go where the position says: an instant is the milliseconds of the
/// position in nanoseconds, and past the last one a timestamp can hold it is refused.
pub proof fn law_a_position_is_where_the_reader_goes(
    position: FilePosition,
    target: Result<SeekTarget, SeaFileError>,
)
    requires
        call_ensures(seek_target, (position,), target),
    ensures
        match position {
            FilePosition::Beginning => target matches Ok(target) && target is Beginning,
            FilePosition::End => target matches Ok(target) && target is End,
            FilePosition::Sequence(sequence) => target matches Ok(target) && target
                == SeekTarget::SeqNo(sequence),
            FilePosition::Timestamp(millis) => {
                &&& target is Err <==> millis > 253_402_300_799_999
                &&& target matches Ok(target) ==> (target matches SeekTarget::Instant(instant)
                    && instant == millis * 1_000_000)
                &&& target matches Err(error) ==> error@ is Invalid
            },
        },
{
    if let FilePosition::Timestamp(millis) = position {
        clock::law_an_instant_is_refused_past_the_last(millis as nat);
    }
}

/// The subscription lets a delivery through exactly in the generation it was read in, as it was
/// sent.
pub proof fn law_a_delivery_passes_in_its_own_generation(
    stamped: Stamped,
    epoch: u64,
    admitted: Admitted,
)
    requires
        call_ensures(let_through, (stamped, epoch), admitted),
    ensures
        admitted is Stale <==> stamped.epoch != epoch,
        stamped.epoch == epoch && stamped.item is None ==> admitted is End,
        stamped.epoch == epoch && stamped.item is Some ==> (admitted matches Admitted::Item(item)
            && item_view(Some(item)) == item_view(stamped.item)),
{
}

} // verus!
