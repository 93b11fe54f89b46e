//! [`SeaMessage`]: a delivered message, shared by the file and stdio transports.

use ruststream::HeaderMap;
use vstd::prelude::*;
use vstd::string::*;
use vstd::utf8::*;

use crate::headers::{self, insert_header};
use crate::text::{self, decimal_text};
use crate::wire;

verus! {

/// Header exposing the message's sequence number within its stream.
pub const SEQUENCE_HEADER: &'static str = "stream-sequence";

/// A position in a stream file's retained log.
///
/// Captured positions carry pinned semantics: seeking to one redelivers exactly that message. The
/// other forms keep the transport's own semantics: `Beginning` replays everything retained,
/// `End` skips to the tip, and `Timestamp` resumes at the earliest message strictly later than
/// the instant (milliseconds since the Unix epoch).
#[derive(Debug, Clone, Copy, PartialEq, Eq, Structural)]
pub enum FilePosition {
    /// Everything retained.
    Beginning,
    /// The tip of the stream.
    End,
    /// A captured message sequence (inclusive).
    Sequence(u64),
    /// Milliseconds since the Unix epoch (exclusive).
    Timestamp(u64),
}

impl FilePosition {
    /// Everything retained: [`FilePosition::Beginning`].
    #[must_use]
    pub fn beginning() -> (position: Self)
        ensures
            position == FilePosition::Beginning,
    {
        FilePosition::Beginning
    }

    /// The tip of the stream: [`FilePosition::End`].
    #[must_use]
    pub fn end() -> (position: Self)
        ensures
            position == FilePosition::End,
    {
        FilePosition::End
    }

    /// A message sequence, redelivered inclusively: [`FilePosition::Sequence`].
    #[must_use]
    pub fn sequence(sequence: u64) -> (position: Self)
        ensures
            position == FilePosition::Sequence(sequence),
    {
        FilePosition::Sequence(sequence)
    }

    /// Milliseconds since the Unix epoch, resuming strictly later: [`FilePosition::Timestamp`].
    #[must_use]
    pub fn timestamp(millis: u64) -> (position: Self)
        ensures
            position == FilePosition::Timestamp(millis),
    {
        FilePosition::Timestamp(millis)
    }
}

/// A message as the client reads it off the transport: the encoded bytes under the stream key,
/// the sequence and the moment it was written, in nanoseconds since the Unix epoch.
#[derive(Debug)]
pub struct Record {
    /// The stream key the message was written under.
    pub key: String,
    /// Its number within the stream key.
    pub sequence: u64,
    /// When it was written, in nanoseconds since the Unix epoch.
    pub at: i128,
    /// The bytes that were written, in their envelope if they have one.
    pub bytes: Vec<u8>,
}

/// What a [`Record`] holds.
pub struct RecordView {
    pub key: Seq<char>,
    pub sequence: nat,
    pub at: int,
    pub bytes: Seq<u8>,
}

impl View for Record {
    type V = RecordView;

    open spec fn view(&self) -> RecordView {
        RecordView {
            key: self.key@,
            sequence: self.sequence as nat,
            at: self.at as int,
            bytes: self.bytes@,
        }
    }
}

/// Why a delivery cannot be settled.
#[derive(Debug, Clone, Copy, PartialEq, Eq, Structural)]
pub enum SettleError {
    /// The transport keeps no consumer positions.
    Unsupported,
}

/// A message delivered by one of this crate's subscribers.
///
/// The transport keeps no consumer positions, so acknowledgement reports
/// [`SettleError::Unsupported`] rather than pretending; resume explicitly via the descriptor's
/// start position or a captured [`FilePosition`].
pub struct SeaMessage {
    payload: Vec<u8>,
    headers: HeaderMap,
    stream: String,
    sequence: u64,
}

/// What a [`SeaMessage`] delivers.
pub struct MessageView {
    pub payload: Seq<u8>,
    pub headers: Seq<(Seq<char>, Seq<u8>)>,
    pub stream: Seq<char>,
    pub sequence: nat,
}

impl View for SeaMessage {
    type V = MessageView;

    closed spec fn view(&self) -> MessageView {
        MessageView {
            payload: self.payload@,
            headers: headers::header_entries(self.headers),
            stream: self.stream@,
            sequence: self.sequence as nat,
        }
    }
}

/// `entries` with a message's sequence number among them.
pub open spec fn numbered(
    entries: Seq<(Seq<char>, Seq<u8>)>,
    sequence: nat,
) -> Seq<(Seq<char>, Seq<u8>)> {
    headers::put(entries, SEQUENCE_HEADER@, encode_utf8(text::decimal(sequence)))
}

/// What a record is delivered as: its envelope opened, and its sequence among the headers.
pub open spec fn delivered(record: RecordView) -> MessageView {
    MessageView {
        payload: wire::opened(record.bytes).1,
        headers: numbered(wire::opened(record.bytes).0, record.sequence),
        stream: record.key,
        sequence: record.sequence,
    }
}

/// Every delivery carries its sequence number in the [`SEQUENCE_HEADER`] header, whatever its
/// sender put there.
pub proof fn law_every_delivery_carries_its_sequence(record: RecordView)
    ensures
        ({
            let headers = delivered(record).headers;
            let place = headers::entry_place(headers, SEQUENCE_HEADER@);
            &&& 0 <= place < headers.len()
            &&& headers[place] == (
                SEQUENCE_HEADER@,
                encode_utf8(text::decimal(record.sequence)),
            )
        }),
{
    headers::lemma_put_is_found(
        wire::opened(record.bytes).0,
        SEQUENCE_HEADER@,
        encode_utf8(text::decimal(record.sequence)),
    );
}

/// Numbering a message puts its number into the `stream-sequence` header and leaves every other
/// header what it was, where it was: one header of that name is replaced, or one is added behind
/// the last.
pub proof fn law_numbering_keeps_the_other_headers(
    entries: Seq<(Seq<char>, Seq<u8>)>,
    sequence: nat,
)
    ensures
        forall|i: int|
            0 <= i < entries.len() && (#[trigger] entries[i]).0 != "stream-sequence"@ ==> i
                < numbered(entries, sequence).len() && numbered(entries, sequence)[i]
                == entries[i],
        (forall|i: int|
            0 <= i < entries.len() ==> (#[trigger] entries[i]).0 != "stream-sequence"@)
            ==> numbered(entries, sequence) == entries.push(
            ("stream-sequence"@, encode_utf8(text::decimal(sequence))),
        ),
        exists|place: int|
            0 <= place < numbered(entries, sequence).len() && (#[trigger] numbered(
                entries,
                sequence,
            )[place]) == ("stream-sequence"@, encode_utf8(text::decimal(sequence)))
                && numbered(entries, sequence).len() == (if place < entries.len() {
                entries.len()
            } else {
                entries.len() + 1
            }) && (place < entries.len() ==> entries[place].0 == "stream-sequence"@),
{
    let after = numbered(entries, sequence);
    let value = encode_utf8(text::decimal(sequence));
    headers::law_a_value_is_put_under_its_name_alone(entries, "stream-sequence"@, value);
    assert(after == headers::put(entries, "stream-sequence"@, value));
    if forall|i: int| 0 <= i < entries.len() ==> (#[trigger] entries[i]).0
        != "stream-sequence"@ {
        assert(after =~= entries.push(("stream-sequence"@, value)));
    }
}

/// A delivery is the message of its record: the payload out of its envelope, the key it was
/// written under, its number, and the headers of its envelope, each with the value it has there.
pub proof fn law_a_delivery_is_the_message_of_its_record(record: RecordView)
    ensures
        delivered(record).payload == wire::opened(record.bytes).1,
        delivered(record).stream == record.key,
        delivered(record).sequence == record.sequence,
        forall|i: int|
            0 <= i < wire::opened(record.bytes).0.len() && (#[trigger] wire::opened(
                record.bytes,
            ).0[i]).0 != "stream-sequence"@ ==> i < delivered(record).headers.len()
                && delivered(record).headers[i] == wire::opened(record.bytes).0[i],
        exists|place: int|
            0 <= place < delivered(record).headers.len() && (#[trigger] delivered(
                record,
            ).headers[place]) == (
                "stream-sequence"@,
                encode_utf8(text::decimal(record.sequence)),
            ) && (place == wire::opened(record.bytes).0.len() || wire::opened(
                record.bytes,
            ).0[place].0 == "stream-sequence"@),
        delivered(record).headers.len() <= wire::opened(record.bytes).0.len() + 1,
{
    let entries = wire::opened(record.bytes).0;
    let headers = delivered(record).headers;
    let own = ("stream-sequence"@, encode_utf8(text::decimal(record.sequence)));
    law_numbering_keeps_the_other_headers(entries, record.sequence);
    let place = choose|place: int|
        0 <= place < numbered(entries, record.sequence).len() && (#[trigger] numbered(
            entries,
            record.sequence,
        )[place]) == own && numbered(entries, record.sequence).len() == (if place
            < entries.len() {
            entries.len()
        } else {
            entries.len() + 1
        }) && (place < entries.len() ==> entries[place].0 == "stream-sequence"@);
    assert(headers[place] == own);
}

/// Deliveries of different numbers carry different numbers in their headers: what a handler reads
/// there names the message.
pub proof fn law_the_header_tells_deliveries_apart(left: nat, right: nat)
    requires
        left != right,
    ensures
        encode_utf8(text::decimal(left)) != encode_utf8(text::decimal(right)),
{
    text::law_different_numbers_are_written_differently(left, right);
    encode_utf8_decode_utf8(text::decimal(left));
    encode_utf8_decode_utf8(text::decimal(right));
}

/// Puts a message's sequence number among its headers.
pub(crate) fn number_headers(headers: &mut HeaderMap, sequence: u64)
    ensures
        headers::header_entries(*final(headers)) == numbered(
            headers::header_entries(*old(headers)),
            sequence as nat,
        ),
{
    let digits = decimal_text(sequence);
    insert_header(headers, SEQUENCE_HEADER, digits.as_str());
    proof {
        reveal_strlit("stream-sequence");
        assert(headers::lower(SEQUENCE_HEADER@) =~= SEQUENCE_HEADER@);
    }
}

impl SeaMessage {
    /// The delivery of a message read off the transport.
    pub fn new(record: &Record) -> (message: Self)
        ensures
            message@ == delivered(record@),
    {
        let (mut headers, payload) = wire::decode(record.bytes.as_slice());
        number_headers(&mut headers, record.sequence);
        SeaMessage { payload, headers, stream: record.key.clone(), sequence: record.sequence }
    }

    /// The stream key this message was published to.
    #[must_use]
    pub fn stream(&self) -> (stream: &str)
        ensures
            stream@ == self@.stream,
    {
        self.stream.as_str()
    }

    /// Where this message sits in its stream; seeking back to it redelivers exactly this message.
    pub fn position(&self) -> (position: FilePosition)
        ensures
            position matches FilePosition::Sequence(sequence) && sequence == self@.sequence,
    {
        FilePosition::Sequence(self.sequence)
    }

    /// The payload, out of its envelope.
    pub fn payload(&self) -> (payload: &[u8])
        ensures
            payload@ == self@.payload,
    {
        self.payload.as_slice()
    }

    /// The headers, with the sequence among them.
    pub fn headers(&self) -> (headers: &HeaderMap)
        ensures
            headers::header_entries(*headers) == self@.headers,
    {
        &self.headers
    }

    /// Acknowledges the delivery, which the transport does not support.
    pub fn ack(self) -> (settled: Result<(), SettleError>)
        ensures
            settled == Err::<(), SettleError>(SettleError::Unsupported),
    {
        Err(SettleError::Unsupported)
    }

    /// Rejects the delivery, which the transport does not support: it takes no message back.
    pub fn nack(self, _requeue: bool) -> (settled: Result<(), SettleError>)
        ensures
            settled == Err::<(), SettleError>(SettleError::Unsupported),
    {
        Err(SettleError::Unsupported)
    }
}

/// A record holds what the client read: the key, the number, the moment and the bytes.
pub proof fn law_a_record_is_what_was_read(record: Record)
    ensures
        record@.key == record.key@,
        record@.sequence == record.sequence,
        record@.at == record.at,
        record@.bytes == record.bytes@,
{
}

/// A delivery made of a record shows the record's number as its position and in its headers, and the
/// payload and the other headers of its envelope.
pub proof fn law_a_delivery_shows_its_record(record: &Record, message: SeaMessage)
    requires
        call_ensures(SeaMessage::new, (record,), message),
    ensures
        message@.sequence == record.sequence,
        message@.stream == record.key@,
        message@.payload == wire::opened(record.bytes@).1,
        exists|place: int|
            0 <= place < message@.headers.len() && (#[trigger] message@.headers[place]) == (
                "stream-sequence"@,
                encode_utf8(text::decimal(record.sequence as nat)),
            ),
        forall|i: int|
            0 <= i < wire::opened(record.bytes@).0.len() && (#[trigger] wire::opened(
                record.bytes@,
            ).0[i]).0 != "stream-sequence"@ ==> i < message@.headers.len() && message@.headers[i]
                == wire::opened(record.bytes@).0[i],
        message@.headers.len() <= wire::opened(record.bytes@).0.len() + 1,
{
    law_a_delivery_is_the_message_of_its_record(record@);
}

/// No delivery is settled, whichever way it is asked to be.
pub proof fn law_no_delivery_is_settled(
    message: SeaMessage,
    requeue: bool,
    acknowledged: Result<(), SettleError>,
    rejected: Result<(), SettleError>,
)
    requires
        call_ensures(SeaMessage::ack, (message,), acknowledged),
        call_ensures(SeaMessage::nack, (message, requeue), rejected),
    ensures
        acknowledged is Err,
        rejected is Err,
{
}

/// The position of a delivery is the number of its record, so that a seek to it names the message.
pub proof fn law_a_position_is_the_number_of_its_record(
    record: &Record,
    message: SeaMessage,
    position: FilePosition,
)
    requires
        call_ensures(SeaMessage::new, (record,), message),
        call_ensures(SeaMessage::position, (&message,), position),
    ensures
        position == FilePosition::Sequence(record.sequence),
{
}

/// The four ways to name a position are told apart and keep what they name.
pub proof fn law_positions_keep_what_they_name(
    n: u64,
    beginning: FilePosition,
    end: FilePosition,
    numbered: FilePosition,
    dated: FilePosition,
)
    requires
        call_ensures(FilePosition::beginning, (), beginning),
        call_ensures(FilePosition::end, (), end),
        call_ensures(FilePosition::sequence, (n,), numbered),
        call_ensures(FilePosition::timestamp, (n,), dated),
    ensures
        beginning is Beginning,
        end is End,
        numbered == FilePosition::Sequence(n),
        dated == FilePosition::Timestamp(n),
{
}

} // verus!
