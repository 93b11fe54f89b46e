//! The in-process stream file: a retained, positioned log per stream key, in memory.
//!
//! It models what a stream file is to its readers: one retained log per stream key, numbered from
//! one, a live subscription that starts at the tip, a replay that reads what the log holds and
//! completes at its end, positions and seeking with the file's refusals, and the end-of-stream
//! mark the broker's shutdown writes.

use bytes::Bytes;
use ruststream::HeaderMap;
use vstd::prelude::*;
use vstd::string::*;

use crate::buffer;
use crate::clock::{self, instant_of, read_moment};
use crate::error::{self, SeaFileError};
use crate::message::{self, FilePosition, Record, SeaMessage};
use crate::order;
use crate::queue::{self, Duplicate, Numbered, Polled, Sought};
use crate::registry::{self, Registry, SubscriptionId};
use crate::retained::{self, Retained};
use crate::wire;

verus! {

/// One message as the log holds it: its bytes and the moment it was written.
pub struct Stored {
    /// When it was written, in nanoseconds since the Unix epoch.
    pub at: i128,
    /// The bytes that were written, in their envelope if they have one.
    pub bytes: Vec<u8>,
}

/// What a [`Stored`] message holds.
pub struct StoredView {
    pub at: int,
    pub bytes: Seq<u8>,
}

impl View for Stored {
    type V = StoredView;

    open spec fn view(&self) -> StoredView {
        StoredView { at: self.at as int, bytes: self.bytes@ }
    }
}

impl Duplicate for Stored {
    fn duplicate(&self) -> (copy: Self) {
        Stored { at: self.at, bytes: vstd::slice::slice_to_vec(self.bytes.as_slice()) }
    }
}

/// A numbered message of a stream key's log, as the client would have read it.
pub open spec fn record_of(
    key: Seq<char>,
    message: queue::NumberedView<StoredView>,
) -> message::RecordView {
    message::RecordView {
        key,
        sequence: message.sequence,
        at: message.item.at,
        bytes: message.item.bytes,
    }
}

/// What a test reads back from a log: a message with its envelope opened, the way a subscription
/// would have received it.
pub struct RawMessage {
    /// The stream key the message was written under.
    pub name: String,
    /// Its headers.
    pub headers: HeaderMap,
    /// Its payload.
    pub payload: Bytes,
}

impl RawMessage {
    /// Whether this is `bytes` written under `name`, with the envelope opened.
    pub open spec fn opens(&self, name: Seq<char>, bytes: Seq<u8>) -> bool {
        &&& self.name@ == name
        &&& crate::headers::header_entries(self.headers) == wire::opened(bytes).0
        &&& buffer::contents(self.payload) == wire::opened(bytes).1
    }
}

/// Opens the envelope of every message in `items`.
pub(crate) fn open_all(name: &str, items: Option<&Vec<Stored>>) -> (messages: Vec<RawMessage>)
    ensures
        match items {
            Some(items) => {
                &&& messages@.len() == items@.len()
                &&& forall|i: int|
                    0 <= i < items@.len() ==> (#[trigger] messages@[i]).opens(
                        name@,
                        items@[i].bytes@,
                    )
            },
            None => messages@.len() == 0,
        },
{
    let mut messages: Vec<RawMessage> = Vec::new();
    if let Some(items) = items {
        let mut i: usize = 0;
        while i < items.len()
            invariant
                i <= items.len(),
                messages@.len() == i,
                forall|j: int|
                    0 <= j < i ==> (#[trigger] messages@[j]).opens(name@, items@[j].bytes@),
            decreases items.len() - i,
        {
            let (headers, payload) = wire::decode(items[i].bytes.as_slice());
            let payload = buffer::hold(payload);
            messages.push(RawMessage { name: name.to_owned(), headers, payload });
            i = i + 1;
        }
    }
    messages
}

/// Where a position resumes a log, or why it resumes nowhere.
pub enum Resolution {
    /// At the message with this number, as the log counts.
    At(nat),
    /// The position names no message the log holds.
    Refused(Seq<char>),
    /// The position is not one the transport can express.
    Invalid(error::ErrorView),
}

/// The place of the first message written after `instant`, or their number when there is none.
pub open spec fn first_later(entries: Seq<StoredView>, instant: int) -> int
    decreases entries.len(),
{
    if entries.len() == 0 || entries[0].at > instant {
        0
    } else {
        1 + first_later(entries.drop_first(), instant)
    }
}

/// The number the next message of a log would carry, as far as 64 bits count.
pub open spec fn next_number(retained: nat) -> nat {
    if retained < u64::MAX {
        retained + 1
    } else {
        u64::MAX as nat
    }
}

/// Where `to` resumes a log of `entries`. `End` is the one position past the last entry; sequence
/// zero is the position before the first message, which reads as the start.
pub open spec fn resolved(entries: Seq<StoredView>, to: FilePosition) -> Resolution {
    match to {
        FilePosition::Beginning => Resolution::At(1),
        FilePosition::End => Resolution::At(next_number(entries.len())),
        FilePosition::Sequence(sequence) => if sequence > entries.len() {
            Resolution::Refused("no message carries that sequence"@)
        } else if sequence == 0 {
            Resolution::At(1)
        } else {
            Resolution::At(sequence as nat)
        },
        FilePosition::Timestamp(millis) => if !clock::is_instant(millis * 1_000_000) {
            Resolution::Invalid(clock::refused_millis(millis as nat))
        } else if first_later(entries, millis * 1_000_000) < entries.len() {
            Resolution::At((first_later(entries, millis * 1_000_000) + 1) as nat)
        } else {
            Resolution::Refused("no message is later than that instant"@)
        },
    }
}

/// Why a position resolves to nothing.
#[derive(Debug)]
pub enum Unresolved {
    /// The position names no message the log holds.
    Refused(String),
    /// The position is not one the transport can express.
    Invalid(SeaFileError),
}

/// Resolves a position against one stream key's log into the sequence the subscription resumes
/// at, counting from one.
pub fn resolve(entries: Option<&Vec<Stored>>, to: FilePosition) -> (target: Result<
    u64,
    Unresolved,
>)
    ensures
        target matches Ok(target) ==> target >= 1,
        ({
            let list = match entries {
                Some(entries) => retained::item_views(entries@),
                None => Seq::empty(),
            };
            match target {
                Ok(target) => resolved(list, to) == Resolution::At(target as nat),
                Err(Unresolved::Refused(why)) => resolved(list, to) == Resolution::Refused(why@),
                Err(Unresolved::Invalid(error)) => resolved(list, to) == Resolution::Invalid(
                    error@,
                ),
            }
        }),
{
    let retained: u64 = match entries {
        Some(entries) => entries.len() as u64,
        None => 0,
    };
    match to {
        FilePosition::Beginning => Ok(1),
        FilePosition::End => if retained < u64::MAX {
            Ok(retained + 1)
        } else {
            Ok(u64::MAX)
        },
        FilePosition::Sequence(sequence) => if sequence > retained {
            Err(Unresolved::Refused("no message carries that sequence".to_owned()))
        } else if sequence == 0 {
            Ok(1)
        } else {
            Ok(sequence)
        },
        FilePosition::Timestamp(millis) => match instant_of(millis) {
            Err(error) => Err(Unresolved::Invalid(error)),
            Ok(instant) => {
                if let Some(log) = entries {
                    let ghost list = retained::item_views(log@);
                    let mut i: usize = 0;
                    proof {
                        assert(list.skip(0) =~= list);
                    }
                    while i < log.len()
                        invariant
                            i <= log.len(),
                            entries == Some(log),
                            list == retained::item_views(log@),
                            first_later(list, instant as int) == i + first_later(
                                list.skip(i as int),
                                instant as int,
                            ),
                            instant == millis * 1_000_000,
                            clock::is_instant(millis * 1_000_000),
                            to == FilePosition::Timestamp(millis),
                        decreases log.len() - i,
                    {
                        proof {
                            assert(list.skip(i as int).drop_first() =~= list.skip(i + 1));
                            assert(list.skip(i as int)[0] == log@[i as int]@);
                        }
                        if log[i].at > instant {
                            return Ok(i as u64 + 1);
                        }
                        i = i + 1;
                    }
                    proof {
                        assert(list.skip(i as int).len() == 0);
                    }
                }
                Err(Unresolved::Refused("no message is later than that instant".to_owned()))
            },
        },
    }
}

/// One stream file, held in memory: what the connected broker, its publishers and its
/// subscriptions share when the broker is connected in process.
pub struct MemoryFile {
    registry: Registry<Stored>,
    /// Every message the file holds, per stream key, in the order it was written. A message's
    /// sequence is its place in its key's list, counted from one, the way the file counts it.
    streams: Retained<Stored>,
    /// Set once the broker's shutdown wrote the end-of-stream mark.
    marked: bool,
    /// The broker's own setting: whether its shutdown writes the end-of-stream mark.
    end_with_eos: bool,
}

/// What a poll of a subscription delivers.
pub enum Next {
    /// The next delivery.
    Ready(SeaMessage),
    /// The subscription has ended: at the end-of-stream mark, at the end of the file for a
    /// replay, or after a refused seek.
    End,
    /// Nothing yet.
    Pending,
}

/// One poll of a subscription: what it delivers, and how many queued messages it let go.
pub struct NextPoll {
    /// The next delivery, the end, or neither yet.
    pub next: Next,
    /// How many queued messages a seek took the place of.
    pub superseded: usize,
    /// How many stale copies were dropped.
    pub stale: usize,
}

/// Whether `next` delivers what a poll of a subscription on `key` found.
pub open spec fn delivers(
    next: Next,
    key: Seq<char>,
    found: queue::PolledView<StoredView>,
) -> bool {
    match found {
        queue::PolledView::Ready(message) => next matches Next::Ready(delivery) && delivery@
            == message::delivered(record_of(key, message)),
        queue::PolledView::End => next is End,
        queue::PolledView::Pending => next is Pending,
    }
}

/// Turns what a poll found into the delivery of a subscription on `key`.
pub(crate) fn deliver(key: &str, poll: queue::Poll<Stored>) -> (delivered: NextPoll)
    ensures
        delivers(delivered.next, key@, poll.found@),
        delivered.superseded == poll.superseded,
        delivered.stale == poll.stale,
{
    let next = match poll.found {
        Polled::Ready(message) => {
            let record = Record {
                key: key.to_owned(),
                sequence: message.sequence,
                at: message.item.at,
                bytes: message.item.bytes,
            };
            Next::Ready(SeaMessage::new(&record))
        },
        Polled::End => Next::End,
        Polled::Pending => Next::Pending,
    };
    NextPoll { next, superseded: poll.superseded, stale: poll.stale }
}

/// The refusal of a seek on `stream`.
pub open spec fn refused_seek(stream: Seq<char>, why: Seq<char>) -> error::ErrorView {
    error::ErrorView::Seek { stream, source: why }
}

/// The refusal of a seek on `stream`.
pub(crate) fn refused(stream: &str, why: &str) -> (error: SeaFileError)
    ensures
        error@ == refused_seek(stream@, why@),
{
    SeaFileError::Seek { stream: stream.to_owned(), source: why.to_owned() }
}

/// A subscription as it opens over a log: at the tip, or, for a replay, with everything the log
/// holds queued.
pub open spec fn subscribed(
    key: Seq<char>,
    replay: bool,
    entries: Seq<StoredView>,
) -> queue::SubscriptionView<StoredView> {
    queue::SubscriptionView {
        queue: if replay {
            queue::as_entries(retained::numbered_from(entries, 0, 1))
        } else {
            Seq::empty()
        },
        ..queue::opened(key, replay)
    }
}

/// What a seek of `subscription` to `to` leaves of it, over a log of `entries` that is `marked` or
/// not.
pub open spec fn after_seek(
    subscription: queue::SubscriptionView<StoredView>,
    entries: Seq<StoredView>,
    marked: bool,
    to: FilePosition,
) -> queue::SubscriptionView<StoredView> {
    if subscription.ended || (!subscription.replay && marked) {
        subscription
    } else {
        match resolved(entries, to) {
            Resolution::At(target) => queue::sought(
                subscription,
                target,
                retained::numbered_from(entries, target - 1, 1),
            ),
            // A replay reads the file itself, and that reader stays where it was; the file
            // client's consumer does not survive a refused seek.
            Resolution::Refused(_) => if subscription.replay {
                subscription
            } else {
                queue::SubscriptionView { open: false, ended: true, ..subscription }
            },
            Resolution::Invalid(_) => subscription,
        }
    }
}

/// The error a seek of `subscription` to `to` is refused with, if it is.
pub open spec fn seek_error(
    subscription: queue::SubscriptionView<StoredView>,
    entries: Seq<StoredView>,
    marked: bool,
    to: FilePosition,
) -> Option<error::ErrorView> {
    if subscription.ended {
        Some(refused_seek(subscription.key, "the subscription has been closed"@))
    } else if !subscription.replay && marked {
        Some(refused_seek(subscription.key, "the stream ended at its end-of-stream mark"@))
    } else {
        match resolved(entries, to) {
            Resolution::At(_) => None,
            Resolution::Refused(why) => Some(refused_seek(subscription.key, why)),
            Resolution::Invalid(error) => Some(error),
        }
    }
}

impl MemoryFile {
    /// The messages the file holds under `key`, in the order they were written.
    pub closed spec fn retained(&self, key: Seq<char>) -> Seq<StoredView> {
        self.streams.list(key)
    }

    /// Every subscription that was opened on the file.
    pub closed spec fn subscriptions(&self) -> Seq<queue::SubscriptionView<StoredView>> {
        self.registry@
    }

    /// Whether the end-of-stream mark was written.
    pub closed spec fn is_marked(&self) -> bool {
        self.marked
    }

    /// Whether the broker's shutdown writes the end-of-stream mark.
    pub closed spec fn ends_with_eos(&self) -> bool {
        self.end_with_eos
    }

    /// What holds of every file: each of its subscriptions delivers the messages of its stream
    /// key's log, in order and none left out, and only a marked file has marks queued.
    pub open spec fn consistent(&self) -> bool {
        forall|i: int|
            0 <= i < self.subscriptions().len() ==> order::upheld(
                #[trigger] self.subscriptions()[i],
                self.retained(self.subscriptions()[i].key),
                self.is_marked(),
            )
    }

    /// An empty file, finished with the end-of-stream mark on shutdown when `end_with_eos`.
    pub fn new(end_with_eos: bool) -> (file: Self)
        ensures
            forall|key: Seq<char>| (#[trigger] file.retained(key)).len() == 0,
            file.subscriptions().len() == 0,
            !file.is_marked(),
            file.ends_with_eos() == end_with_eos,
            file.consistent(),
    {
        MemoryFile {
            registry: Registry::new(),
            streams: Retained::new(),
            marked: false,
            end_with_eos,
        }
    }

    /// Whether writing `bytes` under `key` at the moment `at` takes the file from `before` to
    /// `self`: the message goes behind what the key holds, under the next number, and into the
    /// queue of every subscription that listens on the key.
    pub open spec fn appended(
        &self,
        before: &MemoryFile,
        key: Seq<char>,
        bytes: Seq<u8>,
        at: int,
    ) -> bool {
        let stored = StoredView { at, bytes };
        &&& self.retained(key) == before.retained(key).push(stored)
        &&& forall|other: Seq<char>|
            other != key ==> (#[trigger] self.retained(other)) == before.retained(other)
        &&& self.subscriptions() == registry::fanned_out(
            before.subscriptions(),
            key,
            queue::NumberedView { sequence: before.retained(key).len() + 1, item: stored },
        )
        &&& self.is_marked() == before.is_marked()
        &&& self.ends_with_eos() == before.ends_with_eos()
    }

    /// Appends one encoded message under `key`, written at the moment `at`, and hands it to every
    /// subscription reading it; how many there were.
    pub fn append_at(&mut self, key: &str, bytes: Vec<u8>, at: i128) -> (sent: usize)
        ensures
            final(self).appended(old(self), key@, bytes@, at as int),
            sent == registry::listeners(old(self).subscriptions(), key@),
            old(self).consistent() ==> final(self).consistent(),
    {
        let ghost item = StoredView { at: at as int, bytes: bytes@ };
        let stored = Stored { at, bytes };
        let copy = stored.duplicate();
        let count = self.streams.push(key, stored);
        let message = Numbered { sequence: count as u64, item: copy };
        let sent = self.registry.fan_out(key, &message);
        proof {
            if old(self).consistent() {
                assert forall|i: int| 0 <= i < self.subscriptions().len() implies order::upheld(
                    #[trigger] self.subscriptions()[i],
                    self.retained(self.subscriptions()[i].key),
                    self.is_marked(),
                ) by {
                    let before = old(self).subscriptions()[i];
                    assert(order::upheld(before, old(self).retained(before.key), self.marked));
                    if before.key == key@ {
                        order::lemma_upheld_reached(
                            before,
                            old(self).retained(key@),
                            self.marked,
                            item,
                        );
                    }
                }
            }
        }
        sent
    }

    /// Appends one encoded message under `key`, written now, and hands it to every subscription
    /// reading it; how many there were.
    pub fn append(&mut self, key: &str, bytes: Vec<u8>) -> (sent: usize)
        ensures
            exists|at: int|
                clock::is_moment(at) && #[trigger] final(self).appended(
                    old(self),
                    key@,
                    bytes@,
                    at,
                ),
            sent == registry::listeners(old(self).subscriptions(), key@),
            old(self).consistent() ==> final(self).consistent(),
    {
        let at = read_moment();
        self.append_at(key, bytes, at)
    }

    /// Every message written under `name`, in order, with its envelope opened.
    pub fn published(&self, name: &str) -> (messages: Vec<RawMessage>)
        ensures
            messages@.len() == self.retained(name@).len(),
            forall|i: int|
                0 <= i < messages@.len() ==> (#[trigger] messages@[i]).opens(
                    name@,
                    self.retained(name@)[i].bytes,
                ),
    {
        let items = self.streams.get(name);
        let messages = open_all(name, items);
        proof {
            if let Some(items) = items {
                assert forall|i: int| 0 <= i < messages@.len() implies (
                #[trigger] messages@[i]).opens(name@, self.retained(name@)[i].bytes) by {
                    assert(retained::item_views(items@)[i] == items@[i]@);
                }
            }
        }
        messages
    }

    /// Opens a subscription on `key`: at the tip of the log, or, for a replay, over everything
    /// the log holds, completing at its end. Its id, and how many messages were queued for it.
    pub fn subscribe(&mut self, key: &str, replay: bool) -> (opened: (SubscriptionId, usize))
        ensures
            opened.0 == old(self).subscriptions().len(),
            opened.1 == (if replay {
                old(self).retained(key@).len()
            } else {
                0
            }),
            final(self).subscriptions() == old(self).subscriptions().push(
                subscribed(key@, replay, old(self).retained(key@)),
            ),
            forall|other: Seq<char>|
                (#[trigger] final(self).retained(other)) == old(self).retained(other),
            final(self).is_marked() == old(self).is_marked(),
            final(self).ends_with_eos() == old(self).ends_with_eos(),
            old(self).consistent() ==> final(self).consistent(),
    {
        let id = self.registry.open(key, replay);
        let ghost entries = self.streams.list(key@);
        let ghost others = old(self).registry@;
        proof {
            order::lemma_upheld_subscribed(key@, replay, entries, self.marked);
        }
        if !replay {
            return (id, 0);
        }
        let count = self.streams.count(key);
        let messages = self.streams.numbered(key, 0, 1);
        let ghost numbered = retained::numbered_from(entries, 0, 1);
        proof {
            assert(self.registry@ =~= others.push(queue::opened(key@, replay)));
            assert(queue::as_entries(numbered.take(0)) =~= Seq::empty());
            assert(count == numbered.len());
        }
        for message in it: messages
            invariant
                id == others.len(),
                replay,
                queue::numbered_views(it.seq()) == numbered,
                self.streams == old(self).streams,
                self.marked == old(self).marked,
                self.end_with_eos == old(self).end_with_eos,
                self.registry@ == others.push(
                    (queue::SubscriptionView {
                        queue: queue::as_entries(numbered.take(it.index())),
                        ..queue::opened(key@, replay)
                    }),
                ),
        {
            proof {
                assert(numbered[it.index()] == message@);
                assert(queue::as_entries(numbered.take(it.index() + 1)) =~= queue::as_entries(
                    numbered.take(it.index()),
                ).push(queue::EntryView::Message(message@)));
            }
            self.registry.send(id, message);
            proof {
                assert(self.registry@ =~= others.push(
                    queue::SubscriptionView {
                        queue: queue::as_entries(numbered.take(it.index() + 1)),
                        ..queue::opened(key@, replay)
                    },
                ));
            }
        }
        proof {
            assert(numbered.take(numbered.len() as int) =~= numbered);
        }
        (id, count)
    }

    /// What the broker's shutdown does to the file: when the broker writes one, the end-of-stream
    /// mark ends every subscription. Without it a live subscription goes on waiting, as it does
    /// on a file.
    pub fn finish(&mut self)
        ensures
            final(self).is_marked() == (old(self).is_marked() || old(self).ends_with_eos()),
            final(self).subscriptions() == (if old(self).ends_with_eos() {
                registry::all_marked(old(self).subscriptions())
            } else {
                old(self).subscriptions()
            }),
            forall|key: Seq<char>|
                (#[trigger] final(self).retained(key)) == old(self).retained(key),
            final(self).ends_with_eos() == old(self).ends_with_eos(),
            old(self).consistent() ==> final(self).consistent(),
    {
        if self.end_with_eos {
            self.marked = true;
            self.registry.end_all();
            proof {
                if old(self).consistent() {
                    assert forall|i: int| 0 <= i < self.subscriptions().len() implies order::upheld(
                        #[trigger] self.subscriptions()[i],
                        self.retained(self.subscriptions()[i].key),
                        self.is_marked(),
                    ) by {
                        let before = old(self).subscriptions()[i];
                        let log = old(self).retained(before.key);
                        assert(order::upheld(before, log, old(self).marked));
                        order::lemma_upheld_marked(before, log, old(self).marked);
                    }
                }
            }
        }
    }

    /// Resolves `to` against the log and hands the resulting replay to the subscription; how many
    /// messages the replay holds, and how many of a seek that still waited it overtook.
    ///
    /// # Errors
    ///
    /// Returns [`SeaFileError::Seek`] once the subscription is closed, once a live subscription
    /// read the end-of-stream mark, and when the position names nothing the log holds (which ends
    /// a live subscription and leaves a replay where it was), and [`SeaFileError::Invalid`] for
    /// an instant no timestamp can hold.
    pub fn request_seek(&mut self, id: SubscriptionId, to: FilePosition) -> (sought: Result<
        Sought,
        SeaFileError,
    >)
        requires
            id < old(self).subscriptions().len(),
        ensures
            ({
                let subscription = old(self).subscriptions()[id as int];
                let entries = old(self).retained(subscription.key);
                &&& match seek_error(subscription, entries, old(self).is_marked(), to) {
                    Some(refusal) => sought matches Err(error) && error@ == refusal,
                    None => {
                        &&& sought matches Ok(sought) && resolved(entries, to) matches
                            Resolution::At(target) && sought.queued == retained::numbered_from(
                            entries,
                            target - 1,
                            1,
                        ).len() && sought.overtaken == queue::waiting(subscription)
                    },
                }
                &&& final(self).subscriptions() == old(self).subscriptions().update(
                    id as int,
                    after_seek(subscription, entries, old(self).is_marked(), to),
                )
            }),
            forall|key: Seq<char>|
                (#[trigger] final(self).retained(key)) == old(self).retained(key),
            final(self).is_marked() == old(self).is_marked(),
            final(self).ends_with_eos() == old(self).ends_with_eos(),
            old(self).consistent() ==> final(self).consistent(),
    {
        let ghost subscription = self.registry@[id as int];
        proof {
            assert(self.registry@.update(id as int, subscription) =~= self.registry@);
            if self.consistent() {
                assert(order::upheld(
                    subscription,
                    self.retained(subscription.key),
                    self.marked,
                ));
                order::lemma_upheld_after_seek(
                    subscription,
                    self.retained(subscription.key),
                    self.marked,
                    to,
                );
            }
        }
        let stream = self.registry.get(id).key().to_owned();
        let replay = self.registry.get(id).replays();
        if self.registry.get(id).has_ended() {
            return Err(refused(stream.as_str(), "the subscription has been closed"));
        }
        if !replay && self.marked {
            return Err(
                refused(stream.as_str(), "the stream ended at its end-of-stream mark"),
            );
        }
        let entries = self.streams.get(stream.as_str());
        proof {
            if entries is None {
                assert(self.streams.list(stream@) =~= Seq::empty());
            }
        }
        match resolve(entries, to) {
            Err(Unresolved::Invalid(error)) => Err(error),
            Err(Unresolved::Refused(why)) => {
                if !replay {
                    self.registry.end(id);
                }
                Err(refused(stream.as_str(), why.as_str()))
            },
            Ok(target) => {
                let held: usize = self.streams.count(stream.as_str());
                let from: usize = if target - 1 < held as u64 {
                    (target - 1) as usize
                } else {
                    held
                };
                let messages = self.streams.numbered(stream.as_str(), from, 1);
                let count = messages.len();
                proof {
                    assert(count == queue::numbered_views(messages@).len());
                    assert(retained::numbered_from(self.streams.list(stream@), from as int, 1)
                        =~= retained::numbered_from(self.streams.list(stream@), target - 1, 1));
                }
                let overtaken = self.registry.reposition(id, target, messages);
                Ok(Sought { queued: count, overtaken })
            },
        }
    }

    /// The next delivery of a subscription, or its end, or neither yet.
    pub fn poll_next(&mut self, id: SubscriptionId) -> (poll: NextPoll)
        requires
            id < old(self).subscriptions().len(),
        ensures
            ({
                let subscription = old(self).subscriptions()[id as int];
                let expected = queue::polled(subscription);
                &&& delivers(poll.next, subscription.key, expected.found)
                &&& poll.superseded == expected.superseded
                &&& poll.stale == expected.stale
                &&& final(self).subscriptions() == old(self).subscriptions().update(
                    id as int,
                    expected.after,
                )
            }),
            forall|key: Seq<char>|
                (#[trigger] final(self).retained(key)) == old(self).retained(key),
            final(self).is_marked() == old(self).is_marked(),
            final(self).ends_with_eos() == old(self).ends_with_eos(),
            old(self).consistent() ==> final(self).consistent(),
    {
        let stream = self.registry.get(id).key().to_owned();
        proof {
            let subscription = self.subscriptions()[id as int];
            if self.consistent() {
                let log = self.retained(subscription.key);
                assert(order::upheld(subscription, log, self.marked));
                order::lemma_upheld_polled(subscription, log, self.marked);
            }
        }
        let poll = self.registry.poll(id);
        deliver(stream.as_str(), poll)
    }

    /// Drops a subscription's handle: it ends for good, nothing reaches it any more, and what was
    /// queued for it or waited to be goes. How many messages that was, as far as a `usize` counts.
    pub fn unsubscribe(&mut self, id: SubscriptionId) -> (released: usize)
        requires
            id < old(self).subscriptions().len(),
        ensures
            final(self).subscriptions() == old(self).subscriptions().update(
                id as int,
                registry::dropped(old(self).subscriptions()[id as int]),
            ),
            released == queue::counted(
                queue::in_flight(old(self).subscriptions()[id as int]),
            ),
            forall|key: Seq<char>|
                (#[trigger] final(self).retained(key)) == old(self).retained(key),
            final(self).is_marked() == old(self).is_marked(),
            final(self).ends_with_eos() == old(self).ends_with_eos(),
            old(self).consistent() ==> final(self).consistent(),
    {
        proof {
            let subscription = self.subscriptions()[id as int];
            if self.consistent() {
                let log = self.retained(subscription.key);
                assert(order::upheld(subscription, log, self.marked));
                order::lemma_upheld_dropped(subscription, log, self.marked);
            }
        }
        self.registry.forget(id)
    }
}

/// A stored message holds the bytes and the moment it was made with, and a list of them holds each
/// in its place.
pub proof fn law_a_stored_message_is_what_it_was_made_with(stored: Stored, items: Seq<Stored>)
    ensures
        stored@.at == stored.at,
        stored@.bytes == stored.bytes@,
        retained::item_views(items).len() == items.len(),
        forall|i: int|
            0 <= i < items.len() ==> (#[trigger] retained::item_views(items)[i]).at == items[i].at
                && retained::item_views(items)[i].bytes == items[i].bytes@,
{
}

/// What a poll found is what it delivers: a message as the delivery of that message, under the
/// subscription's key and with the number and the bytes the log has for it; the end as the end;
/// and nothing as nothing yet.
pub proof fn law_a_poll_delivers_what_it_found(
    next: Next,
    key: Seq<char>,
    found: queue::PolledView<StoredView>,
)
    requires
        delivers(next, key, found),
    ensures
        next is End <==> found is End,
        next is Pending <==> found is Pending,
        found matches queue::PolledView::Ready(message) ==> (next matches Next::Ready(delivery)
            && delivery@ == message::delivered(
            message::RecordView {
                key,
                sequence: message.sequence,
                at: message.item.at,
                bytes: message.item.bytes,
            },
        )),
{
}

/// What a test reads back of a message is what a subscription would have received of it: the
/// headers and the payload of its envelope, under the name it was written under.
pub proof fn law_what_is_read_back_is_what_was_written(
    message: RawMessage,
    name: Seq<char>,
    bytes: Seq<u8>,
)
    requires
        message.opens(name, bytes),
    ensures
        message.name@ == name,
        crate::headers::header_entries(message.headers) == wire::opened(bytes).0,
        buffer::contents(message.payload) == wire::opened(bytes).1,
{
}

/// What a position resolves to against a log: the beginning to the first number, the end to one past
/// the last message, a number to itself where a message carries it and to the first for zero, and an
/// instant to the message written after it while every earlier one was written at or before it.
pub proof fn law_a_position_resolves_to_its_message(
    log: &Vec<Stored>,
    to: FilePosition,
    target: Result<u64, Unresolved>,
)
    requires
        call_ensures(resolve, (Some(log), to), target),
    ensures
        match to {
            FilePosition::Beginning => target matches Ok(target) && target == 1,
            FilePosition::End => log@.len() < u64::MAX ==> (target matches Ok(target) && target
                == log@.len() + 1),
            FilePosition::Sequence(sequence) => {
                &&& sequence > log@.len() <==> target is Err
                &&& target matches Ok(target) ==> target == (if sequence == 0 {
                    1
                } else {
                    sequence
                })
            },
            FilePosition::Timestamp(millis) => target matches Ok(target) ==> 1 <= target
                <= log@.len() && log@[target - 1].at > millis * 1_000_000 && forall|i: int|
                0 <= i < target - 1 ==> (#[trigger] log@[i]).at <= millis * 1_000_000,
        },
{
    let list = retained::item_views(log@);
    assert(list.len() == log@.len());
    if let FilePosition::Timestamp(millis) = to {
        order::lemma_first_later_is_first(list, millis * 1_000_000);
        if let Ok(target) = target {
            assert(list[target - 1] == log@[target - 1]@);
            assert forall|i: int| 0 <= i < target - 1 implies (#[trigger] log@[i]).at <= millis
                * 1_000_000 by {
                assert(list[i] == log@[i]@);
            }
        }
    }
}

} // verus!
