//! Subscription registry, retained log and fanout for the in-process stands.
//!
//! Core routing plus the one transport property a stream file's handlers are written against: the
//! log is retained and positioned, so a subscription can be repositioned inside it. An exact-name
//! match fans a published message out to every live subscription on that name, each message is
//! stamped with its index in that name's log, and the log is what a seek replays from.

use bytes::Bytes;
use ruststream::HeaderMap;
use vstd::prelude::*;
use vstd::string::*;
use vstd::utf8::*;

use crate::buffer;
use crate::clock::{self, instant_of, now_millis};
use crate::error::{self, SeaFileError};
use crate::headers::{self, copy_headers};
use crate::memory_file::{self, refused, RawMessage, Resolution, Unresolved};
use crate::message::{self, number_headers, FilePosition, SettleError};
use crate::queue::{self, Duplicate, Numbered, Poll, Sought};
use crate::registry::{self, Registry, SubscriptionId};
use crate::retained::{self, Retained};
use crate::text;

verus! {

/// One retained message, with the wall-clock instant a timestamp seek resolves against.
pub struct LogEntry {
    /// The message's payload.
    pub payload: Bytes,
    /// The message's headers.
    pub headers: HeaderMap,
    /// When it was published, in milliseconds since the Unix epoch.
    pub at_millis: u64,
}

/// What a [`LogEntry`] holds.
pub struct LogEntryView {
    pub payload: Seq<u8>,
    pub headers: Seq<(Seq<char>, Seq<u8>)>,
    pub at_millis: nat,
}

impl View for LogEntry {
    type V = LogEntryView;

    open spec fn view(&self) -> LogEntryView {
        LogEntryView {
            payload: buffer::contents(self.payload),
            headers: headers::header_entries(self.headers),
            at_millis: self.at_millis as nat,
        }
    }
}

impl Duplicate for LogEntry {
    fn duplicate(&self) -> (copy: Self) {
        LogEntry {
            payload: buffer::share(&self.payload),
            headers: copy_headers(&self.headers),
            at_millis: self.at_millis,
        }
    }
}

/// The place of the first entry published after `millis`, or their number when there is none.
pub open spec fn first_after(entries: Seq<LogEntryView>, millis: nat) -> int
    decreases entries.len(),
{
    if entries.len() == 0 || entries[0].at_millis > millis {
        0
    } else {
        1 + first_after(entries.drop_first(), millis)
    }
}

/// Where `to` resumes a log of `entries`, which counts from zero, or why it resumes nowhere: the
/// answer a file gives. `End` is the one position past the last entry, where the subscription
/// waits for the next publish, and sequence zero is the start.
pub open spec fn resolved(entries: Seq<LogEntryView>, to: FilePosition) -> Resolution {
    match to {
        FilePosition::Beginning => Resolution::At(0),
        FilePosition::End => Resolution::At(entries.len()),
        FilePosition::Sequence(sequence) => if sequence == 0 || sequence < entries.len() {
            Resolution::At(sequence as nat)
        } else {
            Resolution::Refused("no message carries that sequence"@)
        },
        FilePosition::Timestamp(millis) => if !clock::is_instant(millis * 1_000_000) {
            Resolution::Invalid(clock::refused_millis(millis as nat))
        } else if first_after(entries, millis as nat) < entries.len() {
            Resolution::At(first_after(entries, millis as nat) as nat)
        } else {
            Resolution::Refused("no message is later than that instant"@)
        },
    }
}

/// Resolves a position against one address's retained log into the index the subscription resumes
/// at.
fn resolve(entries: Option<&Vec<LogEntry>>, to: FilePosition) -> (target: Result<
    usize,
    Unresolved,
>)
    ensures
        ({
            let list = match entries {
                Some(entries) => retained::item_views(entries@),
                None => Seq::empty(),
            };
            match target {
                Ok(target) => resolved(list, to) == Resolution::At(target as nat) && target
                    <= list.len(),
                Err(Unresolved::Refused(why)) => resolved(list, to) == Resolution::Refused(why@),
                Err(Unresolved::Invalid(error)) => resolved(list, to) == Resolution::Invalid(
                    error@,
                ),
            }
        }),
{
    let end: usize = match entries {
        Some(entries) => entries.len(),
        None => 0,
    };
    match to {
        FilePosition::Beginning => Ok(0),
        FilePosition::End => Ok(end),
        FilePosition::Sequence(sequence) => if sequence == 0 || sequence < end as u64 {
            Ok(sequence as usize)
        } else {
            Err(Unresolved::Refused("no message carries that sequence".to_owned()))
        },
        FilePosition::Timestamp(millis) => {
            if let Err(error) = instant_of(millis) {
                return Err(Unresolved::Invalid(error));
            }
            let mut i: usize = 0;
            if let Some(log) = entries {
                let ghost list = retained::item_views(log@);
                proof {
                    assert(list.skip(0) =~= list);
                }
                while i < log.len() && log[i].at_millis <= millis
                    invariant
                        i <= log.len(),
                        list == retained::item_views(log@),
                        first_after(list, millis as nat) == i + first_after(
                            list.skip(i as int),
                            millis as nat,
                        ),
                    decreases log.len() - i,
                {
                    proof {
                        assert(list.skip(i as int).drop_first() =~= list.skip(i + 1));
                        assert(list.skip(i as int)[0] == log@[i as int]@);
                    }
                    i = i + 1;
                }
                proof {
                    if i < log.len() {
                        assert(list.skip(i as int)[0] == log@[i as int]@);
                    } else {
                        assert(list.skip(i as int).len() == 0);
                    }
                }
            }
            if i < end {
                Ok(i)
            } else {
                Err(Unresolved::Refused("no message is later than that instant".to_owned()))
            }
        },
    }
}

/// A message handed to handlers from a stand's subscription.
///
/// It reports its position in the stand's retained log. It settles the way a file's delivery does:
/// neither `ack` nor `nack` is supported.
pub struct FileTestMessage {
    delivery: Numbered<LogEntry>,
    headers: HeaderMap,
}

impl FileTestMessage {
    /// The delivery the message was made from.
    pub closed spec fn delivery(&self) -> queue::NumberedView<LogEntryView> {
        self.delivery@
    }

    /// The message's headers, with its sequence among them.
    pub closed spec fn numbered_headers(&self) -> Seq<(Seq<char>, Seq<u8>)> {
        headers::header_entries(self.headers)
    }

    /// Whether this is the message of `delivery`.
    pub open spec fn is_of(&self, delivery: queue::NumberedView<LogEntryView>) -> bool {
        &&& self.delivery() == delivery
        &&& self.numbered_headers() == message::numbered(
            delivery.item.headers,
            delivery.sequence,
        )
    }

    /// The message of a delivery, with its sequence among the headers.
    pub fn new(delivery: Numbered<LogEntry>) -> (message: Self)
        ensures
            message.is_of(delivery@),
    {
        let mut headers = copy_headers(&delivery.item.headers);
        number_headers(&mut headers, delivery.sequence);
        FileTestMessage { delivery, headers }
    }

    /// Where this message sits in the retained log.
    pub fn position(&self) -> (position: FilePosition)
        ensures
            position matches FilePosition::Sequence(sequence) && sequence
                == self.delivery().sequence,
    {
        FilePosition::Sequence(self.delivery.sequence)
    }

    /// The payload.
    pub fn payload(&self) -> (payload: &[u8])
        ensures
            payload@ == self.delivery().item.payload,
    {
        buffer::bytes_of(&self.delivery.item.payload)
    }

    /// The headers, with the sequence among them.
    pub fn headers(&self) -> (headers: &HeaderMap)
        ensures
            headers::header_entries(*headers) == self.numbered_headers(),
    {
        &self.headers
    }

    /// Acknowledges the delivery, which the transport does not support.
    pub fn ack(self) -> (settled: Result<(), SettleError>)
        ensures
            settled == Err::<(), SettleError>(SettleError::Unsupported),
    {
        Err(SettleError::Unsupported)
    }

    /// Rejects the delivery, which the transport does not support: it takes no message back.
    pub fn nack(self, _requeue: bool) -> (settled: Result<(), SettleError>)
        ensures
            settled == Err::<(), SettleError>(SettleError::Unsupported),
    {
        Err(SettleError::Unsupported)
    }
}

/// What a poll of a stand's subscription delivers.
pub enum TestNext {
    /// The next delivery.
    Ready(FileTestMessage),
    /// The subscription has ended.
    End,
    /// Nothing yet.
    Pending,
}

/// One poll of a stand's subscription: what it delivers, and how many queued deliveries it let
/// go.
pub struct TestPoll {
    /// The next delivery, the end, or neither yet.
    pub next: TestNext,
    /// How many queued deliveries a seek took the place of.
    pub superseded: usize,
    /// How many stale copies were dropped.
    pub stale: usize,
}

/// Whether `next` delivers what a poll found.
pub open spec fn delivers(next: TestNext, found: queue::PolledView<LogEntryView>) -> bool {
    match found {
        queue::PolledView::Ready(delivery) => next matches TestNext::Ready(message)
            && message.is_of(delivery),
        queue::PolledView::End => next is End,
        queue::PolledView::Pending => next is Pending,
    }
}

/// The answer to a seek through a dead handle.
pub open spec fn closed_seek() -> error::ErrorView {
    error::ErrorView::Seek {
        stream: "<closed>"@,
        source: "the subscription has been closed"@,
    }
}

/// What a seek of `subscription` to `to` leaves of it, over a log of `entries`: a refused position
/// ends it, as it ends a live subscription of a file.
pub open spec fn after_seek(
    subscription: queue::SubscriptionView<LogEntryView>,
    entries: Seq<LogEntryView>,
    to: FilePosition,
) -> queue::SubscriptionView<LogEntryView> {
    if !subscription.open {
        subscription
    } else {
        match resolved(entries, to) {
            Resolution::At(target) => queue::sought(
                subscription,
                target,
                retained::numbered_from(entries, target as int, 0),
            ),
            Resolution::Refused(_) => queue::SubscriptionView {
                open: false,
                ended: true,
                ..subscription
            },
            Resolution::Invalid(_) => subscription,
        }
    }
}

/// The error a seek of `subscription` to `to` is refused with, if it is.
pub open spec fn seek_error(
    subscription: queue::SubscriptionView<LogEntryView>,
    entries: Seq<LogEntryView>,
    to: FilePosition,
) -> Option<error::ErrorView> {
    if !subscription.open {
        Some(closed_seek())
    } else {
        match resolved(entries, to) {
            Resolution::At(_) => None,
            Resolution::Refused(why) => Some(memory_file::refused_seek(subscription.key, why)),
            Resolution::Invalid(error) => Some(error),
        }
    }
}

/// Whether a delivery is one `entries` retain: the entry at its index.
pub open spec fn is_retained(
    delivery: queue::NumberedView<LogEntryView>,
    entries: Seq<LogEntryView>,
) -> bool {
    delivery.sequence < entries.len() && delivery.item == entries[delivery.sequence as int]
}

/// Whether a subscription has no end-of-stream mark queued and, while it is open, has not ended
/// and knows only deliveries its address retains, each under its index: the queued ones, and
/// those of a seek that waits.
pub open spec fn indexed(
    subscription: queue::SubscriptionView<LogEntryView>,
    entries: Seq<LogEntryView>,
) -> bool {
    &&& !subscription.queue.contains(queue::EntryView::End)
    &&& subscription.open ==> {
        &&& !subscription.ended
        &&& subscription.watermark <= entries.len()
        &&& forall|entry: queue::EntryView<LogEntryView>|
            #![trigger subscription.queue.contains(entry)]
            subscription.queue.contains(entry) ==> (entry matches queue::EntryView::Message(
                delivery,
            ) ==> is_retained(delivery, entries))
        &&& subscription.pending matches Some(replay) ==> forall|i: int|
            0 <= i < replay.len() ==> is_retained(#[trigger] replay[i], entries)
    }
}

proof fn lemma_indexed_polled(
    subscription: queue::SubscriptionView<LogEntryView>,
    entries: Seq<LogEntryView>,
)
    requires
        indexed(subscription, entries),
    ensures
        indexed(queue::polled(subscription).after, entries),
{
    if !subscription.ended {
        let applied = queue::settled(subscription);
        let after = queue::polled(subscription).after;
        assert forall|entry: queue::EntryView<LogEntryView>|
            #![trigger after.queue.contains(entry)]
            after.queue.contains(entry) implies entry is Message && (after.open ==> (
        entry matches queue::EntryView::Message(delivery) ==> is_retained(
            delivery,
            entries,
        ))) by {
            let front = queue::stale_front(applied.queue, applied.watermark) as int;
            let i = choose|i: int| 0 <= i < after.queue.len() && after.queue[i] == entry;
            let place = front + 1 + i;
            assert(applied.queue[place] == entry);
            if let Some(replay) = subscription.pending {
                let behind = queue::kept(subscription.queue, replay, subscription.watermark);
                if place < replay.len() {
                    assert(applied.queue[place] == queue::EntryView::Message(replay[place]));
                } else {
                    assert(behind[place - replay.len()] == entry);
                    assert(behind.contains(entry));
                    queue::lemma_kept_was_queued(
                        subscription.queue,
                        replay,
                        subscription.watermark,
                    );
                    assert(subscription.queue.contains(entry));
                }
            } else {
                assert(subscription.queue.contains(entry));
            }
        }
    }
}

proof fn lemma_indexed_reached(
    subscription: queue::SubscriptionView<LogEntryView>,
    before: Seq<LogEntryView>,
    entries: Seq<LogEntryView>,
    delivery: queue::NumberedView<LogEntryView>,
)
    requires
        indexed(subscription, before),
        before.is_prefix_of(entries),
        is_retained(delivery, entries),
    ensures
        indexed(queue::with_message(subscription, delivery), entries),
        indexed(subscription, entries),
{
    let after = queue::with_message(subscription, delivery);
    assert forall|other: queue::NumberedView<LogEntryView>|
        is_retained(other, before) implies #[trigger] is_retained(other, entries) by {
        assert(before[other.sequence as int] == entries[other.sequence as int]);
    }
    assert forall|entry: queue::EntryView<LogEntryView>|
        #![trigger after.queue.contains(entry)]
        after.queue.contains(entry) implies entry == queue::EntryView::Message(delivery)
        || subscription.queue.contains(entry) by {
        let i = choose|i: int| 0 <= i < after.queue.len() && after.queue[i] == entry;
        if i < subscription.queue.len() {
            assert(subscription.queue[i] == entry);
        }
    }
}

proof fn lemma_first_after_bounds(entries: Seq<LogEntryView>, millis: nat)
    ensures
        0 <= first_after(entries, millis) <= entries.len(),
    decreases entries.len(),
{
    if entries.len() > 0 {
        lemma_first_after_bounds(entries.drop_first(), millis);
    }
}

/// Whether what an open subscription has coming is the end of `entries`, every entry of it once, in
/// order and under its index.
pub open spec fn follows(
    subscription: queue::SubscriptionView<LogEntryView>,
    entries: Seq<LogEntryView>,
) -> bool {
    let ahead = queue::upcoming(subscription);
    subscription.open ==> ahead.len() <= entries.len() && ahead == retained::numbered_from(
        entries,
        entries.len() - ahead.len(),
        0,
    )
}

/// What holds of every subscription on an address that retains `entries`.
pub open spec fn upheld(
    subscription: queue::SubscriptionView<LogEntryView>,
    entries: Seq<LogEntryView>,
) -> bool {
    indexed(subscription, entries) && follows(subscription, entries)
}

proof fn lemma_upheld_polled(
    subscription: queue::SubscriptionView<LogEntryView>,
    entries: Seq<LogEntryView>,
)
    requires
        upheld(subscription, entries),
    ensures
        upheld(queue::polled(subscription).after, entries),
{
    lemma_indexed_polled(subscription, entries);
    if subscription.open {
        let after = queue::polled(subscription).after;
        let ahead = queue::upcoming(subscription);
        queue::law_a_poll_takes_the_first_upcoming_message(subscription);
        if ahead.len() > 0 {
            assert(queue::upcoming(after) =~= retained::numbered_from(
                entries,
                entries.len() - ahead.len() + 1,
                0,
            ));
        } else {
            assert(after.queue.len() == 0 || after.ended) by {
                let applied = queue::settled(subscription);
                let front = queue::stale_front(applied.queue, applied.watermark);
                if front < applied.queue.len() {
                    lemma_no_mark_applied(subscription, entries);
                    assert(applied.queue.contains(applied.queue[front as int]));
                }
            }
            assert(queue::upcoming(after) =~= Seq::empty());
            assert(retained::numbered_from(entries, entries.len() as int, 0) =~= Seq::empty());
        }
    }
}

proof fn lemma_no_mark_applied(
    subscription: queue::SubscriptionView<LogEntryView>,
    entries: Seq<LogEntryView>,
)
    requires
        indexed(subscription, entries),
    ensures
        !queue::settled(subscription).queue.contains(queue::EntryView::End),
{
    if let Some(replay) = subscription.pending {
        let behind = queue::kept(subscription.queue, replay, subscription.watermark);
        let all = queue::settled(subscription).queue;
        queue::lemma_kept_was_queued(subscription.queue, replay, subscription.watermark);
        assert forall|i: int| 0 <= i < all.len() implies !((#[trigger] all[i]) is End) by {
            if i >= replay.len() {
                assert(all[i] == behind[i - replay.len()]);
                assert(behind.contains(all[i]));
            }
        }
    }
}

proof fn lemma_upheld_reached(
    subscription: queue::SubscriptionView<LogEntryView>,
    before: Seq<LogEntryView>,
    entry: LogEntryView,
)
    requires
        upheld(subscription, before),
    ensures
        upheld(
            registry::reached(
                subscription,
                subscription.key,
                queue::NumberedView { sequence: before.len(), item: entry },
            ),
            before.push(entry),
        ),
{
    let delivery = queue::NumberedView { sequence: before.len(), item: entry };
    let entries = before.push(entry);
    assert(before.is_prefix_of(entries));
    lemma_indexed_reached(subscription, before, entries, delivery);
    if subscription.open {
        let ahead = queue::upcoming(subscription);
        if let Some(replay) = subscription.pending {
            if replay.len() > 0 {
                assert(is_retained(replay[replay.len() - 1], before));
            }
        }
        queue::law_an_arrival_is_delivered_last(subscription, delivery);
        assert(ahead.push(delivery) =~= retained::numbered_from(
            entries,
            before.len() - ahead.len(),
            0,
        ));
    }
}

proof fn lemma_upheld_after_seek(
    subscription: queue::SubscriptionView<LogEntryView>,
    entries: Seq<LogEntryView>,
    to: FilePosition,
)
    requires
        upheld(subscription, entries),
    ensures
        upheld(after_seek(subscription, entries, to), entries),
{
    if seek_error(subscription, entries, to) is None {
        law_a_seek_reads_the_retained_log_from_its_target(subscription, entries, to);
        if let Resolution::At(target) = resolved(entries, to) {
            let replay = retained::numbered_from(entries, target as int, 0);
            assert forall|i: int| 0 <= i < replay.len() implies is_retained(
                #[trigger] replay[i],
                entries,
            ) by {}
        }
    }
}

/// What an open subscription of a stand has coming is the end of the log its address retains: every
/// entry of it once, in order, under its index, and none left out.
pub proof fn law_a_stand_delivers_the_end_of_its_log(router: &AddressRouter, id: int)
    requires
        router.consistent(),
        0 <= id < router.subscriptions().len(),
        router.subscriptions()[id].open,
    ensures
        ({
            let subscription = router.subscriptions()[id];
            let entries = router.retained(subscription.key);
            let ahead = queue::upcoming(subscription);
            &&& ahead.len() <= entries.len()
            &&& ahead == retained::numbered_from(entries, entries.len() - ahead.len(), 0)
        }),
{
    assert(upheld(
        router.subscriptions()[id],
        router.retained(router.subscriptions()[id].key),
    ));
}

/// A seek on a stand that is served leaves the subscription with exactly the retained log from its
/// target on coming, whatever was queued before.
pub proof fn law_a_seek_reads_the_retained_log_from_its_target(
    subscription: queue::SubscriptionView<LogEntryView>,
    entries: Seq<LogEntryView>,
    to: FilePosition,
)
    requires
        indexed(subscription, entries),
        seek_error(subscription, entries, to) is None,
    ensures
        resolved(entries, to) matches Resolution::At(target) && target <= entries.len()
            && queue::upcoming(after_seek(subscription, entries, to))
            == retained::numbered_from(entries, target as int, 0),
{
    if let FilePosition::Timestamp(millis) = to {
        lemma_first_after_bounds(entries, millis as nat);
    }
    if let Resolution::At(target) = resolved(entries, to) {
        let replay = retained::numbered_from(entries, target as int, 0);
        assert forall|i: int| 0 <= i < subscription.queue.len() implies (
        #[trigger] subscription.queue[i]) is End || queue::superseded(
            subscription.queue[i],
            replay,
            target,
        ) by {
            assert(subscription.queue.contains(subscription.queue[i]));
            if replay.len() > 0 {
                assert(replay.last().sequence == entries.len() - 1);
            }
        }
        queue::law_a_seek_delivers_exactly_its_replay(subscription, target, replay);
    }
}

/// A seek to a position the retained log has not reached ends the subscription: it delivers
/// nothing more, its polls report the end, nothing reaches it, and a later seek is told it was
/// closed.
pub proof fn law_a_refused_seek_ends_the_subscription(
    subscription: queue::SubscriptionView<LogEntryView>,
    entries: Seq<LogEntryView>,
    to: FilePosition,
    later: FilePosition,
    address: Seq<char>,
    delivery: queue::NumberedView<LogEntryView>,
)
    requires
        subscription.open,
        resolved(entries, to) is Refused,
    ensures
        ({
            let after = after_seek(subscription, entries, to);
            &&& seek_error(subscription, entries, to) is Some
            &&& queue::upcoming(after).len() == 0
            &&& queue::polled(after).found is End
            &&& registry::reached(after, address, delivery) == after
            &&& seek_error(after, entries, later) == Some(closed_seek())
        }),
{
}

/// A position past the log is refused, and the position of an entry the log retains never is,
/// however long the log grows.
pub proof fn law_a_stand_refuses_what_its_log_has_not_reached(
    entries: Seq<LogEntryView>,
    more: Seq<LogEntryView>,
    sequence: u64,
)
    ensures
        sequence > 0 && sequence >= entries.len() ==> resolved(
            entries,
            FilePosition::Sequence(sequence),
        ) is Refused,
        sequence < entries.len() ==> resolved(entries + more, FilePosition::Sequence(sequence))
            == Resolution::At(sequence as nat) && (entries + more)[sequence as int]
            == entries[sequence as int],
{
}

proof fn lemma_fresh_is_queued(queue: Seq<queue::EntryView<LogEntryView>>, watermark: nat)
    ensures
        forall|i: int|
            0 <= i < queue::fresh(queue, watermark).len() ==> queue.contains(
                queue::EntryView::Message(#[trigger] queue::fresh(queue, watermark)[i]),
            ),
    decreases queue.len(),
{
    if queue.len() > 0 {
        let rest = queue.drop_first();
        lemma_fresh_is_queued(rest, watermark);
        assert forall|i: int| 0 <= i < queue::fresh(queue, watermark).len() implies queue.contains(
            queue::EntryView::Message(#[trigger] queue::fresh(queue, watermark)[i]),
        ) by {
            let delivery = queue::fresh(queue, watermark)[i];
            let entry = queue::EntryView::Message(delivery);
            if queue[0] != entry {
                let left = queue::fresh(rest, watermark);
                let place = if left.len() == queue::fresh(queue, watermark).len() {
                    i
                } else {
                    i - 1
                };
                assert(left[place] == delivery);
                assert(rest.contains(entry));
                let j = choose|j: int| 0 <= j < rest.len() && rest[j] == entry;
                assert(queue[j + 1] == entry);
            } else {
                assert(queue.contains(queue[0]));
            }
        }
    }
}

/// A delivery's position is its entry's index in the retained log, however often it is delivered:
/// everything an open subscription has coming is the entry its position names.
pub proof fn law_a_position_names_its_entry(
    subscription: queue::SubscriptionView<LogEntryView>,
    entries: Seq<LogEntryView>,
)
    requires
        indexed(subscription, entries),
        subscription.open,
    ensures
        forall|i: int|
            0 <= i < queue::upcoming(subscription).len() ==> is_retained(
                #[trigger] queue::upcoming(subscription)[i],
                entries,
            ),
{
    let applied = queue::settled(subscription);
    lemma_fresh_is_queued(applied.queue, subscription.watermark);
    assert forall|i: int| 0 <= i < queue::upcoming(subscription).len() implies is_retained(
        #[trigger] queue::upcoming(subscription)[i],
        entries,
    ) by {
        let delivery = queue::upcoming(subscription)[i];
        let entry = queue::EntryView::Message(delivery);
        assert(applied.queue.contains(entry));
        let place = choose|place: int|
            0 <= place < applied.queue.len() && applied.queue[place] == entry;
        if let Some(replay) = subscription.pending {
            let behind = queue::kept(subscription.queue, replay, subscription.watermark);
            if place < replay.len() {
                assert(applied.queue[place] == queue::EntryView::Message(replay[place]));
            } else {
                assert(behind[place - replay.len()] == entry);
                assert(behind.contains(entry));
                queue::lemma_kept_was_queued(
                    subscription.queue,
                    replay,
                    subscription.watermark,
                );
                assert(subscription.queue.contains(entry));
            }
        }
    }
}

/// A message published to an address is delivered by every subscription on it, after everything
/// it had coming and under its index in the retained log, whatever was sought before.
pub proof fn law_a_published_entry_is_delivered_last(
    before: &AddressRouter,
    after: &AddressRouter,
    id: int,
    address: Seq<char>,
    entry: LogEntryView,
)
    requires
        before.consistent(),
        after.published_entry(before, address, entry),
        0 <= id < before.subscriptions().len(),
        registry::listens(before.subscriptions()[id], address),
    ensures
        queue::upcoming(after.subscriptions()[id]) == queue::upcoming(
            before.subscriptions()[id],
        ).push(queue::NumberedView { sequence: before.retained(address).len(), item: entry }),
{
    let subscription = before.subscriptions()[id];
    let delivery = queue::NumberedView { sequence: before.retained(address).len(), item: entry };
    assert(upheld(subscription, before.retained(subscription.key)));
    if let Some(replay) = subscription.pending {
        if replay.len() > 0 {
            assert(is_retained(replay[replay.len() - 1], before.retained(address)));
        }
    }
    queue::law_an_arrival_is_delivered_last(subscription, delivery);
}

/// In-memory exact-address router over a retained, positioned log.
pub struct AddressRouter {
    registry: Registry<LogEntry>,
    log: Retained<LogEntry>,
}

impl AddressRouter {
    /// The messages retained under `address`, in publish order.
    pub closed spec fn retained(&self, address: Seq<char>) -> Seq<LogEntryView> {
        self.log.list(address)
    }

    /// Every subscription that was opened.
    pub closed spec fn subscriptions(&self) -> Seq<queue::SubscriptionView<LogEntryView>> {
        self.registry@
    }

    /// What holds of every router: an open subscription knows only deliveries its address
    /// retains and has the end of what it retains coming, and none has an end-of-stream mark
    /// queued.
    pub open spec fn consistent(&self) -> bool {
        forall|i: int|
            0 <= i < self.subscriptions().len() ==> upheld(
                #[trigger] self.subscriptions()[i],
                self.retained(self.subscriptions()[i].key),
            )
    }

    /// A router with no subscriptions and nothing retained.
    pub fn new() -> (router: Self)
        ensures
            forall|address: Seq<char>| (#[trigger] router.retained(address)).len() == 0,
            router.subscriptions().len() == 0,
            router.consistent(),
    {
        AddressRouter { registry: Registry::new(), log: Retained::new() }
    }

    /// Registers a subscription on `address` and returns its id.
    pub fn subscribe(&mut self, address: &str) -> (id: SubscriptionId)
        ensures
            id == old(self).subscriptions().len(),
            final(self).subscriptions() == old(self).subscriptions().push(
                queue::opened(address@, false),
            ),
            forall|other: Seq<char>|
                (#[trigger] final(self).retained(other)) == old(self).retained(other),
            old(self).consistent() ==> final(self).consistent(),
    {
        proof {
            let opened = queue::opened::<LogEntryView>(address@, false);
            let entries = self.retained(address@);
            assert(queue::upcoming(opened) =~= retained::numbered_from(
                entries,
                entries.len() as int,
                0,
            ));
        }
        self.registry.open(address, false)
    }

    /// Removes a subscription whose handle was dropped; how many deliveries were queued for it or
    /// waited to be, as far as a `usize` counts. No-op if the id is unknown.
    pub fn unsubscribe(&mut self, id: SubscriptionId) -> (released: usize)
        ensures
            released == (if id < old(self).subscriptions().len() {
                queue::counted(queue::in_flight(old(self).subscriptions()[id as int]))
            } else {
                0
            }),
            id < old(self).subscriptions().len() ==> final(self).subscriptions() == old(
                self,
            ).subscriptions().update(
                id as int,
                registry::dropped(old(self).subscriptions()[id as int]),
            ),
            id >= old(self).subscriptions().len() ==> final(self).subscriptions() == old(
                self,
            ).subscriptions(),
            forall|other: Seq<char>|
                (#[trigger] final(self).retained(other)) == old(self).retained(other),
            old(self).consistent() ==> final(self).consistent(),
    {
        self.registry.forget(id)
    }

    /// Whether publishing `entry` to `address` takes the router from `before` to `self`: it goes
    /// behind what the address retains, under its index there, and into the queue of every
    /// subscription on exactly that address.
    pub open spec fn published_entry(
        &self,
        before: &AddressRouter,
        address: Seq<char>,
        entry: LogEntryView,
    ) -> bool {
        &&& self.retained(address) == before.retained(address).push(entry)
        &&& forall|other: Seq<char>|
            other != address ==> (#[trigger] self.retained(other)) == before.retained(other)
        &&& self.subscriptions() == registry::fanned_out(
            before.subscriptions(),
            address,
            queue::NumberedView { sequence: before.retained(address).len(), item: entry },
        )
    }

    /// Appends a message to `address`'s retained log, published at `at_millis`, and fans it out
    /// to every subscription on that name; how many there were.
    pub fn publish_at(
        &mut self,
        address: &str,
        payload: Bytes,
        headers: HeaderMap,
        at_millis: u64,
    ) -> (sent: usize)
        ensures
            final(self).published_entry(
                old(self),
                address@,
                (LogEntryView {
                    payload: buffer::contents(payload),
                    headers: headers::header_entries(headers),
                    at_millis: at_millis as nat,
                }),
            ),
            sent == registry::listeners(old(self).subscriptions(), address@),
            old(self).consistent() ==> final(self).consistent(),
    {
        let entry = LogEntry { payload, headers, at_millis };
        let copy = entry.duplicate();
        let count = self.log.push(address, entry);
        let delivery = Numbered { sequence: (count - 1) as u64, item: copy };
        let sent = self.registry.fan_out(address, &delivery);
        proof {
            if old(self).consistent() {
                assert forall|i: int| 0 <= i < self.subscriptions().len() implies upheld(
                    #[trigger] self.subscriptions()[i],
                    self.retained(self.subscriptions()[i].key),
                ) by {
                    let before = old(self).subscriptions()[i];
                    assert(upheld(before, old(self).retained(before.key)));
                    if before.key == address@ {
                        lemma_upheld_reached(
                            before,
                            old(self).retained(address@),
                            delivery@.item,
                        );
                    }
                }
            }
        }
        sent
    }

    /// Appends a message to `address`'s retained log, published now, and fans it out to every
    /// subscription on that name; how many there were.
    pub fn publish(&mut self, address: &str, payload: Bytes, headers: HeaderMap) -> (sent: usize)
        ensures
            exists|at_millis: nat|
                clock::is_millis(at_millis) && #[trigger] final(self).published_entry(
                    old(self),
                    address@,
                    (LogEntryView {
                        payload: buffer::contents(payload),
                        headers: headers::header_entries(headers),
                        at_millis,
                    }),
                ),
            sent == registry::listeners(old(self).subscriptions(), address@),
            old(self).consistent() ==> final(self).consistent(),
    {
        let at_millis = now_millis();
        self.publish_at(address, payload, headers, at_millis)
    }

    /// Resolves `to` against the retained log and hands the resulting replay to the subscription;
    /// how many deliveries it holds, and how many of a seek that still waited it overtook.
    ///
    /// # Errors
    ///
    /// Returns [`SeaFileError::Seek`] once the subscription is gone (dropped, ended, or cleared by
    /// the broker's shutdown) and when the position names nothing the log holds, which ends the
    /// subscription, and [`SeaFileError::Invalid`] for an instant no timestamp can hold.
    pub fn request_seek(&mut self, id: SubscriptionId, to: FilePosition) -> (sought: Result<
        Sought,
        SeaFileError,
    >)
        ensures
            ({
                let live = id < old(self).subscriptions().len() && old(
                    self,
                ).subscriptions()[id as int].open;
                let subscription = old(self).subscriptions()[id as int];
                let entries = old(self).retained(subscription.key);
                &&& live ==> match seek_error(subscription, entries, to) {
                    Some(refusal) => sought matches Err(error) && error@ == refusal,
                    None => {
                        &&& sought matches Ok(sought) && resolved(entries, to) matches
                            Resolution::At(target) && sought.queued == retained::numbered_from(
                            entries,
                            target as int,
                            0,
                        ).len() && sought.overtaken == queue::waiting(subscription)
                    },
                }
                &&& live ==> final(self).subscriptions() == old(self).subscriptions().update(
                    id as int,
                    after_seek(subscription, entries, to),
                )
                &&& !live ==> (sought matches Err(error) && error@ == closed_seek())
                &&& !live ==> final(self).subscriptions() == old(self).subscriptions()
            }),
            forall|other: Seq<char>|
                (#[trigger] final(self).retained(other)) == old(self).retained(other),
            old(self).consistent() ==> final(self).consistent(),
    {
        let address = match self.registry.key(id) {
            Some(key) => key.to_owned(),
            None => {
                return Err(
                    SeaFileError::Seek {
                        stream: "<closed>".to_owned(),
                        source: "the subscription has been closed".to_owned(),
                    },
                );
            },
        };
        let entries = self.log.get(address.as_str());
        proof {
            if self.consistent() {
                let subscription = self.subscriptions()[id as int];
                assert(upheld(subscription, self.retained(subscription.key)));
                lemma_upheld_after_seek(subscription, self.retained(subscription.key), to);
            }
            match entries {
                Some(items) => assert(items@.len() == items.len()),
                None => assert(self.log.list(address@) =~= Seq::empty()),
            }
        }
        let target = match resolve(entries, to) {
            Ok(target) => target,
            Err(Unresolved::Invalid(error)) => {
                proof {
                    assert(self.registry@.update(id as int, self.registry@[id as int])
                        =~= self.registry@);
                }
                return Err(error);
            },
            Err(Unresolved::Refused(why)) => {
                self.registry.end(id);
                return Err(refused(address.as_str(), why.as_str()));
            },
        };
        let replay = self.log.numbered(address.as_str(), target, 0);
        let count = replay.len();
        proof {
            assert(count == queue::numbered_views(replay@).len());
        }
        let overtaken = self.registry.reposition(id, target as u64, replay);
        Ok(Sought { queued: count, overtaken })
    }

    /// The next delivery of a subscription, or its end, or neither yet.
    pub fn poll_next(&mut self, id: SubscriptionId) -> (poll: TestPoll)
        requires
            id < old(self).subscriptions().len(),
        ensures
            ({
                let expected = queue::polled(old(self).subscriptions()[id as int]);
                &&& delivers(poll.next, expected.found)
                &&& poll.superseded == expected.superseded
                &&& poll.stale == expected.stale
                &&& final(self).subscriptions() == old(self).subscriptions().update(
                    id as int,
                    expected.after,
                )
            }),
            forall|other: Seq<char>|
                (#[trigger] final(self).retained(other)) == old(self).retained(other),
            old(self).consistent() ==> final(self).consistent(),
    {
        proof {
            let subscription = self.subscriptions()[id as int];
            if self.consistent() {
                assert(upheld(subscription, self.retained(subscription.key)));
                lemma_upheld_polled(subscription, self.retained(subscription.key));
            }
        }
        let poll: Poll<LogEntry> = self.registry.poll(id);
        let next = match poll.found {
            queue::Polled::Ready(delivery) => TestNext::Ready(FileTestMessage::new(delivery)),
            queue::Polled::End => TestNext::End,
            queue::Polled::Pending => TestNext::Pending,
        };
        TestPoll { next, superseded: poll.superseded, stale: poll.stale }
    }

    /// Every message recorded for `address`, in publish order.
    pub fn published(&self, address: &str) -> (messages: Vec<RawMessage>)
        ensures
            messages@.len() == self.retained(address@).len(),
            forall|i: int|
                0 <= i < messages@.len() ==> {
                    &&& (#[trigger] messages@[i]).name@ == address@
                    &&& buffer::contents(messages@[i].payload) == self.retained(
                        address@,
                    )[i].payload
                    &&& headers::header_entries(messages@[i].headers) == self.retained(
                        address@,
                    )[i].headers
                },
    {
        let mut messages: Vec<RawMessage> = Vec::new();
        if let Some(entries) = self.log.get(address) {
            let mut i: usize = 0;
            while i < entries.len()
                invariant
                    i <= entries.len(),
                    retained::item_views(entries@) == self.retained(address@),
                    messages@.len() == i,
                    forall|j: int|
                        0 <= j < i ==> {
                            &&& (#[trigger] messages@[j]).name@ == address@
                            &&& buffer::contents(messages@[j].payload) == self.retained(
                                address@,
                            )[j].payload
                            &&& headers::header_entries(messages@[j].headers) == self.retained(
                                address@,
                            )[j].headers
                        },
                decreases entries.len() - i,
            {
                let copy = entries[i].duplicate();
                proof {
                    assert(retained::item_views(entries@)[i as int] == entries@[i as int]@);
                }
                messages.push(
                    RawMessage {
                        name: address.to_owned(),
                        headers: copy.headers,
                        payload: copy.payload,
                    },
                );
                i = i + 1;
            }
            proof {
                assert(retained::item_views(entries@).len() == entries@.len());
            }
        }
        messages
    }

    /// Drops every subscription and clears the retained log: nothing more reaches what was
    /// subscribed, beyond what is queued for it. Used by broker shutdown.
    pub fn clear(&mut self)
        ensures
            forall|address: Seq<char>| (#[trigger] final(self).retained(address)).len() == 0,
            final(self).subscriptions().len() == old(self).subscriptions().len(),
            forall|i: int|
                0 <= i < final(self).subscriptions().len() ==> (
                #[trigger] final(self).subscriptions()[i]) == (queue::SubscriptionView {
                    open: false,
                    ..old(self).subscriptions()[i]
                }),
            old(self).consistent() ==> final(self).consistent(),
    {
        let count = self.registry.count();
        let mut i: usize = 0;
        while i < count
            invariant
                i <= count,
                count == self.registry@.len(),
                self.registry@.len() == old(self).registry@.len(),
                forall|j: int|
                    0 <= j < i ==> (#[trigger] self.registry@[j]) == (queue::SubscriptionView {
                        open: false,
                        ..old(self).registry@[j]
                    }),
                forall|j: int|
                    i <= j < count ==> (#[trigger] self.registry@[j]) == old(self).registry@[j],
            decreases count - i,
        {
            self.registry.close(i);
            i = i + 1;
        }
        self.log.clear();
        proof {
            if old(self).consistent() {
                assert forall|j: int| 0 <= j < self.subscriptions().len() implies upheld(
                    #[trigger] self.subscriptions()[j],
                    self.retained(self.subscriptions()[j].key),
                ) by {
                    let before = old(self).subscriptions()[j];
                    assert(upheld(before, old(self).retained(before.key)));
                }
            }
        }
    }
}

/// Whether `deliveries` are the entries from the index `from` on: every one of them, in order, each
/// as it is retained and under its index.
pub open spec fn is_retained_from(
    deliveries: Seq<queue::NumberedView<LogEntryView>>,
    entries: Seq<LogEntryView>,
    from: int,
) -> bool {
    &&& deliveries.len() == entries.len() - from
    &&& forall|i: int|
        0 <= i < deliveries.len() ==> (#[trigger] deliveries[i]).sequence == from + i
            && deliveries[i].item == entries[from + i]
}

proof fn lemma_first_after_is_first(entries: Seq<LogEntryView>, millis: nat)
    ensures
        0 <= first_after(entries, millis) <= entries.len(),
        forall|j: int|
            0 <= j < first_after(entries, millis) ==> (#[trigger] entries[j]).at_millis <= millis,
        first_after(entries, millis) < entries.len() ==> entries[first_after(
            entries,
            millis,
        )].at_millis > millis,
    decreases entries.len(),
{
    if entries.len() > 0 && entries[0].at_millis <= millis {
        let rest = entries.drop_first();
        lemma_first_after_is_first(rest, millis);
        assert forall|j: int| 0 <= j < first_after(entries, millis) implies (
        #[trigger] entries[j]).at_millis <= millis by {
            if j > 0 {
                assert(rest[j - 1] == entries[j]);
            }
        }
    }
}

/// Where a seek on a stand resumes: at the first entry for the beginning and for zero, past the last
/// for the end, at the entry with the index for a number, and for an instant at the entry that was
/// published after it while every earlier one was published at or before it. A number or an instant
/// that names no entry is refused, naming the address, and an instant no timestamp can hold is
/// invalid.
pub proof fn law_a_stand_seek_resumes_where_it_is_asked_to(
    subscription: queue::SubscriptionView<LogEntryView>,
    entries: Seq<LogEntryView>,
    to: FilePosition,
)
    requires
        indexed(subscription, entries),
        subscription.open,
    ensures
        ({
            let refusal = seek_error(subscription, entries, to);
            let after = after_seek(subscription, entries, to);
            let ahead = queue::upcoming(after);
            &&& after.key == subscription.key
            &&& after.replay == subscription.replay
            &&& refusal is None ==> after.open && !after.ended
            &&& match to {
                FilePosition::Beginning => refusal is None && is_retained_from(ahead, entries, 0),
                FilePosition::End => refusal is None && ahead.len() == 0,
                FilePosition::Sequence(sequence) => {
                    &&& sequence == 0 ==> refusal is None && is_retained_from(ahead, entries, 0)
                    &&& sequence < entries.len() ==> refusal is None && is_retained_from(
                        ahead,
                        entries,
                        sequence as int,
                    )
                    &&& sequence > 0 && sequence >= entries.len() ==> refusal == Some(
                        error::ErrorView::Seek {
                            stream: subscription.key,
                            source: "no message carries that sequence"@,
                        },
                    ) && after.ended && !after.open
                },
                FilePosition::Timestamp(millis) => {
                    &&& millis > 253_402_300_799_999 ==> (refusal matches Some(
                        error::ErrorView::Invalid(_),
                    )) && after == subscription
                    &&& millis <= 253_402_300_799_999 && (forall|i: int|
                        0 <= i < entries.len() ==> (#[trigger] entries[i]).at_millis <= millis)
                        ==> refusal == Some(
                        error::ErrorView::Seek {
                            stream: subscription.key,
                            source: "no message is later than that instant"@,
                        },
                    ) && after.ended && !after.open
                    &&& forall|k: int|
                        millis <= 253_402_300_799_999 && 0 <= k < entries.len() && (
                        #[trigger] entries[k]).at_millis > millis && (forall|j: int|
                            0 <= j < k ==> (#[trigger] entries[j]).at_millis <= millis)
                            ==> refusal is None && is_retained_from(ahead, entries, k)
                },
            }
        }),
{
    if let FilePosition::Timestamp(millis) = to {
        let first = first_after(entries, millis as nat);
        clock::law_an_instant_is_refused_past_the_last(millis as nat);
        lemma_first_after_is_first(entries, millis as nat);
        assert forall|k: int|
            0 <= k < entries.len() && (#[trigger] entries[k]).at_millis > millis && (forall|
                j: int,
            |
                0 <= j < k ==> (#[trigger] entries[j]).at_millis <= millis) implies k == first by {
            if k < first {
                assert(entries[k].at_millis <= millis);
            }
            if first < k {
                assert(entries[first].at_millis <= millis);
            }
        }
    }
    if seek_error(subscription, entries, to) is None {
        law_a_seek_reads_the_retained_log_from_its_target(subscription, entries, to);
    }
}

/// A seek through a handle that is dead is told so, and moves nothing.
pub proof fn law_a_dead_handle_moves_nothing(
    subscription: queue::SubscriptionView<LogEntryView>,
    entries: Seq<LogEntryView>,
    to: FilePosition,
)
    requires
        !subscription.open,
    ensures
        after_seek(subscription, entries, to) == subscription,
        seek_error(subscription, entries, to) == Some(
            error::ErrorView::Seek {
                stream: "<closed>"@,
                source: "the subscription has been closed"@,
            },
        ),
        closed_seek() == (error::ErrorView::Seek {
            stream: "<closed>"@,
            source: "the subscription has been closed"@,
        }),
{
}

/// Publishing to an address adds one entry to what it retains and to no other, with the payload, the
/// headers and the instant it was published with; every open subscription on the address gets it
/// behind what it has queued, under its index, and every other is left as it was.
pub proof fn law_an_entry_is_published_once(
    before: &AddressRouter,
    after: &AddressRouter,
    address: Seq<char>,
    entry: LogEntryView,
)
    requires
        after.published_entry(before, address, entry),
    ensures
        after.retained(address).len() == before.retained(address).len() + 1,
        after.retained(address).last() == entry,
        after.retained(address).drop_last() == before.retained(address),
        forall|other: Seq<char>|
            other != address ==> (#[trigger] after.retained(other)) == before.retained(other),
        after.subscriptions().len() == before.subscriptions().len(),
        forall|i: int|
            0 <= i < before.subscriptions().len() ==> ({
                let was = #[trigger] before.subscriptions()[i];
                let is = after.subscriptions()[i];
                if was.open && was.key == address {
                    is == (queue::SubscriptionView {
                        queue: was.queue.push(
                            queue::EntryView::Message(
                                queue::NumberedView {
                                    sequence: before.retained(address).len(),
                                    item: entry,
                                },
                            ),
                        ),
                        ..was
                    })
                } else {
                    is == was
                }
            }),
{
    assert(after.retained(address).drop_last() =~= before.retained(address));
}

/// A stand's message is the delivery it was made of, with every header the entry was published with
/// and its index in the `stream-sequence` header.
pub proof fn law_a_stand_message_keeps_its_headers(
    message: &FileTestMessage,
    delivery: queue::NumberedView<LogEntryView>,
)
    requires
        message.is_of(delivery),
    ensures
        message.delivery().sequence == delivery.sequence,
        message.delivery().item.payload == delivery.item.payload,
        forall|i: int|
            0 <= i < delivery.item.headers.len() && (#[trigger] delivery.item.headers[i]).0
                != "stream-sequence"@ ==> i < message.numbered_headers().len()
                && message.numbered_headers()[i] == delivery.item.headers[i],
        (forall|i: int|
            0 <= i < delivery.item.headers.len() ==> (#[trigger] delivery.item.headers[i]).0
                != "stream-sequence"@) ==> message.numbered_headers()
            == delivery.item.headers.push(
            ("stream-sequence"@, encode_utf8(text::decimal(delivery.sequence))),
        ),
{
    message::law_numbering_keeps_the_other_headers(delivery.item.headers, delivery.sequence);
}

/// An entry holds the payload, the headers and the instant it was made with.
pub proof fn law_an_entry_is_what_it_was_made_with(entry: LogEntry)
    ensures
        entry@.payload == buffer::contents(entry.payload),
        entry@.headers == headers::header_entries(entry.headers),
        entry@.at_millis == entry.at_millis,
{
}

/// What a poll of a stand found is what it delivers: a delivery as its message, the end as the end,
/// and nothing as nothing yet.
pub proof fn law_a_stand_poll_delivers_what_it_found(
    next: TestNext,
    found: queue::PolledView<LogEntryView>,
)
    requires
        delivers(next, found),
    ensures
        next is End <==> found is End,
        next is Pending <==> found is Pending,
        found matches queue::PolledView::Ready(delivery) ==> (next matches TestNext::Ready(message)
            && message.delivery() == delivery),
{
}

/// No delivery of a stand is settled, whichever way it is asked to be.
pub proof fn law_no_stand_delivery_is_settled(
    message: FileTestMessage,
    requeue: bool,
    acknowledged: Result<(), SettleError>,
    rejected: Result<(), SettleError>,
)
    requires
        call_ensures(FileTestMessage::ack, (message,), acknowledged),
        call_ensures(FileTestMessage::nack, (message, requeue), rejected),
    ensures
        acknowledged is Err,
        rejected is Err,
{
}

} // verus!
