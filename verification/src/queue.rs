//! A subscription's queue of deliveries, and how a seek is applied to it.
//!
//! A seek is a handoff: whoever resolves it leaves the replay it resolved to with the
//! subscription, and the subscription applies it inside its own poll, before it looks for the
//! next delivery. What was queued before the seek goes, the replay takes its place, and what
//! arrived after the seek was resolved follows it.

use std::collections::VecDeque;

use vstd::prelude::*;
use vstd::string::*;

verus! {

/// A copy of a value that holds what the value holds.
pub trait Duplicate: View + Sized {
    /// Copies the value.
    fn duplicate(&self) -> (copy: Self)
        ensures
            copy@ == self@,
    ;
}

/// An item under its sequence number.
pub struct Numbered<T> {
    /// The item's number within its stream key.
    pub sequence: u64,
    /// The item.
    pub item: T,
}

/// What a [`Numbered`] item holds.
pub struct NumberedView<V> {
    pub sequence: nat,
    pub item: V,
}

impl<T: View> View for Numbered<T> {
    type V = NumberedView<T::V>;

    open spec fn view(&self) -> NumberedView<T::V> {
        NumberedView { sequence: self.sequence as nat, item: self.item@ }
    }
}

impl<T: Duplicate> Duplicate for Numbered<T> {
    fn duplicate(&self) -> (copy: Self) {
        Numbered { sequence: self.sequence, item: self.item.duplicate() }
    }
}

/// One entry of a subscription's queue.
pub enum Entry<T> {
    /// A message, as the client would have read it off the transport.
    Message(Numbered<T>),
    /// The end-of-stream mark: the subscription completes here.
    End,
}

/// What an [`Entry`] holds.
pub enum EntryView<V> {
    Message(NumberedView<V>),
    End,
}

impl<T: View> View for Entry<T> {
    type V = EntryView<T::V>;

    open spec fn view(&self) -> EntryView<T::V> {
        match self {
            Entry::Message(message) => EntryView::Message(message@),
            Entry::End => EntryView::End,
        }
    }
}

/// What a poll of a subscription found.
pub enum Polled<T> {
    /// The next delivery.
    Ready(Numbered<T>),
    /// The subscription has ended.
    End,
    /// Nothing yet.
    Pending,
}

/// What a [`Polled`] holds.
pub enum PolledView<V> {
    Ready(NumberedView<V>),
    End,
    Pending,
}

impl<T: View> View for Polled<T> {
    type V = PolledView<T::V>;

    open spec fn view(&self) -> PolledView<T::V> {
        match self {
            Polled::Ready(message) => PolledView::Ready(message@),
            Polled::End => PolledView::End,
            Polled::Pending => PolledView::Pending,
        }
    }
}

/// One poll of a subscription: what it found, and what it let go undelivered on the way.
pub struct Poll<T> {
    /// The next delivery, the end, or neither yet.
    pub found: Polled<T>,
    /// How many queued messages a seek took the place of.
    pub superseded: usize,
    /// How many stale copies were dropped.
    pub stale: usize,
}

/// One subscription: the key it reads, its queue, and the seek that waits for its next poll.
pub struct Subscription<T> {
    key: String,
    /// Whether what is written under the key still reaches the queue.
    open: bool,
    queue: VecDeque<Entry<T>>,
    /// The replay a seek resolved to, taken inside the next poll.
    pending: Option<Vec<Numbered<T>>>,
    /// Deliveries numbered below this are stale copies from before a seek.
    watermark: u64,
    /// Set when a refused seek or the end of the subscription's handle ended it for good.
    ended: bool,
    /// Whether the subscription completes once it has read everything.
    replay: bool,
}

/// What a [`Subscription`] holds.
#[verifier::ext_equal]
pub struct SubscriptionView<V> {
    pub key: Seq<char>,
    pub open: bool,
    pub queue: Seq<EntryView<V>>,
    pub pending: Option<Seq<NumberedView<V>>>,
    pub watermark: nat,
    pub ended: bool,
    pub replay: bool,
}

/// The views of some entries.
pub open spec fn entry_views<T: View>(entries: Seq<Entry<T>>) -> Seq<EntryView<T::V>> {
    entries.map_values(|entry: Entry<T>| entry@)
}

/// The views of some numbered items.
pub open spec fn numbered_views<T: View>(items: Seq<Numbered<T>>) -> Seq<NumberedView<T::V>> {
    items.map_values(|item: Numbered<T>| item@)
}

impl<T: View> View for Subscription<T> {
    type V = SubscriptionView<T::V>;

    closed spec fn view(&self) -> SubscriptionView<T::V> {
        SubscriptionView {
            key: self.key@,
            open: self.open,
            queue: entry_views(self.queue@),
            pending: match self.pending {
                Some(replay) => Some(numbered_views(replay@)),
                None => None,
            },
            watermark: self.watermark as nat,
            ended: self.ended,
            replay: self.replay,
        }
    }
}

/// A subscription as it opens on `key`: an empty queue, and nothing sought.
pub open spec fn opened<V>(key: Seq<char>, replay: bool) -> SubscriptionView<V> {
    SubscriptionView {
        key,
        open: true,
        queue: Seq::empty(),
        pending: None,
        watermark: 0,
        ended: false,
        replay,
    }
}

/// Whether a seek to `replay` takes the place of a queued entry: the replay carries everything up
/// to its own last message, and an empty one everything below the watermark. The mark is kept.
pub open spec fn superseded<V>(
    entry: EntryView<V>,
    replay: Seq<NumberedView<V>>,
    watermark: nat,
) -> bool {
    match entry {
        EntryView::Message(message) => if replay.len() > 0 {
            message.sequence <= replay.last().sequence
        } else {
            message.sequence < watermark
        },
        EntryView::End => false,
    }
}

/// What a seek to `replay` keeps of a queue.
pub open spec fn kept<V>(
    queue: Seq<EntryView<V>>,
    replay: Seq<NumberedView<V>>,
    watermark: nat,
) -> Seq<EntryView<V>>
    decreases queue.len(),
{
    if queue.len() == 0 {
        Seq::empty()
    } else if superseded(queue[0], replay, watermark) {
        kept(queue.drop_first(), replay, watermark)
    } else {
        seq![queue[0]] + kept(queue.drop_first(), replay, watermark)
    }
}

/// Messages as entries of a queue.
pub open spec fn as_entries<V>(messages: Seq<NumberedView<V>>) -> Seq<EntryView<V>> {
    messages.map_values(|message: NumberedView<V>| EntryView::Message(message))
}

/// A subscription with the seek that waited for it applied: the replay, then what the seek keeps
/// of the queue.
pub open spec fn settled<V>(subscription: SubscriptionView<V>) -> SubscriptionView<V> {
    match subscription.pending {
        Some(replay) => SubscriptionView {
            pending: None,
            queue: as_entries(replay) + kept(
                subscription.queue,
                replay,
                subscription.watermark,
            ),
            ..subscription
        },
        None => subscription,
    }
}

/// How many queued entries applying the seek that waits lets go.
pub open spec fn let_go<V>(subscription: SubscriptionView<V>) -> nat {
    match subscription.pending {
        Some(replay) => (subscription.queue.len() - kept(
            subscription.queue,
            replay,
            subscription.watermark,
        ).len()) as nat,
        None => 0,
    }
}

/// Whether a queued entry is a stale copy from before a seek.
pub open spec fn stale<V>(entry: EntryView<V>, watermark: nat) -> bool {
    match entry {
        EntryView::Message(message) => message.sequence < watermark,
        EntryView::End => false,
    }
}

/// How many stale copies stand at the front of a queue.
pub open spec fn stale_front<V>(queue: Seq<EntryView<V>>, watermark: nat) -> nat
    decreases queue.len(),
{
    if queue.len() == 0 || !stale(queue[0], watermark) {
        0
    } else {
        1 + stale_front(queue.drop_first(), watermark)
    }
}

/// What a poll does to a subscription, what it finds, and how many queued messages it lets go
/// without delivering them.
pub struct PollView<V> {
    pub after: SubscriptionView<V>,
    pub found: PolledView<V>,
    pub superseded: nat,
    pub stale: nat,
}

/// What a poll of `subscription` comes to.
pub open spec fn polled<V>(subscription: SubscriptionView<V>) -> PollView<V> {
    if subscription.ended {
        PollView { after: subscription, found: PolledView::End, superseded: 0, stale: 0 }
    } else {
        let applied = settled(subscription);
        let front = stale_front(applied.queue, applied.watermark);
        if front < applied.queue.len() {
            PollView {
                after: SubscriptionView { queue: applied.queue.skip(front + 1int), ..applied },
                found: match applied.queue[front as int] {
                    EntryView::Message(message) => PolledView::Ready(message),
                    EntryView::End => PolledView::End,
                },
                superseded: let_go(subscription),
                stale: front,
            }
        } else {
            // A replay that has read everything closes; a live subscription waits for more.
            PollView {
                after: SubscriptionView {
                    queue: Seq::empty(),
                    open: applied.open && !applied.replay,
                    ..applied
                },
                found: if applied.replay {
                    PolledView::End
                } else {
                    PolledView::Pending
                },
                superseded: let_go(subscription),
                stale: front,
            }
        }
    }
}

/// How many messages a queue holds.
pub open spec fn messages_in<V>(queue: Seq<EntryView<V>>) -> nat
    decreases queue.len(),
{
    if queue.len() == 0 {
        0
    } else {
        messages_in(queue.drop_first()) + if queue[0] is Message {
            1nat
        } else {
            0
        }
    }
}

/// How many deliveries a seek that waits holds.
pub open spec fn waiting<V>(subscription: SubscriptionView<V>) -> nat {
    match subscription.pending {
        Some(replay) => replay.len(),
        None => 0,
    }
}

/// How many deliveries of a subscription are counted in flight and not yet handed out: those in
/// its queue, and those of a seek that waits.
pub open spec fn in_flight<V>(subscription: SubscriptionView<V>) -> nat {
    messages_in(subscription.queue) + waiting(subscription)
}

/// A number, as far as a `usize` counts.
pub open spec fn counted(number: nat) -> nat {
    if number <= usize::MAX {
        number
    } else {
        usize::MAX as nat
    }
}

impl<T: View> Subscription<T> {
    /// Opens a subscription on `key`; a replay completes once it has read everything.
    pub fn new(key: &str, replay: bool) -> (subscription: Self)
        ensures
            subscription@ == opened::<T::V>(key@, replay),
    {
        let subscription = Subscription {
            key: key.to_owned(),
            open: true,
            queue: VecDeque::new(),
            pending: None,
            watermark: 0,
            ended: false,
            replay,
        };
        proof {
            assert(subscription@.queue =~= Seq::empty());
        }
        subscription
    }

    /// The stream key the subscription reads.
    pub fn key(&self) -> (key: &str)
        ensures
            key@ == self@.key,
    {
        self.key.as_str()
    }

    /// Whether what is written under the key still reaches the queue.
    pub fn is_open(&self) -> (open: bool)
        ensures
            open == self@.open,
    {
        self.open
    }

    /// Whether the subscription ended for good.
    pub fn has_ended(&self) -> (ended: bool)
        ensures
            ended == self@.ended,
    {
        self.ended
    }

    /// Whether the subscription completes once it has read everything.
    pub fn replays(&self) -> (replays: bool)
        ensures
            replays == self@.replay,
    {
        self.replay
    }

    /// Queues a message behind what is queued.
    pub fn push(&mut self, message: Numbered<T>)
        ensures
            final(self)@ == (SubscriptionView {
                queue: old(self)@.queue.push(EntryView::Message(message@)),
                ..old(self)@
            }),
    {
        self.queue.push_back(Entry::Message(message));
        proof {
            assert(self@.queue =~= old(self)@.queue.push(EntryView::Message(message@)));
        }
    }

    /// Queues the end-of-stream mark behind what is queued.
    pub fn mark(&mut self)
        ensures
            final(self)@ == (SubscriptionView {
                queue: old(self)@.queue.push(EntryView::End),
                ..old(self)@
            }),
    {
        self.queue.push_back(Entry::End);
        proof {
            assert(self@.queue =~= old(self)@.queue.push(EntryView::End));
        }
    }

    /// Closes the subscription to what is written from here on; whether it was open.
    pub fn close(&mut self) -> (was_open: bool)
        ensures
            was_open == old(self)@.open,
            final(self)@ == (SubscriptionView { open: false, ..old(self)@ }),
    {
        let was_open = self.open;
        self.open = false;
        was_open
    }

    /// Ends the subscription for good.
    pub fn end(&mut self)
        ensures
            final(self)@ == (SubscriptionView { ended: true, ..old(self)@ }),
    {
        self.ended = true;
    }

    /// Hands a resolved seek to the subscription, which applies it inside its next poll: the
    /// number it resumes at, and the messages from there on. How many deliveries of a seek that
    /// still waited it overtook.
    pub fn reposition(&mut self, target: u64, replay: Vec<Numbered<T>>) -> (overtaken: usize)
        ensures
            overtaken == waiting(old(self)@),
            final(self)@ == (SubscriptionView {
                pending: Some(numbered_views(replay@)),
                watermark: target as nat,
                ..old(self)@
            }),
    {
        let overtaken: usize = match &self.pending {
            Some(replay) => replay.len(),
            None => 0,
        };
        self.watermark = target;
        self.pending = Some(replay);
        overtaken
    }

    /// Lets everything go that is queued or waits to be: how many messages that was, as far as a
    /// `usize` counts.
    pub fn release(&mut self) -> (released: usize)
        ensures
            released == counted(in_flight(old(self)@)),
            final(self)@ == (SubscriptionView {
                queue: Seq::empty(),
                pending: None,
                ..old(self)@
            }),
    {
        let waiting: usize = match self.pending.take() {
            Some(replay) => replay.len(),
            None => 0,
        };
        let mut released: usize = 0;
        proof {
            lemma_messages_in_bound(self@.queue);
        }
        let held: usize = self.queue.len();
        while self.queue.len() > 0
            invariant
                released + messages_in(self@.queue) == messages_in(old(self)@.queue),
                messages_in(old(self)@.queue) <= held,
                self@ == (SubscriptionView {
                    queue: self@.queue,
                    pending: None,
                    ..old(self)@
                }),
            decreases self.queue@.len(),
        {
            let ghost before = self@.queue;
            let front = self.queue.pop_front();
            proof {
                assert(self@.queue =~= before.drop_first());
            }
            match front {
                Some(Entry::Message(_)) => {
                    released = released + 1;
                },
                _ => {},
            }
        }
        proof {
            assert(self@.queue =~= Seq::empty());
        }
        if released > usize::MAX - waiting {
            usize::MAX
        } else {
            released + waiting
        }
    }

    /// Applies the seek that waits, if one does: everything it supersedes is dropped, then the
    /// replay is queued in front of what is left. How many messages were dropped.
    fn apply_pending_seek(&mut self) -> (released: usize)
        ensures
            final(self)@ == settled(old(self)@),
            released == let_go(old(self)@),
    {
        let taken = self.pending.take();
        match taken {
            None => 0,
            Some(replay) => {
                let ghost messages = numbered_views(replay@);
                let mut last: Option<u64> = None;
                if replay.len() > 0 {
                    last = Some(replay[replay.len() - 1].sequence);
                }
                let watermark = self.watermark;
                let mut arrived_after: VecDeque<Entry<T>> = VecDeque::new();
                let held: usize = self.queue.len();
                let mut released: usize = 0;
                proof {
                    assert(entry_views(arrived_after@) =~= Seq::empty());
                    assert(entry_views(arrived_after@) + kept(
                        self@.queue,
                        messages,
                        watermark as nat,
                    ) =~= kept(self@.queue, messages, watermark as nat));
                }
                while self.queue.len() > 0
                    invariant
                        self@ == (SubscriptionView {
                            queue: self@.queue,
                            pending: None,
                            ..old(self)@
                        }),
                        watermark == old(self)@.watermark,
                        messages.len() > 0 ==> last == Some(messages.last().sequence as u64),
                        messages.len() > 0 ==> messages.last().sequence <= u64::MAX,
                        messages.len() == 0 ==> last is None,
                        entry_views(arrived_after@) + kept(
                            self@.queue,
                            messages,
                            watermark as nat,
                        ) == kept(old(self)@.queue, messages, watermark as nat),
                        released + arrived_after@.len() + self.queue@.len() == held,
                        held == old(self)@.queue.len(),
                    decreases self.queue@.len(),
                {
                    let ghost before = self@.queue;
                    let ghost arrived = entry_views(arrived_after@);
                    let front = self.queue.pop_front();
                    proof {
                        assert(self@.queue =~= before.drop_first());
                    }
                    match front {
                        None => {},
                        Some(entry) => {
                            let gone = match &entry {
                                Entry::Message(message) => match last {
                                    Some(last) => message.sequence <= last,
                                    None => message.sequence < watermark,
                                },
                                Entry::End => false,
                            };
                            proof {
                                assert(entry@ == before[0]);
                                assert(gone == superseded(before[0], messages, watermark as nat));
                            }
                            if gone {
                                released = released + 1;
                            } else {
                                arrived_after.push_back(entry);
                                proof {
                                    assert(entry_views(arrived_after@) =~= arrived.push(before[0]));
                                    assert(arrived + (seq![before[0]] + kept(
                                        self@.queue,
                                        messages,
                                        watermark as nat,
                                    )) =~= entry_views(arrived_after@) + kept(
                                        self@.queue,
                                        messages,
                                        watermark as nat,
                                    ));
                                }
                            }
                        },
                    }
                }
                let ghost kept_entries = entry_views(arrived_after@);
                proof {
                    assert(self@.queue.len() == 0);
                    assert(kept_entries + Seq::<EntryView<T::V>>::empty() =~= kept_entries);
                }
                let mut queue: VecDeque<Entry<T>> = VecDeque::new();
                proof {
                    assert(entry_views(queue@) =~= as_entries(messages.take(0)));
                }
                for message in it: replay
                    invariant
                        numbered_views(it.seq()) == messages,
                        entry_views(queue@) == as_entries(messages.take(it.index())),
                {
                    proof {
                        assert(messages[it.index()] == message@);
                    }
                    let ghost sent = entry_views(queue@);
                    queue.push_back(Entry::Message(message));
                    proof {
                        assert(entry_views(queue@) =~= sent.push(
                            EntryView::Message(messages[it.index()]),
                        ));
                        assert(as_entries(messages.take(it.index() + 1)) =~= as_entries(
                            messages.take(it.index()),
                        ).push(EntryView::Message(messages[it.index()])));
                    }
                }
                proof {
                    assert(messages.take(messages.len() as int) =~= messages);
                    assert(entry_views(queue@ + arrived_after@) =~= entry_views(queue@)
                        + entry_views(arrived_after@));
                }
                queue.append(&mut arrived_after);
                self.queue = queue;
                released
            },
        }
    }

    /// The next delivery, or the end of the subscription, or neither yet.
    pub fn poll(&mut self) -> (poll: Poll<T>)
        ensures
            final(self)@ == polled(old(self)@).after,
            poll.found@ == polled(old(self)@).found,
            poll.superseded == polled(old(self)@).superseded,
            poll.stale == polled(old(self)@).stale,
    {
        if self.ended {
            return Poll { found: Polled::End, superseded: 0, stale: 0 };
        }
        let superseded = self.apply_pending_seek();
        let ghost applied = self@;
        let held: usize = self.queue.len();
        let mut stale: usize = 0;
        proof {
            assert(applied.queue.skip(0) =~= applied.queue);
        }
        while self.queue.len() > 0
            invariant
                self@ == (SubscriptionView { queue: self@.queue, ..applied }),
                !old(self)@.ended,
                applied == settled(old(self)@),
                superseded == let_go(old(self)@),
                held == applied.queue.len(),
                stale <= held,
                self@.queue == applied.queue.skip(stale as int),
                stale_front(applied.queue, applied.watermark) == stale + stale_front(
                    self@.queue,
                    applied.watermark,
                ),
            decreases self.queue@.len(),
        {
            let ghost before = self@.queue;
            let front = self.queue.pop_front();
            proof {
                assert(self@.queue =~= before.drop_first());
                assert(before.drop_first() =~= applied.queue.skip(stale + 1));
            }
            match front {
                None => {},
                Some(Entry::End) => {
                    return Poll { found: Polled::End, superseded, stale };
                },
                Some(Entry::Message(message)) => {
                    if message.sequence >= self.watermark {
                        return Poll { found: Polled::Ready(message), superseded, stale };
                    }
                    stale = stale + 1;
                },
            }
        }
        proof {
            assert(self@.queue =~= Seq::empty());
        }
        if self.replay {
            self.open = false;
            return Poll { found: Polled::End, superseded, stale };
        }
        Poll { found: Polled::Pending, superseded, stale }
    }
}

/// The messages a queue still delivers: those before the mark that are not stale.
pub open spec fn fresh<V>(queue: Seq<EntryView<V>>, watermark: nat) -> Seq<NumberedView<V>>
    decreases queue.len(),
{
    if queue.len() == 0 {
        Seq::empty()
    } else {
        match queue[0] {
            EntryView::Message(message) => if message.sequence < watermark {
                fresh(queue.drop_first(), watermark)
            } else {
                seq![message] + fresh(queue.drop_first(), watermark)
            },
            EntryView::End => Seq::empty(),
        }
    }
}

/// Everything a subscription delivers if nothing more is written under its key.
pub open spec fn upcoming<V>(subscription: SubscriptionView<V>) -> Seq<NumberedView<V>> {
    if subscription.ended {
        Seq::empty()
    } else {
        fresh(settled(subscription).queue, subscription.watermark)
    }
}

/// A subscription with one more message in its queue.
pub open spec fn with_message<V>(
    subscription: SubscriptionView<V>,
    message: NumberedView<V>,
) -> SubscriptionView<V> {
    SubscriptionView {
        queue: subscription.queue.push(EntryView::Message(message)),
        ..subscription
    }
}

/// A subscription with a resolved seek handed to it.
pub open spec fn sought<V>(
    subscription: SubscriptionView<V>,
    target: nat,
    replay: Seq<NumberedView<V>>,
) -> SubscriptionView<V> {
    SubscriptionView { pending: Some(replay), watermark: target, ..subscription }
}

/// A poll delivers the first of the messages a subscription has coming and leaves the others in
/// their order; it finds no delivery exactly when none is coming.
pub proof fn law_a_poll_takes_the_first_upcoming_message<V>(subscription: SubscriptionView<V>)
    ensures
        polled(subscription).found matches PolledView::Ready(message) ==> upcoming(
            subscription,
        ).len() > 0 && message == upcoming(subscription)[0] && upcoming(
            polled(subscription).after,
        ) == upcoming(subscription).drop_first(),
        !(polled(subscription).found is Ready) ==> upcoming(subscription).len() == 0,
{
    if !subscription.ended {
        let applied = settled(subscription);
        let front = stale_front(applied.queue, applied.watermark);
        lemma_fresh_past_stale(applied.queue, applied.watermark);
        if front < applied.queue.len() {
            let rest = applied.queue.skip(front as int);
            assert(rest.drop_first() =~= applied.queue.skip(front + 1int));
            assert(upcoming(subscription) == fresh(rest, applied.watermark));
            assert(rest[0] == applied.queue[front as int]);
            if rest[0] is Message {
                assert(upcoming(subscription).drop_first() =~= fresh(
                    rest.drop_first(),
                    applied.watermark,
                ));
            }
        }
    }
}

/// A message that arrives behind everything a subscription has queued, below neither its
/// watermark nor a seek that waits, is delivered after everything that was coming.
pub proof fn law_an_arrival_is_delivered_last<V>(
    subscription: SubscriptionView<V>,
    message: NumberedView<V>,
)
    requires
        !subscription.ended,
        !subscription.queue.contains(EntryView::End),
        message.sequence >= subscription.watermark,
        subscription.pending matches Some(replay) ==> !superseded(
            EntryView::Message(message),
            replay,
            subscription.watermark,
        ),
    ensures
        upcoming(with_message(subscription, message)) == upcoming(subscription).push(message),
{
    let entry = EntryView::Message(message);
    match subscription.pending {
        Some(replay) => {
            let rest = kept(subscription.queue, replay, subscription.watermark);
            lemma_kept_push(subscription.queue, entry, replay, subscription.watermark);
            assert(as_entries(replay) + rest.push(entry) =~= (as_entries(replay) + rest).push(
                entry,
            ));
            lemma_kept_was_queued(subscription.queue, replay, subscription.watermark);
            assert(!(as_entries(replay) + rest).contains(EntryView::End));
            lemma_fresh_push(as_entries(replay) + rest, message, subscription.watermark);
        },
        None => {
            lemma_fresh_push(subscription.queue, message, subscription.watermark);
        },
    }
}

/// What a seek came to: how many deliveries its replay holds, and how many of a seek that still
/// waited it overtook.
#[derive(Debug, Clone, Copy, PartialEq, Eq, Structural)]
pub struct Sought {
    /// How many deliveries the replay holds.
    pub queued: usize,
    /// How many deliveries of a seek that still waited are let go.
    pub overtaken: usize,
}

/// After a seek that supersedes everything queued, a subscription delivers exactly the messages
/// the seek resolved to, each of them once and in order.
pub proof fn law_a_seek_delivers_exactly_its_replay<V>(
    subscription: SubscriptionView<V>,
    target: nat,
    replay: Seq<NumberedView<V>>,
)
    requires
        !subscription.ended,
        forall|i: int| 0 <= i < replay.len() ==> (#[trigger] replay[i]).sequence >= target,
        forall|i: int|
            0 <= i < subscription.queue.len() ==> (#[trigger] subscription.queue[i]) is End
                || superseded(subscription.queue[i], replay, target),
    ensures
        upcoming(sought(subscription, target, replay)) == replay,
{
    lemma_kept_of_superseded(subscription.queue, replay, target);
    lemma_fresh_of_messages(
        replay,
        kept(subscription.queue, replay, target),
        target,
    );
}

/// Every delivery a poll takes off a subscription is accounted for exactly once: handed out, or
/// reported as let go.
pub proof fn law_a_poll_accounts_for_what_it_takes<V>(subscription: SubscriptionView<V>)
    ensures
        ({
            let poll = polled(subscription);
            in_flight(subscription) == in_flight(poll.after) + poll.superseded + poll.stale + if
                poll.found is Ready {
                1nat
            } else {
                0
            }
        }),
{
    let applied = settled(subscription);
    let front = stale_front(applied.queue, applied.watermark) as int;
    if let Some(replay) = subscription.pending {
        let left = kept(subscription.queue, replay, subscription.watermark);
        lemma_messages_kept(subscription.queue, replay, subscription.watermark);
        lemma_messages_of_entries(replay, left);
    }
    lemma_messages_past_stale(applied.queue, applied.watermark);
    if front < applied.queue.len() {
        let rest = applied.queue.skip(front);
        assert(rest.drop_first() =~= applied.queue.skip(front + 1));
        assert(rest[0] == applied.queue[front]);
    }
}

/// A seek counts the deliveries of its replay in flight, and lets those of a seek that it overtook
/// go: nothing else changes in the count.
pub proof fn law_a_seek_counts_its_replay<V>(
    subscription: SubscriptionView<V>,
    target: nat,
    replay: Seq<NumberedView<V>>,
)
    ensures
        in_flight(sought(subscription, target, replay)) + waiting(subscription) == in_flight(
            subscription,
        ) + replay.len(),
{
}

/// A message that arrives is one more delivery in flight.
pub proof fn law_an_arrival_is_counted<V>(
    subscription: SubscriptionView<V>,
    message: NumberedView<V>,
)
    ensures
        in_flight(with_message(subscription, message)) == in_flight(subscription) + 1,
{
    lemma_messages_pushed(subscription.queue, message);
}

proof fn lemma_messages_pushed<V>(queue: Seq<EntryView<V>>, message: NumberedView<V>)
    ensures
        messages_in(queue.push(EntryView::Message(message))) == messages_in(queue) + 1,
    decreases queue.len(),
{
    let longer = queue.push(EntryView::Message(message));
    if queue.len() == 0 {
        reveal_with_fuel(messages_in, 2);
        assert(longer[0] is Message);
    } else {
        lemma_messages_pushed(queue.drop_first(), message);
        assert(longer.drop_first() =~= queue.drop_first().push(EntryView::Message(message)));
        assert(longer[0] == queue[0]);
    }
}

proof fn lemma_messages_kept<V>(
    queue: Seq<EntryView<V>>,
    replay: Seq<NumberedView<V>>,
    watermark: nat,
)
    ensures
        kept(queue, replay, watermark).len() <= queue.len(),
        messages_in(kept(queue, replay, watermark)) + (queue.len() - kept(
            queue,
            replay,
            watermark,
        ).len()) == messages_in(queue),
    decreases queue.len(),
{
    if queue.len() > 0 {
        let rest = queue.drop_first();
        lemma_messages_kept(rest, replay, watermark);
        if !superseded(queue[0], replay, watermark) {
            let all = kept(queue, replay, watermark);
            assert(all.drop_first() =~= kept(rest, replay, watermark));
        }
    }
}

proof fn lemma_messages_of_entries<V>(
    messages: Seq<NumberedView<V>>,
    behind: Seq<EntryView<V>>,
)
    ensures
        messages_in(as_entries(messages) + behind) == messages.len() + messages_in(behind),
    decreases messages.len(),
{
    let queue = as_entries(messages) + behind;
    if messages.len() == 0 {
        assert(queue =~= behind);
    } else {
        lemma_messages_of_entries(messages.drop_first(), behind);
        assert(queue.drop_first() =~= as_entries(messages.drop_first()) + behind);
        assert(queue[0] == EntryView::Message(messages[0]));
    }
}

proof fn lemma_messages_past_stale<V>(queue: Seq<EntryView<V>>, watermark: nat)
    ensures
        stale_front(queue, watermark) <= queue.len(),
        messages_in(queue) == stale_front(queue, watermark) + messages_in(
            queue.skip(stale_front(queue, watermark) as int),
        ),
    decreases queue.len(),
{
    if queue.len() == 0 || !stale(queue[0], watermark) {
        assert(queue.skip(0) =~= queue);
    } else {
        let rest = queue.drop_first();
        lemma_messages_past_stale(rest, watermark);
        assert(rest.skip(stale_front(rest, watermark) as int) =~= queue.skip(
            stale_front(queue, watermark) as int,
        ));
    }
}

/// The stale copies at the front of a queue are delivered to nobody.
proof fn lemma_fresh_past_stale<V>(queue: Seq<EntryView<V>>, watermark: nat)
    ensures
        stale_front(queue, watermark) <= queue.len(),
        fresh(queue, watermark) == fresh(
            queue.skip(stale_front(queue, watermark) as int),
            watermark,
        ),
        stale_front(queue, watermark) < queue.len() ==> !stale(
            queue[stale_front(queue, watermark) as int],
            watermark,
        ),
    decreases queue.len(),
{
    if queue.len() == 0 || !stale(queue[0], watermark) {
        assert(queue.skip(0) =~= queue);
    } else {
        let rest = queue.drop_first();
        lemma_fresh_past_stale(rest, watermark);
        assert(rest.skip(stale_front(rest, watermark) as int) =~= queue.skip(
            stale_front(queue, watermark) as int,
        ));
    }
}

/// A fresh message behind an unmarked queue is delivered last.
proof fn lemma_fresh_push<V>(
    queue: Seq<EntryView<V>>,
    message: NumberedView<V>,
    watermark: nat,
)
    requires
        !queue.contains(EntryView::End),
        message.sequence >= watermark,
    ensures
        fresh(queue.push(EntryView::Message(message)), watermark) == fresh(queue, watermark).push(
            message,
        ),
    decreases queue.len(),
{
    let longer = queue.push(EntryView::Message(message));
    if queue.len() == 0 {
        reveal_with_fuel(fresh, 2);
        assert(longer[0] == EntryView::Message(message));
        assert(fresh(longer, watermark) =~= seq![message]);
        assert(Seq::<NumberedView<V>>::empty().push(message) =~= seq![message]);
    } else {
        let rest = queue.drop_first();
        assert(queue.contains(queue[0]));
        assert forall|entry: EntryView<V>| rest.contains(entry) implies queue.contains(entry) by {
            let i = choose|i: int| 0 <= i < rest.len() && rest[i] == entry;
            assert(queue[i + 1] == entry);
        }
        lemma_fresh_push(rest, message, watermark);
        assert(longer.drop_first() =~= rest.push(EntryView::Message(message)));
        assert(fresh(longer, watermark) =~= fresh(queue, watermark).push(message));
    }
}

/// A seek keeps an entry it does not supersede, behind what it keeps of the queue before it.
pub proof fn lemma_kept_push<V>(
    queue: Seq<EntryView<V>>,
    entry: EntryView<V>,
    replay: Seq<NumberedView<V>>,
    watermark: nat,
)
    requires
        !superseded(entry, replay, watermark),
    ensures
        kept(queue.push(entry), replay, watermark) == kept(queue, replay, watermark).push(entry),
    decreases queue.len(),
{
    let longer = queue.push(entry);
    if queue.len() == 0 {
        reveal_with_fuel(kept, 2);
        assert(longer[0] == entry);
        assert(kept(longer, replay, watermark) =~= kept(queue, replay, watermark).push(entry));
    } else {
        lemma_kept_push(queue.drop_first(), entry, replay, watermark);
        assert(longer.drop_first() =~= queue.drop_first().push(entry));
        assert(kept(longer, replay, watermark) =~= kept(queue, replay, watermark).push(entry));
    }
}

/// A seek keeps no entry that was not in the queue.
pub proof fn lemma_kept_was_queued<V>(
    queue: Seq<EntryView<V>>,
    replay: Seq<NumberedView<V>>,
    watermark: nat,
)
    ensures
        forall|entry: EntryView<V>|
            kept(queue, replay, watermark).contains(entry) ==> queue.contains(entry),
    decreases queue.len(),
{
    if queue.len() > 0 {
        let rest = queue.drop_first();
        lemma_kept_was_queued(rest, replay, watermark);
        assert forall|entry: EntryView<V>|
            kept(queue, replay, watermark).contains(entry) implies queue.contains(entry) by {
            let all = kept(queue, replay, watermark);
            let i = choose|i: int| 0 <= i < all.len() && all[i] == entry;
            if superseded(queue[0], replay, watermark) {
                assert(kept(rest, replay, watermark).contains(entry));
            } else if i > 0 {
                assert(kept(rest, replay, watermark)[i - 1] == entry);
                assert(kept(rest, replay, watermark).contains(entry));
            } else {
                assert(queue[0] == entry);
            }
            if rest.contains(entry) {
                let j = choose|j: int| 0 <= j < rest.len() && rest[j] == entry;
                assert(queue[j + 1] == entry);
            }
        }
    }
}

/// A seek that supersedes every queued message keeps nothing but marks.
pub proof fn lemma_kept_of_superseded<V>(
    queue: Seq<EntryView<V>>,
    replay: Seq<NumberedView<V>>,
    watermark: nat,
)
    requires
        forall|i: int|
            0 <= i < queue.len() ==> (#[trigger] queue[i]) is End || superseded(
                queue[i],
                replay,
                watermark,
            ),
    ensures
        forall|i: int|
            0 <= i < kept(queue, replay, watermark).len() ==> (#[trigger] kept(
                queue,
                replay,
                watermark,
            )[i]) is End,
    decreases queue.len(),
{
    if queue.len() > 0 {
        lemma_kept_of_superseded(queue.drop_first(), replay, watermark);
    }
}

/// Messages at or past the watermark are all delivered, up to the marks behind them.
proof fn lemma_fresh_of_messages<V>(
    messages: Seq<NumberedView<V>>,
    marks: Seq<EntryView<V>>,
    watermark: nat,
)
    requires
        forall|i: int|
            0 <= i < messages.len() ==> (#[trigger] messages[i]).sequence >= watermark,
        forall|i: int| 0 <= i < marks.len() ==> (#[trigger] marks[i]) is End,
    ensures
        fresh(as_entries(messages) + marks, watermark) == messages,
    decreases messages.len(),
{
    let queue = as_entries(messages) + marks;
    if messages.len() == 0 {
        assert(queue =~= marks);
        assert(fresh(queue, watermark) =~= messages);
    } else {
        let rest = messages.drop_first();
        lemma_fresh_of_messages(rest, marks, watermark);
        assert(queue.drop_first() =~= as_entries(rest) + marks);
        assert(queue[0] == EntryView::Message(messages[0]));
        assert(fresh(queue, watermark) =~= messages);
    }
}

/// A queue holds no more messages than entries.
proof fn lemma_messages_in_bound<V>(queue: Seq<EntryView<V>>)
    ensures
        messages_in(queue) <= queue.len(),
    decreases queue.len(),
{
    if queue.len() > 0 {
        lemma_messages_in_bound(queue.drop_first());
    }
}

/// What a subscription hands out when it is polled up to `polls` times and nothing reaches it
/// meanwhile.
pub open spec fn handed_out<V>(subscription: SubscriptionView<V>, polls: nat) -> Seq<
    NumberedView<V>,
>
    decreases polls,
{
    if polls == 0 {
        Seq::empty()
    } else {
        match polled(subscription).found {
            PolledView::Ready(message) => seq![message] + handed_out(
                polled(subscription).after,
                (polls - 1) as nat,
            ),
            _ => Seq::empty(),
        }
    }
}

/// Polling a subscription hands out exactly what it has coming, in that order, and then no message
/// more.
pub proof fn law_polling_hands_out_what_is_coming<V>(
    subscription: SubscriptionView<V>,
    polls: nat,
)
    ensures
        polls <= upcoming(subscription).len() ==> handed_out(subscription, polls) == upcoming(
            subscription,
        ).take(polls as int),
        polls >= upcoming(subscription).len() ==> handed_out(subscription, polls) == upcoming(
            subscription,
        ),
    decreases polls,
{
    let ahead = upcoming(subscription);
    law_a_poll_takes_the_first_upcoming_message(subscription);
    if polls == 0 {
        assert(ahead.take(0) =~= Seq::empty());
        if ahead.len() == 0 {
            assert(ahead =~= Seq::empty());
        }
    } else if polled(subscription).found is Ready {
        let after = polled(subscription).after;
        law_polling_hands_out_what_is_coming(after, (polls - 1) as nat);
        if polls <= ahead.len() {
            assert(seq![ahead[0]] + ahead.drop_first().take(polls - 1) =~= ahead.take(
                polls as int,
            ));
        }
        if polls >= ahead.len() {
            assert(seq![ahead[0]] + ahead.drop_first() =~= ahead);
        }
    } else {
        assert(ahead =~= Seq::empty());
        assert(ahead.take(0) =~= Seq::empty());
    }
}

/// A poll changes neither the key a subscription reads nor how it reads it, applies the seek that
/// waited, and closes a subscription only where it is a replay with nothing left to deliver.
pub proof fn law_a_poll_changes_nothing_but_the_queue<V>(subscription: SubscriptionView<V>)
    ensures
        ({
            let after = polled(subscription).after;
            &&& after.key == subscription.key
            &&& after.replay == subscription.replay
            &&& after.ended == subscription.ended
            &&& after.watermark == subscription.watermark
            &&& !subscription.ended ==> after.pending is None
            &&& after.open ==> subscription.open
            &&& subscription.open && !after.open ==> subscription.replay && upcoming(
                subscription,
            ).len() == 0 && polled(subscription).found is End
            &&& subscription.ended ==> after == subscription && polled(subscription).found is End
        }),
{
    law_a_poll_takes_the_first_upcoming_message(subscription);
}

/// A seek leaves the key a subscription reads, how it reads it, and what it has queued as they are,
/// and waits with its replay for the next poll; a message that arrives changes the queue alone.
pub proof fn law_a_seek_waits_for_the_next_poll<V>(
    subscription: SubscriptionView<V>,
    target: nat,
    replay: Seq<NumberedView<V>>,
    message: NumberedView<V>,
)
    ensures
        ({
            let moved = sought(subscription, target, replay);
            let reached = with_message(subscription, message);
            &&& moved.key == subscription.key && moved.open == subscription.open && moved.ended
                == subscription.ended && moved.replay == subscription.replay && moved.queue
                == subscription.queue
            &&& moved.pending == Some(replay)
            &&& moved.watermark == target
            &&& reached.queue == subscription.queue.push(EntryView::Message(message))
            &&& reached.key == subscription.key && reached.open == subscription.open
                && reached.ended == subscription.ended && reached.replay == subscription.replay
                && reached.pending == subscription.pending && reached.watermark
                == subscription.watermark
        }),
{
}

/// A subscription opens with nothing in flight, the end-of-stream mark is no delivery, and a count
/// is told as it is where a `usize` holds it.
pub proof fn law_only_messages_are_in_flight<V>(
    key: Seq<char>,
    replay: bool,
    subscription: SubscriptionView<V>,
    number: nat,
)
    ensures
        in_flight(opened::<V>(key, replay)) == 0,
        in_flight(
            SubscriptionView { queue: subscription.queue.push(EntryView::End), ..subscription },
        ) == in_flight(subscription),
        number <= usize::MAX ==> counted(number) == number,
        number > usize::MAX ==> counted(number) == usize::MAX,
{
    lemma_mark_pushed(subscription.queue);
}

proof fn lemma_mark_pushed<V>(queue: Seq<EntryView<V>>)
    ensures
        messages_in(queue.push(EntryView::End)) == messages_in(queue),
    decreases queue.len(),
{
    let longer = queue.push(EntryView::End);
    if queue.len() == 0 {
        reveal_with_fuel(messages_in, 2);
        assert(longer[0] is End);
    } else {
        lemma_mark_pushed(queue.drop_first());
        assert(longer.drop_first() =~= queue.drop_first().push(EntryView::End));
        assert(longer[0] == queue[0]);
    }
}

/// A subscription opens on its key, open, not ended, with nothing queued and nothing sought.
pub proof fn law_a_subscription_opens_empty<V>(key: Seq<char>, replay: bool)
    ensures
        opened::<V>(key, replay).key == key,
        opened::<V>(key, replay).replay == replay,
        opened::<V>(key, replay).open,
        !opened::<V>(key, replay).ended,
        opened::<V>(key, replay).queue.len() == 0,
        opened::<V>(key, replay).pending is None,
        opened::<V>(key, replay).watermark == 0,
{
}

/// A numbered item holds its number and its item, a queue's entry the message or the mark, and what
/// a poll found the message, the end, or nothing yet; lists of them hold each in its place.
pub proof fn law_entries_hold_what_they_were_made_with<T: View>(
    numbered: Numbered<T>,
    entries: Seq<Entry<T>>,
    items: Seq<Numbered<T>>,
)
    ensures
        numbered@.sequence == numbered.sequence,
        numbered@.item == numbered.item@,
        Entry::Message(numbered)@ == EntryView::Message(numbered@),
        Entry::<T>::End@ is End,
        Polled::Ready(numbered)@ == PolledView::Ready(numbered@),
        Polled::<T>::End@ is End,
        Polled::<T>::Pending@ is Pending,
        entry_views(entries).len() == entries.len(),
        forall|i: int| 0 <= i < entries.len() ==> (#[trigger] entry_views(entries)[i]) == entries[i]@,
        numbered_views(items).len() == items.len(),
        forall|i: int| 0 <= i < items.len() ==> (#[trigger] numbered_views(items)[i]) == items[i]@,
{
}

} // verus!
