//! The subscriptions of one in-process file, pipe or stand.
//!
//! It lives inside its owner, so a fan-out, an unsubscribe and a replay's end-of-file check are
//! one step against each other: a message is either in a subscription's queue before that
//! subscription looks for the end, or it is never sent to it.

use vstd::prelude::*;
use vstd::string::*;

use crate::queue::{self, Duplicate, Numbered, Poll, Polled, Subscription};

verus! {

/// Opaque handle of one subscription inside a [`Registry`]: its place in the order they opened.
pub type SubscriptionId = usize;

/// Every subscription that was opened, in order. One that ended keeps its place, so an id is
/// never given twice.
pub struct Registry<T> {
    subscriptions: Vec<Subscription<T>>,
}

impl<T: View> View for Registry<T> {
    type V = Seq<queue::SubscriptionView<T::V>>;

    closed spec fn view(&self) -> Seq<queue::SubscriptionView<T::V>> {
        self.subscriptions@.map_values(|subscription: Subscription<T>| subscription@)
    }
}

/// Whether what is written under `key` reaches a subscription's queue: only the exact key does.
pub open spec fn listens<V>(subscription: queue::SubscriptionView<V>, key: Seq<char>) -> bool {
    subscription.open && subscription.key == key
}

/// How many subscriptions listen on `key`.
pub open spec fn listeners<V>(
    subscriptions: Seq<queue::SubscriptionView<V>>,
    key: Seq<char>,
) -> nat
    decreases subscriptions.len(),
{
    if subscriptions.len() == 0 {
        0
    } else {
        listeners(subscriptions.drop_last(), key) + if listens(subscriptions.last(), key) {
            1nat
        } else {
            0
        }
    }
}

/// A subscription after `message` was written under `key`.
pub open spec fn reached<V>(
    subscription: queue::SubscriptionView<V>,
    key: Seq<char>,
    message: queue::NumberedView<V>,
) -> queue::SubscriptionView<V> {
    if listens(subscription, key) {
        queue::with_message(subscription, message)
    } else {
        subscription
    }
}

/// Every subscription after `message` was written under `key`.
pub open spec fn fanned_out<V>(
    subscriptions: Seq<queue::SubscriptionView<V>>,
    key: Seq<char>,
    message: queue::NumberedView<V>,
) -> Seq<queue::SubscriptionView<V>> {
    subscriptions.map_values(
        |subscription: queue::SubscriptionView<V>| reached(subscription, key, message),
    )
}

/// A subscription after the end-of-stream mark was written.
pub open spec fn marked<V>(subscription: queue::SubscriptionView<V>) -> queue::SubscriptionView<V> {
    if subscription.open {
        queue::SubscriptionView {
            queue: subscription.queue.push(queue::EntryView::End),
            ..subscription
        }
    } else {
        subscription
    }
}

/// Every subscription after the end-of-stream mark was written.
pub open spec fn all_marked<V>(subscriptions: Seq<queue::SubscriptionView<V>>) -> Seq<
    queue::SubscriptionView<V>,
> {
    subscriptions.map_values(|subscription: queue::SubscriptionView<V>| marked(subscription))
}

/// A subscription whose handle is gone: closed, ended for good, its queue empty and no seek
/// waiting.
pub open spec fn dropped<V>(
    subscription: queue::SubscriptionView<V>,
) -> queue::SubscriptionView<V> {
    queue::SubscriptionView {
        open: false,
        ended: true,
        queue: Seq::empty(),
        pending: None,
        ..subscription
    }
}

impl<T: View> Registry<T> {
    /// No subscriptions yet.
    pub fn new() -> (registry: Self)
        ensures
            registry@ == Seq::<queue::SubscriptionView<T::V>>::empty(),
    {
        let registry = Registry { subscriptions: Vec::new() };
        proof {
            assert(registry@ =~= Seq::empty());
        }
        registry
    }

    /// Opens a subscription on `key` and returns its id.
    pub fn open(&mut self, key: &str, replay: bool) -> (id: SubscriptionId)
        ensures
            id == old(self)@.len(),
            final(self)@ == old(self)@.push(queue::opened::<T::V>(key@, replay)),
    {
        let id = self.subscriptions.len();
        self.subscriptions.push(Subscription::new(key, replay));
        proof {
            assert(self@ =~= old(self)@.push(queue::opened::<T::V>(key@, replay)));
        }
        id
    }

    /// How many subscriptions were opened.
    pub fn count(&self) -> (count: usize)
        ensures
            count == self@.len(),
    {
        self.subscriptions.len()
    }

    /// The subscription `id` names.
    pub fn get(&self, id: SubscriptionId) -> (subscription: &Subscription<T>)
        requires
            id < self@.len(),
        ensures
            subscription@ == self@[id as int],
    {
        &self.subscriptions[id]
    }

    /// Closes a subscription; whether it was open. A second close of the same one is a no-op.
    pub fn close(&mut self, id: SubscriptionId) -> (was_open: bool)
        ensures
            was_open == (id < old(self)@.len() && old(self)@[id as int].open),
            !was_open ==> final(self)@ == old(self)@,
            was_open ==> final(self)@ == old(self)@.update(
                id as int,
                (queue::SubscriptionView { open: false, ..old(self)@[id as int] }),
            ),
    {
        if id < self.subscriptions.len() && self.subscriptions[id].is_open() {
            self.subscriptions[id].close();
            proof {
                assert(self@ =~= old(self)@.update(
                    id as int,
                    queue::SubscriptionView { open: false, ..old(self)@[id as int] },
                ));
            }
            true
        } else {
            false
        }
    }

    /// The stream key of an open subscription.
    pub fn key(&self, id: SubscriptionId) -> (key: Option<&str>)
        ensures
            key is Some <==> id < self@.len() && self@[id as int].open,
            key matches Some(key) ==> key@ == self@[id as int].key,
    {
        if id < self.subscriptions.len() && self.subscriptions[id].is_open() {
            Some(self.subscriptions[id].key())
        } else {
            None
        }
    }

    /// Sends the end-of-stream mark to every open subscription, after what each has queued.
    pub fn end_all(&mut self)
        ensures
            final(self)@ == all_marked(old(self)@),
    {
        let mut i: usize = 0;
        while i < self.subscriptions.len()
            invariant
                i <= self.subscriptions.len(),
                self@.len() == old(self)@.len(),
                forall|j: int| 0 <= j < i ==> (#[trigger] self@[j]) == marked(old(self)@[j]),
                forall|j: int| i <= j < self@.len() ==> (#[trigger] self@[j]) == old(self)@[j],
            decreases self.subscriptions.len() - i,
        {
            let ghost before = self@;
            if self.subscriptions[i].is_open() {
                self.subscriptions[i].mark();
            }
            proof {
                assert(self@ =~= before.update(i as int, marked(before[i as int])));
            }
            i = i + 1;
        }
        proof {
            assert(self@ =~= all_marked(old(self)@));
        }
    }

    /// Ends a subscription for good and closes it, leaving its queue as it is.
    pub fn end(&mut self, id: SubscriptionId)
        requires
            id < old(self)@.len(),
        ensures
            final(self)@ == old(self)@.update(
                id as int,
                (queue::SubscriptionView { open: false, ended: true, ..old(self)@[id as int] }),
            ),
    {
        self.subscriptions[id].close();
        self.subscriptions[id].end();
        proof {
            assert(self@ =~= old(self)@.update(
                id as int,
                queue::SubscriptionView { open: false, ended: true, ..old(self)@[id as int] },
            ));
        }
    }

    /// Hands a resolved seek to a subscription; how many deliveries of a seek that still waited it
    /// overtook.
    pub fn reposition(
        &mut self,
        id: SubscriptionId,
        target: u64,
        replay: Vec<Numbered<T>>,
    ) -> (overtaken: usize)
        requires
            id < old(self)@.len(),
        ensures
            overtaken == queue::waiting(old(self)@[id as int]),
            final(self)@ == old(self)@.update(
                id as int,
                queue::sought(
                    old(self)@[id as int],
                    target as nat,
                    queue::numbered_views(replay@),
                ),
            ),
    {
        let overtaken = self.subscriptions[id].reposition(target, replay);
        proof {
            assert(self@ =~= old(self)@.update(
                id as int,
                queue::sought(
                    old(self)@[id as int],
                    target as nat,
                    queue::numbered_views(replay@),
                ),
            ));
        }
        overtaken
    }

    /// Queues a message for one subscription, behind what it has queued.
    pub fn send(&mut self, id: SubscriptionId, message: Numbered<T>)
        requires
            id < old(self)@.len(),
        ensures
            final(self)@ == old(self)@.update(
                id as int,
                queue::with_message(old(self)@[id as int], message@),
            ),
    {
        self.subscriptions[id].push(message);
        proof {
            assert(self@ =~= old(self)@.update(
                id as int,
                queue::with_message(old(self)@[id as int], message@),
            ));
        }
    }

    /// Polls a subscription; an id that names none has ended.
    pub fn poll(&mut self, id: SubscriptionId) -> (poll: Poll<T>)
        ensures
            id < old(self)@.len() ==> {
                let expected = queue::polled(old(self)@[id as int]);
                &&& final(self)@ == old(self)@.update(id as int, expected.after)
                &&& poll.found@ == expected.found
                &&& poll.superseded == expected.superseded
                &&& poll.stale == expected.stale
            },
            id >= old(self)@.len() ==> {
                &&& final(self)@ == old(self)@
                &&& poll.found@ == queue::PolledView::<T::V>::End
                &&& poll.superseded == 0
                &&& poll.stale == 0
            },
    {
        if id < self.subscriptions.len() {
            let poll = self.subscriptions[id].poll();
            proof {
                assert(self@ =~= old(self)@.update(
                    id as int,
                    queue::polled(old(self)@[id as int]).after,
                ));
            }
            poll
        } else {
            Poll { found: Polled::End, superseded: 0, stale: 0 }
        }
    }

    /// Drops a subscription's handle: it ends for good, and what was queued or waited to be goes.
    /// How many messages that was, as far as a `usize` counts.
    pub fn forget(&mut self, id: SubscriptionId) -> (released: usize)
        ensures
            id < old(self)@.len() ==> {
                &&& final(self)@ == old(self)@.update(id as int, dropped(old(self)@[id as int]))
                &&& released == queue::counted(queue::in_flight(old(self)@[id as int]))
            },
            id >= old(self)@.len() ==> final(self)@ == old(self)@ && released == 0,
    {
        if id < self.subscriptions.len() {
            self.subscriptions[id].close();
            self.subscriptions[id].end();
            let released = self.subscriptions[id].release();
            proof {
                assert(self@ =~= old(self)@.update(id as int, dropped(old(self)@[id as int])));
            }
            released
        } else {
            0
        }
    }
}

impl<T: Duplicate> Registry<T> {
    /// Sends `message` to every open subscription on `key`; how many there were.
    pub fn fan_out(&mut self, key: &str, message: &Numbered<T>) -> (sent: usize)
        ensures
            final(self)@ == fanned_out(old(self)@, key@, message@),
            sent == listeners(old(self)@, key@),
    {
        let wanted = key.to_owned();
        let mut sent: usize = 0;
        let mut i: usize = 0;
        proof {
            assert(old(self)@.take(0) =~= Seq::empty());
        }
        while i < self.subscriptions.len()
            invariant
                i <= self.subscriptions.len(),
                wanted@ == key@,
                sent <= i,
                sent == listeners(old(self)@.take(i as int), key@),
                self@.len() == old(self)@.len(),
                forall|j: int|
                    0 <= j < i ==> (#[trigger] self@[j]) == reached(
                        old(self)@[j],
                        key@,
                        message@,
                    ),
                forall|j: int| i <= j < self@.len() ==> (#[trigger] self@[j]) == old(self)@[j],
            decreases self.subscriptions.len() - i,
        {
            let ghost before = self@;
            proof {
                assert(old(self)@.take(i + 1).drop_last() =~= old(self)@.take(i as int));
                assert(before[i as int] == old(self)@[i as int]);
            }
            if self.subscriptions[i].is_open() && self.subscriptions[i].key().to_owned()
                == wanted {
                self.subscriptions[i].push(message.duplicate());
                sent = sent + 1;
            }
            proof {
                assert(self@ =~= before.update(
                    i as int,
                    reached(before[i as int], key@, message@),
                ));
            }
            i = i + 1;
        }
        proof {
            assert(self@ =~= fanned_out(old(self)@, key@, message@));
            assert(old(self)@.take(i as int) =~= old(self)@);
        }
        sent
    }
}

/// A message written under a key reaches every open subscription on exactly that key, behind what
/// it has queued, and changes no other.
pub proof fn law_a_message_reaches_the_subscriptions_on_its_key<V>(
    subscriptions: Seq<queue::SubscriptionView<V>>,
    key: Seq<char>,
    message: queue::NumberedView<V>,
)
    ensures
        fanned_out(subscriptions, key, message).len() == subscriptions.len(),
        forall|i: int|
            0 <= i < subscriptions.len() ==> ({
                let was = #[trigger] subscriptions[i];
                let is = fanned_out(subscriptions, key, message)[i];
                if was.open && was.key == key {
                    is == (queue::SubscriptionView {
                        queue: was.queue.push(queue::EntryView::Message(message)),
                        ..was
                    })
                } else {
                    is == was
                }
            }),
{
}

/// The number of subscriptions a message reaches is the number of the open ones on its key.
pub proof fn law_every_subscription_reached_is_counted<V>(
    subscriptions: Seq<queue::SubscriptionView<V>>,
    key: Seq<char>,
    another: queue::SubscriptionView<V>,
)
    ensures
        listeners(Seq::<queue::SubscriptionView<V>>::empty(), key) == 0,
        another.open && another.key == key ==> listeners(subscriptions.push(another), key)
            == listeners(subscriptions, key) + 1,
        !another.open || another.key != key ==> listeners(subscriptions.push(another), key)
            == listeners(subscriptions, key),
{
    assert(subscriptions.push(another).drop_last() =~= subscriptions);
}

/// The end-of-stream mark goes to every open subscription, behind what it has queued, and to no
/// other.
pub proof fn law_the_mark_reaches_every_open_subscription<V>(
    subscriptions: Seq<queue::SubscriptionView<V>>,
)
    ensures
        all_marked(subscriptions).len() == subscriptions.len(),
        forall|i: int|
            0 <= i < subscriptions.len() ==> ({
                let was = #[trigger] subscriptions[i];
                let is = all_marked(subscriptions)[i];
                if was.open {
                    is == (queue::SubscriptionView {
                        queue: was.queue.push(queue::EntryView::End),
                        ..was
                    })
                } else {
                    is == was
                }
            }),
{
}

/// A subscription whose handle is gone has ended and is closed, with nothing queued and nothing
/// sought.
pub proof fn law_a_dropped_handle_ends_its_subscription<V>(
    subscription: queue::SubscriptionView<V>,
)
    ensures
        dropped(subscription).ended,
        !dropped(subscription).open,
        dropped(subscription).queue.len() == 0,
        dropped(subscription).pending is None,
        dropped(subscription).key == subscription.key,
        dropped(subscription).replay == subscription.replay,
{
}

} // verus!
