//! What holds of every subscription of an in-process stream file, whatever was done to it: it
//! delivers messages of its stream key's log as the log holds them, in the log's order, and no
//! message twice between two seeks.

use vstd::prelude::*;
use vstd::utf8::*;

use crate::clock;
use crate::error;
use crate::headers;
use crate::memory_file::{self, MemoryFile, StoredView};
use crate::message::{self, FilePosition};
use crate::queue;
use crate::registry;
use crate::retained;
use crate::text;
use crate::wire;

verus! {

/// Whether a queue holds messages of `log` as the log holds them, each numbered by its place
/// counted from one, in rising order, and all of them numbered above `above`.
pub open spec fn orderly(
    queue: Seq<queue::EntryView<StoredView>>,
    above: nat,
    log: Seq<StoredView>,
) -> bool
    decreases queue.len(),
{
    queue.len() > 0 ==> match queue[0] {
        queue::EntryView::Message(message) => {
            &&& above < message.sequence <= log.len()
            &&& message.item == log[message.sequence - 1]
            &&& orderly(queue.drop_first(), message.sequence, log)
        },
        queue::EntryView::End => orderly(queue.drop_first(), above, log),
    }
}

/// Whether a subscription is one of a stream key whose log is `log`: its queue holds the log's
/// messages in order, and a seek that waits replays the log from the number it resumes at, as far
/// as the log went when the seek was resolved.
pub open spec fn sound(
    subscription: queue::SubscriptionView<StoredView>,
    log: Seq<StoredView>,
) -> bool {
    &&& orderly(subscription.queue, 0, log)
    &&& subscription.watermark <= log.len() + 1
    &&& subscription.pending matches Some(replay) ==> {
        let end = subscription.watermark - 1 + replay.len();
        &&& 1 <= subscription.watermark
        &&& end <= log.len()
        &&& replay == retained::numbered_from(log.take(end), subscription.watermark - 1, 1)
    }
}

/// The messages of a queue, with the marks left out.
pub open spec fn messages_of(
    queue: Seq<queue::EntryView<StoredView>>,
) -> Seq<queue::NumberedView<StoredView>>
    decreases queue.len(),
{
    if queue.len() == 0 {
        Seq::empty()
    } else {
        match queue[0] {
            queue::EntryView::Message(message) => seq![message] + messages_of(queue.drop_first()),
            queue::EntryView::End => messages_of(queue.drop_first()),
        }
    }
}

/// Every message a subscription holds for delivery, on both sides of a mark: those of a seek that
/// waits, and what that seek keeps of the queue.
pub open spec fn coming(
    subscription: queue::SubscriptionView<StoredView>,
) -> Seq<queue::NumberedView<StoredView>> {
    messages_of(queue::settled(subscription).queue)
}

/// Whether the message numbered `number` is the next one a subscription delivers: what it holds is
/// an unbroken stretch of the log from that number on, which goes to the end of the log while the
/// subscription is open.
pub open spec fn due(
    subscription: queue::SubscriptionView<StoredView>,
    log: Seq<StoredView>,
    number: nat,
) -> bool {
    let end = number - 1 + coming(subscription).len();
    &&& 1 <= number
    &&& subscription.watermark <= number
    &&& end <= log.len()
    &&& subscription.open ==> end == log.len()
    &&& coming(subscription) == retained::numbered_from(log.take(end), number - 1, 1)
}

/// What holds of every subscription on a stream key whose log is `log`, in a file that is `marked`
/// or not: it is sound, it leaves nothing out, no mark is queued before the mark was written, one
/// that is open has not ended, and a live one that has not ended is open.
pub open spec fn upheld(
    subscription: queue::SubscriptionView<StoredView>,
    log: Seq<StoredView>,
    marked: bool,
) -> bool {
    &&& sound(subscription, log)
    &&& exists|number: nat| #[trigger] due(subscription, log, number)
    &&& !marked ==> !subscription.queue.contains(queue::EntryView::End)
    &&& subscription.open ==> !subscription.ended
    &&& !subscription.replay && !subscription.ended ==> subscription.open
}

/// A lower bound that holds may be lowered.
proof fn lemma_orderly_lower(
    queue: Seq<queue::EntryView<StoredView>>,
    above: nat,
    lower: nat,
    log: Seq<StoredView>,
)
    requires
        orderly(queue, above, log),
        lower <= above,
    ensures
        orderly(queue, lower, log),
    decreases queue.len(),
{
    if queue.len() > 0 && queue[0] is End {
        lemma_orderly_lower(queue.drop_first(), above, lower, log);
    }
}

/// A queue stays in order when its log grows.
proof fn lemma_orderly_grows(
    queue: Seq<queue::EntryView<StoredView>>,
    above: nat,
    log: Seq<StoredView>,
    item: StoredView,
)
    requires
        orderly(queue, above, log),
    ensures
        orderly(queue, above, log.push(item)),
    decreases queue.len(),
{
    if queue.len() > 0 {
        match queue[0] {
            queue::EntryView::Message(message) => {
                lemma_orderly_grows(queue.drop_first(), message.sequence, log, item);
            },
            queue::EntryView::End => {
                lemma_orderly_grows(queue.drop_first(), above, log, item);
            },
        }
    }
}

/// The message a log has just grown by belongs behind everything queued.
proof fn lemma_orderly_push(
    queue: Seq<queue::EntryView<StoredView>>,
    above: nat,
    log: Seq<StoredView>,
    item: StoredView,
)
    requires
        orderly(queue, above, log),
        above <= log.len(),
    ensures
        orderly(
            queue.push(
                queue::EntryView::Message(
                    queue::NumberedView { sequence: log.len() + 1, item },
                ),
            ),
            above,
            log.push(item),
        ),
    decreases queue.len(),
{
    let entry = queue::EntryView::Message(queue::NumberedView { sequence: log.len() + 1, item });
    let longer = queue.push(entry);
    if queue.len() == 0 {
        reveal_with_fuel(orderly, 2);
        assert(longer[0] == entry);
    } else {
        assert(longer.drop_first() =~= queue.drop_first().push(entry));
        assert(longer[0] == queue[0]);
        match queue[0] {
            queue::EntryView::Message(message) => {
                lemma_orderly_push(queue.drop_first(), message.sequence, log, item);
            },
            queue::EntryView::End => {
                lemma_orderly_push(queue.drop_first(), above, log, item);
            },
        }
    }
}

/// The mark may stand behind any queue.
proof fn lemma_orderly_mark(
    queue: Seq<queue::EntryView<StoredView>>,
    above: nat,
    log: Seq<StoredView>,
)
    requires
        orderly(queue, above, log),
    ensures
        orderly(queue.push(queue::EntryView::End), above, log),
    decreases queue.len(),
{
    let longer = queue.push(queue::EntryView::End);
    if queue.len() == 0 {
        reveal_with_fuel(orderly, 2);
        assert(longer[0] is End);
    } else {
        assert(longer.drop_first() =~= queue.drop_first().push(queue::EntryView::End));
        assert(longer[0] == queue[0]);
        match queue[0] {
            queue::EntryView::Message(message) => {
                lemma_orderly_mark(queue.drop_first(), message.sequence, log);
            },
            queue::EntryView::End => {
                lemma_orderly_mark(queue.drop_first(), above, log);
            },
        }
    }
}

/// The rest of a queue in order is in order.
proof fn lemma_orderly_skip(
    queue: Seq<queue::EntryView<StoredView>>,
    above: nat,
    log: Seq<StoredView>,
    count: int,
)
    requires
        orderly(queue, above, log),
        0 <= count <= queue.len(),
    ensures
        orderly(queue.skip(count), above, log),
    decreases count,
{
    if count == 0 {
        assert(queue.skip(0) =~= queue);
    } else {
        assert(queue.drop_first().skip(count - 1) =~= queue.skip(count));
        match queue[0] {
            queue::EntryView::Message(message) => {
                lemma_orderly_lower(queue.drop_first(), message.sequence, above, log);
            },
            queue::EntryView::End => {},
        }
        lemma_orderly_skip(queue.drop_first(), above, log, count - 1);
    }
}

/// What a seek keeps of a queue in order is in order, and above everything it superseded.
proof fn lemma_orderly_kept(
    queue: Seq<queue::EntryView<StoredView>>,
    above: nat,
    log: Seq<StoredView>,
    replay: Seq<queue::NumberedView<StoredView>>,
    watermark: nat,
    cut: nat,
)
    requires
        orderly(queue, above, log),
        replay.len() > 0 ==> cut == replay.last().sequence,
        replay.len() == 0 ==> cut + 1 == watermark,
    ensures
        orderly(queue::kept(queue, replay, watermark), cut, log),
    decreases queue.len(),
{
    if queue.len() > 0 {
        let rest = queue.drop_first();
        let left = queue::kept(rest, replay, watermark);
        match queue[0] {
            queue::EntryView::Message(message) => {
                lemma_orderly_kept(rest, message.sequence, log, replay, watermark, cut);
                if !queue::superseded(queue[0], replay, watermark) {
                    let all = queue::kept(queue, replay, watermark);
                    assert(all.drop_first() =~= left);
                    lemma_kept_of_higher(rest, message.sequence, log, replay, watermark);
                }
            },
            queue::EntryView::End => {
                lemma_orderly_kept(rest, above, log, replay, watermark, cut);
                assert(queue::kept(queue, replay, watermark).drop_first() =~= left);
            },
        }
    }
}

/// A seek drops entries and moves none, so what was above a number stays above it.
proof fn lemma_kept_of_higher(
    queue: Seq<queue::EntryView<StoredView>>,
    above: nat,
    log: Seq<StoredView>,
    replay: Seq<queue::NumberedView<StoredView>>,
    watermark: nat,
)
    requires
        orderly(queue, above, log),
    ensures
        orderly(queue::kept(queue, replay, watermark), above, log),
    decreases queue.len(),
{
    if queue.len() > 0 {
        let rest = queue.drop_first();
        match queue[0] {
            queue::EntryView::Message(message) => {
                lemma_kept_of_higher(rest, message.sequence, log, replay, watermark);
                if queue::superseded(queue[0], replay, watermark) {
                    lemma_orderly_lower(
                        queue::kept(rest, replay, watermark),
                        message.sequence,
                        above,
                        log,
                    );
                } else {
                    assert(queue::kept(queue, replay, watermark).drop_first() =~= queue::kept(
                        rest,
                        replay,
                        watermark,
                    ));
                }
            },
            queue::EntryView::End => {
                lemma_kept_of_higher(rest, above, log, replay, watermark);
                assert(queue::kept(queue, replay, watermark).drop_first() =~= queue::kept(
                    rest,
                    replay,
                    watermark,
                ));
            },
        }
    }
}

/// A stretch of the log is in order, and so is what follows it in order.
proof fn lemma_orderly_stretch(
    log: Seq<StoredView>,
    from: int,
    end: int,
    behind: Seq<queue::EntryView<StoredView>>,
)
    requires
        0 <= from <= end <= log.len(),
        orderly(behind, end as nat, log),
    ensures
        orderly(
            queue::as_entries(retained::numbered_from(log.take(end), from, 1)) + behind,
            from as nat,
            log,
        ),
    decreases end - from,
{
    let stretch = retained::numbered_from(log.take(end), from, 1);
    let queue = queue::as_entries(stretch) + behind;
    if from == end {
        assert(queue =~= behind);
    } else {
        let rest = retained::numbered_from(log.take(end), from + 1, 1);
        lemma_orderly_stretch(log, from + 1, end, behind);
        assert(queue.drop_first() =~= queue::as_entries(rest) + behind);
        assert(queue[0] == queue::EntryView::Message(stretch[0]));
    }
}

/// A subscription opens sound, in either reading mode.
proof fn lemma_sound_subscribed(key: Seq<char>, replay: bool, log: Seq<StoredView>)
    ensures
        sound(memory_file::subscribed(key, replay, log), log),
{
    if replay {
        let none = Seq::<queue::EntryView<StoredView>>::empty();
        lemma_orderly_stretch(log, 0, log.len() as int, none);
        assert(log.take(log.len() as int) =~= log);
        let queue = queue::as_entries(retained::numbered_from(log, 0, 1));
        assert(queue + none =~= queue);
    }
}

/// A subscription stays sound when a message is written under its key.
proof fn lemma_sound_reached(
    subscription: queue::SubscriptionView<StoredView>,
    log: Seq<StoredView>,
    item: StoredView,
)
    requires
        sound(subscription, log),
    ensures
        sound(
            registry::reached(
                subscription,
                subscription.key,
                queue::NumberedView { sequence: log.len() + 1, item },
            ),
            log.push(item),
        ),
{
    lemma_orderly_push(subscription.queue, 0, log, item);
    lemma_orderly_grows(subscription.queue, 0, log, item);
    if let Some(replay) = subscription.pending {
        let end = subscription.watermark - 1 + replay.len();
        assert(log.push(item).take(end) =~= log.take(end));
    }
}

/// A subscription stays sound when the end-of-stream mark is written.
proof fn lemma_sound_marked(
    subscription: queue::SubscriptionView<StoredView>,
    log: Seq<StoredView>,
)
    requires
        sound(subscription, log),
    ensures
        sound(registry::marked(subscription), log),
{
    lemma_orderly_mark(subscription.queue, 0, log);
}

/// A position resolves to the number of a message, or to the one past the last.
proof fn lemma_resolved_bounds(log: Seq<StoredView>, to: FilePosition)
    ensures
        memory_file::resolved(log, to) matches memory_file::Resolution::At(target) ==> 1 <= target
            <= log.len() + 1,
{
    if let FilePosition::Timestamp(millis) = to {
        lemma_first_later_bounds(log, millis * 1_000_000);
    }
}

proof fn lemma_first_later_bounds(log: Seq<StoredView>, instant: int)
    ensures
        0 <= memory_file::first_later(log, instant) <= log.len(),
    decreases log.len(),
{
    if log.len() > 0 {
        lemma_first_later_bounds(log.drop_first(), instant);
    }
}

/// A subscription stays sound under a seek, whatever comes of it.
proof fn lemma_sound_after_seek(
    subscription: queue::SubscriptionView<StoredView>,
    log: Seq<StoredView>,
    marked: bool,
    to: FilePosition,
)
    requires
        sound(subscription, log),
    ensures
        sound(memory_file::after_seek(subscription, log, marked, to), log),
{
    lemma_resolved_bounds(log, to);
    if let memory_file::Resolution::At(target) = memory_file::resolved(log, to) {
        let replay = retained::numbered_from(log, target - 1, 1);
        let end = target - 1 + replay.len();
        assert(end == log.len());
        assert(log.take(end) =~= log);
    }
}

/// A subscription stays sound when the seek that waits is applied.
proof fn lemma_sound_settled(
    subscription: queue::SubscriptionView<StoredView>,
    log: Seq<StoredView>,
)
    requires
        sound(subscription, log),
    ensures
        sound(queue::settled(subscription), log),
{
    if let Some(replay) = subscription.pending {
        let from = subscription.watermark - 1;
        let end = from + replay.len();
        lemma_orderly_kept(
            subscription.queue,
            0,
            log,
            replay,
            subscription.watermark,
            end as nat,
        );
        let behind = queue::kept(subscription.queue, replay, subscription.watermark);
        lemma_orderly_stretch(log, from, end, behind);
        lemma_orderly_lower(queue::as_entries(replay) + behind, from as nat, 0, log);
    }
}

/// A subscription stays sound when it is polled.
proof fn lemma_sound_polled(
    subscription: queue::SubscriptionView<StoredView>,
    log: Seq<StoredView>,
)
    requires
        sound(subscription, log),
    ensures
        sound(queue::polled(subscription).after, log),
{
    if !subscription.ended {
        let applied = queue::settled(subscription);
        let front = queue::stale_front(applied.queue, applied.watermark);
        lemma_sound_settled(subscription, log);
        if front < applied.queue.len() {
            lemma_orderly_skip(applied.queue, 0, log, front + 1int);
        }
    }
}

proof fn lemma_messages_of_push(
    queue: Seq<queue::EntryView<StoredView>>,
    entry: queue::EntryView<StoredView>,
)
    ensures
        messages_of(queue.push(entry)) == match entry {
            queue::EntryView::Message(message) => messages_of(queue).push(message),
            queue::EntryView::End => messages_of(queue),
        },
    decreases queue.len(),
{
    let longer = queue.push(entry);
    if queue.len() == 0 {
        reveal_with_fuel(messages_of, 2);
        assert(longer[0] == entry);
        assert(longer.drop_first().len() == 0);
        if let queue::EntryView::Message(message) = entry {
            assert(messages_of(longer) =~= messages_of(queue).push(message));
        }
    } else {
        let rest = queue.drop_first();
        lemma_messages_of_push(rest, entry);
        assert(longer.drop_first() =~= rest.push(entry));
        assert(longer[0] == queue[0]);
        if let queue::EntryView::Message(message) = entry {
            assert(messages_of(longer) =~= messages_of(queue).push(message));
        }
    }
}

/// Messages in front of nothing but marks are all the messages there are.
proof fn lemma_messages_of_replay(
    replay: Seq<queue::NumberedView<StoredView>>,
    marks: Seq<queue::EntryView<StoredView>>,
)
    requires
        forall|i: int| 0 <= i < marks.len() ==> (#[trigger] marks[i]) is End,
    ensures
        messages_of(queue::as_entries(replay) + marks) == replay,
    decreases replay.len(), marks.len(),
{
    let queue = queue::as_entries(replay) + marks;
    if replay.len() > 0 {
        let rest = replay.drop_first();
        lemma_messages_of_replay(rest, marks);
        assert(queue.drop_first() =~= queue::as_entries(rest) + marks);
        assert(queue[0] == queue::EntryView::Message(replay[0]));
        assert(messages_of(queue) =~= replay);
    } else if marks.len() > 0 {
        assert(queue =~= marks);
        lemma_messages_of_replay(replay, marks.drop_first());
        assert(queue::as_entries(replay) + marks.drop_first() =~= marks.drop_first());
    } else {
        assert(messages_of(queue) =~= replay);
    }
}

/// A poll delivers the message that is due and makes the one after it due; one that delivers
/// nothing leaves what is due as it was.
proof fn lemma_due_polled(
    subscription: queue::SubscriptionView<StoredView>,
    log: Seq<StoredView>,
    number: nat,
)
    requires
        due(subscription, log, number),
    ensures
        match queue::polled(subscription).found {
            queue::PolledView::Ready(message) => {
                &&& message.sequence == number
                &&& number <= log.len()
                &&& message.item == log[number - 1]
                &&& due(queue::polled(subscription).after, log, number + 1)
            },
            _ => due(queue::polled(subscription).after, log, number),
        },
{
    if !subscription.ended {
        let applied = queue::settled(subscription);
        let after = queue::polled(subscription).after;
        let held = coming(subscription);
        let end = number - 1 + held.len();
        if applied.queue.len() > 0 {
            let rest = applied.queue.drop_first();
            if let queue::EntryView::Message(message) = applied.queue[0] {
                assert(held[0] == message);
                assert(held[0] == retained::numbered_from(log.take(end), number - 1, 1)[0]);
                assert(held.drop_first() =~= messages_of(rest));
                assert(held.drop_first() =~= retained::numbered_from(
                    log.take(end),
                    number as int,
                    1,
                ));
            }
            assert(queue::stale_front(applied.queue, applied.watermark) == 0);
            assert(applied.queue.skip(1) =~= rest);
            assert(queue::settled(after).queue == rest);
        } else {
            assert(after.queue =~= applied.queue);
        }
    }
}

/// What is due stays due when a message is written under the key.
proof fn lemma_due_reached(
    subscription: queue::SubscriptionView<StoredView>,
    log: Seq<StoredView>,
    item: StoredView,
    number: nat,
)
    requires
        sound(subscription, log),
        due(subscription, log, number),
    ensures
        due(
            registry::reached(
                subscription,
                subscription.key,
                queue::NumberedView { sequence: log.len() + 1, item },
            ),
            log.push(item),
            number,
        ),
{
    let message = queue::NumberedView { sequence: log.len() + 1, item };
    let entry = queue::EntryView::Message(message);
    let after = registry::reached(subscription, subscription.key, message);
    let held = coming(subscription);
    let end = number - 1 + held.len();
    if subscription.open {
        match subscription.pending {
            Some(replay) => {
                let rest = queue::kept(subscription.queue, replay, subscription.watermark);
                queue::lemma_kept_push(
                    subscription.queue,
                    entry,
                    replay,
                    subscription.watermark,
                );
                assert(queue::as_entries(replay) + rest.push(entry) =~= (queue::as_entries(replay)
                    + rest).push(entry));
                lemma_messages_of_push(queue::as_entries(replay) + rest, entry);
            },
            None => {
                lemma_messages_of_push(subscription.queue, entry);
            },
        }
        assert(coming(after) == held.push(message));
        assert(held.push(message) =~= retained::numbered_from(
            log.push(item).take(end + 1),
            number - 1,
            1,
        ));
    } else {
        assert(log.push(item).take(end) =~= log.take(end));
    }
}

/// What is due stays due when the end-of-stream mark is written.
proof fn lemma_due_marked(
    subscription: queue::SubscriptionView<StoredView>,
    log: Seq<StoredView>,
    number: nat,
)
    requires
        due(subscription, log, number),
    ensures
        due(registry::marked(subscription), log, number),
{
    let entry = queue::EntryView::<StoredView>::End;
    match subscription.pending {
        Some(replay) => {
            let rest = queue::kept(subscription.queue, replay, subscription.watermark);
            queue::lemma_kept_push(subscription.queue, entry, replay, subscription.watermark);
            assert(queue::as_entries(replay) + rest.push(entry) =~= (queue::as_entries(replay)
                + rest).push(entry));
            lemma_messages_of_push(queue::as_entries(replay) + rest, entry);
        },
        None => {
            lemma_messages_of_push(subscription.queue, entry);
        },
    }
}

/// A seek that is served makes the message it resumes at due.
proof fn lemma_due_sought(
    subscription: queue::SubscriptionView<StoredView>,
    log: Seq<StoredView>,
    target: nat,
)
    requires
        sound(subscription, log),
        1 <= target <= log.len() + 1,
    ensures
        due(
            queue::sought(
                subscription,
                target,
                retained::numbered_from(log, target - 1, 1),
            ),
            log,
            target,
        ),
{
    let replay = retained::numbered_from(log, target - 1, 1);
    lemma_all_superseded(subscription, log, target);
    queue::lemma_kept_of_superseded(subscription.queue, replay, target);
    lemma_messages_of_replay(replay, queue::kept(subscription.queue, replay, target));
    assert(log.take(log.len() as int) =~= log);
}

/// A seek over the whole log takes the place of everything that is queued.
proof fn lemma_all_superseded(
    subscription: queue::SubscriptionView<StoredView>,
    log: Seq<StoredView>,
    target: nat,
)
    requires
        sound(subscription, log),
        1 <= target <= log.len() + 1,
    ensures
        forall|i: int|
            0 <= i < subscription.queue.len() ==> (#[trigger] subscription.queue[i]) is End
                || queue::superseded(
                subscription.queue[i],
                retained::numbered_from(log, target - 1, 1),
                target,
            ),
{
    let replay = retained::numbered_from(log, target - 1, 1);
    lemma_orderly_bound(subscription.queue, 0, log);
    assert forall|i: int| 0 <= i < subscription.queue.len() implies (
    #[trigger] subscription.queue[i]) is End || queue::superseded(
        subscription.queue[i],
        replay,
        target,
    ) by {
        if replay.len() > 0 {
            assert(replay.last().sequence == log.len());
        }
    }
}

proof fn lemma_no_mark_pushed(
    queue: Seq<queue::EntryView<StoredView>>,
    message: queue::NumberedView<StoredView>,
)
    requires
        !queue.contains(queue::EntryView::End),
    ensures
        !queue.push(queue::EntryView::Message(message)).contains(queue::EntryView::End),
{
    let longer = queue.push(queue::EntryView::Message(message));
    assert forall|i: int| 0 <= i < longer.len() implies !((#[trigger] longer[i]) is End) by {
        if i < queue.len() {
            assert(queue.contains(queue[i]));
        }
    }
}

/// Applying the seek that waits queues no mark that was not queued.
proof fn lemma_no_mark_settled(subscription: queue::SubscriptionView<StoredView>)
    requires
        !subscription.queue.contains(queue::EntryView::End),
    ensures
        !queue::settled(subscription).queue.contains(queue::EntryView::End),
{
    if let Some(replay) = subscription.pending {
        let behind = queue::kept(subscription.queue, replay, subscription.watermark);
        let all = queue::settled(subscription).queue;
        queue::lemma_kept_was_queued(subscription.queue, replay, subscription.watermark);
        assert forall|i: int| 0 <= i < all.len() implies !((#[trigger] all[i]) is End) by {
            if i >= replay.len() {
                assert(all[i] == behind[i - replay.len()]);
                assert(behind.contains(all[i]));
            }
        }
    }
}

/// A subscription opens upheld, in either reading mode.
pub proof fn lemma_upheld_subscribed(
    key: Seq<char>,
    replay: bool,
    log: Seq<StoredView>,
    marked: bool,
)
    ensures
        upheld(memory_file::subscribed(key, replay, log), log, marked),
{
    let opened = memory_file::subscribed(key, replay, log);
    lemma_sound_subscribed(key, replay, log);
    assert(log.take(log.len() as int) =~= log);
    if replay {
        let all = retained::numbered_from(log, 0, 1);
        lemma_messages_of_replay(all, Seq::empty());
        assert(queue::as_entries(all) + Seq::<queue::EntryView<StoredView>>::empty()
            =~= queue::as_entries(all));
        assert(due(opened, log, 1));
    } else {
        assert(coming(opened) =~= retained::numbered_from(log, log.len() as int, 1));
        assert(due(opened, log, log.len() + 1));
    }
}

/// A subscription stays upheld when a message is written under its key.
pub proof fn lemma_upheld_reached(
    subscription: queue::SubscriptionView<StoredView>,
    log: Seq<StoredView>,
    marked: bool,
    item: StoredView,
)
    requires
        upheld(subscription, log, marked),
    ensures
        upheld(
            registry::reached(
                subscription,
                subscription.key,
                queue::NumberedView { sequence: log.len() + 1, item },
            ),
            log.push(item),
            marked,
        ),
{
    let number = choose|number: nat| #[trigger] due(subscription, log, number);
    let message = queue::NumberedView { sequence: log.len() + 1, item };
    lemma_sound_reached(subscription, log, item);
    lemma_due_reached(subscription, log, item, number);
    if !marked {
        lemma_no_mark_pushed(subscription.queue, message);
    }
}

/// A subscription stays upheld when the end-of-stream mark is written.
pub proof fn lemma_upheld_marked(
    subscription: queue::SubscriptionView<StoredView>,
    log: Seq<StoredView>,
    marked: bool,
)
    requires
        upheld(subscription, log, marked),
    ensures
        upheld(registry::marked(subscription), log, true),
{
    let number = choose|number: nat| #[trigger] due(subscription, log, number);
    lemma_sound_marked(subscription, log);
    lemma_due_marked(subscription, log, number);
}

/// A subscription stays upheld under a seek, whatever comes of it.
pub proof fn lemma_upheld_after_seek(
    subscription: queue::SubscriptionView<StoredView>,
    log: Seq<StoredView>,
    marked: bool,
    to: FilePosition,
)
    requires
        upheld(subscription, log, marked),
    ensures
        upheld(memory_file::after_seek(subscription, log, marked, to), log, marked),
{
    let number = choose|number: nat| #[trigger] due(subscription, log, number);
    let after = memory_file::after_seek(subscription, log, marked, to);
    lemma_sound_after_seek(subscription, log, marked, to);
    lemma_resolved_bounds(log, to);
    match memory_file::resolved(log, to) {
        memory_file::Resolution::At(target) => {
            lemma_due_sought(subscription, log, target);
            assert(due(after, log, target) || due(after, log, number));
        },
        _ => {
            assert(coming(after) == coming(subscription));
            assert(due(after, log, number));
        },
    }
}

/// A subscription stays upheld when it is polled.
pub proof fn lemma_upheld_polled(
    subscription: queue::SubscriptionView<StoredView>,
    log: Seq<StoredView>,
    marked: bool,
)
    requires
        upheld(subscription, log, marked),
    ensures
        upheld(queue::polled(subscription).after, log, marked),
{
    let number = choose|number: nat| #[trigger] due(subscription, log, number);
    let after = queue::polled(subscription).after;
    lemma_sound_polled(subscription, log);
    lemma_due_polled(subscription, log, number);
    assert(due(after, log, number) || due(after, log, number + 1));
    if !marked && !subscription.ended {
        let applied = queue::settled(subscription);
        lemma_no_mark_settled(subscription);
        let front = queue::stale_front(applied.queue, applied.watermark) as int;
        assert forall|i: int| 0 <= i < after.queue.len() implies !((
        #[trigger] after.queue[i]) is End) by {
            assert(after.queue[i] == applied.queue[front + 1 + i]);
            assert(applied.queue.contains(after.queue[i]));
        }
    }
}

/// A subscription whose handle is gone stays upheld.
pub proof fn lemma_upheld_dropped(
    subscription: queue::SubscriptionView<StoredView>,
    log: Seq<StoredView>,
    marked: bool,
)
    requires
        upheld(subscription, log, marked),
    ensures
        upheld(registry::dropped(subscription), log, marked),
{
    let number = choose|number: nat| #[trigger] due(subscription, log, number);
    let after = registry::dropped(subscription);
    assert(coming(after) =~= retained::numbered_from(log.take(number - 1), number - 1, 1));
    assert(due(after, log, number));
}

/// Whether messages are messages of `log` as the log holds them, one after the other with none
/// left out between them.
pub open spec fn in_log_order(
    messages: Seq<queue::NumberedView<StoredView>>,
    log: Seq<StoredView>,
) -> bool {
    &&& forall|i: int|
        0 <= i < messages.len() ==> 1 <= (#[trigger] messages[i]).sequence <= log.len()
            && messages[i].item == log[messages[i].sequence - 1]
    &&& forall|i: int, j: int|
        0 <= i < j < messages.len() ==> (#[trigger] messages[j]).sequence == (
        #[trigger] messages[i]).sequence + (j - i)
}

/// With no stale message in a queue, what is delivered of it is its messages up to the first mark.
proof fn lemma_fresh_up_to_a_mark(queue: Seq<queue::EntryView<StoredView>>, watermark: nat)
    requires
        forall|i: int|
            0 <= i < messages_of(queue).len() ==> (#[trigger] messages_of(queue)[i]).sequence
                >= watermark,
    ensures
        queue::fresh(queue, watermark).len() <= messages_of(queue).len(),
        queue::fresh(queue, watermark) == messages_of(queue).take(
            queue::fresh(queue, watermark).len() as int,
        ),
        !queue.contains(queue::EntryView::End) ==> queue::fresh(queue, watermark) == messages_of(
            queue,
        ),
    decreases queue.len(),
{
    let all = messages_of(queue);
    let fresh = queue::fresh(queue, watermark);
    if queue.len() > 0 {
        let rest = queue.drop_first();
        if let queue::EntryView::Message(message) = queue[0] {
            assert(all[0] == message);
            assert forall|i: int| 0 <= i < messages_of(rest).len() implies (
            #[trigger] messages_of(rest)[i]).sequence >= watermark by {
                assert(all[i + 1] == messages_of(rest)[i]);
            }
            lemma_fresh_up_to_a_mark(rest, watermark);
            if rest.contains(queue::EntryView::End) {
                let at = choose|at: int|
                    0 <= at < rest.len() && rest[at] == queue::EntryView::<StoredView>::End;
                assert(queue[at + 1] == queue::EntryView::<StoredView>::End);
            }
        } else {
            assert(queue.contains(queue[0]));
        }
    }
    assert(fresh =~= all.take(fresh.len() as int));
}

/// What a subscription has coming are messages of its key's log, as the log holds them, in the
/// log's order, none of them twice and none left out.
pub proof fn law_deliveries_follow_the_log(
    subscription: queue::SubscriptionView<StoredView>,
    log: Seq<StoredView>,
    marked: bool,
)
    requires
        upheld(subscription, log, marked),
    ensures
        in_log_order(queue::upcoming(subscription), log),
{
    if !subscription.ended {
        let number = choose|number: nat| #[trigger] due(subscription, log, number);
        let held = coming(subscription);
        let ahead = queue::upcoming(subscription);
        lemma_fresh_up_to_a_mark(queue::settled(subscription).queue, subscription.watermark);
        assert forall|i: int| 0 <= i < ahead.len() implies (#[trigger] ahead[i]).sequence == number
            + i && ahead[i].item == log[number - 1 + i] by {
            assert(ahead[i] == held[i]);
        }
    }
}

/// What an open subscription has coming, while its file is not marked, is the end of its key's
/// log, every message of it.
pub proof fn law_what_is_coming_is_the_end_of_the_log(
    subscription: queue::SubscriptionView<StoredView>,
    log: Seq<StoredView>,
)
    requires
        upheld(subscription, log, false),
        subscription.open,
    ensures
        queue::upcoming(subscription).len() <= log.len(),
        queue::upcoming(subscription) == retained::numbered_from(
            log,
            log.len() - queue::upcoming(subscription).len(),
            1,
        ),
{
    lemma_no_mark_settled(subscription);
    lemma_fresh_up_to_a_mark(queue::settled(subscription).queue, subscription.watermark);
    assert(log.take(log.len() as int) =~= log);
}

/// A replay has everything its key's log holds coming when it opens, and a live subscription
/// nothing.
pub proof fn law_a_subscription_opens_over_the_log(
    key: Seq<char>,
    replay: bool,
    log: Seq<StoredView>,
)
    ensures
        queue::upcoming(memory_file::subscribed(key, replay, log)) == (if replay {
            retained::numbered_from(log, 0, 1)
        } else {
            Seq::empty()
        }),
{
    let opened = queue::opened::<StoredView>(key, replay);
    let all = retained::numbered_from(log, 0, 1);
    if replay {
        queue::law_a_seek_delivers_exactly_its_replay(opened, 0, all);
        let sought = queue::sought(opened, 0, all);
        assert(queue::settled(sought).queue =~= queue::as_entries(all));
    }
}

/// A message written under a subscription's key is delivered after everything the subscription
/// had coming, while it is open and its file is not marked.
pub proof fn law_an_append_is_delivered_last(
    subscription: queue::SubscriptionView<StoredView>,
    log: Seq<StoredView>,
    item: StoredView,
)
    requires
        upheld(subscription, log, false),
        subscription.open,
    ensures
        queue::upcoming(
            registry::reached(
                subscription,
                subscription.key,
                queue::NumberedView { sequence: log.len() + 1, item },
            ),
        ) == queue::upcoming(subscription).push(
            queue::NumberedView { sequence: log.len() + 1, item },
        ),
{
    queue::law_an_arrival_is_delivered_last(
        subscription,
        queue::NumberedView { sequence: log.len() + 1, item },
    );
}

/// A message published to a file that is not marked reaches every subscription that listens on its
/// key, after everything it had coming, with the payload it was sent with, its headers as the
/// envelope gives them back, and its number in the log among them.
pub proof fn law_a_published_message_is_delivered_as_it_was_sent(
    before: &MemoryFile,
    after: &MemoryFile,
    id: int,
    key: Seq<char>,
    entries: Seq<(Seq<char>, Seq<u8>)>,
    payload: Seq<u8>,
    at: int,
)
    requires
        before.consistent(),
        !before.is_marked(),
        headers::well_named(entries),
        wire::block_fits(entries),
        after.appended(before, key, wire::written(entries, payload, false), at),
        0 <= id < before.subscriptions().len(),
        registry::listens(before.subscriptions()[id], key),
    ensures
        ({
            let number = before.retained(key).len() + 1;
            let coming = queue::upcoming(after.subscriptions()[id]);
            let delivery = message::delivered(memory_file::record_of(key, coming.last()));
            &&& coming.len() > 0
            &&& coming.drop_last() == queue::upcoming(before.subscriptions()[id])
            &&& delivery.stream == key
            &&& delivery.sequence == number
            &&& delivery.payload == payload
            &&& delivery.headers == message::numbered(
                wire::read_lines(Seq::empty(), wire::header_block(entries)),
                number,
            )
            &&& (forall|i: int| 0 <= i < entries.len() ==> wire::crosses(#[trigger] entries[i]))
                ==> delivery.headers == message::numbered(wire::carried(entries), number)
        }),
{
    let subscription = before.subscriptions()[id];
    let item = StoredView { at, bytes: wire::written(entries, payload, false) };
    assert(upheld(subscription, before.retained(subscription.key), false));
    wire::law_what_is_written_gives_the_message_back(entries, payload, false);
    law_an_append_is_delivered_last(subscription, before.retained(key), item);
    let coming = queue::upcoming(after.subscriptions()[id]);
    assert(coming.drop_last() =~= queue::upcoming(subscription));
}

proof fn lemma_orderly_bound(
    queue: Seq<queue::EntryView<StoredView>>,
    above: nat,
    log: Seq<StoredView>,
)
    requires
        orderly(queue, above, log),
    ensures
        forall|i: int|
            0 <= i < queue.len() ==> ((#[trigger] queue[i]) matches queue::EntryView::Message(
                message,
            ) ==> message.sequence <= log.len()),
    decreases queue.len(),
{
    if queue.len() > 0 {
        let rest = queue.drop_first();
        match queue[0] {
            queue::EntryView::Message(message) => {
                lemma_orderly_bound(rest, message.sequence, log);
            },
            queue::EntryView::End => {
                lemma_orderly_bound(rest, above, log);
            },
        }
        assert forall|i: int| 0 <= i < queue.len() implies ((
        #[trigger] queue[i]) matches queue::EntryView::Message(message) ==> message.sequence
            <= log.len()) by {
            if i > 0 {
                assert(rest[i - 1] == queue[i]);
            }
        }
    }
}

/// A seek that is served delivers the log from the message it resumes at, every message once and
/// in order, and nothing that was queued before it.
pub proof fn law_a_seek_reads_the_log_from_its_target(
    subscription: queue::SubscriptionView<StoredView>,
    log: Seq<StoredView>,
    marked: bool,
    to: FilePosition,
)
    requires
        sound(subscription, log),
        memory_file::seek_error(subscription, log, marked, to) is None,
    ensures
        memory_file::resolved(log, to) matches memory_file::Resolution::At(target)
            && queue::upcoming(memory_file::after_seek(subscription, log, marked, to))
            == retained::numbered_from(log, target - 1, 1),
{
    lemma_resolved_bounds(log, to);
    if let memory_file::Resolution::At(target) = memory_file::resolved(log, to) {
        let replay = retained::numbered_from(log, target - 1, 1);
        lemma_all_superseded(subscription, log, target);
        queue::law_a_seek_delivers_exactly_its_replay(subscription, target, replay);
    }
}

/// A captured position is pinned: seeking to the number of a message the log holds delivers that
/// message next, and the rest of the log after it.
pub proof fn law_a_captured_position_is_pinned(
    subscription: queue::SubscriptionView<StoredView>,
    log: Seq<StoredView>,
    marked: bool,
    sequence: u64,
)
    requires
        sound(subscription, log),
        1 <= sequence <= log.len(),
        !subscription.ended,
        subscription.replay || !marked,
    ensures
        ({
            let after = memory_file::after_seek(
                subscription,
                log,
                marked,
                FilePosition::Sequence(sequence),
            );
            let found = queue::polled(after).found;
            &&& memory_file::seek_error(
                subscription,
                log,
                marked,
                FilePosition::Sequence(sequence),
            ) is None
            &&& found == queue::PolledView::Ready(
                queue::NumberedView { sequence: sequence as nat, item: log[sequence - 1] },
            )
            &&& queue::upcoming(queue::polled(after).after) == retained::numbered_from(
                log,
                sequence as int,
                1,
            )
        }),
{
    let to = FilePosition::Sequence(sequence);
    law_a_seek_reads_the_log_from_its_target(subscription, log, marked, to);
    let after = memory_file::after_seek(subscription, log, marked, to);
    queue::law_a_poll_takes_the_first_upcoming_message(after);
    assert(retained::numbered_from(log, sequence - 1, 1).drop_first()
        =~= retained::numbered_from(log, sequence as int, 1));
}

/// A refused position leaves a replay where it was and ends a live subscription: it delivers
/// nothing more, and its next poll reports the end.
pub proof fn law_a_refused_seek_ends_only_a_live_subscription(
    subscription: queue::SubscriptionView<StoredView>,
    log: Seq<StoredView>,
    marked: bool,
    to: FilePosition,
)
    requires
        !subscription.ended,
        subscription.replay || !marked,
        memory_file::resolved(log, to) is Refused,
    ensures
        ({
            let after = memory_file::after_seek(subscription, log, marked, to);
            &&& subscription.replay ==> after == subscription
            &&& !subscription.replay ==> queue::upcoming(after).len() == 0 && queue::polled(
                after,
            ).found is End
        }),
{
}

/// An instant no timestamp can hold leaves every subscription where it was.
pub proof fn law_an_invalid_instant_moves_nothing(
    subscription: queue::SubscriptionView<StoredView>,
    log: Seq<StoredView>,
    marked: bool,
    to: FilePosition,
)
    requires
        memory_file::resolved(log, to) is Invalid,
    ensures
        memory_file::after_seek(subscription, log, marked, to) == subscription,
{
}

/// A replay never waits: it delivers while it has messages coming and reports the end when it has
/// none.
pub proof fn law_a_replay_completes_when_everything_is_read(
    subscription: queue::SubscriptionView<StoredView>,
)
    requires
        subscription.replay,
    ensures
        queue::polled(subscription).found is Ready <==> queue::upcoming(subscription).len() > 0,
        queue::polled(subscription).found is End <==> queue::upcoming(subscription).len() == 0,
{
    queue::law_a_poll_takes_the_first_upcoming_message(subscription);
}

/// A live subscription ends at the file's end-of-stream mark, after a refused seek or with its
/// handle, and nothing else ends one.
pub proof fn law_only_the_mark_ends_a_live_subscription(file: &MemoryFile, id: int)
    requires
        file.consistent(),
        0 <= id < file.subscriptions().len(),
        !file.subscriptions()[id].replay,
        queue::polled(file.subscriptions()[id]).found is End,
    ensures
        file.is_marked() || file.subscriptions()[id].ended,
{
    let subscription = file.subscriptions()[id];
    assert(upheld(subscription, file.retained(subscription.key), file.is_marked()));
    if !file.is_marked() && !subscription.ended {
        let applied = queue::settled(subscription);
        let front = queue::stale_front(applied.queue, applied.watermark) as int;
        lemma_no_mark_settled(subscription);
        assert(applied.queue.contains(applied.queue[front]));
    }
}

/// The number of a message names that message for as long as the log grows.
pub proof fn law_a_number_names_its_message_for_good(
    entries: Seq<StoredView>,
    more: Seq<StoredView>,
    sequence: u64,
)
    requires
        1 <= sequence <= entries.len(),
    ensures
        memory_file::resolved(entries, FilePosition::Sequence(sequence))
            == memory_file::Resolution::At(sequence as nat),
        memory_file::resolved(entries + more, FilePosition::Sequence(sequence))
            == memory_file::Resolution::At(sequence as nat),
        (entries + more)[sequence - 1] == entries[sequence - 1],
{
}

/// A subscription over `log` after `more` was written under its key, message by message.
pub open spec fn after_appends(
    subscription: queue::SubscriptionView<StoredView>,
    log: Seq<StoredView>,
    more: Seq<StoredView>,
) -> queue::SubscriptionView<StoredView>
    decreases more.len(),
{
    if more.len() == 0 {
        subscription
    } else {
        let before = after_appends(subscription, log, more.drop_last());
        registry::reached(
            before,
            before.key,
            queue::NumberedView { sequence: log.len() + more.len(), item: more.last() },
        )
    }
}

/// After a seek that is served, an open subscription of a file that is not marked delivers exactly
/// the log from the message it resumes at, and then what is written after the seek.
pub proof fn law_what_is_written_follows_a_seek(
    subscription: queue::SubscriptionView<StoredView>,
    log: Seq<StoredView>,
    to: FilePosition,
    more: Seq<StoredView>,
)
    requires
        upheld(subscription, log, false),
        subscription.open || (!subscription.replay && !subscription.ended),
        memory_file::seek_error(subscription, log, false, to) is None,
    ensures
        memory_file::resolved(log, to) matches memory_file::Resolution::At(target)
            && queue::upcoming(
            after_appends(
                memory_file::after_seek(subscription, log, false, to),
                log,
                more,
            ),
        ) == retained::numbered_from(log + more, target - 1, 1),
{
    lemma_resolved_bounds(log, to);
    if let memory_file::Resolution::At(target) = memory_file::resolved(log, to) {
        let sought = memory_file::after_seek(subscription, log, false, to);
        lemma_upheld_after_seek(subscription, log, false, to);
        law_a_seek_reads_the_log_from_its_target(subscription, log, false, to);
        lemma_appends_follow(sought, log, more, target);
    }
}

proof fn lemma_appends_follow(
    subscription: queue::SubscriptionView<StoredView>,
    log: Seq<StoredView>,
    more: Seq<StoredView>,
    target: nat,
)
    requires
        upheld(subscription, log, false),
        subscription.open,
        1 <= target <= log.len() + 1,
        queue::upcoming(subscription) == retained::numbered_from(log, target - 1, 1),
    ensures
        upheld(after_appends(subscription, log, more), log + more, false),
        after_appends(subscription, log, more).open,
        queue::upcoming(after_appends(subscription, log, more)) == retained::numbered_from(
            log + more,
            target - 1,
            1,
        ),
    decreases more.len(),
{
    if more.len() == 0 {
        assert(log + more =~= log);
    } else {
        let written = log + more.drop_last();
        let before = after_appends(subscription, log, more.drop_last());
        lemma_appends_follow(subscription, log, more.drop_last(), target);
        lemma_upheld_reached(before, written, false, more.last());
        law_an_append_is_delivered_last(before, written, more.last());
        assert(log + more =~= written.push(more.last()));
        assert(retained::numbered_from(written, target - 1, 1).push(
            queue::NumberedView { sequence: log.len() + more.len(), item: more.last() },
        ) =~= retained::numbered_from(log + more, target - 1, 1));
    }
}

/// A subscription, the log of its key, and whether its file is marked.
pub struct Reading {
    pub subscription: queue::SubscriptionView<StoredView>,
    pub log: Seq<StoredView>,
    pub marked: bool,
}

/// One thing that happens to a subscription.
pub enum Step {
    /// A message is written under its key.
    Append(StoredView),
    /// The end-of-stream mark is written.
    Mark,
    /// It is asked to seek.
    Seek(FilePosition),
    /// It is polled.
    Poll,
}

/// What a step makes of a reading.
pub open spec fn stepped(reading: Reading, step: Step) -> Reading {
    let subscription = reading.subscription;
    match step {
        Step::Append(item) => Reading {
            subscription: registry::reached(
                subscription,
                subscription.key,
                queue::NumberedView { sequence: reading.log.len() + 1, item },
            ),
            log: reading.log.push(item),
            ..reading
        },
        Step::Mark => Reading {
            subscription: registry::marked(subscription),
            marked: true,
            ..reading
        },
        Step::Seek(to) => Reading {
            subscription: memory_file::after_seek(subscription, reading.log, reading.marked, to),
            ..reading
        },
        Step::Poll => Reading { subscription: queue::polled(subscription).after, ..reading },
    }
}

/// Whether a step neither delivers a message nor moves the subscription: a poll that finds none, a
/// seek that is refused, or a write.
pub open spec fn silent(reading: Reading, step: Step) -> bool {
    match step {
        Step::Seek(to) => memory_file::seek_error(
            reading.subscription,
            reading.log,
            reading.marked,
            to,
        ) is Some,
        Step::Poll => !(queue::polled(reading.subscription).found is Ready),
        _ => true,
    }
}

/// What steps, one after the other, make of a reading.
pub open spec fn after_steps(reading: Reading, steps: Seq<Step>) -> Reading
    decreases steps.len(),
{
    if steps.len() == 0 {
        reading
    } else {
        after_steps(stepped(reading, steps[0]), steps.drop_first())
    }
}

/// Whether each of the steps is silent where it is taken.
pub open spec fn all_silent(reading: Reading, steps: Seq<Step>) -> bool
    decreases steps.len(),
{
    steps.len() == 0 || (silent(reading, steps[0]) && all_silent(
        stepped(reading, steps[0]),
        steps.drop_first(),
    ))
}

/// Silent steps leave what is due as it was.
proof fn lemma_due_after_steps(reading: Reading, steps: Seq<Step>, number: nat)
    requires
        upheld(reading.subscription, reading.log, reading.marked),
        due(reading.subscription, reading.log, number),
        all_silent(reading, steps),
    ensures
        due(after_steps(reading, steps).subscription, after_steps(reading, steps).log, number),
        after_steps(reading, steps).subscription.key == reading.subscription.key,
        reading.log.is_prefix_of(after_steps(reading, steps).log),
    decreases steps.len(),
{
    if steps.len() > 0 {
        let subscription = reading.subscription;
        let next = stepped(reading, steps[0]);
        match steps[0] {
            Step::Append(item) => {
                lemma_due_reached(subscription, reading.log, item, number);
                lemma_upheld_reached(subscription, reading.log, reading.marked, item);
            },
            Step::Mark => {
                lemma_due_marked(subscription, reading.log, number);
                lemma_upheld_marked(subscription, reading.log, reading.marked);
            },
            Step::Seek(to) => {
                lemma_upheld_after_seek(subscription, reading.log, reading.marked, to);
                assert(coming(next.subscription) == coming(subscription));
            },
            Step::Poll => {
                lemma_due_polled(subscription, reading.log, number);
                lemma_upheld_polled(subscription, reading.log, reading.marked);
            },
        }
        lemma_due_after_steps(next, steps.drop_first(), number);
    }
}

/// Two deliveries of a subscription with no delivery and no served seek between them are of
/// messages that stand next to each other in the log of its own key, whatever else happened
/// between them.
pub proof fn law_deliveries_are_consecutive(reading: Reading, steps: Seq<Step>)
    requires
        upheld(reading.subscription, reading.log, reading.marked),
        queue::polled(reading.subscription).found is Ready,
        all_silent(stepped(reading, Step::Poll), steps),
        queue::polled(
            after_steps(stepped(reading, Step::Poll), steps).subscription,
        ).found is Ready,
    ensures
        ({
            let later = after_steps(stepped(reading, Step::Poll), steps);
            &&& queue::polled(reading.subscription).found matches queue::PolledView::Ready(first)
                && queue::polled(later.subscription).found matches queue::PolledView::Ready(second)
                && 1 <= first.sequence && second.sequence == first.sequence + 1
                && second.sequence <= later.log.len() && first.item == later.log[first.sequence
                - 1] && second.item == later.log[second.sequence - 1]
            &&& later.subscription.key == reading.subscription.key
        }),
{
    let number = choose|number: nat| #[trigger] due(reading.subscription, reading.log, number);
    let next = stepped(reading, Step::Poll);
    let later = after_steps(next, steps);
    lemma_due_polled(reading.subscription, reading.log, number);
    lemma_upheld_polled(reading.subscription, reading.log, reading.marked);
    lemma_due_after_steps(next, steps, number + 1);
    lemma_due_polled(later.subscription, later.log, number + 1);
    assert(reading.log[number - 1] == later.log[number - 1]);
}

/// A subscription whose handle is gone has nothing left in flight, its polls report the end, its
/// seeker is told it was closed, and neither a message nor the mark reaches it.
pub proof fn law_a_dropped_subscription_is_gone(
    subscription: queue::SubscriptionView<StoredView>,
    log: Seq<StoredView>,
    marked: bool,
    to: FilePosition,
    key: Seq<char>,
    message: queue::NumberedView<StoredView>,
)
    ensures
        ({
            let gone = registry::dropped(subscription);
            &&& queue::in_flight(gone) == 0
            &&& queue::upcoming(gone).len() == 0
            &&& queue::polled(gone).found is End
            &&& queue::polled(gone).after == gone
            &&& memory_file::seek_error(gone, log, marked, to) == Some(
                memory_file::refused_seek(subscription.key, "the subscription has been closed"@),
            )
            &&& memory_file::after_seek(gone, log, marked, to) == gone
            &&& !registry::listens(gone, key)
            &&& registry::reached(gone, key, message) == gone
            &&& registry::marked(gone) == gone
        }),
{
}

/// Whether `messages` are the messages of `log` from the place `from` on: every one of them, in
/// order, each as the log holds it and numbered by its place counted from one.
pub open spec fn is_log_from(
    messages: Seq<queue::NumberedView<StoredView>>,
    log: Seq<StoredView>,
    from: int,
) -> bool {
    &&& messages.len() == log.len() - from
    &&& forall|i: int|
        0 <= i < messages.len() ==> (#[trigger] messages[i]).sequence == from + i + 1
            && messages[i].item == log[from + i]
}

/// The first message written after an instant is the one every message before which was written at
/// or before it.
pub proof fn lemma_first_later_is_first(log: Seq<StoredView>, instant: int)
    ensures
        0 <= memory_file::first_later(log, instant) <= log.len(),
        forall|j: int|
            0 <= j < memory_file::first_later(log, instant) ==> (#[trigger] log[j]).at <= instant,
        memory_file::first_later(log, instant) < log.len() ==> log[memory_file::first_later(
            log,
            instant,
        )].at > instant,
    decreases log.len(),
{
    if log.len() > 0 && log[0].at <= instant {
        let rest = log.drop_first();
        lemma_first_later_is_first(rest, instant);
        assert forall|j: int| 0 <= j < memory_file::first_later(log, instant) implies (
        #[trigger] log[j]).at <= instant by {
            if j > 0 {
                assert(rest[j - 1] == log[j]);
            }
        }
    }
}

/// A seek to the beginning is served for every subscription that may be moved, and the whole log
/// is then what it delivers.
pub proof fn law_a_seek_to_the_beginning_reads_the_whole_log(
    subscription: queue::SubscriptionView<StoredView>,
    log: Seq<StoredView>,
    marked: bool,
)
    requires
        sound(subscription, log),
        !subscription.ended,
        subscription.replay || !marked,
    ensures
        memory_file::seek_error(subscription, log, marked, FilePosition::Beginning) is None,
        is_log_from(
            queue::upcoming(
                memory_file::after_seek(subscription, log, marked, FilePosition::Beginning),
            ),
            log,
            0,
        ),
{
    law_a_seek_reads_the_log_from_its_target(subscription, log, marked, FilePosition::Beginning);
}

/// A seek to the end is served for every subscription that may be moved, and leaves it nothing of
/// the log: it delivers what is written from there on.
pub proof fn law_a_seek_to_the_end_leaves_the_log_behind(
    subscription: queue::SubscriptionView<StoredView>,
    log: Seq<StoredView>,
    marked: bool,
)
    requires
        sound(subscription, log),
        !subscription.ended,
        subscription.replay || !marked,
        log.len() < u64::MAX,
    ensures
        memory_file::seek_error(subscription, log, marked, FilePosition::End) is None,
        queue::upcoming(
            memory_file::after_seek(subscription, log, marked, FilePosition::End),
        ).len() == 0,
{
    law_a_seek_reads_the_log_from_its_target(subscription, log, marked, FilePosition::End);
}

/// A seek to a number resumes at the message that carries it, at the first one for zero, and is
/// refused exactly where no message carries it.
pub proof fn law_a_seek_to_a_number_resumes_at_its_message(
    subscription: queue::SubscriptionView<StoredView>,
    log: Seq<StoredView>,
    marked: bool,
    sequence: u64,
)
    requires
        sound(subscription, log),
        !subscription.ended,
        subscription.replay || !marked,
    ensures
        ({
            let to = FilePosition::Sequence(sequence);
            let refusal = memory_file::seek_error(subscription, log, marked, to);
            let ahead = queue::upcoming(
                memory_file::after_seek(subscription, log, marked, to),
            );
            &&& sequence == 0 ==> refusal is None && is_log_from(ahead, log, 0)
            &&& 1 <= sequence <= log.len() ==> refusal is None && is_log_from(
                ahead,
                log,
                sequence - 1,
            )
            &&& sequence > log.len() ==> refusal == Some(
                error::ErrorView::Seek {
                    stream: subscription.key,
                    source: "no message carries that sequence"@,
                },
            )
        }),
{
    let to = FilePosition::Sequence(sequence);
    if sequence <= log.len() {
        law_a_seek_reads_the_log_from_its_target(subscription, log, marked, to);
    }
}

/// A seek to an instant resumes at the message that was written after it while every earlier one
/// was written at or before it, is refused where there is no such message, and is invalid past the
/// last instant a timestamp can hold.
pub proof fn law_a_seek_to_an_instant_resumes_at_the_first_later_message(
    subscription: queue::SubscriptionView<StoredView>,
    log: Seq<StoredView>,
    marked: bool,
    millis: u64,
)
    requires
        sound(subscription, log),
        !subscription.ended,
        subscription.replay || !marked,
    ensures
        ({
            let to = FilePosition::Timestamp(millis);
            let refusal = memory_file::seek_error(subscription, log, marked, to);
            let after = memory_file::after_seek(subscription, log, marked, to);
            let ahead = queue::upcoming(after);
            &&& millis > 253_402_300_799_999 ==> (refusal matches Some(
                error::ErrorView::Invalid(_),
            )) && after == subscription
            &&& millis <= 253_402_300_799_999 && (forall|i: int|
                0 <= i < log.len() ==> (#[trigger] log[i]).at <= millis * 1_000_000) ==> refusal
                == Some(
                error::ErrorView::Seek {
                    stream: subscription.key,
                    source: "no message is later than that instant"@,
                },
            )
            &&& forall|k: int|
                millis <= 253_402_300_799_999 && 0 <= k < log.len() && (#[trigger] log[k]).at
                    > millis * 1_000_000 && (forall|j: int|
                    0 <= j < k ==> (#[trigger] log[j]).at <= millis * 1_000_000) ==> refusal is None
                    && is_log_from(ahead, log, k)
        }),
{
    let to = FilePosition::Timestamp(millis);
    let instant = millis * 1_000_000;
    clock::law_an_instant_is_refused_past_the_last(millis as nat);
    lemma_first_later_is_first(log, instant);
    let first = memory_file::first_later(log, instant);
    if millis <= 253_402_300_799_999 && first < log.len() {
        law_a_seek_reads_the_log_from_its_target(subscription, log, marked, to);
        assert forall|k: int|
            0 <= k < log.len() && (#[trigger] log[k]).at > instant && (forall|j: int|
                0 <= j < k ==> (#[trigger] log[j]).at <= instant) implies k == first by {
            if k < first {
                assert(log[k].at <= instant);
            }
            if first < k {
                assert(log[first].at <= instant);
            }
        }
    }
}

/// A seek changes neither the key a subscription reads nor how it reads it; one that is served
/// leaves it as open as it was, and one that is refused ends a live subscription and leaves a
/// replay what it was.
pub proof fn law_a_seek_changes_nothing_but_the_place(
    subscription: queue::SubscriptionView<StoredView>,
    log: Seq<StoredView>,
    marked: bool,
    to: FilePosition,
)
    ensures
        ({
            let refusal = memory_file::seek_error(subscription, log, marked, to);
            let after = memory_file::after_seek(subscription, log, marked, to);
            &&& after.key == subscription.key
            &&& after.replay == subscription.replay
            &&& refusal is None ==> after.open == subscription.open && after.ended
                == subscription.ended && after.queue == subscription.queue
            &&& refusal is Some && (subscription.replay || subscription.ended || marked)
                ==> after == subscription
            &&& (refusal matches Some(error::ErrorView::Seek { .. })) && !subscription.replay
                && !marked ==> after.ended && (!subscription.ended ==> !after.open)
            &&& after.ended ==> subscription.ended || refusal is Some
        }),
{
}

/// A subscription that ended, and a live one of a marked file, is moved nowhere, whatever it asks
/// for.
pub proof fn law_what_is_over_is_moved_nowhere(
    subscription: queue::SubscriptionView<StoredView>,
    log: Seq<StoredView>,
    marked: bool,
    to: FilePosition,
)
    requires
        subscription.ended || (!subscription.replay && marked),
    ensures
        memory_file::after_seek(subscription, log, marked, to) == subscription,
        memory_file::seek_error(subscription, log, marked, to) == Some(
            error::ErrorView::Seek {
                stream: subscription.key,
                source: if subscription.ended {
                    "the subscription has been closed"@
                } else {
                    "the stream ended at its end-of-stream mark"@
                },
            },
        ),
{
}

/// A subscription opens on its key, open and not ended; a replay delivers the whole log and then
/// its end, and a live subscription waits for what is written.
pub proof fn law_a_subscription_opens_ready_to_read(
    key: Seq<char>,
    replay: bool,
    log: Seq<StoredView>,
)
    ensures
        ({
            let opened = memory_file::subscribed(key, replay, log);
            &&& opened.key == key
            &&& opened.open
            &&& !opened.ended
            &&& opened.replay == replay
            &&& is_log_from(
                queue::upcoming(opened),
                log,
                if replay {
                    0
                } else {
                    log.len() as int
                },
            )
            &&& queue::in_flight(opened) == (if replay {
                log.len()
            } else {
                0
            })
            &&& !replay ==> queue::polled(opened).found is Pending
            &&& replay && log.len() == 0 ==> queue::polled(opened).found is End
        }),
{
    law_a_subscription_opens_over_the_log(key, replay, log);
    let all = retained::numbered_from(log, 0, 1);
    lemma_messages_of_entries(all);
}

proof fn lemma_messages_of_entries(messages: Seq<queue::NumberedView<StoredView>>)
    ensures
        queue::messages_in(queue::as_entries(messages)) == messages.len(),
    decreases messages.len(),
{
    let queue = queue::as_entries(messages);
    if messages.len() > 0 {
        lemma_messages_of_entries(messages.drop_first());
        assert(queue.drop_first() =~= queue::as_entries(messages.drop_first()));
    }
}

/// Writing a message adds it to its key's log and to no other, behind what the log holds, with the
/// bytes and the moment it was written with; every open subscription on the key gets it behind
/// what it has queued, under its place in the log, and every other is left as it was.
pub proof fn law_a_message_is_written_once(
    before: &MemoryFile,
    after: &MemoryFile,
    key: Seq<char>,
    bytes: Seq<u8>,
    at: int,
)
    requires
        after.appended(before, key, bytes, at),
    ensures
        after.retained(key).len() == before.retained(key).len() + 1,
        after.retained(key).last().at == at,
        after.retained(key).last().bytes == bytes,
        forall|i: int|
            0 <= i < before.retained(key).len() ==> (#[trigger] after.retained(key)[i])
                == before.retained(key)[i],
        forall|other: Seq<char>|
            other != key ==> (#[trigger] after.retained(other)) == before.retained(other),
        after.is_marked() == before.is_marked(),
        after.subscriptions().len() == before.subscriptions().len(),
        forall|i: int|
            0 <= i < before.subscriptions().len() ==> ({
                let was = #[trigger] before.subscriptions()[i];
                let is = after.subscriptions()[i];
                if was.open && was.key == key {
                    &&& is.queue.len() == was.queue.len() + 1
                    &&& is.queue.drop_last() == was.queue
                    &&& is.queue.last() matches queue::EntryView::Message(message)
                        && message.sequence == before.retained(key).len() + 1 && message.item.at
                        == at && message.item.bytes == bytes
                    &&& is.open && is.key == key && is.ended == was.ended && is.replay
                        == was.replay && is.pending == was.pending && is.watermark
                        == was.watermark
                } else {
                    is == was
                }
            }),
{
    assert forall|i: int| 0 <= i < before.subscriptions().len() implies ({
        let was = #[trigger] before.subscriptions()[i];
        let is = after.subscriptions()[i];
        if was.open && was.key == key {
            is.queue.drop_last() == was.queue
        } else {
            is == was
        }
    }) by {
        let was = before.subscriptions()[i];
        let is = after.subscriptions()[i];
        if was.open && was.key == key {
            assert(is.queue.drop_last() =~= was.queue);
        }
    }
}

/// A message is found by the moment it was written at: a seek to an instant before it, and at or
/// after everything the log held, delivers that message and nothing else.
pub proof fn law_a_message_is_found_by_its_moment(
    before: &MemoryFile,
    after: &MemoryFile,
    id: int,
    bytes: Seq<u8>,
    at: int,
    millis: u64,
)
    requires
        after.consistent(),
        0 <= id < after.subscriptions().len(),
        after.appended(before, after.subscriptions()[id].key, bytes, at),
        !after.subscriptions()[id].ended,
        after.subscriptions()[id].replay || !after.is_marked(),
        millis <= 253_402_300_799_999,
        millis * 1_000_000 < at,
        forall|i: int|
            0 <= i < before.retained(after.subscriptions()[id].key).len() ==> (
            #[trigger] before.retained(after.subscriptions()[id].key)[i]).at <= millis
                * 1_000_000,
    ensures
        ({
            let subscription = after.subscriptions()[id];
            let log = after.retained(subscription.key);
            let to = FilePosition::Timestamp(millis);
            let ahead = queue::upcoming(
                memory_file::after_seek(subscription, log, after.is_marked(), to),
            );
            &&& memory_file::seek_error(subscription, log, after.is_marked(), to) is None
            &&& ahead.len() == 1
            &&& ahead[0].sequence == log.len()
            &&& ahead[0].item.at == at
            &&& ahead[0].item.bytes == bytes
        }),
{
    let subscription = after.subscriptions()[id];
    let log = after.retained(subscription.key);
    assert(upheld(subscription, log, after.is_marked()));
    law_a_seek_to_an_instant_resumes_at_the_first_later_message(
        subscription,
        log,
        after.is_marked(),
        millis,
    );
    let last = log.len() - 1;
    assert(log[last].at == at);
    assert forall|j: int| 0 <= j < last implies (#[trigger] log[j]).at <= millis
        * 1_000_000 by {
        assert(before.retained(subscription.key)[j] == log[j]);
    }
}

/// The end-of-stream mark comes after everything a live subscription had coming, and then ends it.
pub proof fn law_the_mark_comes_after_everything_queued(
    subscription: queue::SubscriptionView<StoredView>,
    log: Seq<StoredView>,
)
    requires
        upheld(subscription, log, false),
        subscription.open,
    ensures
        queue::upcoming(registry::marked(subscription)) == queue::upcoming(subscription),
        queue::upcoming(subscription).len() == 0 ==> queue::polled(
            registry::marked(subscription),
        ).found is End,
        registry::marked(subscription).key == subscription.key,
        registry::marked(subscription).replay == subscription.replay,
{
    let after = registry::marked(subscription);
    let entry = queue::EntryView::<StoredView>::End;
    lemma_no_mark_settled(subscription);
    let queued = queue::settled(subscription).queue;
    if let Some(replay) = subscription.pending {
        let rest = queue::kept(subscription.queue, replay, subscription.watermark);
        queue::lemma_kept_push(subscription.queue, entry, replay, subscription.watermark);
        assert(queue::as_entries(replay) + rest.push(entry) =~= queued.push(entry));
    }
    lemma_fresh_before_a_mark(queued, subscription.watermark);
    queue::law_a_poll_takes_the_first_upcoming_message(after);
    if queue::upcoming(subscription).len() == 0 {
        lemma_only_a_mark_is_left(queued, subscription.watermark);
    }
}

proof fn lemma_fresh_before_a_mark(queue: Seq<queue::EntryView<StoredView>>, watermark: nat)
    requires
        !queue.contains(queue::EntryView::End),
    ensures
        queue::fresh(queue.push(queue::EntryView::End), watermark) == queue::fresh(
            queue,
            watermark,
        ),
    decreases queue.len(),
{
    let longer = queue.push(queue::EntryView::End);
    if queue.len() > 0 {
        let rest = queue.drop_first();
        assert(queue.contains(queue[0]));
        assert(!rest.contains(queue::EntryView::End)) by {
            if rest.contains(queue::EntryView::End) {
                let at = choose|at: int|
                    0 <= at < rest.len() && rest[at] == queue::EntryView::<StoredView>::End;
                assert(queue[at + 1] == queue::EntryView::<StoredView>::End);
            }
        }
        lemma_fresh_before_a_mark(rest, watermark);
        assert(longer.drop_first() =~= rest.push(queue::EntryView::End));
        assert(longer[0] == queue[0]);
    } else {
        assert(longer[0] == queue::EntryView::<StoredView>::End);
    }
}

proof fn lemma_only_a_mark_is_left(queue: Seq<queue::EntryView<StoredView>>, watermark: nat)
    requires
        !queue.contains(queue::EntryView::End),
        queue::fresh(queue, watermark).len() == 0,
    ensures
        queue::stale_front(queue.push(queue::EntryView::End), watermark) == queue.len(),
    decreases queue.len(),
{
    let longer = queue.push(queue::EntryView::End);
    if queue.len() > 0 {
        let rest = queue.drop_first();
        assert(queue.contains(queue[0]));
        assert(!rest.contains(queue::EntryView::End)) by {
            if rest.contains(queue::EntryView::End) {
                let at = choose|at: int|
                    0 <= at < rest.len() && rest[at] == queue::EntryView::<StoredView>::End;
                assert(queue[at + 1] == queue::EntryView::<StoredView>::End);
            }
        }
        lemma_only_a_mark_is_left(rest, watermark);
        assert(longer.drop_first() =~= rest.push(queue::EntryView::End));
        assert(longer[0] == queue[0]);
    } else {
        assert(longer[0] == queue::EntryView::<StoredView>::End);
    }
}

/// A live subscription of a file that is not marked never ends by being read: it waits while it
/// has nothing coming.
pub proof fn law_a_live_subscription_waits(
    subscription: queue::SubscriptionView<StoredView>,
    log: Seq<StoredView>,
)
    requires
        upheld(subscription, log, false),
        !subscription.replay,
        !subscription.ended,
        queue::upcoming(subscription).len() == 0,
    ensures
        queue::polled(subscription).found is Pending,
        queue::polled(subscription).after.open,
        !queue::polled(subscription).after.ended,
{
    queue::law_a_poll_takes_the_first_upcoming_message(subscription);
    let applied = queue::settled(subscription);
    let front = queue::stale_front(applied.queue, applied.watermark) as int;
    lemma_no_mark_settled(subscription);
    if front < applied.queue.len() {
        assert(applied.queue.contains(applied.queue[front]));
    }
}

/// A poll of a subscription on `key` delivers the message it found as it was sent: under that key,
/// with the number and the payload the log has for it.
pub proof fn law_a_delivery_is_what_the_log_holds(
    key: Seq<char>,
    found: queue::NumberedView<StoredView>,
)
    ensures
        ({
            let record = memory_file::record_of(key, found);
            let delivery = message::delivered(record);
            &&& record.key == key
            &&& record.sequence == found.sequence
            &&& record.at == found.item.at
            &&& record.bytes == found.item.bytes
            &&& delivery.stream == key
            &&& delivery.sequence == found.sequence
            &&& delivery.payload == wire::opened(found.item.bytes).1
        }),
{
    message::law_a_delivery_is_the_message_of_its_record(memory_file::record_of(key, found));
}

/// A published message reaches a listening subscription with every header it was sent with, in
/// order, where the headers are text that an envelope carries, and its number behind them.
pub proof fn law_a_published_message_keeps_its_headers(
    before: &MemoryFile,
    after: &MemoryFile,
    id: int,
    key: Seq<char>,
    entries: Seq<(Seq<char>, Seq<u8>)>,
    payload: Seq<u8>,
    at: int,
)
    requires
        before.consistent(),
        !before.is_marked(),
        headers::well_named(entries),
        encode_utf8(wire::header_block(entries)).len() <= u32::MAX,
        forall|i: int|
            0 <= i < entries.len() ==> (#[trigger] entries[i]).0 != "stream-sequence"@
                && wire::is_carried_whole(entries[i].0, entries[i].1),
        after.appended(before, key, wire::written(entries, payload, false), at),
        0 <= id < before.subscriptions().len(),
        before.subscriptions()[id].open,
        before.subscriptions()[id].key == key,
    ensures
        ({
            let coming = queue::upcoming(after.subscriptions()[id]);
            let delivery = message::delivered(memory_file::record_of(key, coming.last()));
            &&& coming.len() == queue::upcoming(before.subscriptions()[id]).len() + 1
            &&& delivery.stream == key
            &&& delivery.sequence == before.retained(key).len() + 1
            &&& delivery.payload == payload
            &&& delivery.headers == entries.push(
                (
                    "stream-sequence"@,
                    encode_utf8(text::decimal(before.retained(key).len() + 1)),
                ),
            )
        }),
{
    law_a_published_message_is_delivered_as_it_was_sent(
        before,
        after,
        id,
        key,
        entries,
        payload,
        at,
    );
    wire::law_a_message_comes_back_as_it_was_sent(entries, payload, false);
    wire::law_what_is_written_gives_the_message_back(entries, payload, false);
    assert(wire::read_lines(Seq::empty(), wire::header_block(entries)) == entries);
    let coming = queue::upcoming(after.subscriptions()[id]);
    assert(coming.drop_last().len() + 1 == coming.len());
    message::law_numbering_keeps_the_other_headers(entries, before.retained(key).len() + 1);
}

/// A seek that is served reports as many deliveries as the subscription then has coming.
pub proof fn law_a_seek_reports_what_it_queues(
    subscription: queue::SubscriptionView<StoredView>,
    log: Seq<StoredView>,
    marked: bool,
    to: FilePosition,
)
    requires
        sound(subscription, log),
        memory_file::seek_error(subscription, log, marked, to) is None,
    ensures
        memory_file::resolved(log, to) matches memory_file::Resolution::At(target)
            && retained::numbered_from(log, target - 1, 1).len() == queue::upcoming(
            memory_file::after_seek(subscription, log, marked, to),
        ).len(),
{
    law_a_seek_reads_the_log_from_its_target(subscription, log, marked, to);
}

} // verus!
