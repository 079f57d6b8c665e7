//! The bounded, drop-oldest channel between ingest and the aggregator.
//!
//! A stale tick is worth less than none, so a full channel gives up its oldest
//! item for the new one, and counts it. Sending never waits.
use std::collections::VecDeque;

use vstd::prelude::*;

verus! {

/// Channel health at one instant.
#[derive(Clone, Copy, Debug, PartialEq, Eq, Structural)]
pub struct ChannelMetrics {
    pub len: usize,
    pub capacity: usize,
    pub dropped: u64,
}

/// What happened to the item just sent.
#[derive(Debug, PartialEq, Eq)]
pub enum SendOutcome<T> {
    /// Queued; the channel had room.
    Sent,
    /// Queued, and the oldest item, returned here, was evicted to make room.
    DroppedOldest(T),
    /// The channel is closed. Nothing was queued.
    Closed(T),
}

/// What became of an item that must not push another out.
#[derive(Debug, PartialEq, Eq)]
pub enum OfferOutcome<T> {
    /// Queued.
    Sent,
    /// The channel is full. Nothing was queued.
    Full(T),
    /// The channel is closed. Nothing was queued.
    Closed(T),
}

/// What a receiver finds.
#[derive(Debug, PartialEq, Eq)]
pub enum Received<T> {
    /// The oldest item.
    Item(T),
    /// Nothing yet.
    Waiting,
    /// Nothing, now or later: the channel is closed and drained.
    Ended,
}

/// A bounded queue that its senders and its receiver share.
#[derive(Debug)]
pub struct Channel<T> {
    queue: VecDeque<T>,
    capacity: usize,
    dropped: u64,
    senders: usize,
    closed: bool,
}

/// What a channel is known by.
pub struct ChannelView<T> {
    /// The items queued, the oldest first.
    pub queued: Seq<T>,
    /// How many it holds at most.
    pub limit: nat,
    /// How many were evicted, as a wrapping counter.
    pub lost: u64,
    /// How many senders there are.
    pub senders: nat,
    /// Whether it takes no more items.
    pub closed: bool,
}

impl<T> View for Channel<T> {
    type V = ChannelView<T>;

    closed spec fn view(&self) -> ChannelView<T> {
        ChannelView {
            queued: self.queue@,
            limit: self.capacity as nat,
            lost: self.dropped,
            senders: self.senders as nat,
            closed: self.closed,
        }
    }
}

impl<T> ChannelView<T> {
    /// A channel holds something, and no more than its limit.
    pub open spec fn wf(self) -> bool {
        0 < self.limit && self.queued.len() <= self.limit
    }

    /// Whether there is no room.
    pub open spec fn is_full(self) -> bool {
        self.queued.len() >= self.limit
    }
}

/// A channel after an item was sent.
pub open spec fn after_send<T>(c: ChannelView<T>, item: T) -> ChannelView<T> {
    if c.closed {
        c
    } else if c.is_full() {
        ChannelView {
            queued: c.queued.drop_first().push(item),
            lost: c.lost.wrapping_add(1),
            ..c
        }
    } else {
        ChannelView { queued: c.queued.push(item), ..c }
    }
}

/// A channel after an item was taken.
pub open spec fn after_take<T>(c: ChannelView<T>) -> ChannelView<T> {
    if c.queued.len() == 0 {
        c
    } else {
        ChannelView { queued: c.queued.drop_first(), ..c }
    }
}

/// A channel for so many items. One that could hold nothing would drop every
/// item.
pub fn bounded<T>(capacity: usize) -> (c: Channel<T>)
    requires
        capacity > 0,
    ensures
        c@.wf(),
        c@.queued.len() == 0,
        c@.limit == capacity,
        c@.lost == 0,
        c@.senders == 1,
        !c@.closed,
{
    Channel { queue: VecDeque::new(), capacity, dropped: 0, senders: 1, closed: false }
}

impl<T> Channel<T> {
    /// Queues an item, evicting the oldest if the channel is full. Never waits.
    pub fn send(&mut self, item: T) -> (r: SendOutcome<T>)
        requires
            old(self)@.wf(),
        ensures
            final(self)@.wf(),
            final(self)@ == after_send(old(self)@, item),
            match r {
                SendOutcome::Closed(back) => old(self)@.closed && back == item,
                SendOutcome::DroppedOldest(oldest) => !old(self)@.closed && old(self)@.is_full()
                    && oldest == old(self)@.queued[0],
                SendOutcome::Sent => !old(self)@.closed && !old(self)@.is_full(),
            },
    {
        if self.closed {
            return SendOutcome::Closed(item);
        }
        let evicted = if self.queue.len() >= self.capacity {
            self.queue.pop_front()
        } else {
            None
        };
        self.queue.push_back(item);
        match evicted {
            Some(oldest) => {
                self.dropped = self.dropped.wrapping_add(1);
                assert(self@.queued =~= after_send(old(self)@, item).queued);
                SendOutcome::DroppedOldest(oldest)
            },
            None => SendOutcome::Sent,
        }
    }

    /// Queues an item if there is room, and hands it back if there is none.
    pub fn offer(&mut self, item: T) -> (r: OfferOutcome<T>)
        requires
            old(self)@.wf(),
        ensures
            final(self)@.wf(),
            match r {
                OfferOutcome::Closed(back) => old(self)@.closed && back == item && final(self)@
                    == old(self)@,
                OfferOutcome::Full(back) => !old(self)@.closed && old(self)@.is_full() && back
                    == item && final(self)@ == old(self)@,
                OfferOutcome::Sent => !old(self)@.closed && !old(self)@.is_full() && final(self)@
                    == after_send(old(self)@, item),
            },
    {
        if self.closed {
            return OfferOutcome::Closed(item);
        }
        if self.queue.len() >= self.capacity {
            return OfferOutcome::Full(item);
        }
        self.queue.push_back(item);
        OfferOutcome::Sent
    }

    /// Takes the oldest item, if one is queued.
    pub fn try_recv(&mut self) -> (r: Option<T>)
        requires
            old(self)@.wf(),
        ensures
            final(self)@.wf(),
            final(self)@ == after_take(old(self)@),
            match r {
                Some(item) => old(self)@.queued.len() > 0 && item == old(self)@.queued[0],
                None => old(self)@.queued.len() == 0,
            },
    {
        let r = self.queue.pop_front();
        assert(r is Some ==> self@.queued =~= old(self)@.queued.drop_first());
        r
    }

    /// Takes the oldest item, or says whether one can still come. Closing
    /// discards nothing that was queued.
    pub fn recv(&mut self) -> (r: Received<T>)
        requires
            old(self)@.wf(),
        ensures
            final(self)@.wf(),
            final(self)@ == after_take(old(self)@),
            match r {
                Received::Item(item) => old(self)@.queued.len() > 0 && item
                    == old(self)@.queued[0],
                Received::Ended => old(self)@.queued.len() == 0 && old(self)@.closed,
                Received::Waiting => old(self)@.queued.len() == 0 && !old(self)@.closed,
            },
    {
        match self.try_recv() {
            Some(item) => Received::Item(item),
            None => if self.closed {
                Received::Ended
            } else {
                Received::Waiting
            },
        }
    }

    /// Refuses all further items. What is queued can still be received.
    pub fn close(&mut self)
        requires
            old(self)@.wf(),
        ensures
            final(self)@ == (ChannelView { closed: true, ..old(self)@ }),
    {
        self.closed = true;
    }

    /// One sender more.
    pub fn add_sender(&mut self)
        requires
            old(self)@.wf(),
            old(self)@.senders < usize::MAX,
        ensures
            final(self)@ == (ChannelView { senders: old(self)@.senders + 1, ..old(self)@ }),
    {
        self.senders = self.senders + 1;
    }

    /// One sender less. The last one to go closes the channel.
    pub fn drop_sender(&mut self)
        requires
            old(self)@.wf(),
            old(self)@.senders > 0,
        ensures
            final(self)@ == (ChannelView {
                senders: (old(self)@.senders - 1) as nat,
                closed: old(self)@.closed || old(self)@.senders == 1,
                ..old(self)@
            }),
    {
        self.senders = self.senders - 1;
        if self.senders == 0 {
            self.closed = true;
        }
    }

    /// Whether the channel takes no more items.
    pub fn is_closed(&self) -> (b: bool)
        ensures
            b == self@.closed,
    {
        self.closed
    }

    /// Channel health now.
    pub fn metrics(&self) -> (m: ChannelMetrics)
        ensures
            m.len == self@.queued.len(),
            m.capacity == self@.limit,
            m.dropped == self@.lost,
    {
        ChannelMetrics { len: self.queue.len(), capacity: self.capacity, dropped: self.dropped }
    }
}

/// What is done with a channel: an item is sent, or one is taken.
pub enum Use<T> {
    Send(T),
    Take,
}

/// A channel after it was used.
pub open spec fn used<T>(c: ChannelView<T>, uses: Seq<Use<T>>) -> ChannelView<T>
    decreases uses.len(),
{
    if uses.len() == 0 {
        c
    } else {
        let before = used(c, uses.drop_last());
        match uses.last() {
            Use::Send(item) => after_send(before, item),
            Use::Take => after_take(before),
        }
    }
}

/// The items that entered a channel while it was used.
pub open spec fn entered<T>(c: ChannelView<T>, uses: Seq<Use<T>>) -> Seq<T>
    decreases uses.len(),
{
    if uses.len() == 0 {
        Seq::empty()
    } else {
        let rest = entered(c, uses.drop_last());
        match uses.last() {
            Use::Send(item) => if used(c, uses.drop_last()).closed {
                rest
            } else {
                rest.push(item)
            },
            Use::Take => rest,
        }
    }
}

/// The items that left a channel while it was used, received or evicted.
pub open spec fn left<T>(c: ChannelView<T>, uses: Seq<Use<T>>) -> Seq<T>
    decreases uses.len(),
{
    if uses.len() == 0 {
        Seq::empty()
    } else {
        let rest = left(c, uses.drop_last());
        let before = used(c, uses.drop_last());
        match uses.last() {
            Use::Send(_) => if !before.closed && before.is_full() {
                rest.push(before.queued[0])
            } else {
                rest
            },
            Use::Take => if before.queued.len() > 0 {
                rest.push(before.queued[0])
            } else {
                rest
            },
        }
    }
}

/// How many items were evicted while a channel was used.
pub open spec fn evicted<T>(c: ChannelView<T>, uses: Seq<Use<T>>) -> nat
    decreases uses.len(),
{
    if uses.len() == 0 {
        0
    } else {
        let before = used(c, uses.drop_last());
        evicted(c, uses.drop_last()) + if uses.last() is Send && !before.closed
            && before.is_full() {
            1nat
        } else {
            0
        }
    }
}

/// Every item that enters a channel is received, counted as dropped, or still
/// queued: what left, followed by what is queued, is what was there, followed by
/// what entered, in that order. The channel never holds more than its limit, and
/// every eviction is counted, as long as the counter does not wrap.
pub proof fn law_every_item_is_accounted_for<T>(c: ChannelView<T>, uses: Seq<Use<T>>)
    requires
        c.wf(),
    ensures
        left(c, uses) + used(c, uses).queued == c.queued + entered(c, uses),
        used(c, uses).wf(),
        used(c, uses).limit == c.limit,
        c.lost + evicted(c, uses) <= u64::MAX ==> used(c, uses).lost == c.lost + evicted(c, uses),
    decreases uses.len(),
{
    if uses.len() == 0 {
        assert(left(c, uses) + used(c, uses).queued =~= c.queued + entered(c, uses));
    } else {
        let rest = uses.drop_last();
        law_every_item_is_accounted_for(c, rest);
        let before = used(c, rest);
        match uses.last() {
            Use::Send(item) => {
                if !before.closed && before.is_full() {
                    assert(left(c, uses) + used(c, uses).queued =~= (left(c, rest)
                        + before.queued).push(item));
                    assert(c.queued + entered(c, uses) =~= (c.queued + entered(c, rest)).push(item));
                } else if !before.closed {
                    assert(left(c, uses) + used(c, uses).queued =~= (left(c, rest)
                        + before.queued).push(item));
                    assert(c.queued + entered(c, uses) =~= (c.queued + entered(c, rest)).push(item));
                }
            },
            Use::Take => {
                if before.queued.len() > 0 {
                    assert(left(c, uses) + used(c, uses).queued =~= left(c, rest)
                        + before.queued);
                }
            },
        }
    }
}

/// An item that is sent is the newest in the queue, and those before it keep their
/// order. Only a full channel loses one: the oldest, and it is counted. A closed
/// one takes nothing.
pub proof fn law_only_a_full_channel_loses_its_oldest<T>(c: ChannelView<T>, item: T)
    requires
        c.wf(),
    ensures
        c.closed ==> after_send(c, item) == c,
        !c.closed ==> {
            let then = after_send(c, item);
            let gone: int = if c.queued.len() == c.limit {
                1
            } else {
                0
            };
            &&& then.queued.len() == c.queued.len() + 1 - gone
            &&& then.queued.last() == item
            &&& forall|i: int|
                0 <= i < then.queued.len() - 1 ==> #[trigger] then.queued[i] == c.queued[i + gone]
            &&& c.lost < u64::MAX ==> then.lost == c.lost + gone
        },
        after_send(c, item).limit == c.limit,
        after_send(c, item).senders == c.senders,
        after_send(c, item).closed == c.closed,
{
}

/// What is taken is the oldest item; the others stay, in order.
pub proof fn law_the_oldest_is_taken<T>(c: ChannelView<T>)
    ensures
        c.queued.len() == 0 ==> after_take(c) == c,
        c.queued.len() > 0 ==> seq![c.queued[0]] + after_take(c).queued == c.queued,
        after_take(c).lost == c.lost,
        after_take(c).limit == c.limit,
        after_take(c).senders == c.senders,
        after_take(c).closed == c.closed,
{
    if c.queued.len() > 0 {
        assert(seq![c.queued[0]] + c.queued.drop_first() =~= c.queued);
    }
}

} // verus!
