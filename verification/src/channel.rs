use std::collections::VecDeque;
use vstd::prelude::*;
use crate::semaphore::{Semaphore, WaitOutcome};

verus! {

/// The abstract state of a channel: the messages in flight, oldest first, and
/// the number of messages that may be in flight at once.
pub struct ChannelView<T> {
    pub queue: Seq<T>,
    pub capacity: int,
}

/// A bounded first-in first-out channel.
///
/// A slot semaphore with `capacity` permits counts the messages in flight: a
/// sender takes a permit before it enqueues, and a receiver gives the permit
/// back once it has dequeued. A sender that finds no free slot, and a receiver
/// that finds the queue empty, get told to block and try again.
pub struct Channel<T> {
    slots: Semaphore,
    buffer: VecDeque<T>,
}

impl<T> View for Channel<T> {
    type V = ChannelView<T>;

    closed spec fn view(&self) -> ChannelView<T> {
        ChannelView { queue: self.buffer@, capacity: self.slots@.max }
    }
}

/// A well-formed channel: positive capacity, and never more messages in
/// flight than it.
pub open spec fn channel_ok<T>(c: ChannelView<T>) -> bool {
    &&& 0 < c.capacity
    &&& c.queue.len() <= c.capacity
}

/// The empty channel of the given capacity.
pub open spec fn empty_channel<T>(capacity: int) -> ChannelView<T> {
    ChannelView { queue: Seq::empty(), capacity }
}

/// Sending `x`: it joins the back of the queue when a slot is free; otherwise
/// the channel is unchanged and the sender has to block.
pub open spec fn after_send<T>(c: ChannelView<T>, x: T) -> (ChannelView<T>, bool) {
    if c.queue.len() < c.capacity {
        (ChannelView { queue: c.queue.push(x), capacity: c.capacity }, true)
    } else {
        (c, false)
    }
}

/// Receiving: the oldest message leaves the queue; `None` when it is empty.
pub open spec fn after_recv<T>(c: ChannelView<T>) -> (ChannelView<T>, Option<T>) {
    if c.queue.len() > 0 {
        (ChannelView { queue: c.queue.drop_first(), capacity: c.capacity }, Some(c.queue[0]))
    } else {
        (c, None)
    }
}

impl<T> Channel<T> {
    /// The slot semaphore counts exactly the queued messages, and has at
    /// least one slot.
    pub closed spec fn wf(&self) -> bool {
        &&& self.slots@.count == self.buffer@.len()
        &&& 0 < self.slots@.max
    }

    /// Sends `data`, or hands it back in `Err` when every slot is taken, in
    /// which case the sender has to block until a message is received and then
    /// try again.
    pub fn send(&mut self, data: T) -> (result: Result<(), T>)
        requires
            old(self).wf(),
        ensures
            final(self).wf(),
            final(self)@ == after_send(old(self)@, data).0,
            result is Ok <==> after_send(old(self)@, data).1,
            result is Err ==> result == Err::<(), T>(data),
            channel_ok(final(self)@),
    {
        match self.slots.wait() {
            WaitOutcome::Acquired => {
                self.buffer.push_back(data);
                Ok(())
            },
            WaitOutcome::MustBlock => Err(data),
        }
    }

    /// Receives the oldest message, giving its slot back; `None` when there is
    /// none, in which case the receiver has to block until a message is sent
    /// and then try again.
    pub fn recv(&mut self) -> (result: Option<T>)
        requires
            old(self).wf(),
        ensures
            final(self).wf(),
            (final(self)@, result) == after_recv(old(self)@),
            channel_ok(final(self)@),
    {
        match self.buffer.pop_front() {
            Some(data) => {
                self.slots.post();
                Some(data)
            },
            None => None,
        }
    }

    /// Number of messages in flight.
    pub fn len(&self) -> (n: usize)
        ensures
            n == self@.queue.len(),
    {
        self.buffer.len()
    }

    /// The number of messages that may be in flight at once.
    pub fn capacity(&self) -> (n: isize)
        ensures
            n == self@.capacity,
    {
        self.slots.limit()
    }
}

/// Makes an empty channel in which at most `max` messages may be in flight.
pub fn channel<T>(max: isize) -> (c: Channel<T>)
    requires
        max > 0,
    ensures
        c.wf(),
        c@ == empty_channel::<T>(max as int),
{
    let c = Channel { slots: Semaphore::new(max), buffer: VecDeque::new() };
    assert(c@.queue =~= Seq::<T>::empty());
    c
}

/// The channel after sending each of `xs` in turn.
pub open spec fn after_sends<T>(c: ChannelView<T>, xs: Seq<T>) -> ChannelView<T>
    decreases xs.len(),
{
    if xs.len() == 0 {
        c
    } else {
        after_send(after_sends(c, xs.drop_last()), xs.last()).0
    }
}

/// The channel after `n` receives, and the messages they returned, in order
/// (`None` for a receive that found the queue empty).
pub open spec fn after_recvs<T>(c: ChannelView<T>, n: nat) -> (ChannelView<T>, Seq<Option<T>>)
    decreases n,
{
    if n == 0 {
        (c, Seq::empty())
    } else {
        let (c1, got) = after_recvs(c, (n - 1) as nat);
        let (c2, r) = after_recv(c1);
        (c2, got.push(r))
    }
}

/// Sending and receiving keep a well-formed channel well formed: there are
/// never more messages in flight than the capacity.
pub proof fn lemma_channel_stays_bounded<T>(c: ChannelView<T>, x: T)
    requires
        channel_ok(c),
    ensures
        channel_ok(after_send(c, x).0),
        channel_ok(after_recv(c).0),
{
}

/// A send succeeds exactly when a slot is free, and then its message goes to
/// the back of the queue.
pub proof fn lemma_sends_fill_queue<T>(c: ChannelView<T>, xs: Seq<T>)
    requires
        c.queue.len() + xs.len() <= c.capacity,
    ensures
        after_sends(c, xs) == (ChannelView { queue: c.queue + xs, capacity: c.capacity }),
    decreases xs.len(),
{
    if xs.len() > 0 {
        lemma_sends_fill_queue(c, xs.drop_last());
        assert(c.queue + xs.drop_last().push(xs.last()) =~= c.queue + xs);
    }
}

/// Receives hand the queued messages out oldest first.
pub proof fn lemma_recvs_drain_queue<T>(c: ChannelView<T>, n: nat)
    requires
        n <= c.queue.len(),
    ensures
        after_recvs(c, n).0 == (ChannelView { queue: c.queue.skip(n as int), capacity: c.capacity }),
        after_recvs(c, n).1 == c.queue.take(n as int).map_values(|x: T| Some(x)),
    decreases n,
{
    if n > 0 {
        lemma_recvs_drain_queue(c, (n - 1) as nat);
        let c1 = after_recvs(c, (n - 1) as nat).0;
        assert(c1.queue.drop_first() =~= c.queue.skip(n as int));
        assert(c.queue.take((n - 1) as int).map_values(|x: T| Some(x)).push(Some(c1.queue[0]))
            =~= c.queue.take(n as int).map_values(|x: T| Some(x)));
    } else {
        assert(c.queue.skip(0) =~= c.queue);
        assert(c.queue.take(0).map_values(|x: T| Some(x)) =~= Seq::<Option<T>>::empty());
    }
}

/// First in, first out: on an empty channel, up to `capacity` messages sent
/// and then received come back exactly, in the order they were sent, and the
/// channel is empty again.
pub proof fn lemma_fifo_round_trip<T>(capacity: int, xs: Seq<T>)
    requires
        0 < capacity,
        xs.len() <= capacity,
    ensures
        after_recvs(after_sends(empty_channel(capacity), xs), xs.len()).1
            == xs.map_values(|x: T| Some(x)),
        after_recvs(after_sends(empty_channel(capacity), xs), xs.len()).0
            == empty_channel::<T>(capacity),
{
    let c = empty_channel::<T>(capacity);
    lemma_sends_fill_queue(c, xs);
    assert(c.queue + xs =~= xs);
    let full = after_sends(c, xs);
    lemma_recvs_drain_queue(full, xs.len());
    assert(xs.take(xs.len() as int) =~= xs);
    assert(xs.skip(xs.len() as int) =~= Seq::<T>::empty());
}

/// A send of a message, or a receive, on a channel.
pub enum ChannelEvent<T> {
    Send(T),
    Recv,
}

/// The channel after `events`, in order, with the messages that the sends
/// put in (a send into a full channel puts nothing in) and the messages that
/// the receives took out (a receive from an empty channel takes nothing).
pub open spec fn run_channel<T>(c: ChannelView<T>, events: Seq<ChannelEvent<T>>) -> (
    ChannelView<T>,
    Seq<T>,
    Seq<T>,
)
    decreases events.len(),
{
    if events.len() == 0 {
        (c, Seq::empty(), Seq::empty())
    } else {
        let (c1, sent, received) = run_channel(c, events.drop_last());
        match events.last() {
            ChannelEvent::Send(x) => {
                let (c2, ok) = after_send(c1, x);
                if ok {
                    (c2, sent.push(x), received)
                } else {
                    (c2, sent, received)
                }
            },
            ChannelEvent::Recv => {
                let (c2, r) = after_recv(c1);
                match r {
                    Some(x) => (c2, sent, received.push(x)),
                    None => (c2, sent, received),
                }
            },
        }
    }
}

/// First in, first out, for any interleaving of sends and receives: what the
/// receives took out, followed by what is still queued, is what was queued at
/// the start followed by what the sends put in. Nothing is lost, duplicated or
/// reordered; in particular every sender's messages come out in the order in
/// which it sent them.
pub proof fn lemma_fifo_interleaved<T>(c: ChannelView<T>, events: Seq<ChannelEvent<T>>)
    ensures
        run_channel(c, events).2 + run_channel(c, events).0.queue == c.queue + run_channel(
            c,
            events,
        ).1,
        run_channel(c, events).0.capacity == c.capacity,
        channel_ok(c) ==> channel_ok(run_channel(c, events).0),
    decreases events.len(),
{
    if events.len() == 0 {
        assert(Seq::<T>::empty() + c.queue =~= c.queue);
        assert(c.queue + Seq::<T>::empty() =~= c.queue);
    } else {
        lemma_fifo_interleaved(c, events.drop_last());
        let (c1, sent, received) = run_channel(c, events.drop_last());
        match events.last() {
            ChannelEvent::Send(x) => {
                if c1.queue.len() < c1.capacity {
                    assert(received + c1.queue.push(x) =~= (received + c1.queue).push(x));
                    assert(c.queue + sent.push(x) =~= (c.queue + sent).push(x));
                }
            },
            ChannelEvent::Recv => {
                if c1.queue.len() > 0 {
                    assert(received.push(c1.queue[0]) + c1.queue.drop_first() =~= received
                        + c1.queue);
                }
            },
        }
    }
}

/// From an empty channel, the messages received are, at every moment, a
/// prefix of the messages sent, and the rest of what was sent is still queued.
pub proof fn lemma_received_prefix_of_sent<T>(capacity: int, events: Seq<ChannelEvent<T>>)
    ensures
        ({
            let (c, sent, received) = run_channel(empty_channel::<T>(capacity), events);
            &&& received.len() <= sent.len()
            &&& sent.take(received.len() as int) == received
            &&& sent.skip(received.len() as int) == c.queue
        }),
{
    let e = empty_channel::<T>(capacity);
    lemma_fifo_interleaved(e, events);
    let (c, sent, received) = run_channel(e, events);
    assert(e.queue + sent =~= sent);
    assert(sent.take(received.len() as int) =~= received);
    assert(sent.skip(received.len() as int) =~= c.queue);
}

/// A send into a full channel, and a receive from an empty one, change
/// nothing: the caller blocks and tries again later.
pub proof fn lemma_blocked_operations_are_idle<T>(c: ChannelView<T>, x: T)
    ensures
        c.queue.len() >= c.capacity ==> after_send(c, x) == (c, false),
        c.queue.len() == 0 ==> after_recv(c) == (c, None::<T>),
{
}

} // verus!
