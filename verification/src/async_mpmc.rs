//! High-level opinionated multi-producer multi-consumer channel.
//! Features:
//!  - Async support
//!  - `tracing` aware
//!
//! The senders and receivers of one channel share a [`Queue`]. Operations return
//! the wakers that are due, and the owner of the queue fires them.
use std::collections::VecDeque;
use vstd::prelude::*;

use crate::poll::Poll;

verus! {

/// A span of the `tracing` crate, which is carried along and never looked into.
#[verifier::external_type_specification]
#[verifier::external_body]
pub struct ExSpan(tracing::Span);

/// Calls `tracing::Span::current`, which hands out the span that the calling
/// task is in. Nothing is claimed of it: it depends on the task.
#[verifier::external_body]
fn current_span() -> (span: tracing::Span) {
    tracing::Span::current()
}

/// One queue item
pub struct Item<T> {
    /// Value itself
    pub value: T,
    /// Span of request
    pub span: tracing::Span,
}

/// What the shared part of a channel amounts to.
#[verifier::ext_equal]
pub ghost struct QueueView<T, W> {
    /// Items that were not processed yet, the oldest first.
    pub values: Seq<Item<T>>,
    /// Wakers of the receivers that wait, in order of their polls.
    pub wakers: Seq<W>,
    /// How many senders there are.
    pub senders: nat,
}

impl<T, W> QueueView<T, W> {
    /// After an item was sent: at most one of the waiting receivers is woken.
    pub open spec fn sent(self, item: Item<T>) -> Self {
        QueueView {
            values: self.values.push(item),
            wakers: if self.wakers.len() > 0 {
                self.wakers.drop_first()
            } else {
                self.wakers
            },
            ..self
        }
    }

    /// The waker of the receiver that is woken when an item is sent: the one that
    /// has waited longest.
    pub open spec fn next_woken(self) -> Option<W> {
        if self.wakers.len() > 0 {
            Some(self.wakers.first())
        } else {
            None
        }
    }

    /// After several items were sent, one after the other.
    pub open spec fn all_sent(self, items: Seq<Item<T>>) -> Self
        decreases items.len(),
    {
        if items.len() == 0 {
            self
        } else {
            self.all_sent(items.drop_last()).sent(items.last())
        }
    }

    /// What a receiver is told.
    pub open spec fn offer(self) -> Poll<Option<Item<T>>> {
        if self.values.len() > 0 {
            Poll::Ready(Some(self.values.first()))
        } else if self.senders == 0 {
            Poll::Ready(None)
        } else {
            Poll::Pending
        }
    }

    /// What a task that processes all values has to do next.
    pub open spec fn next_step(self) -> Poll<Step<T>> {
        match self.offer() {
            Poll::Ready(Some(item)) => Poll::Ready(
                Step::Process { value: item.value, span: item.span },
            ),
            Poll::Ready(None) => Poll::Ready(Step::Stop),
            Poll::Pending => Poll::Pending,
        }
    }

    /// After a receiver took what it was offered.
    pub open spec fn taken(self) -> Self {
        QueueView {
            values: if self.values.len() > 0 {
                self.values.drop_first()
            } else {
                self.values
            },
            ..self
        }
    }

    /// After `n` times a receiver took what it was offered.
    pub open spec fn taken_times(self, n: nat) -> Self
        decreases n,
    {
        if n == 0 {
            self
        } else {
            self.taken_times((n - 1) as nat).taken()
        }
    }

    /// With one more receiver waiting.
    pub open spec fn waited_for(self, waker: W) -> Self {
        QueueView { wakers: self.wakers.push(waker), ..self }
    }

    /// With one sender more.
    pub open spec fn sender_cloned(self) -> Self {
        QueueView { senders: self.senders + 1, ..self }
    }

    /// The wakers of the receivers that are woken when a sender is dropped.
    pub open spec fn woken_by_drop(self) -> Seq<W> {
        if self.senders == 1 {
            self.wakers
        } else {
            Seq::empty()
        }
    }

    /// With one sender less. The last one to go takes all waiting receivers with it.
    pub open spec fn sender_dropped(self) -> Self {
        QueueView {
            wakers: if self.senders == 1 {
                Seq::empty()
            } else {
                self.wakers
            },
            senders: (self.senders - 1) as nat,
            ..self
        }
    }
}

/// Synchronized state of channel
pub struct Queue<T, W> {
    /// Items that were not processed yet
    values: VecDeque<Item<T>>,
    /// If queue is empty it is possible that some receivers wait for values
    /// This queue stores their wakers.
    wakers: VecDeque<W>,
    /// Current sender count.
    senders: usize,
}

impl<T, W> View for Queue<T, W> {
    type V = QueueView<T, W>;

    closed spec fn view(&self) -> QueueView<T, W> {
        QueueView { values: self.values@, wakers: self.wakers@, senders: self.senders as nat }
    }
}

impl<T, W> Queue<T, W> {
    /// Checks if no senders exist
    pub fn senders_closed(&self) -> (closed: bool)
        ensures
            closed == (self@.senders == 0),
    {
        self.senders == 0
    }

    /// Whether one more sender can be counted.
    pub fn can_clone_sender(&self) -> (can: bool)
        ensures
            can == (self@.senders < usize::MAX),
    {
        self.senders < usize::MAX
    }
}

/// Used to send objects into channel
pub struct Sender {
    _private: (),
}

impl Sender {
    /// One more sender of the same channel.
    pub fn clone<T, W>(&self, queue: &mut Queue<T, W>) -> (sender: Sender)
        requires
            old(queue)@.senders < usize::MAX,
        ensures
            final(queue)@ == old(queue)@.sender_cloned(),
            final(queue)@ == (QueueView { senders: old(queue)@.senders + 1, ..old(queue)@ }),
    {
        queue.senders = queue.senders + 1;
        Sender { _private: () }
    }

    /// Gives the sender up. If it was the last one, the wakers of all waiting
    /// receivers are returned: they will see that the channel is closed.
    pub fn drop<T, W>(self, queue: &mut Queue<T, W>) -> (woken: VecDeque<W>)
        requires
            old(queue)@.senders > 0,
        ensures
            final(queue)@ == old(queue)@.sender_dropped(),
            woken@ == old(queue)@.woken_by_drop(),
            woken@ == if old(queue)@.senders == 1 {
                old(queue)@.wakers
            } else {
                Seq::empty()
            },
            final(queue)@.senders == old(queue)@.senders - 1,
            final(queue)@.values == old(queue)@.values,
            old(queue)@.senders > 1 ==> final(queue)@.wakers == old(queue)@.wakers,
    {
        queue.senders = queue.senders - 1;
        let mut woken: VecDeque<W> = VecDeque::new();
        if queue.senders_closed() {
            std::mem::swap(&mut woken, &mut queue.wakers);
        }
        woken
    }

    /// Sends new value to channel, in the current span. Returns the waker of a
    /// receiver that waits, if there is one.
    pub fn send<T, W>(&self, queue: &mut Queue<T, W>, value: T) -> (woken: Option<W>)
        ensures
            exists|span: tracing::Span|
                final(queue)@ == #[trigger] old(queue)@.sent(Item { value, span }),
            woken == old(queue)@.next_woken(),
    {
        let span = current_span();
        self.send_in_span(queue, value, span)
    }

    /// Sends new value to channel, in the given span. Returns the waker of a
    /// receiver that waits, if there is one.
    pub fn send_in_span<T, W>(
        &self,
        queue: &mut Queue<T, W>,
        value: T,
        span: tracing::Span,
    ) -> (woken: Option<W>)
        ensures
            final(queue)@ == old(queue)@.sent(Item { value, span }),
            woken == old(queue)@.next_woken(),
    {
        queue.values.push_back(Item { value, span });
        queue.wakers.pop_front()
    }
}

/// Used to receive objects from channel
#[derive(Copy, Clone)]
pub struct Receiver {
    _private: (),
}

/// What the task that processes a channel does next.
pub enum Step<T> {
    /// Channel is empty, and no senders are alive.
    Stop,
    /// Start processing `value` within `span`, then receive again.
    Process { value: T, span: tracing::Span },
}

impl Receiver {
    /// Polls the channel for a value.
    /// Since some task started polling, it must not interrupt this poll.
    /// Otherwise, internal waker storage will contain "dead" wakers and some
    /// wakeups will be lost, which can lead to deadlock.
    ///
    /// Returns `Some` item on success and `None` if channel is empty and no
    /// senders exist
    pub fn poll_recv<T, W: Clone>(&self, queue: &mut Queue<T, W>, waker: &W) -> (outcome: Poll<
        Option<Item<T>>,
    >)
        ensures
            outcome == old(queue)@.offer(),
            outcome is Ready ==> final(queue)@ == old(queue)@.taken(),
            outcome is Pending ==> exists|kept: W| #[trigger]
                cloned(*waker, kept) && final(queue)@ == old(queue)@.waited_for(kept),
    {
        let ghost before = queue@;
        if let Some(item) = queue.values.pop_front() {
            assert(queue@ =~= before.taken());
            return Poll::Ready(Some(item));
        }
        if queue.senders_closed() {
            return Poll::Ready(None);
        }
        let kept = waker.clone();
        assert(cloned(*waker, kept));
        queue.wakers.push_back(kept);
        assert(queue@ =~= before.waited_for(kept));
        Poll::Pending
    }

    /// One attempt to receive the next item.
    /// See [`Receiver::poll_recv`] for caveats
    pub fn recv<T, W: Clone>(&self, queue: &mut Queue<T, W>, waker: &W) -> (outcome: Poll<
        Option<Item<T>>,
    >)
        ensures
            outcome == old(queue)@.offer(),
            outcome is Ready ==> final(queue)@ == old(queue)@.taken(),
            outcome is Pending ==> exists|kept: W| #[trigger]
                cloned(*waker, kept) && final(queue)@ == old(queue)@.waited_for(kept),
    {
        self.poll_recv(queue, waker)
    }

    /// One round of processing all values of the channel: says what to do next,
    /// once that is known. A value is processed in the same span it was sent in.
    /// Processing stops when all senders are dropped, and channel is empty.
    ///
    /// See [`Receiver::poll_recv`] for caveats.
    pub fn process_all<T, W: Clone>(&self, queue: &mut Queue<T, W>, waker: &W) -> (step: Poll<
        Step<T>,
    >)
        ensures
            step == old(queue)@.next_step(),
            step is Ready ==> final(queue)@ == old(queue)@.taken(),
            step is Pending ==> exists|kept: W| #[trigger]
                cloned(*waker, kept) && final(queue)@ == old(queue)@.waited_for(kept),
    {
        match self.recv(queue, waker) {
            Poll::Ready(Some(item)) => Poll::Ready(
                Step::Process { value: item.value, span: item.span },
            ),
            Poll::Ready(None) => Poll::Ready(Step::Stop),
            Poll::Pending => Poll::Pending,
        }
    }
}

/// Creates new channel: its shared part, one sender and one receiver.
/// Other can be created using `clone`
pub fn channel<T, W>() -> (made: (Queue<T, W>, Sender, Receiver))
    ensures
        made.0@ == (QueueView {
            values: Seq::<Item<T>>::empty(),
            wakers: Seq::<W>::empty(),
            senders: 1,
        }),
{
    let queue = Queue { values: VecDeque::new(), wakers: VecDeque::new(), senders: 1 };
    (queue, Sender { _private: () }, Receiver { _private: () })
}

proof fn lemma_all_sent<T, W>(queue: QueueView<T, W>, items: Seq<Item<T>>)
    ensures
        queue.all_sent(items).values == queue.values + items,
        queue.all_sent(items).senders == queue.senders,
    decreases items.len(),
{
    if items.len() == 0 {
        assert(queue.values + items =~= queue.values);
    } else {
        lemma_all_sent(queue, items.drop_last());
        assert(queue.values + items =~= (queue.values + items.drop_last()).push(items.last()));
    }
}

proof fn lemma_taken_times<T, W>(queue: QueueView<T, W>, n: nat)
    ensures
        n <= queue.values.len() ==> queue.taken_times(n).values == queue.values.skip(n as int),
        n >= queue.values.len() ==> queue.taken_times(n).values == Seq::<Item<T>>::empty(),
        queue.taken_times(n).senders == queue.senders,
    decreases n,
{
    if n == 0 {
        assert(queue.values.skip(0) =~= queue.values);
    } else {
        lemma_taken_times(queue, (n - 1) as nat);
        if n <= queue.values.len() {
            assert(queue.values.skip(n - 1).drop_first() =~= queue.values.skip(n as int));
        }
    }
}

/// First in, first out: items come out in the order in which they were sent,
/// after those that were there before, and none is lost or made up.
pub proof fn law_fifo<T, W>(queue: QueueView<T, W>, items: Seq<Item<T>>, n: nat)
    requires
        n < queue.values.len() + items.len(),
    ensures
        queue.all_sent(items).taken_times(n).offer() == Poll::Ready(
            Some((queue.values + items)[n as int]),
        ),
{
    lemma_all_sent(queue, items);
    lemma_taken_times(queue.all_sent(items), n);
}

/// What can happen to a channel.
pub ghost enum Op<T, W> {
    /// One of the senders sends an item.
    Send(Item<T>),
    /// One of the receivers tries to receive, and this waker is kept if it has to wait.
    Recv(W),
    /// There is one more sender.
    CloneSender,
    /// There is one sender less.
    DropSender,
}

impl<T, W> QueueView<T, W> {
    /// After something happened to the channel.
    pub open spec fn after(self, op: Op<T, W>) -> Self {
        match op {
            Op::Send(item) => self.sent(item),
            Op::Recv(kept) => if self.offer() is Ready {
                self.taken()
            } else {
                self.waited_for(kept)
            },
            Op::CloneSender => self.sender_cloned(),
            Op::DropSender => if self.senders > 0 {
                self.sender_dropped()
            } else {
                self
            },
        }
    }

    /// After several things happened to the channel, one after the other.
    pub open spec fn after_all(self, ops: Seq<Op<T, W>>) -> Self
        decreases ops.len(),
    {
        if ops.len() == 0 {
            self
        } else {
            self.after_all(ops.drop_last()).after(ops.last())
        }
    }

    /// Everything that all receivers together receive while this happens to the
    /// channel, in the order in which it was taken.
    pub open spec fn received(self, ops: Seq<Op<T, W>>) -> Seq<Item<T>>
        decreases ops.len(),
    {
        if ops.len() == 0 {
            Seq::empty()
        } else {
            let earlier = self.received(ops.drop_last());
            match (ops.last(), self.after_all(ops.drop_last()).offer()) {
                (Op::Recv(_), Poll::Ready(Some(item))) => earlier.push(item),
                _ => earlier,
            }
        }
    }
}

/// Everything that all senders together send while this happens to a channel, in
/// order of sending.
pub open spec fn all_items<T, W>(ops: Seq<Op<T, W>>) -> Seq<Item<T>>
    decreases ops.len(),
{
    if ops.len() == 0 {
        Seq::empty()
    } else {
        match ops.last() {
            Op::Send(item) => all_items(ops.drop_last()).push(item),
            _ => all_items(ops.drop_last()),
        }
    }
}

/// Whatever senders and receivers do, and in whatever order: what was received
/// followed by what is still in the channel is what was in it followed by what was
/// sent. So of a channel that was empty at first, what was received is a prefix of
/// what was sent: each item goes to at most one receiver, none is skipped and none
/// is made up.
pub proof fn law_received_is_prefix_of_sent<T, W>(queue: QueueView<T, W>, ops: Seq<Op<T, W>>)
    ensures
        queue.received(ops) + queue.after_all(ops).values == queue.values + all_items(ops),
        queue.values.len() == 0 ==> queue.received(ops).is_prefix_of(all_items(ops)),
    decreases ops.len(),
{
    if ops.len() == 0 {
        assert(queue.received(ops) + queue.after_all(ops).values =~= queue.values + all_items(ops));
    } else {
        let earlier = ops.drop_last();
        law_received_is_prefix_of_sent(queue, earlier);
        let before = queue.after_all(earlier);
        let received = queue.received(earlier);
        match ops.last() {
            Op::Send(item) => {
                assert(received + before.values.push(item) =~= (received + before.values).push(
                    item,
                ));
                assert(queue.values + all_items(earlier).push(item) =~= (queue.values + all_items(
                    earlier,
                )).push(item));
            },
            Op::Recv(_) => {
                if before.values.len() > 0 {
                    assert(received.push(before.values.first()) + before.values.drop_first()
                        =~= received + before.values);
                }
            },
            _ => {},
        }
    }
    if queue.values.len() == 0 {
        assert(queue.values + all_items(ops) =~= all_items(ops));
    }
}

/// A task that processes all values is told to stop only after every item that
/// was sent has been taken and every sender is gone. As long as there is a sender,
/// it waits instead.
pub proof fn law_stops_when_drained_and_closed<T, W>(
    queue: QueueView<T, W>,
    items: Seq<Item<T>>,
    n: nat,
)
    ensures
        queue.all_sent(items).taken_times(n).next_step() == Poll::Ready(Step::<T>::Stop) <==> n
            >= queue.values.len() + items.len() && queue.senders == 0,
        queue.all_sent(items).taken_times(n).next_step() == Poll::<Step<T>>::Pending <==> n
            >= queue.values.len() + items.len() && queue.senders > 0,
{
    lemma_all_sent(queue, items);
    lemma_taken_times(queue.all_sent(items), n);
}

/// Every item is processed as it was sent, in the span that it was sent in.
pub proof fn law_items_are_processed_in_their_span<T, W>(
    queue: QueueView<T, W>,
    items: Seq<Item<T>>,
    i: int,
)
    requires
        0 <= i < items.len(),
    ensures
        queue.all_sent(items).taken_times((queue.values.len() + i) as nat).next_step()
            == Poll::Ready(Step::Process { value: items[i].value, span: items[i].span }),
{
    law_fifo(queue, items, (queue.values.len() + i) as nat);
}

/// Dropping a sender loses no item.
pub proof fn law_dropping_a_sender_keeps_items<T, W>(queue: QueueView<T, W>)
    requires
        queue.senders > 0,
    ensures
        queue.sender_dropped().values == queue.values,
        queue.values.len() > 0 ==> queue.sender_dropped().offer() == queue.offer(),
{
}

proof fn lemma_wakers_after_sends<T, W>(queue: QueueView<T, W>, items: Seq<Item<T>>)
    ensures
        items.len() <= queue.wakers.len() ==> queue.all_sent(items).wakers == queue.wakers.skip(
            items.len() as int,
        ),
        items.len() >= queue.wakers.len() ==> queue.all_sent(items).wakers == Seq::<W>::empty(),
    decreases items.len(),
{
    if items.len() == 0 {
        assert(queue.wakers.skip(0) =~= queue.wakers);
    } else {
        lemma_wakers_after_sends(queue, items.drop_last());
        if items.len() <= queue.wakers.len() {
            assert(queue.wakers.skip(items.len() - 1).drop_first() =~= queue.wakers.skip(
                items.len() as int,
            ));
        }
    }
}

/// Receivers are woken in the order in which they started waiting, one per item:
/// a receiver that starts waiting behind others is woken by the first item after
/// as many as there are others.
pub proof fn law_receivers_are_woken_in_order<T, W>(
    queue: QueueView<T, W>,
    waker: W,
    items: Seq<Item<T>>,
)
    ensures
        items.len() < queue.wakers.len() ==> queue.waited_for(waker).all_sent(items).next_woken()
            == Some(queue.wakers[items.len() as int]),
        items.len() == queue.wakers.len() ==> queue.waited_for(waker).all_sent(items).next_woken()
            == Some(waker),
        items.len() > queue.wakers.len() ==> queue.waited_for(waker).all_sent(items).next_woken()
            == None::<W>,
{
    lemma_wakers_after_sends(queue.waited_for(waker), items);
}

/// How many senders were made by cloning in the course of this.
pub open spec fn clones<T, W>(ops: Seq<Op<T, W>>) -> nat
    decreases ops.len(),
{
    if ops.len() == 0 {
        0
    } else {
        clones(ops.drop_last()) + if ops.last() is CloneSender {
            1nat
        } else {
            0nat
        }
    }
}

/// How many senders were dropped in the course of this.
pub open spec fn drops<T, W>(ops: Seq<Op<T, W>>) -> nat
    decreases ops.len(),
{
    if ops.len() == 0 {
        0
    } else {
        drops(ops.drop_last()) + if ops.last() is DropSender {
            1nat
        } else {
            0nat
        }
    }
}

/// Whether this can happen to a new channel: senders are cloned and dropped, and
/// send, only while they exist.
pub open spec fn is_history<T, W>(ops: Seq<Op<T, W>>) -> bool
    decreases ops.len(),
{
    ops.len() > 0 ==> {
        &&& is_history(ops.drop_last())
        &&& !(ops.last() is Recv) ==> drops(ops.drop_last()) < 1 + clones(ops.drop_last())
    }
}

/// A new channel, with one sender.
pub open spec fn new_channel<T, W>() -> QueueView<T, W> {
    QueueView { values: Seq::empty(), wakers: Seq::empty(), senders: 1 }
}

/// Senders are counted exactly: whatever happens to a new channel, there are as
/// many as were ever made and not dropped. So a receiver of a channel that holds no
/// item is told to stop exactly if every sender that was ever made was dropped,
/// and waits otherwise.
pub proof fn law_closed_iff_every_sender_was_dropped<T, W>(ops: Seq<Op<T, W>>)
    requires
        is_history(ops),
    ensures
        new_channel::<T, W>().after_all(ops).senders == 1 + clones(ops) - drops(ops),
        new_channel::<T, W>().after_all(ops).values.len() == 0 ==> {
            let queue = new_channel::<T, W>().after_all(ops);
            &&& drops(ops) == 1 + clones(ops) ==> queue.offer() == Poll::Ready(None::<Item<T>>)
            &&& drops(ops) == 1 + clones(ops) ==> queue.next_step() == Poll::Ready(Step::<T>::Stop)
            &&& drops(ops) < 1 + clones(ops) ==> queue.offer() == Poll::<Option<Item<T>>>::Pending
            &&& drops(ops) < 1 + clones(ops) ==> queue.next_step() == Poll::<Step<T>>::Pending
        },
    decreases ops.len(),
{
    if ops.len() > 0 {
        law_closed_iff_every_sender_was_dropped(ops.drop_last());
    }
}

/// As long as an item is there, it is what a receiver is offered, whoever is
/// dropped and whoever waits. So no item is passed over because the channel is closed.
pub proof fn law_items_come_first<T, W>(queue: QueueView<T, W>)
    requires
        queue.values.len() > 0,
    ensures
        queue.offer() == Poll::Ready(Some(queue.values[0])),
        queue.next_step() == Poll::Ready(
            Step::Process { value: queue.values[0].value, span: queue.values[0].span },
        ),
{
}

impl<T, W> QueueView<T, W> {
    /// The wakers of all receivers that had to wait in the course of this, in the
    /// order in which they started waiting.
    pub open spec fn waits(self, ops: Seq<Op<T, W>>) -> Seq<W>
        decreases ops.len(),
    {
        if ops.len() == 0 {
            Seq::empty()
        } else {
            let earlier = self.waits(ops.drop_last());
            match (ops.last(), self.after_all(ops.drop_last()).offer()) {
                (Op::Recv(kept), Poll::Pending) => earlier.push(kept),
                _ => earlier,
            }
        }
    }

    /// All wakers that were handed out in the course of this, in that order.
    pub open spec fn woken(self, ops: Seq<Op<T, W>>) -> Seq<W>
        decreases ops.len(),
    {
        if ops.len() == 0 {
            Seq::empty()
        } else {
            let earlier = self.woken(ops.drop_last());
            let before = self.after_all(ops.drop_last());
            match ops.last() {
                Op::Send(_) => match before.next_woken() {
                    Some(waker) => earlier.push(waker),
                    None => earlier,
                },
                Op::DropSender => if before.senders > 0 {
                    earlier + before.woken_by_drop()
                } else {
                    earlier
                },
                _ => earlier,
            }
        }
    }
}

/// No waiting receiver is forgotten and none is woken twice: what was handed out,
/// followed by what is still kept, is what was kept at first, followed by the wakers
/// of all receivers that had to wait since, in that order.
pub proof fn law_waiters_are_woken_once<T, W>(queue: QueueView<T, W>, ops: Seq<Op<T, W>>)
    ensures
        queue.woken(ops) + queue.after_all(ops).wakers == queue.wakers + queue.waits(ops),
    decreases ops.len(),
{
    if ops.len() == 0 {
        assert(queue.woken(ops) + queue.after_all(ops).wakers =~= queue.wakers + queue.waits(ops));
    } else {
        let earlier = ops.drop_last();
        law_waiters_are_woken_once(queue, earlier);
        let before = queue.after_all(earlier);
        let woken = queue.woken(earlier);
        let waits = queue.waits(earlier);
        match ops.last() {
            Op::Send(_) => {
                if before.wakers.len() > 0 {
                    assert(woken.push(before.wakers.first()) + before.wakers.drop_first() =~= woken
                        + before.wakers);
                }
            },
            Op::Recv(kept) => {
                if before.offer() is Pending {
                    assert(woken + before.wakers.push(kept) =~= (woken + before.wakers).push(kept));
                    assert(queue.wakers + waits.push(kept) =~= (queue.wakers + waits).push(kept));
                }
            },
            Op::DropSender => {
                if before.senders > 0 {
                    assert((woken + before.woken_by_drop()) + before.sender_dropped().wakers
                        =~= woken + before.wakers);
                }
            },
            Op::CloneSender => {},
        }
    }
}

/// Who is woken when. An item wakes one receiver if one waits, and no more than
/// one. The loss of a sender wakes nobody as long as there is another, and
/// everybody if there is none. Nothing else wakes anybody, and no receiver stays
/// asleep once there is no sender.
pub proof fn law_wakeups_are_due<T, W>(queue: QueueView<T, W>, item: Item<T>, waker: W)
    ensures
        queue.wakers.len() > 0 ==> queue.next_woken() == Some(queue.wakers[0])
            && queue.sent(item).wakers.len() + 1 == queue.wakers.len(),
        queue.wakers.len() == 0 ==> queue.next_woken() == None::<W> && queue.sent(item).wakers.len()
            == 0,
        queue.senders > 1 ==> queue.woken_by_drop().len() == 0
            && queue.sender_dropped().wakers == queue.wakers,
        queue.senders == 1 ==> queue.woken_by_drop() == queue.wakers
            && queue.sender_dropped().wakers.len() == 0,
        queue.taken().wakers == queue.wakers,
        queue.sender_cloned().wakers == queue.wakers,
        queue.waited_for(waker).wakers.drop_last() == queue.wakers,
        queue.waited_for(waker).wakers.last() == waker,
{
    assert(queue.waited_for(waker).wakers.drop_last() =~= queue.wakers);
}

/// Items and senders are touched only by what is about them: waiting and counting
/// leave the items alone, and neither sending nor receiving changes who can send.
pub proof fn law_operations_do_not_interfere<T, W>(
    queue: QueueView<T, W>,
    item: Item<T>,
    waker: W,
)
    ensures
        queue.waited_for(waker).values == queue.values,
        queue.sender_cloned().values == queue.values,
        queue.senders > 0 ==> queue.sender_dropped().values == queue.values,
        queue.sent(item).senders == queue.senders,
        queue.taken().senders == queue.senders,
        queue.waited_for(waker).senders == queue.senders,
        queue.sent(item).values.len() == queue.values.len() + 1,
        queue.sent(item).values.last() == item,
        queue.sent(item).values.drop_last() == queue.values,
        queue.values.len() > 0 ==> seq![queue.values[0]] + queue.taken().values == queue.values,
        queue.values.len() == 0 ==> queue.taken().values.len() == 0,
{
    assert(queue.sent(item).values.drop_last() =~= queue.values);
    if queue.values.len() > 0 {
        assert(seq![queue.values[0]] + queue.taken().values =~= queue.values);
    }
}

} // verus!
