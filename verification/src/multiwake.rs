//! This library implements simple synchronization primitive MultiWake.
//! It consists of Senders and Receivers. Receiver can wait until event happens (i.e. generation increases),
//! blocking current task. Each Sender can produce an event (i.e. increase generation), waking all waiting
//! Receivers.
//!
//! The senders and receivers of one MultiWake share an [`Inner`]. Operations
//! return the wakers that are due, and the owner of the shared part fires them.
use vstd::prelude::*;

use crate::poll::Poll;

verus! {

/// What the shared part of a MultiWake amounts to.
#[verifier::ext_equal]
pub ghost struct InnerView<W> {
    /// Wakers of the receivers that wait, in order of their polls.
    pub waiters: Seq<W>,
    /// How many events there have been.
    pub generation: nat,
    /// How many senders there are.
    pub senders: nat,
}

impl<W> InnerView<W> {
    /// After one more event.
    pub open spec fn woken(self) -> Self {
        InnerView { waiters: Seq::empty(), generation: self.generation + 1, ..self }
    }

    /// After `n` more events.
    pub open spec fn woken_times(self, n: nat) -> Self
        decreases n,
    {
        if n == 0 {
            self
        } else {
            self.woken_times((n - 1) as nat).woken()
        }
    }

    /// With one more receiver waiting.
    pub open spec fn waited_for(self, waker: W) -> Self {
        InnerView { waiters: self.waiters.push(waker), ..self }
    }

    /// With one sender more.
    pub open spec fn sender_cloned(self) -> Self {
        InnerView { senders: self.senders + 1, ..self }
    }

    /// The wakers of the receivers that are woken when a sender is dropped.
    pub open spec fn woken_by_drop(self) -> Seq<W> {
        if self.senders == 1 {
            self.waiters
        } else {
            Seq::empty()
        }
    }

    /// With one sender less. The last one to go takes all waiters with it.
    pub open spec fn sender_dropped(self) -> Self {
        InnerView {
            waiters: if self.senders == 1 {
                Seq::empty()
            } else {
                self.waiters
            },
            senders: (self.senders - 1) as nat,
            ..self
        }
    }
}

/// State shared by the senders and receivers of one MultiWake.
pub struct Inner<W> {
    waiters: Vec<W>,
    generation: usize,
    senders_count: usize,
}

impl<W> View for Inner<W> {
    type V = InnerView<W>;

    closed spec fn view(&self) -> InnerView<W> {
        InnerView {
            waiters: self.waiters@,
            generation: self.generation as nat,
            senders: self.senders_count as nat,
        }
    }
}

impl<W> Inner<W> {
    /// Whether one more event can be counted.
    pub fn can_wake(&self) -> (can: bool)
        ensures
            can == (self@.generation < usize::MAX),
    {
        self.generation < usize::MAX
    }

    /// Whether one more sender can be counted.
    pub fn can_clone_sender(&self) -> (can: bool)
        ensures
            can == (self@.senders < usize::MAX),
    {
        self.senders_count < usize::MAX
    }

    /// How many senders there are.
    pub fn senders(&self) -> (count: usize)
        ensures
            count == self@.senders,
    {
        self.senders_count
    }

    fn take_waiters(&mut self) -> (waiters: Vec<W>)
        ensures
            waiters@ == old(self)@.waiters,
            final(self)@ == (InnerView { waiters: Seq::<W>::empty(), ..old(self)@ }),
    {
        let mut waiters: Vec<W> = Vec::new();
        std::mem::swap(&mut waiters, &mut self.waiters);
        waiters
    }
}

/// Produces events.
pub struct Sender {
    _private: (),
}

impl Sender {
    /// One more sender of the same MultiWake.
    pub fn clone<W>(&self, inner: &mut Inner<W>) -> (sender: Sender)
        requires
            old(inner)@.senders < usize::MAX,
        ensures
            final(inner)@ == old(inner)@.sender_cloned(),
            final(inner)@ == (InnerView { senders: old(inner)@.senders + 1, ..old(inner)@ }),
    {
        inner.senders_count = inner.senders_count + 1;
        Sender { _private: () }
    }

    /// Gives the sender up. Returns the wakers of all waiting Receivers if it
    /// was the last one: they will find the MultiWake closed.
    pub fn drop<W>(self, inner: &mut Inner<W>) -> (woken: Vec<W>)
        requires
            old(inner)@.senders > 0,
        ensures
            final(inner)@ == old(inner)@.sender_dropped(),
            woken@ == old(inner)@.woken_by_drop(),
            woken@ == if old(inner)@.senders == 1 {
                old(inner)@.waiters
            } else {
                Seq::empty()
            },
            final(inner)@.senders == old(inner)@.senders - 1,
            final(inner)@.generation == old(inner)@.generation,
            old(inner)@.senders > 1 ==> final(inner)@.waiters == old(inner)@.waiters,
    {
        inner.senders_count = inner.senders_count - 1;
        if inner.senders_count == 0 {
            inner.take_waiters()
        } else {
            Vec::new()
        }
    }

    /// Increases current generation, notifying all waiting Receivers: their
    /// wakers are returned.
    pub fn wake<W>(&self, inner: &mut Inner<W>) -> (woken: Vec<W>)
        requires
            old(inner)@.generation < usize::MAX,
        ensures
            final(inner)@ == old(inner)@.woken(),
            woken@ == old(inner)@.waiters,
    {
        inner.generation = inner.generation + 1;
        inner.take_waiters()
    }
}

/// Waits for events.
#[derive(Copy, Clone)]
pub struct Receiver {
    last_observed_generation: usize,
}

impl View for Receiver {
    type V = nat;

    /// How many events the receiver knows of.
    closed spec fn view(&self) -> nat {
        self.last_observed_generation as nat
    }
}

/// Outcome of waiting.
#[derive(Copy, Clone, Eq, PartialEq, Debug, Structural)]
pub enum WaitResult {
    /// Generation was incremented by a Sender
    NewGeneration,
    /// All Senders are dropped, so no generations can be observed in future.
    Closed,
}

/// What a poll says to a receiver that knows of `observed` events.
pub open spec fn wait_outcome<W>(inner: InnerView<W>, observed: nat) -> Poll<WaitResult> {
    if observed < inner.generation {
        Poll::Ready(WaitResult::NewGeneration)
    } else if inner.senders == 0 {
        Poll::Ready(WaitResult::Closed)
    } else {
        Poll::Pending
    }
}

impl Receiver {
    /// Tries to wait for a new generation. If there is none yet, a clone of
    /// `waker` is kept until the next event.
    pub fn poll_wait<W: Clone>(&mut self, inner: &mut Inner<W>, waker: &W) -> (outcome: Poll<
        WaitResult,
    >)
        ensures
            outcome == wait_outcome(old(inner)@, old(self)@),
            outcome == Poll::Ready(WaitResult::NewGeneration) ==> final(self)@ == old(inner)@.generation,
            outcome != Poll::Ready(WaitResult::NewGeneration) ==> final(self)@ == old(self)@,
            outcome is Ready ==> final(inner)@ == old(inner)@,
            outcome is Pending ==> exists|kept: W| #[trigger]
                cloned(*waker, kept) && final(inner)@ == old(inner)@.waited_for(kept),
    {
        if self.last_observed_generation < inner.generation {
            self.last_observed_generation = inner.generation;
            return Poll::Ready(WaitResult::NewGeneration);
        }
        if inner.senders_count == 0 {
            return Poll::Ready(WaitResult::Closed);
        }
        let ghost before = inner@;
        let kept = waker.clone();
        assert(cloned(*waker, kept));
        inner.waiters.push(kept);
        assert(inner@ =~= before.waited_for(kept));
        Poll::Pending
    }

    /// Waits for a new generation
    pub fn wait(&mut self) -> (wait: Wait<'_>)
        ensures
            *wait.0 == *old(self),
            *final(self) == *final(wait.0),
    {
        Wait(self)
    }
}

/// Future resolving when new generation is observed or all senders are dropped.
pub struct Wait<'a>(pub &'a mut Receiver);

impl<'a> Wait<'a> {
    /// See [`Receiver::poll_wait`].
    pub fn poll<W: Clone>(&mut self, inner: &mut Inner<W>, waker: &W) -> (outcome: Poll<WaitResult>)
        ensures
            *final(final(self).0) == *final(old(self).0),
            outcome == wait_outcome(old(inner)@, old(self).0@),
            outcome == Poll::Ready(WaitResult::NewGeneration) ==> final(self).0@ == old(inner)@.generation,
            outcome != Poll::Ready(WaitResult::NewGeneration) ==> final(self).0@ == old(self).0@,
            outcome is Ready ==> final(inner)@ == old(inner)@,
            outcome is Pending ==> exists|kept: W| #[trigger]
                cloned(*waker, kept) && final(inner)@ == old(inner)@.waited_for(kept),
    {
        self.0.poll_wait(inner, waker)
    }
}

/// Produces the shared part of a MultiWake with one Sender and one Receiver, tied together.
/// Use `clone` if needed.
pub fn multiwake<W>() -> (made: (Inner<W>, Sender, Receiver))
    ensures
        made.0@ == (InnerView { waiters: Seq::<W>::empty(), generation: 0, senders: 1 }),
        made.2@ == 0,
{
    let inner = Inner { waiters: Vec::new(), generation: 0, senders_count: 1 };
    assert(inner@ =~= (InnerView { waiters: Seq::<W>::empty(), generation: 0, senders: 1 }));
    (inner, Sender { _private: () }, Receiver { last_observed_generation: 0 })
}

proof fn lemma_woken_times<W>(inner: InnerView<W>, n: nat)
    ensures
        inner.woken_times(n).generation == inner.generation + n,
        inner.woken_times(n).senders == inner.senders,
    decreases n,
{
    if n > 0 {
        lemma_woken_times(inner, (n - 1) as nat);
    }
}

/// Any number of events that happen between two polls are observed at once:
/// the first poll reports them, and the next one finds nothing new.
pub proof fn law_events_are_observed_at_once<W>(inner: InnerView<W>, observed: nat, n: nat)
    requires
        observed <= inner.generation,
        n > 0,
    ensures
        wait_outcome(inner.woken_times(n), observed) == Poll::Ready(WaitResult::NewGeneration),
        wait_outcome(inner.woken_times(n), inner.woken_times(n).generation) != Poll::Ready(
            WaitResult::NewGeneration,
        ),
        inner.senders > 0 ==> wait_outcome(inner.woken_times(n), inner.woken_times(n).generation)
            == Poll::<WaitResult>::Pending,
{
    lemma_woken_times(inner, n);
}

/// A waker that was kept for a waiting receiver stays among those that the next
/// event, or the loss of the last sender, hands out.
pub proof fn law_waiters_are_kept<W>(inner: InnerView<W>, kept: W, other: W)
    ensures
        inner.waited_for(kept).waiters.contains(kept),
        inner.waiters.contains(kept) ==> inner.waited_for(other).waiters.contains(kept),
        inner.waiters.contains(kept) && inner.senders > 1
            ==> inner.sender_dropped().waiters.contains(kept),
{
    assert(inner.waited_for(kept).waiters.last() == kept);
    if inner.waiters.contains(kept) {
        let k = inner.waiters.index_of(kept);
        assert(inner.waited_for(other).waiters[k] == kept);
    }
}

/// A receiver that knows of all events waits until there is one more or the last
/// sender is gone, and not longer.
pub proof fn law_waiting_ends<W>(inner: InnerView<W>, observed: nat)
    requires
        observed == inner.generation,
        inner.senders > 0,
    ensures
        wait_outcome(inner, observed) == Poll::<WaitResult>::Pending,
        wait_outcome(inner.woken(), observed) == Poll::Ready(WaitResult::NewGeneration),
        wait_outcome(inner.sender_dropped(), observed) == if inner.senders == 1 {
            Poll::Ready(WaitResult::Closed)
        } else {
            Poll::Pending
        },
{
}

/// What can happen to a MultiWake.
pub ghost enum Op<W> {
    /// One of the senders produces an event.
    Wake,
    /// There is one more sender.
    CloneSender,
    /// There is one sender less.
    DropSender,
    /// One of the receivers, which knows of this many events, polls. This waker is
    /// kept if it has to wait.
    Poll(nat, W),
}

impl<W> InnerView<W> {
    /// After something happened to the MultiWake.
    pub open spec fn after(self, op: Op<W>) -> Self {
        match op {
            Op::Wake => self.woken(),
            Op::CloneSender => self.sender_cloned(),
            Op::DropSender => if self.senders > 0 {
                self.sender_dropped()
            } else {
                self
            },
            Op::Poll(observed, kept) => if wait_outcome(self, observed) is Pending {
                self.waited_for(kept)
            } else {
                self
            },
        }
    }

    /// After several things happened to the MultiWake, one after the other.
    pub open spec fn after_all(self, ops: Seq<Op<W>>) -> Self
        decreases ops.len(),
    {
        if ops.len() == 0 {
            self
        } else {
            self.after_all(ops.drop_last()).after(ops.last())
        }
    }

    /// The wakers of all receivers that had to wait in the course of this, in the
    /// order in which they started waiting.
    pub open spec fn waits(self, ops: Seq<Op<W>>) -> Seq<W>
        decreases ops.len(),
    {
        if ops.len() == 0 {
            Seq::empty()
        } else {
            let earlier = self.waits(ops.drop_last());
            match ops.last() {
                Op::Poll(observed, kept) => if wait_outcome(
                    self.after_all(ops.drop_last()),
                    observed,
                ) is Pending {
                    earlier.push(kept)
                } else {
                    earlier
                },
                _ => earlier,
            }
        }
    }

    /// All wakers that were handed out in the course of this, in that order.
    pub open spec fn handed_out(self, ops: Seq<Op<W>>) -> Seq<W>
        decreases ops.len(),
    {
        if ops.len() == 0 {
            Seq::empty()
        } else {
            let earlier = self.handed_out(ops.drop_last());
            let before = self.after_all(ops.drop_last());
            match ops.last() {
                Op::Wake => earlier + before.waiters,
                Op::DropSender => if before.senders > 0 {
                    earlier + before.woken_by_drop()
                } else {
                    earlier
                },
                _ => earlier,
            }
        }
    }
}

/// How many events there were in the course of this.
pub open spec fn wakes<W>(ops: Seq<Op<W>>) -> nat
    decreases ops.len(),
{
    if ops.len() == 0 {
        0
    } else {
        wakes(ops.drop_last()) + if ops.last() is Wake {
            1nat
        } else {
            0nat
        }
    }
}

/// How many senders were made by cloning in the course of this.
pub open spec fn clones<W>(ops: Seq<Op<W>>) -> nat
    decreases ops.len(),
{
    if ops.len() == 0 {
        0
    } else {
        clones(ops.drop_last()) + if ops.last() is CloneSender {
            1nat
        } else {
            0nat
        }
    }
}

/// How many senders were dropped in the course of this.
pub open spec fn drops<W>(ops: Seq<Op<W>>) -> nat
    decreases ops.len(),
{
    if ops.len() == 0 {
        0
    } else {
        drops(ops.drop_last()) + if ops.last() is DropSender {
            1nat
        } else {
            0nat
        }
    }
}

/// Whether this can happen to a new MultiWake: senders are cloned and dropped, and
/// produce events, only while they exist.
pub open spec fn is_history<W>(ops: Seq<Op<W>>) -> bool
    decreases ops.len(),
{
    ops.len() > 0 ==> {
        &&& is_history(ops.drop_last())
        &&& !(ops.last() is Poll) ==> drops(ops.drop_last()) < 1 + clones(ops.drop_last())
    }
}

/// A new MultiWake, with one sender and without events.
pub open spec fn new_multiwake<W>() -> InnerView<W> {
    InnerView { waiters: Seq::empty(), generation: 0, senders: 1 }
}

/// Events and senders are counted exactly. So a receiver is told of a new
/// generation exactly if there were more events than it knows of. Otherwise it is
/// told that the MultiWake is closed exactly if every sender that was ever made was
/// dropped, and waits as long as there is one.
pub proof fn law_closed_iff_every_sender_was_dropped<W>(ops: Seq<Op<W>>, observed: nat)
    requires
        is_history(ops),
    ensures
        new_multiwake::<W>().after_all(ops).senders == 1 + clones(ops) - drops(ops),
        new_multiwake::<W>().after_all(ops).generation == wakes(ops),
        ({
            let outcome = wait_outcome(new_multiwake::<W>().after_all(ops), observed);
            &&& observed < wakes(ops) ==> outcome == Poll::Ready(WaitResult::NewGeneration)
            &&& observed >= wakes(ops) && drops(ops) == 1 + clones(ops) ==> outcome == Poll::Ready(
                WaitResult::Closed,
            )
            &&& observed >= wakes(ops) && drops(ops) < 1 + clones(ops) ==> outcome == Poll::<
                WaitResult,
            >::Pending
        }),
    decreases ops.len(),
{
    if ops.len() > 0 {
        law_closed_iff_every_sender_was_dropped(ops.drop_last(), observed);
    }
}

/// No waiting receiver is forgotten and none is woken twice: what was handed out,
/// followed by what is still kept, is what was kept at first, followed by the wakers
/// of all receivers that had to wait since, in that order.
pub proof fn law_waiters_are_woken_once<W>(inner: InnerView<W>, ops: Seq<Op<W>>)
    ensures
        inner.handed_out(ops) + inner.after_all(ops).waiters == inner.waiters + inner.waits(ops),
    decreases ops.len(),
{
    if ops.len() == 0 {
        assert(inner.handed_out(ops) + inner.after_all(ops).waiters =~= inner.waiters + inner.waits(
            ops,
        ));
    } else {
        let earlier = ops.drop_last();
        law_waiters_are_woken_once(inner, earlier);
        let before = inner.after_all(earlier);
        let handed_out = inner.handed_out(earlier);
        let waits = inner.waits(earlier);
        match ops.last() {
            Op::Wake => {
                assert((handed_out + before.waiters) + before.woken().waiters =~= handed_out
                    + before.waiters);
            },
            Op::CloneSender => {},
            Op::DropSender => {
                if before.senders > 0 {
                    assert((handed_out + before.woken_by_drop()) + before.sender_dropped().waiters
                        =~= handed_out + before.waiters);
                }
            },
            Op::Poll(observed, kept) => {
                if wait_outcome(before, observed) is Pending {
                    assert(handed_out + before.waiters.push(kept) =~= (handed_out
                        + before.waiters).push(kept));
                    assert(inner.waiters + waits.push(kept) =~= (inner.waiters + waits).push(kept));
                }
            },
        }
    }
}

/// Who is woken when. An event wakes everybody who waits. The loss of a sender wakes
/// nobody as long as there is another, and everybody if there is none. Whoever
/// starts waiting is added to those who wait already.
pub proof fn law_wakeups_are_due<W>(inner: InnerView<W>, waker: W)
    ensures
        inner.woken().waiters.len() == 0,
        inner.senders > 1 ==> inner.woken_by_drop().len() == 0
            && inner.sender_dropped().waiters == inner.waiters,
        inner.senders == 1 ==> inner.woken_by_drop() == inner.waiters
            && inner.sender_dropped().waiters.len() == 0,
        inner.sender_cloned().waiters == inner.waiters,
        inner.waited_for(waker).waiters.drop_last() == inner.waiters,
        inner.waited_for(waker).waiters.last() == waker,
{
    assert(inner.waited_for(waker).waiters.drop_last() =~= inner.waiters);
}

} // verus!
