//! Subscriptions: who listens to which key, and the fan-out of an event to
//! the listeners of its key.

use vstd::prelude::*;
use crate::event::Event;
use crate::sequence::{holds_rest, reversed, take_next};

verus! {

#[verifier::external_type_specification]
#[verifier::external_body]
#[verifier::reject_recursive_types(T)]
pub struct ExSender<T>(tokio::sync::mpsc::Sender<T>);

#[verifier::external_type_specification]
#[verifier::external_body]
#[verifier::reject_recursive_types(T)]
pub struct ExReceiver<T>(tokio::sync::mpsc::Receiver<T>);

/// The number of events that a subscriber's channel holds where nothing else
/// is asked for.
pub const SUBSCRIBER_CAPACITY: usize = 100;

/// What became of an event that was offered to a subscriber.
#[derive(Copy, Clone, Debug, PartialEq, Eq, Structural)]
pub enum Delivery {
    /// The event is in the subscriber's channel.
    Delivered,
    /// The channel was full: the subscriber misses this event.
    Full,
    /// The subscriber has gone.
    Closed,
}

/// One listener: its number and the sending half of its channel.
#[derive(Debug)]
pub struct Subscriber {
    pub id: u64,
    pub tx: tokio::sync::mpsc::Sender<Event>,
}

/// A listener and the key that it listens to.
#[derive(Debug)]
pub struct Subscription {
    pub key: String,
    pub subscriber: Subscriber,
}

/// `tokio::sync::mpsc::channel`: a new bounded channel of events. The call
/// panics on a capacity of zero or above an eighth of the address space, so
/// those are left out. Nothing is claimed of the two halves.
#[verifier::external_body]
fn open_channel(capacity: usize) -> (halves: (
    tokio::sync::mpsc::Sender<Event>,
    tokio::sync::mpsc::Receiver<Event>,
))
    requires
        0 < capacity <= usize::MAX / 8,
{
    tokio::sync::mpsc::channel::<Event>(capacity)
}

/// `tokio::sync::mpsc::Sender::try_send`: offers an event without waiting.
/// Which of the three outcomes comes back depends on the receiver, so
/// nothing is claimed of it.
#[verifier::external_body]
fn offer(tx: &tokio::sync::mpsc::Sender<Event>, event: Event) -> (delivery: Delivery) {
    match tx.try_send(event) {
        Ok(()) => Delivery::Delivered,
        Err(tokio::sync::mpsc::error::TrySendError::Full(_)) => Delivery::Full,
        Err(tokio::sync::mpsc::error::TrySendError::Closed(_)) => Delivery::Closed,
    }
}

/// Whether a subscription outlives an outcome: only a listener that has gone
/// is dropped. `None` stands for a subscription that was not addressed.
pub open spec fn survives(outcome: Option<Delivery>) -> bool {
    outcome != Some(Delivery::Closed)
}

/// The first `n` of `subscriptions` without those whose outcome says that
/// the listener has gone, in their order.
pub open spec fn retained(
    subscriptions: Seq<Subscription>,
    outcomes: Seq<Option<Delivery>>,
    n: nat,
) -> Seq<Subscription>
    decreases n,
{
    if n == 0 || n > subscriptions.len() || n > outcomes.len() {
        Seq::empty()
    } else if survives(outcomes[n - 1]) {
        retained(subscriptions, outcomes, (n - 1) as nat).push(subscriptions[n - 1])
    } else {
        retained(subscriptions, outcomes, (n - 1) as nat)
    }
}

/// Where every subscriber's number is below `bound`, so is that of every
/// subscriber that is retained.
proof fn lemma_retained_ids(
    subscriptions: Seq<Subscription>,
    outcomes: Seq<Option<Delivery>>,
    n: nat,
    bound: u64,
)
    requires
        n <= subscriptions.len(),
        n <= outcomes.len(),
        forall|j: int| 0 <= j < n ==> (#[trigger] subscriptions[j]).subscriber.id < bound,
    ensures
        retained(subscriptions, outcomes, n).len() <= n,
        forall|i: int|
            0 <= i < retained(subscriptions, outcomes, n).len() ==> (#[trigger] retained(
                subscriptions,
                outcomes,
                n,
            )[i]).subscriber.id < bound,
    decreases n,
{
    if n > 0 {
        lemma_retained_ids(subscriptions, outcomes, (n - 1) as nat, bound);
        assert(subscriptions[n - 1].subscriber.id < bound);
    }
}

/// The registry of subscriptions.
#[derive(Debug)]
pub struct Reactivity {
    next_id: u64,
    capacity: usize,
    subscriptions: Vec<Subscription>,
}

impl Reactivity {
    /// The number that the next subscriber gets.
    pub closed spec fn next(&self) -> u64 {
        self.next_id
    }

    /// The subscriptions, oldest first.
    pub closed spec fn entries(&self) -> Seq<Subscription> {
        self.subscriptions@
    }

    /// The number of events that a subscriber's channel holds.
    pub closed spec fn channel_capacity(&self) -> usize {
        self.capacity
    }

    /// Every subscriber's number was handed out already, and a channel of the
    /// registry's capacity can be made.
    pub open spec fn wf(&self) -> bool {
        &&& 0 < self.channel_capacity() <= usize::MAX / 8
        &&& forall|i: int|
            0 <= i < self.entries().len() ==> (#[trigger] self.entries()[i]).subscriber.id
                < self.next()
    }

    /// A registry without subscriptions, whose channels hold
    /// [`SUBSCRIBER_CAPACITY`] events.
    pub fn new() -> (registry: Self)
        ensures
            registry.wf(),
            registry.next() == 0,
            registry.entries().len() == 0,
            registry.channel_capacity() == SUBSCRIBER_CAPACITY,
    {
        Self { next_id: 0, capacity: SUBSCRIBER_CAPACITY, subscriptions: Vec::new() }
    }

    /// A registry without subscriptions, whose channels hold `capacity`
    /// events; none where no channel of that capacity can be made.
    pub fn with_capacity(capacity: usize) -> (registry: Option<Self>)
        ensures
            match registry {
                Some(r) => {
                    &&& 0 < capacity <= usize::MAX / 8
                    &&& r.wf()
                    &&& r.next() == 0
                    &&& r.entries().len() == 0
                    &&& r.channel_capacity() == capacity
                },
                None => !(0 < capacity <= usize::MAX / 8),
            },
    {
        if capacity == 0 || capacity > usize::MAX / 8 {
            None
        } else {
            Some(Self { next_id: 0, capacity, subscriptions: Vec::new() })
        }
    }

    /// Whether a number is left for one more subscriber.
    pub fn has_free_id(&self) -> (b: bool)
        ensures
            b == (self.next() < u64::MAX),
    {
        self.next_id < u64::MAX
    }

    /// The number of subscriptions.
    pub fn len(&self) -> (n: usize)
        ensures
            n == self.entries().len(),
    {
        self.subscriptions.len()
    }

    /// The number of subscriptions to `key`.
    pub fn count_for(&self, key: &str) -> (n: usize)
        ensures
            n == self.entries().filter(|s: Subscription| s.key@ == key@).len(),
    {
        let owned = key.to_owned();
        let ghost wanted = |s: Subscription| s.key@ == key@;
        let mut n: usize = 0;
        let mut i: usize = 0;
        assert(self.subscriptions@.take(0) =~= Seq::<Subscription>::empty());
        while i < self.subscriptions.len()
            invariant
                i <= self.subscriptions.len(),
                owned@ == key@,
                wanted == (|s: Subscription| s.key@ == key@),
                n <= i,
                n == self.subscriptions@.take(i as int).filter(wanted).len(),
            decreases self.subscriptions.len() - i,
        {
            assert(self.subscriptions@.take(i + 1).drop_last() =~= self.subscriptions@.take(
                i as int,
            ));
            proof {
                reveal(Seq::filter);
            }
            if self.subscriptions[i].key == owned {
                n += 1;
            }
            i += 1;
        }
        assert(self.subscriptions@.take(self.subscriptions.len() as int) =~= self.subscriptions@);
        n
    }

    /// Hands out the next subscriber's number.
    pub fn next_subscriber_id(&mut self) -> (id: u64)
        requires
            old(self).next() < u64::MAX,
        ensures
            id == old(self).next(),
            final(self).next() == old(self).next() + 1,
            final(self).entries() == old(self).entries(),
            final(self).channel_capacity() == old(self).channel_capacity(),
            old(self).wf() ==> final(self).wf(),
    {
        let id = self.next_id;
        self.next_id += 1;
        id
    }

    /// Registers a new subscriber to `key` and returns the receiving half of
    /// its channel.
    pub fn subscribe(&mut self, key: &str) -> (rx: tokio::sync::mpsc::Receiver<Event>)
        requires
            old(self).wf(),
            old(self).next() < u64::MAX,
        ensures
            final(self).wf(),
            final(self).next() == old(self).next() + 1,
            final(self).channel_capacity() == old(self).channel_capacity(),
            final(self).entries().len() == old(self).entries().len() + 1,
            final(self).entries().drop_last() == old(self).entries(),
            final(self).entries().last().key@ == key@,
            final(self).entries().last().subscriber.id == old(self).next(),
    {
        let (tx, rx) = open_channel(self.capacity);
        let id = self.next_subscriber_id();
        let subscriber = Subscriber { id, tx };
        self.subscriptions.push(Subscription { key: key.to_owned(), subscriber });
        assert(self.entries().drop_last() =~= old(self).entries());
        assert forall|i: int| 0 <= i < self.entries().len() implies (
        #[trigger] self.entries()[i]).subscriber.id < self.next() by {
            if i < old(self).entries().len() {
                assert(old(self).entries()[i].subscriber.id < old(self).next());
            }
        }
        rx
    }

    /// Drops the subscriptions whose outcome says that the listener has gone.
    /// `outcomes` holds one outcome for each subscription, in their order.
    pub fn reap(&mut self, outcomes: &Vec<Option<Delivery>>)
        requires
            old(self).wf(),
            outcomes.len() == old(self).entries().len(),
        ensures
            final(self).wf(),
            final(self).next() == old(self).next(),
            final(self).channel_capacity() == old(self).channel_capacity(),
            final(self).entries() == retained(
                old(self).entries(),
                outcomes@,
                outcomes.len() as nat,
            ),
    {
        let ghost all = self.subscriptions@;
        let mut before: Vec<Subscription> = Vec::new();
        std::mem::swap(&mut self.subscriptions, &mut before);
        let mut rest = reversed(before);
        let mut i: usize = 0;
        while i < outcomes.len()
            invariant
                i <= outcomes.len(),
                outcomes.len() == all.len(),
                holds_rest(rest@, all, i as int),
                self.subscriptions@ == retained(all, outcomes@, i as nat),
                self.next_id == old(self).next_id,
                self.capacity == old(self).capacity,
            decreases outcomes.len() - i,
        {
            let s = take_next(&mut rest, Ghost(all), Ghost(i as int));
            let keep = match outcomes[i] {
                Some(Delivery::Closed) => false,
                _ => true,
            };
            if keep {
                self.subscriptions.push(s);
            }
            i += 1;
        }
        proof {
            assert forall|j: int| 0 <= j < all.len() implies (#[trigger] all[j]).subscriber.id
                < self.next_id by {
                assert(old(self).entries()[j].subscriber.id < old(self).next());
            }
            lemma_retained_ids(all, outcomes@, outcomes.len() as nat, self.next_id);
        }
    }

    /// Offers `event` to every subscriber of its key, oldest first, and drops
    /// the subscribers that have gone. A subscriber whose channel is full
    /// misses the event and stays. The result holds, for each subscription
    /// as it was before the call, what became of the offer, or `None` where
    /// the subscription is to another key.
    pub fn dispatch_event(&mut self, event: &Event) -> (outcomes: Vec<Option<Delivery>>)
        requires
            old(self).wf(),
        ensures
            final(self).wf(),
            final(self).next() == old(self).next(),
            final(self).channel_capacity() == old(self).channel_capacity(),
            outcomes.len() == old(self).entries().len(),
            forall|i: int|
                0 <= i < outcomes.len() ==> ((#[trigger] outcomes[i]) is Some <==> event.key@
                    == old(self).entries()[i].key@),
            final(self).entries() == retained(
                old(self).entries(),
                outcomes@,
                outcomes.len() as nat,
            ),
    {
        let mut outcomes: Vec<Option<Delivery>> = Vec::new();
        let mut i: usize = 0;
        while i < self.subscriptions.len()
            invariant
                i <= self.subscriptions.len(),
                self.subscriptions@ == old(self).subscriptions@,
                self.next_id == old(self).next_id,
                self.capacity == old(self).capacity,
                outcomes.len() == i,
                forall|j: int|
                    0 <= j < i ==> ((#[trigger] outcomes[j]) is Some
                        <==> self.subscriptions[j].key@ == event.key@),
            decreases self.subscriptions.len() - i,
        {
            if self.subscriptions[i].key == event.key {
                let delivery = offer(&self.subscriptions[i].subscriber.tx, event.clone());
                outcomes.push(Some(delivery));
            } else {
                outcomes.push(None);
            }
            i += 1;
        }
        self.reap(&outcomes);
        outcomes
    }
}

} // verus!
