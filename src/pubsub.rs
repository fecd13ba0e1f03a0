//! The publish/subscribe key space: one broadcast channel per channel name.
use vstd::prelude::*;

use tokio::sync::broadcast::{Receiver, Sender};

use crate::cmd::subscribe::texts;
use crate::text::text_eq;

verus! {

/// The sending half of a `tokio::sync::broadcast` channel, held opaque.
#[verifier::external_type_specification]
#[verifier::external_body]
#[verifier::reject_recursive_types(T)]
pub struct ExSender<T>(Sender<T>);

/// The receiving half of a `tokio::sync::broadcast` channel, held opaque.
#[verifier::external_type_specification]
#[verifier::external_body]
#[verifier::reject_recursive_types(T)]
pub struct ExReceiver<T>(Receiver<T>);

/// Messages a channel holds for a slow receiver before the oldest are dropped.
pub const CHANNEL_CAPACITY: usize = 1024;

/// Relies on `tokio::sync::broadcast::channel`: a sender and one receiver of a
/// new channel; it panics on a capacity of zero or above half of `usize::MAX`.
#[verifier::external_body]
fn new_channel(capacity: usize) -> (Sender<Vec<u8>>, Receiver<Vec<u8>>)
    requires
        0 < capacity <= usize::MAX / 2,
{
    tokio::sync::broadcast::channel(capacity)
}

/// Relies on `broadcast::Sender::subscribe`: a new receiver of the channel.
#[verifier::external_body]
fn subscribe_to(tx: &Sender<Vec<u8>>) -> Receiver<Vec<u8>> {
    tx.subscribe()
}

/// The channels that have ever been subscribed to, each with its sender.
pub struct PubSub {
    names: Vec<String>,
    senders: Vec<Sender<Vec<u8>>>,
    /// Every message handed to a sender, with its channel, in order.
    sent: Ghost<Seq<(Seq<char>, Seq<u8>)>>,
}

/// Relies on `broadcast::Sender::send`: the message is handed to the sender of
/// channel `i`, which returns the number of receivers it was sent to, at least
/// one, or nothing when the channel has no receiver. The call is recorded in the
/// log of sends.
#[verifier::external_body]
fn send_on(pubsub: &mut PubSub, i: usize, value: Vec<u8>) -> (r: Option<usize>)
    requires
        old(pubsub).wf(),
        i < old(pubsub)@.len(),
    ensures
        final(pubsub).wf(),
        final(pubsub)@ == old(pubsub)@,
        final(pubsub).senders() == old(pubsub).senders(),
        final(pubsub).sent() == old(pubsub).sent().push((old(pubsub)@[i as int], value@)),
        r matches Some(n) ==> n >= 1,
{
    pubsub.senders[i].send(value).ok()
}

impl View for PubSub {
    type V = Seq<Seq<char>>;

    closed spec fn view(&self) -> Seq<Seq<char>> {
        texts(self.names@)
    }
}

impl PubSub {
    /// The sender of each channel, in the order of [`PubSub::view`].
    pub closed spec fn senders(&self) -> Seq<Sender<Vec<u8>>> {
        self.senders@
    }

    /// Every message handed to a channel's sender so far, with the channel's name.
    pub closed spec fn sent(&self) -> Seq<(Seq<char>, Seq<u8>)> {
        self.sent@
    }

    /// Each channel has one sender, and no name is listed twice.
    pub closed spec fn wf(&self) -> bool {
        self.names@.len() == self.senders@.len() && self@.no_duplicates()
    }

    /// No channel yet.
    pub fn new() -> (r: PubSub)
        ensures
            r.wf(),
            r@ == Seq::<Seq<char>>::empty(),
            r.sent() == Seq::<(Seq<char>, Seq<u8>)>::empty(),
    {
        let r = PubSub { names: Vec::new(), senders: Vec::new(), sent: Ghost(Seq::empty()) };
        assert(r@ =~= Seq::<Seq<char>>::empty());
        r
    }

    fn index_of(&self, name: &str) -> (r: Option<usize>)
        requires
            self.wf(),
        ensures
            r matches Some(i) ==> i < self.names@.len() && self@[i as int] == name@,
            r is None ==> !self@.contains(name@),
    {
        let mut i: usize = 0;
        while i < self.names.len()
            invariant
                i <= self.names@.len(),
                forall|j: int| 0 <= j < i ==> self@[j] != name@,
            decreases self.names.len() - i,
        {
            if text_eq(self.names[i].as_str(), name) {
                return Some(i);
            }
            i += 1;
        }
        None
    }

    /// A receiver of the messages published on `name` from now on; the
    /// channel is created on its first subscription.
    pub fn subscribe(&mut self, name: String) -> (r: Receiver<Vec<u8>>)
        requires
            old(self).wf(),
        ensures
            final(self).wf(),
            final(self)@ == if old(self)@.contains(name@) {
                old(self)@
            } else {
                old(self)@.push(name@)
            },
            old(self)@.contains(name@) ==> final(self).senders() == old(self).senders(),
            !old(self)@.contains(name@) ==> final(self).senders().drop_last() == old(self).senders()
                && final(self).senders().len() == old(self).senders().len() + 1,
            final(self).sent() == old(self).sent(),
    {
        match self.index_of(name.as_str()) {
            Some(i) => subscribe_to(&self.senders[i]),
            None => {
                let ghost before = self@;
                let (tx, rx) = new_channel(CHANNEL_CAPACITY);
                self.names.push(name);
                self.senders.push(tx);
                proof {
                    assert(self@ =~= before.push(name@));
                    assert forall|a: int, b: int| 0 <= a < self@.len() && 0 <= b < self@.len() && a != b implies self@[a] != self@[b] by {
                        if a < before.len() && b < before.len() {
                            assert(self@[a] == before[a] && self@[b] == before[b]);
                        } else if a < before.len() {
                            assert(self@[a] == before[a]);
                        } else {
                            assert(self@[b] == before[b]);
                        }
                    }
                }
                rx
            },
        }
    }

    /// Publishes `value` on `name`: hands it to the channel's sender and
    /// returns the number of receivers it was sent to; nothing is sent, and the
    /// result is zero, when nobody ever subscribed to `name`.
    pub fn publish(&mut self, name: &str, value: Vec<u8>) -> (r: usize)
        requires
            old(self).wf(),
        ensures
            final(self).wf(),
            final(self)@ == old(self)@,
            final(self).senders() == old(self).senders(),
            old(self)@.contains(name@) ==> final(self).sent() == old(self).sent().push((name@, value@)),
            !old(self)@.contains(name@) ==> r == 0 && final(self).sent() == old(self).sent(),
    {
        match self.index_of(name) {
            Some(i) => match send_on(self, i, value) {
                Some(n) => n,
                None => 0,
            },
            None => 0,
        }
    }
}

} // verus!
