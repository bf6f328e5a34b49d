//! Communication channels.
//!
//! The queues and the reply channels are those of `futures`. What is decided
//! here is which queue a message goes to or comes from; the waiting is left
//! to the caller.

use crate::messages::{NodeRequest, NodeResponse};
use crate::table::Table;
use vstd::prelude::*;

verus! {

/// The sending half of a one-shot channel of `futures`.
#[verifier::external_type_specification]
#[verifier::external_body]
#[verifier::reject_recursive_types(T)]
pub struct ExOneshotSender<T>(futures::channel::oneshot::Sender<T>);

/// The receiving half of a one-shot channel of `futures`.
#[verifier::external_type_specification]
#[verifier::external_body]
#[verifier::reject_recursive_types(T)]
pub struct ExOneshotReceiver<T>(futures::channel::oneshot::Receiver<T>);

/// What the receiving half of a one-shot channel gives when the sending half
/// was dropped.
#[verifier::external_type_specification]
#[verifier::external_body]
pub struct ExCanceled(futures::channel::oneshot::Canceled);

/// The sending half of a bounded queue of `futures`.
#[verifier::external_type_specification]
#[verifier::external_body]
#[verifier::reject_recursive_types(T)]
pub struct ExQueueSender<T>(futures::channel::mpsc::Sender<T>);

/// The receiving half of a bounded queue of `futures`.
#[verifier::external_type_specification]
#[verifier::external_body]
#[verifier::reject_recursive_types(T)]
pub struct ExQueueReceiver<T>(futures::channel::mpsc::Receiver<T>);

/// The context of a task that polls.
#[verifier::external_type_specification]
#[verifier::external_body]
pub struct ExContext<'a>(std::task::Context<'a>);

/// `futures::channel::oneshot::channel` makes the two halves of a new one-shot
/// channel; nothing is claimed of them.
pub assume_specification<T>[ futures::channel::oneshot::channel::<T> ]() -> (pair: (
    futures::channel::oneshot::Sender<T>,
    futures::channel::oneshot::Receiver<T>,
));

/// `futures::channel::mpsc::channel` makes the two halves of a new bounded
/// queue; it takes no buffer of a quarter of the address space or more, and
/// nothing is claimed of the halves.
pub assume_specification<T>[ futures::channel::mpsc::channel::<T> ](buffer: usize) -> (pair: (
    futures::channel::mpsc::Sender<T>,
    futures::channel::mpsc::Receiver<T>,
))
    requires
        buffer < usize::MAX / 4,
;

/// A message with a value of `T`, which is expected to be returned back with a
/// value of `U`.
#[verifier::reject_recursive_types(U)]
pub struct Callback<T, U> {
    /// Message sent in the forward direction.
    pub message: T,
    /// Channel for the return message.
    pub callback: futures::channel::oneshot::Sender<U>,
}

/// Node request with a response callback.
pub type NodeCallback = Callback<NodeRequest, NodeResponse>;

impl<T, U> Callback<T, U> {
    /// Creates a pair of a new [`Callback`] message and the receiving half of
    /// its return channel from `message`.
    pub fn new(message: T) -> (pair: (Self, futures::channel::oneshot::Receiver<U>))
        ensures
            pair.0.message == message,
    {
        let (tx, rx) = futures::channel::oneshot::channel();
        (Callback { message, callback: tx }, rx)
    }
}

/// Error of a message that was sent and whose return was awaited.
#[derive(Debug)]
pub enum SendError {
    /// Forward channel closed.
    ForwardClosed,
    /// Return channel closed.
    ReturnClosed(futures::channel::oneshot::Canceled),
}

impl SendError {
    /// What the caller gets once the forward queue has answered: nothing to
    /// report where it took the message, [`SendError::ForwardClosed`] where
    /// it did not.
    pub fn forwarded(taken: bool) -> (r: Result<(), SendError>)
        ensures
            taken ==> r is Ok,
            !taken ==> r == Err::<(), SendError>(SendError::ForwardClosed),
    {
        if taken {
            Ok(())
        } else {
            Err(SendError::ForwardClosed)
        }
    }

    /// What the caller gets once the return channel has answered: the return
    /// message, or [`SendError::ReturnClosed`] where the other side dropped
    /// the channel without an answer.
    pub fn returned<U>(reply: Result<U, futures::channel::oneshot::Canceled>) -> (r: Result<
        U,
        SendError,
    >)
        ensures
            reply matches Ok(u) ==> r == Ok::<U, SendError>(u),
            reply matches Err(e) ==> r == Err::<U, SendError>(SendError::ReturnClosed(e)),
    {
        match reply {
            Ok(u) => Ok(u),
            Err(e) => Err(SendError::ReturnClosed(e)),
        }
    }
}

/// What a poll of a queue gave.
pub enum Polled<T> {
    /// An item, or `None` for the end of the queue.
    Ready(Option<T>),
    /// Nothing yet; the task is woken when there is more.
    Pending,
}

/// Polls `queue` for its next item, by `Stream::poll_next` of `futures`.
/// What comes back depends on what the other tasks have sent.
#[verifier::external_body]
fn poll_queue(
    queue: &mut futures::channel::mpsc::Receiver<NodeCallback>,
    cx: &mut std::task::Context<'_>,
) -> (polled: Polled<NodeCallback>) {
    match futures::Stream::poll_next(std::pin::Pin::new(queue), cx) {
        std::task::Poll::Ready(item) => Polled::Ready(item),
        std::task::Poll::Pending => Polled::Pending,
    }
}

/// Set of incoming communication channels for a [`Carrier`](crate::Carrier).
pub struct Incoming {
    channels: Table<String, futures::channel::mpsc::Receiver<NodeCallback>>,
    ended: Vec<bool>,
    next: usize,
}

/// Set of outgoing communication channels for a [`Carrier`](crate::Carrier).
pub struct Outgoing {
    channels: Table<String, futures::channel::mpsc::Sender<NodeCallback>>,
}

/// The place that a round over `count` queues tries after `tried` places,
/// where the round begins at `turn`: the places follow each other, the first
/// comes behind the last, and a `turn` behind the last stands for the first.
pub open spec fn round_place(turn: int, tried: int, count: int) -> int {
    let start = if turn < count {
        turn
    } else {
        0
    };
    if start + tried < count {
        start + tried
    } else {
        start + tried - count
    }
}

impl Incoming {
    /// The nodes that the set has a queue of.
    pub closed spec fn nodes(&self) -> Set<Seq<char>> {
        self.channels@.dom()
    }

    /// The nodes in the order in which their queues are tried.
    pub closed spec fn order(&self) -> Seq<Seq<char>> {
        self.channels.order()
    }

    /// For each node in order, whether its queue has told that it has ended.
    pub closed spec fn ended(&self) -> Seq<bool> {
        self.ended@
    }

    /// The place in the order at which the next round over the queues begins;
    /// the place behind the last stands for the first.
    pub closed spec fn turn(&self) -> int {
        self.next as int
    }

    /// The set is in order: it knows of every queue whether it has ended.
    pub closed spec fn wf(&self) -> bool {
        &&& self.channels.wf()
        &&& self.ended@.len() == self.channels.order().len()
    }

    /// In a set in order, the nodes are those in `order`, each once, and
    /// `ended` speaks of each of them.
    pub proof fn lemma_wf(&self)
        requires
            self.wf(),
        ensures
            self.ended().len() == self.order().len(),
            self.order().no_duplicates(),
            forall|node: Seq<char>| self.nodes().contains(node) <==> self.order().contains(node),
    {
        self.channels.lemma_order();
    }

    pub(crate) fn new(
        channels: Table<String, futures::channel::mpsc::Receiver<NodeCallback>>,
    ) -> (incoming: Self)
        requires
            channels.wf(),
        ensures
            incoming.wf(),
            incoming.nodes() == channels@.dom(),
            incoming.order() == channels.order(),
            incoming.turn() == 0,
            incoming.ended().len() == channels.order().len(),
            forall|i: int| 0 <= i < incoming.ended().len() ==> !incoming.ended()[i],
    {
        let count = channels.count();
        let mut ended: Vec<bool> = Vec::new();
        while ended.len() < count
            invariant
                count == channels.order().len(),
                ended@.len() <= count,
                forall|i: int| 0 <= i < ended@.len() ==> !ended@[i],
            decreases count - ended@.len(),
        {
            ended.push(false);
        }
        Incoming { channels, ended, next: 0 }
    }

    /// The queue to poll after `tried` queues of the round that begins at
    /// `turn`: the place of the queue that the round comes to, or `None`
    /// where that queue has ended and is not polled again.
    pub fn to_poll(&self, tried: usize) -> (r: Option<usize>)
        requires
            self.wf(),
            tried < self.order().len(),
        ensures
            ({
                let place = round_place(self.turn(), tried as int, self.order().len() as int);
                &&& 0 <= place < self.order().len()
                &&& self.ended()[place] ==> r is None
                &&& !self.ended()[place] ==> r == Some(place as usize)
            }),
    {
        let count = self.channels.count();
        let start = if self.next < count {
            self.next
        } else {
            0
        };
        let place = if tried < count - start {
            start + tried
        } else {
            tried - (count - start)
        };
        if self.ended[place] {
            None
        } else {
            Some(place)
        }
    }

    /// Takes the answer that the queue in `place` gave to a poll. A message
    /// is handed out with the name of its node, and the next round begins
    /// behind that queue. A queue that tells its end is marked as ended.
    /// A queue that has nothing yet changes nothing.
    pub fn answered(&mut self, place: usize, polled: Polled<NodeCallback>) -> (r: Option<
        (String, NodeCallback),
    >)
        requires
            old(self).wf(),
            place < old(self).order().len(),
            !old(self).ended()[place as int],
        ensures
            final(self).wf(),
            final(self).nodes() == old(self).nodes(),
            final(self).order() == old(self).order(),
            match polled {
                Polled::Ready(Some(callback)) => {
                    &&& r matches Some(item) && item.0@ == old(self).order()[place as int]
                        && item.1 == callback
                    &&& final(self).turn() == place + 1
                    &&& final(self).ended() == old(self).ended()
                },
                Polled::Ready(None) => {
                    &&& r is None
                    &&& final(self).turn() == old(self).turn()
                    &&& final(self).ended() == old(self).ended().update(place as int, true)
                },
                Polled::Pending => {
                    &&& r is None
                    &&& final(self).turn() == old(self).turn()
                    &&& final(self).ended() == old(self).ended()
                },
            },
    {
        let count = self.channels.count();
        match polled {
            Polled::Ready(Some(callback)) => {
                self.next = place + 1;
                let node = self.channels.key(place).clone();
                Some((node, callback))
            },
            Polled::Ready(None) => {
                self.ended.set(place, true);
                None
            },
            Polled::Pending => None,
        }
    }

    /// What a round that gave no message comes to: the end where every queue
    /// has ended, and else nothing yet.
    pub fn quiet(&self) -> (polled: Polled<(String, NodeCallback)>)
        requires
            self.wf(),
        ensures
            (forall|i: int| 0 <= i < self.ended().len() ==> self.ended()[i]) ==> (
            polled matches Polled::Ready(None)),
            (exists|i: int| 0 <= i < self.ended().len() && !self.ended()[i]) ==> polled is Pending,
    {
        let mut i: usize = 0;
        while i < self.ended.len()
            invariant
                i <= self.ended@.len(),
                forall|j: int| 0 <= j < i ==> self.ended@[j],
            decreases self.ended@.len() - i,
        {
            if !self.ended[i] {
                assert(!self.ended()[i as int]);
                return Polled::Pending;
            }
            i += 1;
        }
        Polled::Ready(None)
    }

    /// Polls for the next request message from one of the nodes. The answer
    /// is in the form `(node, callback)`; the response should be sent back
    /// via the callback channel.
    ///
    /// One round is made over the queues, from `turn` on, as [`to_poll`]
    /// gives them. Each answer is taken as [`answered`] says: the first
    /// message ends the round, and the next round begins behind its queue,
    /// so that no node is passed over for ever. A round without a message
    /// comes to what [`quiet`] says.
    ///
    /// [`to_poll`]: Incoming::to_poll
    /// [`answered`]: Incoming::answered
    /// [`quiet`]: Incoming::quiet
    pub fn recv(&mut self, cx: &mut std::task::Context<'_>) -> (polled: Polled<
        (String, NodeCallback),
    >)
        requires
            old(self).wf(),
        ensures
            final(self).wf(),
            final(self).nodes() == old(self).nodes(),
            final(self).order() == old(self).order(),
            final(self).ended().len() == old(self).order().len(),
            old(self).ended().len() == old(self).order().len(),
            forall|i: int|
                0 <= i < old(self).ended().len() && old(self).ended()[i] ==> final(self).ended()[i],
            match polled {
                Polled::Ready(Some(item)) => {
                    &&& 0 < final(self).turn() <= old(self).order().len()
                    &&& item.0@ == old(self).order()[final(self).turn() - 1]
                    &&& !final(self).ended()[final(self).turn() - 1]
                    &&& old(self).nodes().contains(item.0@)
                },
                Polled::Ready(None) => {
                    &&& final(self).turn() == old(self).turn()
                    &&& forall|i: int|
                        0 <= i < final(self).ended().len() ==> final(self).ended()[i]
                },
                Polled::Pending => {
                    &&& final(self).turn() == old(self).turn()
                    &&& exists|i: int|
                        0 <= i < final(self).ended().len() && !final(self).ended()[i]
                },
            },
    {
        let count = self.channels.count();
        let mut tried: usize = 0;
        while tried < count
            invariant
                self.wf(),
                self.nodes() == old(self).nodes(),
                self.order() == old(self).order(),
                self.turn() == old(self).turn(),
                count == self.order().len(),
                self.ended().len() == count,
                old(self).ended().len() == count,
                forall|i: int| 0 <= i < count && old(self).ended()[i] ==> self.ended()[i],
            decreases count - tried,
        {
            match self.to_poll(tried) {
                Some(place) => {
                    let ghost before = self.channels@;
                    proof {
                        self.channels.lemma_order();
                        assert(self.channels.order().contains(
                            self.channels.order()[place as int],
                        ));
                    }
                    let polled = poll_queue(self.channels.value_mut(place), cx);
                    proof {
                        assert(self.channels@.dom() =~= before.dom());
                    }
                    match self.answered(place, polled) {
                        Some(item) => {
                            return Polled::Ready(Some(item));
                        },
                        None => {},
                    }
                },
                None => {},
            }
            tried += 1;
        }
        self.quiet()
    }
}

impl Outgoing {
    /// The sending half of the outgoing queue of each node.
    pub closed spec fn queues(&self) -> Map<
        Seq<char>,
        futures::channel::mpsc::Sender<NodeCallback>,
    > {
        self.channels@
    }

    /// The nodes that the set has a queue to.
    pub closed spec fn nodes(&self) -> Set<Seq<char>> {
        self.channels@.dom()
    }

    /// The set is in order.
    pub closed spec fn wf(&self) -> bool {
        self.channels.wf()
    }

    pub(crate) fn new(
        channels: Table<String, futures::channel::mpsc::Sender<NodeCallback>>,
    ) -> (outgoing: Self)
        requires
            channels.wf(),
        ensures
            outgoing.wf(),
            outgoing.queues() == channels@,
            outgoing.nodes() == channels@.dom(),
    {
        Outgoing { channels }
    }

    /// Whether `node` was configured.
    pub fn knows(&self, node: &String) -> (b: bool)
        requires
            self.wf(),
        ensures
            b == self.nodes().contains(node@),
    {
        self.channels.contains_key(node)
    }

    /// Makes the envelope of a request `message` to `node`, and hands out the
    /// queue to put it in and the channel on which the response comes. The
    /// caller sends the envelope and then awaits the response.
    pub fn send(&mut self, node: &String, message: NodeRequest) -> (r: (
        &mut futures::channel::mpsc::Sender<NodeCallback>,
        NodeCallback,
        futures::channel::oneshot::Receiver<NodeResponse>,
    ))
        requires
            old(self).wf(),
            old(self).nodes().contains(node@),
        ensures
            *r.0 == old(self).queues()[node@],
            r.1.message == message,
            final(self).wf(),
            final(self).queues() == old(self).queues().insert(node@, *final(r.0)),
            final(self).nodes() == old(self).nodes(),
    {
        let (callback, rx) = Callback::new(message);
        proof {
            let before = self.channels@;
            assert forall|queue: futures::channel::mpsc::Sender<NodeCallback>|
                #[trigger] before.insert(node@, queue).dom() == before.dom() by {
                assert(before.insert(node@, queue).dom() =~= before.dom());
            }
        }
        (self.channels.get_mut(node), callback, rx)
    }
}

} // verus!
