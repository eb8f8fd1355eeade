//! Streams that are kept in memory.

use crate::error::{
    memory_stream_exhausted, memory_stream_exhausted_text, memory_stream_written,
    memory_stream_written_text, ErrorView, ExecutionResult,
};
use crate::stream::channel::{connected, new_channel, Channel, SendEvent, SendOutcome};
use crate::stream::item::TaskStreamSinkState;
use crate::stream::LocalStream;
use std::collections::VecDeque;
use tokio::sync::mpsc::{Receiver, Sender};
use vstd::prelude::*;

verus! {

/// One replica of a stream: the sending end of a channel until its receiver is gone, and the items
/// that the channel had no room for.
#[verifier::reject_recursive_types(T)]
pub struct Replica<T> {
    channel: Channel<T>,
    overflow: VecDeque<T>,
}

/// A replica as a mathematical value: the sender, the items that are waiting, and the record of what
/// has happened to the items.
#[verifier::ext_equal]
#[verifier::reject_recursive_types(T)]
pub struct ReplicaView<T> {
    pub sender: Option<Sender<T>>,
    pub overflow: Seq<T>,
    pub log: Seq<SendEvent<T>>,
}

impl<T> View for Replica<T> {
    type V = ReplicaView<T>;

    closed spec fn view(&self) -> ReplicaView<T> {
        ReplicaView {
            sender: self.channel@.sender,
            overflow: self.overflow@,
            log: self.channel@.log,
        }
    }
}

/// The record of items that a channel has taken one after the other.
pub open spec fn all_sent<T>(items: Seq<T>) -> Seq<SendEvent<T>> {
    items.map_values(|x: T| SendEvent::Sent(x))
}

/// The items that a channel has taken or is reported to have taken, in order.
pub open spec fn sent_items<T>(log: Seq<SendEvent<T>>) -> Seq<T>
    decreases log.len(),
{
    if log.len() == 0 {
        Seq::empty()
    } else {
        match log.last() {
            SendEvent::Sent(x) => sent_items(log.drop_last()).push(x),
            SendEvent::Reported { item, sent: true } => sent_items(log.drop_last()).push(item),
            _ => sent_items(log.drop_last()),
        }
    }
}

/// A replica whose receiver is gone.
pub open spec fn closed_replica<T>(log: Seq<SendEvent<T>>) -> ReplicaView<T> {
    ReplicaView { sender: None, overflow: Seq::empty(), log }
}

/// What becomes of a replica when an item is written to it, and the channel takes the first `n` of
/// the items that are waiting and then gives an answer to the next one.
///
/// If it has no room for an item that is waiting, the new item has to wait as well. Only after all
/// items that are waiting have been taken is the new item offered. If the receiver is gone, so is
/// all that is waiting.
pub open spec fn after_write<T>(
    before: ReplicaView<T>,
    item: T,
    n: int,
    answer: SendOutcome<T>,
) -> ReplicaView<T> {
    let log = before.log + all_sent(before.overflow.take(n));
    let offered = if n < before.overflow.len() {
        before.overflow[n]
    } else {
        item
    };
    match answer {
        SendOutcome::Closed(_) => closed_replica(log.push(SendEvent::Closed(offered))),
        SendOutcome::Full(_) => ReplicaView {
            sender: before.sender,
            overflow: before.overflow.skip(n).push(item),
            log: log.push(SendEvent::Full(offered)),
        },
        SendOutcome::Sent => ReplicaView {
            sender: before.sender,
            overflow: Seq::empty(),
            log: log.push(SendEvent::Sent(offered)),
        },
    }
}

/// Whether a replica can come out of writing an item to it. What is offered to the channel is the
/// items that are waiting, in order, and then the new one; it depends on the channel how far that
/// goes.
pub open spec fn is_written<T>(before: ReplicaView<T>, after: ReplicaView<T>, item: T) -> bool {
    if before.sender is None {
        after == before
    } else {
        exists|n: int, answer: SendOutcome<T>|
            {
                &&& 0 <= n <= before.overflow.len()
                &&& answer is Sent ==> n == before.overflow.len()
                &&& after == #[trigger] after_write(before, item, n, answer)
            }
    }
}

/// What a replica has passed on and still holds, in order.
pub open spec fn replica_items<T>(replica: ReplicaView<T>) -> Seq<T> {
    sent_items(replica.log) + replica.overflow
}

proof fn lemma_sent_items_push<T>(log: Seq<SendEvent<T>>, event: SendEvent<T>)
    ensures
        sent_items(log.push(event)) == match event {
            SendEvent::Sent(x) => sent_items(log).push(x),
            SendEvent::Reported { item, sent: true } => sent_items(log).push(item),
            _ => sent_items(log),
        },
{
    assert(log.push(event).drop_last() =~= log);
}

proof fn lemma_sent_items_all<T>(log: Seq<SendEvent<T>>, items: Seq<T>)
    ensures
        sent_items(log + all_sent(items)) == sent_items(log) + items,
    decreases items.len(),
{
    if items.len() == 0 {
        assert(log + all_sent(items) =~= log);
        assert(sent_items(log) + items =~= sent_items(log));
    } else {
        let rest = items.drop_last();
        lemma_sent_items_all(log, rest);
        assert(log + all_sent(items) =~= (log + all_sent(rest)).push(
            SendEvent::Sent(items.last()),
        ));
        lemma_sent_items_push(log + all_sent(rest), SendEvent::Sent(items.last()));
        assert((sent_items(log) + rest).push(items.last()) =~= sent_items(log) + items);
    }
}

/// As long as its receiver is there, a replica loses no item, repeats none and keeps their order:
/// what it has passed on and still holds is what it was before, followed by the new item. And what
/// it has passed on stays passed on.
pub proof fn lemma_write_keeps_items<T>(before: ReplicaView<T>, after: ReplicaView<T>, item: T)
    requires
        is_written(before, after, item),
        after.sender is Some,
    ensures
        replica_items(after) == replica_items(before).push(item),
        sent_items(before.log).is_prefix_of(sent_items(after.log)),
{
    let (n, answer) = choose|n: int, answer: SendOutcome<T>|
        {
            &&& 0 <= n <= before.overflow.len()
            &&& answer is Sent ==> n == before.overflow.len()
            &&& after == #[trigger] after_write(before, item, n, answer)
        };
    let taken = before.overflow.take(n);
    let log = before.log + all_sent(taken);
    lemma_sent_items_all(before.log, taken);
    let event = after.log.last();
    lemma_sent_items_push(log, event);
    match answer {
        SendOutcome::Full(_) => {
            assert(sent_items(after.log) == sent_items(before.log) + taken);
            assert(replica_items(after) =~= replica_items(before).push(item));
        },
        SendOutcome::Sent => {
            assert(taken =~= before.overflow);
            assert(sent_items(after.log) == (sent_items(before.log) + taken).push(item));
            assert(replica_items(after) =~= replica_items(before).push(item));
        },
        SendOutcome::Closed(_) => {},
    }
    assert(sent_items(before.log).is_prefix_of(sent_items(after.log)));
}

/// Whether a replica has gone through some states while items were written to it one after the other.
pub open spec fn is_history<T>(states: Seq<ReplicaView<T>>, items: Seq<T>) -> bool {
    &&& states.len() == items.len() + 1
    &&& forall|i: int|
        0 <= i < items.len() ==> #[trigger] is_written(states[i], states[i + 1], items[i])
}

/// Whatever its channel answers, a replica passes on nothing but the items that are written to it, in
/// order and with none left out. As long as its receiver is there, it also keeps all those that it
/// has not passed on yet.
pub proof fn lemma_writes_keep_items<T>(states: Seq<ReplicaView<T>>, items: Seq<T>)
    requires
        is_history(states, items),
        states[0] == new_replica(states[0].sender->0),
    ensures
        sent_items(states.last().log).is_prefix_of(items),
        states.last().sender is Some ==> replica_items(states.last()) == items,
        states.last().sender is None ==> states.last().overflow.len() == 0,
    decreases items.len(),
{
    if items.len() == 0 {
        assert(replica_items(states[0]) =~= items);
    } else {
        let k = items.len() - 1;
        let front = states.drop_last();
        let earlier = items.drop_last();
        assert forall|i: int| 0 <= i < earlier.len() implies #[trigger] is_written(
            front[i],
            front[i + 1],
            earlier[i],
        ) by {
            assert(is_written(states[i], states[i + 1], items[i]));
        }
        lemma_writes_keep_items(front, earlier);
        let before = front.last();
        let after = states.last();
        assert(is_written(states[k], states[k + 1], items[k]));
        if after.sender is Some {
            lemma_write_keeps_items(before, after, items[k]);
            assert(earlier.push(items[k]) =~= items);
            assert(sent_items(after.log) + after.overflow == items);
        } else if before.sender is Some {
            let (n, answer) = choose|n: int, answer: SendOutcome<T>|
                {
                    &&& 0 <= n <= before.overflow.len()
                    &&& answer is Sent ==> n == before.overflow.len()
                    &&& after == #[trigger] after_write(before, items[k], n, answer)
                };
            let taken = before.overflow.take(n);
            lemma_sent_items_all(before.log, taken);
            lemma_sent_items_push(before.log + all_sent(taken), after.log.last());
            assert(sent_items(after.log) == sent_items(before.log) + taken);
            assert(earlier == sent_items(before.log) + before.overflow);
        }
    }
}

/// A replica that holds nothing back, and whose receiver is there, has passed on all items.
pub proof fn lemma_nothing_held_back<T>(replica: ReplicaView<T>)
    requires
        replica.sender is Some,
        !has_waiting(replica),
    ensures
        sent_items(replica.log) == replica_items(replica),
{
    assert(replica_items(replica) =~= sent_items(replica.log));
}

/// A replica holds items back only if its channel had no room for the first of them.
pub proof fn lemma_waiting_after_full<T>(before: ReplicaView<T>, after: ReplicaView<T>, item: T)
    requires
        is_written(before, after, item),
        before.sender is Some,
        after.overflow.len() > 0,
    ensures
        after.log.last() == SendEvent::Full(after.overflow[0]),
{
    let (n, answer) = choose|n: int, answer: SendOutcome<T>|
        {
            &&& 0 <= n <= before.overflow.len()
            &&& answer is Sent ==> n == before.overflow.len()
            &&& after == #[trigger] after_write(before, item, n, answer)
        };
}

impl<T> Replica<T> {
    /// A replica that nothing has been written to.
    pub fn new(sender: Sender<T>) -> (r: Self)
        ensures
            r@ == (ReplicaView {
                sender: Some(sender),
                overflow: Seq::<T>::empty(),
                log: Seq::empty(),
            }),
    {
        Replica { channel: Channel::new(sender), overflow: VecDeque::new() }
    }

    /// Drops the sender and all items that are waiting.
    fn drop_sender(&mut self)
        ensures
            final(self)@ == closed_replica(old(self)@.log),
    {
        self.channel.close();
        self.overflow.clear();
    }

    /// Takes in the answer of the channel to an item that was waiting and has been taken out, and says
    /// whether the next one is to be offered. An item without room goes back to the front. If the
    /// receiver is gone, so are the sender and all other items.
    pub fn settle_waiting(&mut self, answer: SendOutcome<T>) -> (r: bool)
        ensures
            match answer {
                SendOutcome::Sent => r && final(self)@ == old(self)@,
                SendOutcome::Full(x) => !r && final(self)@ == (ReplicaView {
                    overflow: seq![x] + old(self)@.overflow,
                    ..old(self)@
                }),
                SendOutcome::Closed(_) => !r && final(self)@ == closed_replica(old(self)@.log),
            },
    {
        match answer {
            SendOutcome::Sent => true,
            SendOutcome::Full(x) => {
                self.overflow.push_front(x);
                false
            },
            SendOutcome::Closed(_) => {
                self.drop_sender();
                false
            },
        }
    }

    /// Takes in the answer of the channel to a new item. An item without room has to wait. If the
    /// receiver is gone, so are the sender and all items that are waiting.
    pub fn settle_new(&mut self, answer: SendOutcome<T>)
        ensures
            final(self)@ == match answer {
                SendOutcome::Sent => old(self)@,
                SendOutcome::Full(x) => ReplicaView {
                    overflow: old(self)@.overflow.push(x),
                    ..old(self)@
                },
                SendOutcome::Closed(_) => closed_replica(old(self)@.log),
            },
    {
        match answer {
            SendOutcome::Sent => {},
            SendOutcome::Full(x) => {
                self.overflow.push_back(x);
            },
            SendOutcome::Closed(_) => {
                self.drop_sender();
            },
        }
    }

    /// Writes an item: offers all items that are waiting to the channel, and then the new one.
    pub fn write(&mut self, item: T)
        ensures
            is_written(old(self)@, final(self)@, item),
    {
        let ghost before = self@;
        if !self.channel.is_open() {
            return;
        }
        let mut flushing = true;
        let ghost mut n: int = 0;
        proof {
            assert(before.overflow.take(0) =~= Seq::empty());
            assert(before.log + all_sent(before.overflow.take(0)) =~= before.log);
            assert(before.overflow.skip(0) =~= before.overflow);
        }
        while flushing && self.overflow.len() > 0
            invariant
                before.sender is Some,
                0 <= n <= before.overflow.len(),
                flushing ==> self@ == (ReplicaView {
                    sender: before.sender,
                    overflow: before.overflow.skip(n),
                    log: before.log + all_sent(before.overflow.take(n)),
                }),
                !flushing ==> n < before.overflow.len() && (self@ == (ReplicaView {
                    sender: before.sender,
                    overflow: before.overflow.skip(n),
                    log: (before.log + all_sent(before.overflow.take(n))).push(
                        SendEvent::Full(before.overflow[n]),
                    ),
                }) || self@ == closed_replica(
                    (before.log + all_sent(before.overflow.take(n))).push(
                        SendEvent::Closed(before.overflow[n]),
                    ),
                )),
            decreases
                self@.overflow.len(),
                if flushing {
                    1int
                } else {
                    0int
                },
        {
            let ghost waiting = self@.overflow;
            if let Some(first) = self.overflow.pop_front() {
                let answer = self.channel.try_send(first);
                flushing = self.settle_waiting(answer);
                proof {
                    assert(first == before.overflow[n]);
                    assert(seq![first] + waiting.subrange(1, waiting.len() as int) =~= waiting);
                    if flushing {
                        assert(waiting.subrange(1, waiting.len() as int) =~= before.overflow.skip(
                            n + 1,
                        ));
                        assert(before.log + all_sent(before.overflow.take(n + 1)) =~= (before.log
                            + all_sent(before.overflow.take(n))).push(SendEvent::Sent(first)));
                        n = n + 1;
                    }
                }
            }
        }
        if !self.channel.is_open() {
            assert(self@ == after_write(before, item, n, SendOutcome::Closed(item)));
            return;
        }
        if self.overflow.len() == 0 {
            assert(n == before.overflow.len());
            assert(before.overflow.skip(n) =~= Seq::empty());
            let answer = self.channel.try_send(item);
            self.settle_new(answer);
            proof {
                let expected = after_write(before, item, n, answer);
                assert(self@.overflow =~= expected.overflow);
                assert(self@ == expected);
            }
        } else {
            self.overflow.push_back(item);
            assert(self@ == after_write(before, item, n, SendOutcome::Full(item)));
        }
    }

    /// Whether the receiver is not known to be gone.
    pub fn is_open(&self) -> (r: bool)
        ensures
            r == self@.sender is Some,
    {
        self.channel.is_open()
    }
}

/// Writes the items of a stream to all its replicas.
#[verifier::reject_recursive_types(T)]
pub struct MemoryStreamReplicaSender<T> {
    replicas: Vec<Replica<T>>,
}

impl<T> View for MemoryStreamReplicaSender<T> {
    type V = Seq<ReplicaView<T>>;

    closed spec fn view(&self) -> Seq<ReplicaView<T>> {
        self.replicas@.map_values(|r: Replica<T>| r@)
    }
}

/// Whether some replica still has a receiver.
pub open spec fn any_open<T>(replicas: Seq<ReplicaView<T>>) -> bool {
    exists|i: int| 0 <= i < replicas.len() && (#[trigger] replicas[i]).sender is Some
}

/// Whether a replica can come out of writing a clone of an item to it.
pub open spec fn is_written_clone<T: Clone>(
    before: ReplicaView<T>,
    after: ReplicaView<T>,
    item: T,
) -> bool {
    exists|x: T| cloned(item, x) && #[trigger] is_written(before, after, x)
}

impl<T: Clone> MemoryStreamReplicaSender<T> {
    /// Writes an item to all replicas.
    ///
    /// The sink is closed once the receivers of all replicas are gone. That one of them is gone can
    /// happen under normal operation, when the receiver needs no more data.
    pub fn write(&mut self, item: T) -> (r: TaskStreamSinkState)
        ensures
            final(self)@.len() == old(self)@.len(),
            forall|i: int|
                0 <= i < old(self)@.len() ==> is_written_clone(
                    old(self)@[i],
                    #[trigger] final(self)@[i],
                    item,
                ),
            match r {
                TaskStreamSinkState::Open => any_open(final(self)@),
                TaskStreamSinkState::Closed => !any_open(final(self)@),
                TaskStreamSinkState::Error(_) => false,
            },
    {
        let ghost before = self@;
        let n: usize = self.replicas.len();
        let mut active = false;
        let mut i: usize = 0;
        while i < n
            invariant
                i <= n,
                n == before.len(),
                self.replicas@.len() == n,
                forall|j: int|
                    0 <= j < i ==> is_written_clone(
                        before[j],
                        #[trigger] self.replicas@[j]@,
                        item,
                    ),
                forall|j: int| i <= j < n ==> #[trigger] self.replicas@[j]@ == before[j],
                active == exists|j: int|
                    0 <= j < i && (#[trigger] self.replicas@[j])@.sender is Some,
            decreases n - i,
        {
            let copy = item.clone();
            let ghost earlier = self.replicas@;
            self.replicas[i].write(copy);
            assert(is_written_clone(before[i as int], self.replicas@[i as int]@, item)) by {
                assert(is_written(before[i as int], self.replicas@[i as int]@, copy));
            }
            let open = self.replicas[i].is_open();
            proof {
                assert(self.replicas@ =~= earlier.update(i as int, self.replicas@[i as int]));
                if active {
                    let j = choose|j: int| 0 <= j < i && (#[trigger] earlier[j])@.sender is Some;
                    assert(self.replicas@[j]@.sender is Some);
                }
                if exists|j: int| 0 <= j < i && (#[trigger] self.replicas@[j])@.sender is Some {
                    let j = choose|j: int|
                        0 <= j < i && (#[trigger] self.replicas@[j])@.sender is Some;
                    assert(earlier[j]@.sender is Some);
                }
            }
            if open {
                active = true;
            }
            i = i + 1;
        }
        proof {
            assert forall|j: int| 0 <= j < n implies is_written_clone(
                before[j],
                #[trigger] self@[j],
                item,
            ) by {
                assert(self@[j] == self.replicas@[j]@);
            }
            if active {
                let j = choose|j: int| 0 <= j < n && (#[trigger] self.replicas@[j])@.sender is Some;
                assert(self@[j].sender is Some);
            }
            if any_open(self@) {
                let j = choose|j: int| 0 <= j < self@.len() && (#[trigger] self@[j]).sender is Some;
                assert(self.replicas@[j]@.sender is Some);
            }
        }
        if active {
            TaskStreamSinkState::Open
        } else {
            TaskStreamSinkState::Closed
        }
    }

    /// Starts passing on all items that are waiting, which ends the stream.
    pub fn close(self) -> (r: MemoryStreamDrain<T>)
        ensures
            r@ == (DrainView { replicas: self@, next: 0, sending: None }),
    {
        MemoryStreamDrain { replicas: self.replicas, next: 0, sending: Ghost(None) }
    }
}

/// Passes on the items that are waiting when a stream ends: those of one replica after the other.
/// For each of them the sender waits until the channel has room.
#[verifier::reject_recursive_types(T)]
pub struct MemoryStreamDrain<T> {
    replicas: Vec<Replica<T>>,
    next: usize,
    sending: Ghost<Option<T>>,
}

/// A drain as a mathematical value: its replicas, the first one that may have items to pass on, and
/// the item of that replica that is being sent.
#[verifier::ext_equal]
#[verifier::reject_recursive_types(T)]
pub struct DrainView<T> {
    pub replicas: Seq<ReplicaView<T>>,
    pub next: nat,
    pub sending: Option<T>,
}

impl<T> View for MemoryStreamDrain<T> {
    type V = DrainView<T>;

    closed spec fn view(&self) -> DrainView<T> {
        DrainView {
            replicas: self.replicas@.map_values(|r: Replica<T>| r@),
            next: self.next as nat,
            sending: self.sending@,
        }
    }
}

/// A replica once it has been reported whether an item that was given out has been sent. If it could
/// not be, the receiver is gone, and so are the other items.
pub open spec fn after_report<T>(replica: ReplicaView<T>, item: T, sent: bool) -> ReplicaView<T> {
    let log = replica.log.push(SendEvent::Reported { item, sent });
    if sent {
        ReplicaView { log, ..replica }
    } else {
        closed_replica(log)
    }
}

/// Whether a replica has items to pass on.
pub open spec fn has_waiting<T>(replica: ReplicaView<T>) -> bool {
    replica.sender is Some && replica.overflow.len() > 0
}

/// The first replica from a position on that has items to pass on, or the number of replicas if
/// there is none.
pub open spec fn next_waiting<T>(replicas: Seq<ReplicaView<T>>, i: nat) -> nat
    decreases replicas.len() - i,
{
    if i >= replicas.len() || has_waiting(replicas[i as int]) {
        i
    } else {
        next_waiting(replicas, i + 1)
    }
}

impl<T> MemoryStreamDrain<T> {
    /// The next item to be sent, and the replica it belongs to. The item is to be sent with the sender
    /// of the replica, and what has come of that is to be told before the next one is asked for.
    pub fn next(&mut self) -> (r: Option<(usize, T)>)
        requires
            old(self)@.sending is None,
            old(self)@.next <= old(self)@.replicas.len(),
        ensures
            ({
                let i = next_waiting(old(self)@.replicas, old(self)@.next) as int;
                let replica = old(self)@.replicas[i];
                if i < old(self)@.replicas.len() {
                    &&& r == Some((i as usize, replica.overflow[0]))
                    &&& final(self)@ == (DrainView {
                        replicas: old(self)@.replicas.update(
                            i,
                            ReplicaView { overflow: replica.overflow.skip(1), ..replica },
                        ),
                        next: i as nat,
                        sending: Some(replica.overflow[0]),
                    })
                } else {
                    &&& r is None
                    &&& final(self)@ == (DrainView { next: i as nat, ..old(self)@ })
                }
            }),
            final(self)@.next <= final(self)@.replicas.len(),
    {
        let ghost before = self@;
        while self.next < self.replicas.len()
            invariant
                before == old(self)@,
                self@.replicas == before.replicas,
                self@.sending == before.sending,
                self@.next <= self@.replicas.len(),
                next_waiting(before.replicas, self@.next) == next_waiting(
                    before.replicas,
                    before.next,
                ),
            decreases before.replicas.len() - self@.next,
        {
            let i: usize = self.next;
            assert(self@.replicas[i as int] == self.replicas@[i as int]@);
            if self.replicas[i].channel.is_open() {
                if let Some(item) = self.replicas[i].overflow.pop_front() {
                    self.sending = Ghost(Some(item));
                    proof {
                        let replica = before.replicas[i as int];
                        assert(has_waiting(replica));
                        assert(next_waiting(before.replicas, i as nat) == i);
                        assert(replica.overflow.subrange(1, replica.overflow.len() as int)
                            =~= replica.overflow.skip(1));
                        assert(self@.replicas =~= before.replicas.update(
                            i as int,
                            ReplicaView { overflow: replica.overflow.skip(1), ..replica },
                        ));
                    }
                    return Some((i, item));
                }
                assert(self@.replicas =~= before.replicas);
            }
            self.next = i + 1;
        }
        None
    }

    /// The sender with which the current item is to be sent.
    pub fn sender(&self) -> (r: Option<&Sender<T>>)
        requires
            self@.sending is Some,
            self@.next < self@.replicas.len(),
        ensures
            match r {
                Some(tx) => self@.replicas[self@.next as int].sender == Some(*tx),
                None => self@.replicas[self@.next as int].sender is None,
            },
    {
        assert(self@.replicas[self@.next as int] == self.replicas@[self.next as int]@);
        self.replicas[self.next].channel.sender()
    }

    /// Takes in whether the current item has been sent. If it could not be, the receiver is gone, and
    /// so are the other items of the replica.
    pub fn settle(&mut self, sent: bool)
        requires
            old(self)@.sending is Some,
            old(self)@.next < old(self)@.replicas.len(),
        ensures
            ({
                let i = old(self)@.next as int;
                let replica = old(self)@.replicas[i];
                let item = old(self)@.sending->0;
                final(self)@ == (DrainView {
                    replicas: old(self)@.replicas.update(
                        i,
                        after_report(replica, item, sent),
                    ),
                    next: old(self)@.next,
                    sending: None,
                })
            }),
    {
        let ghost before = self@;
        let ghost item = self.sending@->0;
        let i: usize = self.next;
        assert(self@.replicas[i as int] == self.replicas@[i as int]@);
        self.replicas[i].channel.record(Ghost(item), sent);
        if !sent {
            self.replicas[i].drop_sender();
        }
        self.sending = Ghost(None);
        proof {
            let replica = before.replicas[i as int];
            assert(self@.replicas =~= before.replicas.update(
                i as int,
                after_report(replica, item, sent),
            ));
        }
    }
}

/// From the first replica that has items to pass on, up to which none has any.
pub proof fn lemma_next_waiting<T>(replicas: Seq<ReplicaView<T>>, i: nat)
    requires
        i <= replicas.len(),
    ensures
        i <= next_waiting(replicas, i) <= replicas.len(),
        forall|j: int| i <= j < next_waiting(replicas, i) ==> !has_waiting(#[trigger] replicas[j]),
        next_waiting(replicas, i) < replicas.len() ==> has_waiting(
            replicas[next_waiting(replicas, i) as int],
        ),
    decreases replicas.len() - i,
{
    if i < replicas.len() && !has_waiting(replicas[i as int]) {
        lemma_next_waiting(replicas, i + 1);
    }
}

/// When a stream ends, an item that is passed on leaves what its replica has passed on and still
/// holds as it was.
pub proof fn lemma_drain_keeps_items<T>(replica: ReplicaView<T>)
    requires
        has_waiting(replica),
    ensures
        replica_items(
            after_report(
                ReplicaView { overflow: replica.overflow.skip(1), ..replica },
                replica.overflow[0],
                true,
            ),
        ) == replica_items(replica),
{
    let x = replica.overflow[0];
    lemma_sent_items_push(replica.log, SendEvent::Reported { item: x, sent: true });
    assert(sent_items(replica.log).push(x) + replica.overflow.skip(1) =~= sent_items(replica.log)
        + replica.overflow);
}

/// A stream has ended once there is no replica left to go on with: no replica with a receiver holds
/// anything back.
pub proof fn lemma_drain_ends<T>(drain: DrainView<T>)
    requires
        drain.next <= drain.replicas.len(),
        forall|j: int| 0 <= j < drain.next ==> !has_waiting(#[trigger] drain.replicas[j]),
        next_waiting(drain.replicas, drain.next) == drain.replicas.len(),
    ensures
        forall|j: int|
            0 <= j < drain.replicas.len() ==> !has_waiting(#[trigger] drain.replicas[j]),
{
    lemma_next_waiting(drain.replicas, drain.next);
}

/// A memory stream that can be read multiple times. It maintains multiple replicas of the stream.
#[verifier::reject_recursive_types(T)]
pub struct MemoryStream<T> {
    sender: Option<MemoryStreamReplicaSender<T>>,
    receivers: Vec<Receiver<T>>,
}

/// A memory stream as a mathematical value: its replicas until it is given to a writer, and the
/// receivers that have not been given to a reader.
#[verifier::ext_equal]
#[verifier::reject_recursive_types(T)]
pub struct MemoryStreamView<T> {
    pub sender: Option<Seq<ReplicaView<T>>>,
    pub receivers: Seq<Receiver<T>>,
}

impl<T> View for MemoryStream<T> {
    type V = MemoryStreamView<T>;

    closed spec fn view(&self) -> MemoryStreamView<T> {
        MemoryStreamView {
            sender: match self.sender {
                Some(s) => Some(s@),
                None => None,
            },
            receivers: self.receivers@,
        }
    }
}

/// A replica that nothing has been written to.
pub open spec fn new_replica<T>(sender: Sender<T>) -> ReplicaView<T> {
    ReplicaView { sender: Some(sender), overflow: Seq::empty(), log: Seq::empty() }
}

impl<T> MemoryStream<T> {
    /// A stream with at least the given number of replicas. The given senders each make one, and for
    /// those that are missing a channel is made, whose receiver is kept for a reader.
    pub fn new(buffer: usize, replicas: usize, senders: Vec<Sender<T>>) -> (r: Self)
        requires
            replicas > senders@.len() ==> 0 < buffer <= usize::MAX / 8,
        ensures
            r@.sender is Some,
            ({
                let all = r@.sender->0;
                let given = senders@.len();
                &&& all.len() == if replicas > given {
                    replicas as nat
                } else {
                    given
                }
                &&& r@.receivers.len() == all.len() - given
                &&& forall|i: int| 0 <= i < given ==> #[trigger] all[i] == new_replica(senders@[i])
                &&& forall|i: int|
                    given <= i < all.len() ==> {
                        &&& (#[trigger] all[i]).sender is Some
                        &&& all[i] == new_replica(all[i].sender->0)
                        &&& connected(buffer, all[i].sender->0, r@.receivers[i - given])
                    }
            }),
    {
        let ghost given = senders@;
        let n: usize = senders.len();
        let total: usize = if replicas > n {
            replicas
        } else {
            n
        };
        let mut list: Vec<Replica<T>> = Vec::new();
        for tx in it: senders
            invariant
                it.seq() == given,
                list@.len() == it.index(),
                forall|j: int|
                    0 <= j < list@.len() ==> (#[trigger] list@[j])@ == new_replica(given[j]),
        {
            list.push(Replica::new(tx));
        }
        let mut receivers: Vec<Receiver<T>> = Vec::new();
        let mut i: usize = n;
        while i < total
            invariant
                n <= i <= total,
                n == given.len(),
                total > n ==> 0 < buffer <= usize::MAX / 8,
                list@.len() == i,
                receivers@.len() == i - n,
                forall|j: int| 0 <= j < n ==> (#[trigger] list@[j])@ == new_replica(given[j]),
                forall|j: int|
                    n <= j < i ==> {
                        &&& (#[trigger] list@[j])@.sender is Some
                        &&& list@[j]@ == new_replica(list@[j]@.sender->0)
                        &&& connected(buffer, list@[j]@.sender->0, receivers@[j - n])
                    },
            decreases total - i,
        {
            let (tx, rx) = new_channel(buffer);
            list.push(Replica::new(tx));
            receivers.push(rx);
            i = i + 1;
        }
        let sender = MemoryStreamReplicaSender { replicas: list };
        assert forall|j: int| 0 <= j < total implies #[trigger] sender@[j] == list@[j]@ by {}
        MemoryStream { sender: Some(sender), receivers }
    }
}

impl<T: Send> LocalStream for MemoryStream<T> {
    type Sink = MemoryStreamReplicaSender<T>;

    type Source = Receiver<T>;

    open spec fn is_published(&self) -> bool {
        self@.sender is None
    }

    /// Gives the replicas to a writer. That can be done once.
    fn publish(&mut self) -> (r: ExecutionResult<MemoryStreamReplicaSender<T>>)
        ensures
            final(self)@ == (MemoryStreamView { sender: None, ..old(self)@ }),
            match r {
                Ok(sender) => old(self)@.sender == Some(sender@),
                Err(e) => old(self)@.sender is None && e@ == ErrorView::Internal(
                    memory_stream_written_text(),
                ),
            },
    {
        match self.sender.take() {
            Some(sender) => Ok(sender),
            None => Err(memory_stream_written()),
        }
    }

    /// Gives the last receiver to a reader. That can be done once for each replica that the stream
    /// has made a channel for.
    fn subscribe(&mut self) -> (r: ExecutionResult<Receiver<T>>)
        ensures
            match r {
                Ok(rx) => {
                    &&& old(self)@.receivers.len() > 0
                    &&& rx == old(self)@.receivers.last()
                    &&& final(self)@ == (MemoryStreamView {
                        receivers: old(self)@.receivers.drop_last(),
                        ..old(self)@
                    })
                },
                Err(e) => {
                    &&& old(self)@.receivers.len() == 0
                    &&& e@ == ErrorView::Internal(memory_stream_exhausted_text())
                    &&& final(self)@ == old(self)@
                },
            },
    {
        match self.receivers.pop() {
            Some(rx) => Ok(rx),
            None => Err(memory_stream_exhausted()),
        }
    }
}

}
