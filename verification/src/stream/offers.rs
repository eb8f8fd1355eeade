//! What is offered to the channel of a replica when an item is written, told answer by answer.

use crate::stream::channel::{SendEvent, SendOutcome};
use crate::stream::memory::{
    after_report, after_write, all_sent, any_open, has_waiting, is_written, lemma_next_waiting,
    next_waiting, ReplicaView,
};
use vstd::prelude::*;

verus! {

/// The items that are to be offered when an item is written: those that are waiting, and then the item.
pub open spec fn pending<T>(replica: ReplicaView<T>, item: T) -> Seq<T> {
    replica.overflow.push(item)
}

/// Writing an item to a replica with a receiver offers the items that are waiting and then the new one, in
/// this order, up to the first one that is not taken. If that is for want of room, it waits together with
/// all items after it. If the receiver is gone, nothing waits any more.
pub proof fn lemma_write_offers<T>(before: ReplicaView<T>, after: ReplicaView<T>, item: T)
    requires
        is_written(before, after, item),
        before.sender is Some,
    ensures
        ({
            let n = after.log.len() - before.log.len();
            let items = pending(before, item);
            let last = after.log.last();
            &&& 0 < n <= items.len()
            &&& forall|i: int|
                0 <= i < before.log.len() ==> #[trigger] after.log[i] == before.log[i]
            &&& forall|i: int|
                0 <= i < n - 1 ==> #[trigger] after.log[before.log.len() + i] == SendEvent::Sent(
                    items[i],
                )
            &&& last == SendEvent::Sent(items[n - 1]) || last == SendEvent::Full(items[n - 1])
                || last == SendEvent::Closed(items[n - 1])
            &&& last == SendEvent::Sent(items[n - 1]) ==> {
                &&& n == items.len()
                &&& after.sender == before.sender
                &&& after.overflow.len() == 0
            }
            &&& last == SendEvent::Full(items[n - 1]) ==> {
                &&& after.sender == before.sender
                &&& after.overflow == items.skip(n - 1)
            }
            &&& last == SendEvent::Closed(items[n - 1]) ==> {
                &&& after.sender is None
                &&& after.overflow.len() == 0
            }
        }),
{
    let (k, answer) = choose|k: int, answer: SendOutcome<T>|
        {
            &&& 0 <= k <= before.overflow.len()
            &&& answer is Sent ==> k == before.overflow.len()
            &&& after == #[trigger] after_write(before, item, k, answer)
        };
    let items = pending(before, item);
    let n = after.log.len() - before.log.len();
    assert(n == k + 1);
    assert forall|i: int| 0 <= i < n - 1 implies #[trigger] after.log[before.log.len() + i]
        == SendEvent::Sent(items[i]) by {
        assert(all_sent(before.overflow.take(k))[i] == SendEvent::Sent(before.overflow[i]));
    }
    assert(before.overflow.skip(k).push(item) =~= items.skip(k));
}

/// A replica without a receiver stays as it is, whatever is written to it.
pub proof fn lemma_write_to_nobody<T>(before: ReplicaView<T>, after: ReplicaView<T>, item: T)
    requires
        is_written(before, after, item),
        before.sender is None,
    ensures
        after == before,
{
}

/// A sink is closed exactly if all receivers are gone.
pub proof fn lemma_closed_without_receivers<T>(replicas: Seq<ReplicaView<T>>)
    ensures
        !any_open(replicas) <==> forall|i: int|
            0 <= i < replicas.len() ==> (#[trigger] replicas[i]).sender is None,
{
    if !any_open(replicas) {
        assert forall|i: int| 0 <= i < replicas.len() implies (
        #[trigger] replicas[i]).sender is None by {
            if replicas[i].sender is Some {
                assert(any_open(replicas));
            }
        }
    }
}

/// When a stream ends, the next item comes from the first replica from a position on that has a receiver and
/// holds items back. The replicas up to there have none to pass on.
pub proof fn lemma_drain_goes_on<T>(replicas: Seq<ReplicaView<T>>, start: nat)
    requires
        start <= replicas.len(),
    ensures
        ({
            let i = next_waiting(replicas, start) as int;
            &&& start <= i <= replicas.len()
            &&& forall|j: int|
                start <= j < i ==> (#[trigger] replicas[j]).sender is None
                    || replicas[j].overflow.len() == 0
            &&& i < replicas.len() ==> replicas[i].sender is Some && replicas[i].overflow.len() > 0
        }),
{
    lemma_next_waiting(replicas, start);
    assert forall|j: int| start <= j < next_waiting(replicas, start) implies (
    #[trigger] replicas[j]).sender is None || replicas[j].overflow.len() == 0 by {
        assert(!has_waiting(replicas[j]));
    }
}

/// An item that has been sent leaves the other ones where they are. An item that could not be sent shows that
/// the receiver is gone, and nothing waits any more.
pub proof fn lemma_drain_report<T>(replica: ReplicaView<T>, item: T, sent: bool)
    ensures
        ({
            let after = after_report(replica, item, sent);
            &&& after.log.len() == replica.log.len() + 1
            &&& after.log.drop_last() == replica.log
            &&& after.log.last() == (SendEvent::Reported { item, sent })
            &&& sent ==> after.sender == replica.sender && after.overflow == replica.overflow
            &&& !sent ==> after.sender is None && after.overflow.len() == 0
        }),
{
    assert(after_report(replica, item, sent).log.drop_last() =~= replica.log);
}

}
