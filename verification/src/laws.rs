//! What follows from the order of events: the life of each connection, the
//! silence after it has ended, and the finality of `Shutdown`.

use crate::events::{Error, Events};
use crate::ident::ConnectionId;
use crate::protocol::{lemma_admitted_at, lemma_replay_sound, replay, well_ordered};
use vstd::prelude::*;

verus! {

/// The events of `trace` that bear `id`, in their order.
pub open spec fn about<E: Error>(trace: Seq<Events<E>>, id: ConnectionId) -> Seq<Events<E>> {
    trace.filter(|event: Events<E>| event.bearer() == Some(id))
}

/// Whether `event` is something that happened on the connection `id` while
/// it was connected: bytes received, an error, or a typed connection error.
pub open spec fn is_traffic<E: Error>(event: Events<E>, id: ConnectionId) -> bool {
    &&& event.bearer() == Some(id)
    &&& event is Received || event is Error || event is ConnectionError
}

/// The events of a connection that is connected: `Connected` once, at the
/// start, and then only traffic.
pub open spec fn is_begun<E: Error>(story: Seq<Events<E>>, id: ConnectionId) -> bool {
    &&& story.len() >= 1
    &&& story[0] == Events::<E>::Connected(id)
    &&& forall|k: int| 1 <= k < story.len() ==> is_traffic(#[trigger] story[k], id)
}

/// The events of a connection that has ended: `Connected` once, at the
/// start, `Disconnected` once, at the end, and only traffic in between.
pub open spec fn is_complete<E: Error>(story: Seq<Events<E>>, id: ConnectionId) -> bool {
    &&& story.len() >= 2
    &&& story[0] == Events::<E>::Connected(id)
    &&& story[story.len() - 1] == Events::<E>::Disconnected(id)
    &&& forall|k: int| 1 <= k < story.len() - 1 ==> is_traffic(#[trigger] story[k], id)
}

/// The events that bear `id` follow the life of the connection: there are
/// none while it has never connected; while it is connected they are
/// `Connected(id)` and then traffic; once it has disconnected they are
/// `Connected(id)`, traffic, and `Disconnected(id)` at the end.
pub proof fn lemma_connection_story<E: Error>(trace: Seq<Events<E>>, id: ConnectionId)
    requires
        well_ordered(trace),
    ensures
        !replay(trace).unwrap().knows(id) ==> about(trace, id).len() == 0,
        replay(trace).unwrap().open.contains(id) ==> is_begun(about(trace, id), id),
        replay(trace).unwrap().closed.contains(id) ==> is_complete(about(trace, id), id),
    decreases trace.len(),
{
    reveal(Seq::filter);
    if trace.len() > 0 {
        let earlier = trace.drop_last();
        let before = replay(earlier).unwrap();
        let now = replay(trace).unwrap();
        lemma_connection_story(earlier, id);
        lemma_replay_sound(earlier);
        lemma_replay_sound(trace);
        match trace.last() {
            Events::Connected(other) => {
                assert(now.open[before.open.len() as int] == other);
                if other != id && before.open.contains(id) {
                    let j = before.open.index_of(id);
                    assert(now.open[j] == id);
                }
            },
            Events::Disconnected(other) => {
                before.lemma_after_disconnected::<E>(other, id);
            },
            _ => {},
        }
    }
}

/// The events that bear the identifier of a connection that is not
/// connected are none at all, or else exactly one `Connected`, then any
/// number of `Received`, `Error` and `ConnectionError`, then exactly one
/// `Disconnected`.
pub proof fn lemma_ended_connection_story<E: Error>(trace: Seq<Events<E>>, id: ConnectionId)
    requires
        well_ordered(trace),
        !replay(trace).unwrap().open.contains(id),
    ensures
        about(trace, id).len() == 0 || is_complete(about(trace, id), id),
{
    lemma_connection_story(trace, id);
}

/// Once `Shutdown` has come, no connection is connected, and the events
/// that bear any one identifier are none at all, or else exactly one
/// `Connected`, then any number of `Received`, `Error` and
/// `ConnectionError`, then exactly one `Disconnected`.
pub proof fn lemma_finished_stories<E: Error>(trace: Seq<Events<E>>)
    requires
        well_ordered(trace),
        trace.len() > 0,
        trace.last() is Shutdown,
    ensures
        replay(trace).unwrap().stopped,
        replay(trace).unwrap().open.len() == 0,
        forall|id: ConnectionId|
            about(trace, id).len() == 0 || is_complete(#[trigger] about(trace, id), id),
{
    lemma_replay_sound(trace);
    assert forall|id: ConnectionId|
        about(trace, id).len() == 0 || is_complete(#[trigger] about(trace, id), id) by {
        lemma_ended_connection_story(trace, id);
    }
}

/// A connection whose `Disconnected` is among the events has disconnected,
/// and is not connected.
pub proof fn lemma_disconnected_stays_closed<E: Error>(
    trace: Seq<Events<E>>,
    i: int,
    id: ConnectionId,
)
    requires
        well_ordered(trace),
        0 <= i < trace.len(),
        trace[i] == Events::<E>::Disconnected(id),
    ensures
        replay(trace).unwrap().closed.contains(id),
        !replay(trace).unwrap().open.contains(id),
    decreases trace.len(),
{
    let earlier = trace.drop_last();
    let before = replay(earlier).unwrap();
    let now = replay(trace).unwrap();
    lemma_replay_sound(earlier);
    lemma_replay_sound(trace);
    if i == trace.len() - 1 {
        assert(now.closed[before.closed.len() as int] == id);
    } else {
        lemma_disconnected_stays_closed(earlier, i, id);
        match trace.last() {
            Events::Disconnected(other) => {
                before.lemma_after_disconnected::<E>(other, id);
            },
            _ => {},
        }
    }
}

/// No event that bears an identifier comes after the `Disconnected` of that
/// identifier.
pub proof fn lemma_silence_after_disconnected<E: Error>(
    trace: Seq<Events<E>>,
    i: int,
    j: int,
    id: ConnectionId,
)
    requires
        well_ordered(trace),
        0 <= i < j < trace.len(),
        trace[i] == Events::<E>::Disconnected(id),
    ensures
        trace[j].bearer() != Some(id),
{
    lemma_admitted_at(trace, j);
    lemma_disconnected_stays_closed(trace.take(j), i, id);
}

/// `Shutdown` is the last event: nothing comes after it.
pub proof fn lemma_shutdown_is_last<E: Error>(trace: Seq<Events<E>>, i: int)
    requires
        well_ordered(trace),
        0 <= i < trace.len(),
        trace[i] is Shutdown,
    ensures
        i == trace.len() - 1,
{
    if i < trace.len() - 1 {
        lemma_admitted_at(trace, i);
        lemma_admitted_at(trace, i + 1);
    }
}

/// `Shutdown` comes at most once.
pub proof fn lemma_shutdown_at_most_once<E: Error>(trace: Seq<Events<E>>, i: int, j: int)
    requires
        well_ordered(trace),
        0 <= i < trace.len(),
        0 <= j < trace.len(),
        trace[i] is Shutdown,
        trace[j] is Shutdown,
    ensures
        i == j,
{
    lemma_shutdown_is_last(trace, i);
    lemma_shutdown_is_last(trace, j);
}

/// Once an event has borne an identifier, the ledger lists an identifier.
pub proof fn lemma_identifier_leaves_a_mark<E: Error>(trace: Seq<Events<E>>, j: int)
    requires
        well_ordered(trace),
        0 <= j < trace.len(),
        trace[j].bearer() is Some,
    ensures
        replay(trace).unwrap().open.len() + replay(trace).unwrap().closed.len() > 0,
    decreases trace.len(),
{
    if j < trace.len() - 1 {
        lemma_identifier_leaves_a_mark(trace.drop_last(), j);
    }
}

/// A ledger is ready only if `Ready` is among the events.
pub proof fn lemma_ready_was_emitted<E: Error>(trace: Seq<Events<E>>) -> (i: int)
    requires
        well_ordered(trace),
        replay(trace).unwrap().ready,
    ensures
        0 <= i < trace.len(),
        trace[i] is Ready,
    decreases trace.len(),
{
    if trace.last() is Ready {
        trace.len() - 1
    } else {
        lemma_ready_was_emitted(trace.drop_last())
    }
}

/// Every `Ready` comes before every event that bears an identifier.
pub proof fn lemma_ready_comes_first<E: Error>(trace: Seq<Events<E>>, i: int, j: int)
    requires
        well_ordered(trace),
        0 <= i < trace.len(),
        0 <= j < trace.len(),
        trace[i] is Ready,
        trace[j].bearer() is Some,
    ensures
        i < j,
{
    if j < i {
        lemma_admitted_at(trace, i);
        lemma_identifier_leaves_a_mark(trace.take(i), j);
    }
}

/// Before any event that bears an identifier there is a `Ready`.
pub proof fn lemma_ready_before_connections<E: Error>(trace: Seq<Events<E>>, j: int) -> (i: int)
    requires
        well_ordered(trace),
        0 <= j < trace.len(),
        trace[j].bearer() is Some,
    ensures
        0 <= i < j,
        trace[i] is Ready,
{
    lemma_admitted_at(trace, j);
    lemma_replay_sound(trace.take(j));
    lemma_ready_was_emitted(trace.take(j))
}

} // verus!
