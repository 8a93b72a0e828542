//! The order of events, said of the events themselves.
//!
//! Seven rules over the places of a sequence say when it is orderly, with no
//! ledger in sight. A sequence is orderly exactly when it is well ordered:
//! the ledger and the rules describe the same sequences.

use crate::events::{Error, Events};
use crate::ident::ConnectionId;
use crate::laws::{
    lemma_disconnected_stays_closed, lemma_ready_before_connections, lemma_ready_comes_first,
    lemma_shutdown_is_last, lemma_silence_after_disconnected,
};
use crate::protocol::{lemma_admitted_at, lemma_replay_sound, replay, well_ordered};
use vstd::prelude::*;

verus! {

/// Nothing comes after `Shutdown`.
pub open spec fn shutdown_is_last<E: Error>(trace: Seq<Events<E>>) -> bool {
    forall|i: int| 0 <= i < trace.len() && (#[trigger] trace[i]) is Shutdown ==> i == trace.len() - 1
}

/// Every `Ready` comes before every event that bears an identifier.
pub open spec fn ready_comes_first<E: Error>(trace: Seq<Events<E>>) -> bool {
    forall|i: int, j: int|
        0 <= i < trace.len() && 0 <= j < trace.len() && (#[trigger] trace[i]) is Ready && (
        #[trigger] trace[j]).bearer() is Some ==> i < j
}

/// Before every `Connected` there is a `Ready`.
pub open spec fn ready_before_connected<E: Error>(trace: Seq<Events<E>>) -> bool {
    forall|j: int|
        0 <= j < trace.len() && (#[trigger] trace[j]) is Connected ==> exists|i: int|
            0 <= i < j && (#[trigger] trace[i]) is Ready
}

/// Before every other event that bears an identifier there is the
/// `Connected` of that identifier.
pub open spec fn connected_before_the_rest<E: Error>(trace: Seq<Events<E>>) -> bool {
    forall|j: int|
        0 <= j < trace.len() && (#[trigger] trace[j]).bearer() is Some && !(trace[j] is Connected)
            ==> exists|i: int|
            0 <= i < j && #[trigger] trace[i] == Events::<E>::Connected(trace[j].bearer().unwrap())
}

/// No identifier is connected twice.
pub open spec fn connected_once<E: Error>(trace: Seq<Events<E>>) -> bool {
    forall|i: int, j: int|
        0 <= i < j < trace.len() && (#[trigger] trace[i]) is Connected && (
        #[trigger] trace[j]) is Connected ==> trace[i].bearer() != trace[j].bearer()
}

/// No event bears an identifier after the `Disconnected` of that identifier.
pub open spec fn silence_after_disconnected<E: Error>(trace: Seq<Events<E>>) -> bool {
    forall|i: int, j: int|
        0 <= i < j < trace.len() && (#[trigger] trace[i]) is Disconnected ==> (
        #[trigger] trace[j]).bearer() != trace[i].bearer()
}

/// Every connection has disconnected before `Shutdown` comes.
pub open spec fn disconnected_before_shutdown<E: Error>(trace: Seq<Events<E>>) -> bool {
    forall|i: int, j: int|
        0 <= i < j < trace.len() && (#[trigger] trace[i]) is Connected && (
        #[trigger] trace[j]) is Shutdown ==> exists|k: int|
            i < k < j && #[trigger] trace[k] == Events::<E>::Disconnected(
                trace[i].bearer().unwrap(),
            )
}

/// Whether the sequence keeps all seven rules.
pub open spec fn orderly<E: Error>(trace: Seq<Events<E>>) -> bool {
    &&& shutdown_is_last(trace)
    &&& disconnected_before_shutdown(trace)
    &&& ready_comes_first(trace)
    &&& ready_before_connected(trace)
    &&& connected_before_the_rest(trace)
    &&& connected_once(trace)
    &&& silence_after_disconnected(trace)
}

/// A stopped ledger has seen `Shutdown`.
pub proof fn lemma_stopped_by_shutdown<E: Error>(trace: Seq<Events<E>>) -> (i: int)
    requires
        well_ordered(trace),
        replay(trace).unwrap().stopped,
    ensures
        0 <= i < trace.len(),
        trace[i] is Shutdown,
    decreases trace.len(),
{
    if trace.last() is Shutdown {
        trace.len() - 1
    } else {
        lemma_stopped_by_shutdown(trace.drop_last())
    }
}

/// A ledger that lists an identifier has seen an event that bears one.
pub proof fn lemma_mark_has_bearer<E: Error>(trace: Seq<Events<E>>) -> (j: int)
    requires
        well_ordered(trace),
        replay(trace).unwrap().open.len() + replay(trace).unwrap().closed.len() > 0,
    ensures
        0 <= j < trace.len(),
        trace[j].bearer() is Some,
    decreases trace.len(),
{
    if trace.last().bearer() is Some {
        trace.len() - 1
    } else {
        lemma_mark_has_bearer(trace.drop_last())
    }
}

/// A ledger that has seen `Ready` is ready.
pub proof fn lemma_ready_sticks<E: Error>(trace: Seq<Events<E>>, i: int)
    requires
        well_ordered(trace),
        0 <= i < trace.len(),
        trace[i] is Ready,
    ensures
        replay(trace).unwrap().ready,
    decreases trace.len(),
{
    if i < trace.len() - 1 {
        lemma_ready_sticks(trace.drop_last(), i);
    }
}

/// A connected identifier has its `Connected` among the events.
pub proof fn lemma_open_was_connected<E: Error>(trace: Seq<Events<E>>, id: ConnectionId) -> (i:
    int)
    requires
        well_ordered(trace),
        replay(trace).unwrap().open.contains(id),
    ensures
        0 <= i < trace.len(),
        trace[i] == Events::<E>::Connected(id),
    decreases trace.len(),
{
    let earlier = trace.drop_last();
    let before = replay(earlier).unwrap();
    let now = replay(trace).unwrap();
    if trace.last() == Events::<E>::Connected(id) {
        trace.len() - 1
    } else {
        lemma_replay_sound(earlier);
        match trace.last() {
            Events::Connected(other) => {
                let at = now.open.index_of(id);
                assert(before.open[at] == id);
            },
            Events::Disconnected(other) => {
                before.lemma_after_disconnected::<E>(other, id);
            },
            _ => {},
        }
        lemma_open_was_connected(earlier, id)
    }
}

/// A disconnected identifier has its `Disconnected` among the events.
pub proof fn lemma_closed_was_disconnected<E: Error>(
    trace: Seq<Events<E>>,
    id: ConnectionId,
) -> (i: int)
    requires
        well_ordered(trace),
        replay(trace).unwrap().closed.contains(id),
    ensures
        0 <= i < trace.len(),
        trace[i] == Events::<E>::Disconnected(id),
    decreases trace.len(),
{
    let earlier = trace.drop_last();
    let before = replay(earlier).unwrap();
    if trace.last() == Events::<E>::Disconnected(id) {
        trace.len() - 1
    } else {
        lemma_replay_sound(earlier);
        match trace.last() {
            Events::Disconnected(other) => {
                before.lemma_after_disconnected::<E>(other, id);
            },
            _ => {},
        }
        lemma_closed_was_disconnected(earlier, id)
    }
}

/// An identifier whose `Connected` is among the events is known to the
/// ledger.
pub proof fn lemma_connected_is_known<E: Error>(trace: Seq<Events<E>>, i: int, id: ConnectionId)
    requires
        well_ordered(trace),
        0 <= i < trace.len(),
        trace[i] == Events::<E>::Connected(id),
    ensures
        replay(trace).unwrap().knows(id),
    decreases trace.len(),
{
    let earlier = trace.drop_last();
    let before = replay(earlier).unwrap();
    let now = replay(trace).unwrap();
    if i == trace.len() - 1 {
        assert(now.open[before.open.len() as int] == id);
    } else {
        lemma_connected_is_known(earlier, i, id);
        lemma_replay_sound(earlier);
        match trace.last() {
            Events::Connected(other) => {
                if before.open.contains(id) {
                    let at = before.open.index_of(id);
                    assert(now.open[at] == id);
                }
            },
            Events::Disconnected(other) => {
                before.lemma_after_disconnected::<E>(other, id);
                before.lemma_after_disconnected::<E>(other, other);
            },
            _ => {},
        }
    }
}

/// An identifier whose `Connected` is among the events, and whose
/// `Disconnected` is not, is connected.
pub proof fn lemma_connected_stays_open<E: Error>(trace: Seq<Events<E>>, i: int, id: ConnectionId)
    requires
        well_ordered(trace),
        0 <= i < trace.len(),
        trace[i] == Events::<E>::Connected(id),
        forall|k: int| 0 <= k < trace.len() ==> #[trigger] trace[k] != Events::<E>::Disconnected(id),
    ensures
        replay(trace).unwrap().open.contains(id),
    decreases trace.len(),
{
    let earlier = trace.drop_last();
    let before = replay(earlier).unwrap();
    let now = replay(trace).unwrap();
    if i == trace.len() - 1 {
        assert(now.open[before.open.len() as int] == id);
    } else {
        assert forall|k: int| 0 <= k < earlier.len() implies #[trigger] earlier[k] != Events::<
            E,
        >::Disconnected(id) by {
            assert(earlier[k] == trace[k]);
        }
        lemma_connected_stays_open(earlier, i, id);
        lemma_replay_sound(earlier);
        match trace.last() {
            Events::Connected(other) => {
                let at = before.open.index_of(id);
                assert(now.open[at] == id);
            },
            Events::Disconnected(other) => {
                assert(trace[trace.len() - 1] != Events::<E>::Disconnected(id));
                before.lemma_after_disconnected::<E>(other, id);
            },
            _ => {},
        }
    }
}

/// A well-ordered sequence keeps the seven rules.
pub proof fn lemma_well_ordered_is_orderly<E: Error>(trace: Seq<Events<E>>)
    requires
        well_ordered(trace),
    ensures
        orderly(trace),
{
    assert forall|i: int| 0 <= i < trace.len() && (#[trigger] trace[i]) is Shutdown implies i
        == trace.len() - 1 by {
        lemma_shutdown_is_last(trace, i);
    }
    assert forall|i: int, j: int|
        0 <= i < trace.len() && 0 <= j < trace.len() && (#[trigger] trace[i]) is Ready && (
        #[trigger] trace[j]).bearer() is Some implies i < j by {
        lemma_ready_comes_first(trace, i, j);
    }
    assert forall|j: int| 0 <= j < trace.len() && (#[trigger] trace[j]) is Connected implies exists|
        i: int,
    |
        0 <= i < j && (#[trigger] trace[i]) is Ready by {
        let i = lemma_ready_before_connections(trace, j);
        assert(trace[i] is Ready);
    }
    assert forall|j: int|
        0 <= j < trace.len() && (#[trigger] trace[j]).bearer() is Some && !(trace[j] is Connected)
        implies exists|i: int|
        0 <= i < j && #[trigger] trace[i] == Events::<E>::Connected(
            trace[j].bearer().unwrap(),
        ) by {
        let id = trace[j].bearer().unwrap();
        lemma_admitted_at(trace, j);
        let i = lemma_open_was_connected(trace.take(j), id);
        assert(trace[i] == Events::<E>::Connected(id));
    }
    assert forall|i: int, j: int|
        0 <= i < j < trace.len() && (#[trigger] trace[i]) is Connected && (
        #[trigger] trace[j]) is Connected implies trace[i].bearer() != trace[j].bearer() by {
        let id = trace[i].bearer().unwrap();
        lemma_admitted_at(trace, j);
        assert(trace.take(j)[i] == Events::<E>::Connected(id));
        lemma_connected_is_known(trace.take(j), i, id);
    }
    assert forall|i: int, j: int|
        0 <= i < j < trace.len() && (#[trigger] trace[i]) is Connected && (
        #[trigger] trace[j]) is Shutdown implies exists|k: int|
        i < k < j && #[trigger] trace[k] == Events::<E>::Disconnected(
            trace[i].bearer().unwrap(),
        ) by {
        let id = trace[i].bearer().unwrap();
        let upto = trace.take(j);
        lemma_admitted_at(trace, j);
        assert(upto[i] == Events::<E>::Connected(id));
        lemma_connected_is_known(upto, i, id);
        let before = replay(upto).unwrap();
        if before.open.contains(id) {
            assert(before.open.len() > 0);
        }
        let k = lemma_closed_was_disconnected(upto, id);
        assert(trace[k] == Events::<E>::Disconnected(id));
        if k < i {
            lemma_silence_after_disconnected(trace, k, i, id);
        }
    }
    assert forall|i: int, j: int|
        0 <= i < j < trace.len() && (#[trigger] trace[i]) is Disconnected implies (
        #[trigger] trace[j]).bearer() != trace[i].bearer() by {
        lemma_silence_after_disconnected(trace, i, j, trace[i].bearer().unwrap());
    }
}

/// Every beginning of an orderly sequence is orderly.
pub proof fn lemma_orderly_without_last<E: Error>(trace: Seq<Events<E>>)
    requires
        orderly(trace),
        trace.len() > 0,
    ensures
        orderly(trace.drop_last()),
{
    let earlier = trace.drop_last();
    assert forall|i: int| 0 <= i < earlier.len() implies #[trigger] earlier[i] == trace[i] by {}
    assert(shutdown_is_last(earlier)) by {
        assert forall|i: int| 0 <= i < earlier.len() && (#[trigger] earlier[i]) is Shutdown implies i
            == earlier.len() - 1 by {
            assert(trace[i] is Shutdown);
        }
    }
    assert(disconnected_before_shutdown(earlier)) by {
        assert forall|i: int, j: int|
            0 <= i < j < earlier.len() && (#[trigger] earlier[i]) is Connected && (
            #[trigger] earlier[j]) is Shutdown implies exists|k: int|
            i < k < j && #[trigger] earlier[k] == Events::<E>::Disconnected(
                earlier[i].bearer().unwrap(),
            ) by {
            assert(trace[i] is Connected && trace[j] is Shutdown);
            let k = choose|k: int|
                i < k < j && #[trigger] trace[k] == Events::<E>::Disconnected(
                    trace[i].bearer().unwrap(),
                );
            assert(earlier[k] == Events::<E>::Disconnected(earlier[i].bearer().unwrap()));
        }
    }
    assert(ready_comes_first(earlier)) by {
        assert forall|i: int, j: int|
            0 <= i < earlier.len() && 0 <= j < earlier.len() && (#[trigger] earlier[i]) is Ready
                && (#[trigger] earlier[j]).bearer() is Some implies i < j by {
            assert(trace[i] is Ready && trace[j].bearer() is Some);
        }
    }
    assert(ready_before_connected(earlier)) by {
        assert forall|j: int|
            0 <= j < earlier.len() && (#[trigger] earlier[j]) is Connected implies exists|i: int|
            0 <= i < j && (#[trigger] earlier[i]) is Ready by {
            assert(trace[j] is Connected);
            let i = choose|i: int| 0 <= i < j && (#[trigger] trace[i]) is Ready;
            assert(earlier[i] is Ready);
        }
    }
    assert(connected_before_the_rest(earlier)) by {
        assert forall|j: int|
            0 <= j < earlier.len() && (#[trigger] earlier[j]).bearer() is Some && !(
            earlier[j] is Connected) implies exists|i: int|
            0 <= i < j && #[trigger] earlier[i] == Events::<E>::Connected(
                earlier[j].bearer().unwrap(),
            ) by {
            assert(trace[j].bearer() is Some && !(trace[j] is Connected));
            let i = choose|i: int|
                0 <= i < j && #[trigger] trace[i] == Events::<E>::Connected(
                    trace[j].bearer().unwrap(),
                );
            assert(earlier[i] == Events::<E>::Connected(earlier[j].bearer().unwrap()));
        }
    }
    assert(connected_once(earlier)) by {
        assert forall|i: int, j: int|
            0 <= i < j < earlier.len() && (#[trigger] earlier[i]) is Connected && (
            #[trigger] earlier[j]) is Connected implies earlier[i].bearer()
            != earlier[j].bearer() by {
            assert(trace[i] is Connected && trace[j] is Connected);
        }
    }
    assert(silence_after_disconnected(earlier)) by {
        assert forall|i: int, j: int|
            0 <= i < j < earlier.len() && (#[trigger] earlier[i]) is Disconnected implies (
            #[trigger] earlier[j]).bearer() != earlier[i].bearer() by {
            assert(trace[i] is Disconnected && trace[j] == earlier[j]);
        }
    }
}

/// A sequence that keeps the seven rules is well ordered.
pub proof fn lemma_orderly_is_well_ordered<E: Error>(trace: Seq<Events<E>>)
    requires
        orderly(trace),
    ensures
        well_ordered(trace),
    decreases trace.len(),
{
    if trace.len() > 0 {
        let earlier = trace.drop_last();
        let n = trace.len() - 1;
        let event = trace[n];
        lemma_orderly_without_last(trace);
        lemma_orderly_is_well_ordered(earlier);
        lemma_replay_sound(earlier);
        let before = replay(earlier).unwrap();
        assert forall|i: int| 0 <= i < earlier.len() implies #[trigger] earlier[i] == trace[i] by {}
        if before.stopped {
            let i = lemma_stopped_by_shutdown(earlier);
            assert(trace[i] is Shutdown);
        }
        match event {
            Events::Ready => {
                if before.open.len() + before.closed.len() > 0 {
                    let j = lemma_mark_has_bearer(earlier);
                    assert(trace[j].bearer() is Some && trace[n] is Ready);
                }
            },
            Events::Shutdown => {
                if before.open.len() > 0 {
                    let id = before.open[0];
                    let i = lemma_open_was_connected(earlier, id);
                    assert(trace[i] is Connected && trace[n] is Shutdown);
                    let k = choose|k: int|
                        i < k < n && #[trigger] trace[k] == Events::<E>::Disconnected(id);
                    assert(earlier[k] == Events::<E>::Disconnected(id));
                    lemma_disconnected_stays_closed(earlier, k, id);
                }
            },
            Events::Connected(id) => {
                assert(trace[n] is Connected);
                let r = choose|i: int| 0 <= i < n && (#[trigger] trace[i]) is Ready;
                lemma_ready_sticks(earlier, r);
                if before.open.contains(id) {
                    let i = lemma_open_was_connected(earlier, id);
                    assert(trace[i] is Connected && trace[i].bearer() == trace[n].bearer());
                }
                if before.closed.contains(id) {
                    let i = lemma_closed_was_disconnected(earlier, id);
                    assert(trace[i] is Disconnected && trace[n].bearer() == trace[i].bearer());
                }
            },
            _ => {
                if event.bearer() is Some {
                    let id = event.bearer().unwrap();
                    assert(trace[n].bearer() is Some && !(trace[n] is Connected));
                    let c = choose|i: int|
                        0 <= i < n && #[trigger] trace[i] == Events::<E>::Connected(id);
                    assert forall|k: int| 0 <= k < earlier.len() implies #[trigger] earlier[k]
                        != Events::<E>::Disconnected(id) by {
                        if earlier[k] == Events::<E>::Disconnected(id) {
                            assert(trace[k] is Disconnected && trace[n].bearer()
                                == trace[k].bearer());
                        }
                    }
                    lemma_connected_stays_open(earlier, c, id);
                }
            },
        }
        assert(before.admits(event));
    }
}

/// The rules and the ledger describe the same sequences.
pub proof fn lemma_orderly_iff_well_ordered<E: Error>(trace: Seq<Events<E>>)
    ensures
        orderly(trace) <==> well_ordered(trace),
{
    if orderly(trace) {
        lemma_orderly_is_well_ordered(trace);
    }
    if well_ordered(trace) {
        lemma_well_ordered_is_orderly(trace);
    }
}

} // verus!
