//! The order in which a server may emit its events.
//!
//! The rules are given as a ledger that is brought forward one event at a
//! time: a sequence of events is well ordered when every event in it is
//! admitted by the ledger that the events before it have left behind.

use crate::events::{Error, Events};
use crate::ident::ConnectionId;
use vstd::prelude::*;

verus! {

/// What has to be remembered of the events so far to judge the next one.
pub struct Ledger {
    /// `Ready` has been emitted.
    pub ready: bool,
    /// `Shutdown` has been emitted.
    pub stopped: bool,
    /// The connections that are connected, in the order they connected.
    pub open: Seq<ConnectionId>,
    /// The connections that have disconnected, in the order they did.
    pub closed: Seq<ConnectionId>,
}

impl Ledger {
    /// The ledger before any event.
    pub open spec fn start() -> Ledger {
        Ledger { ready: false, stopped: false, open: Seq::empty(), closed: Seq::empty() }
    }

    /// Whether the identifier has ever been connected.
    pub open spec fn knows(self, id: ConnectionId) -> bool {
        self.open.contains(id) || self.closed.contains(id)
    }

    /// Whether `event` may come next. Nothing follows `Shutdown`, and
    /// `Shutdown` comes only once every connection has disconnected. `Ready`
    /// comes before every event that bears an identifier. An identifier is
    /// connected once, after `Ready`; every other event that bears it comes
    /// while it is connected. Other events that bear no identifier may come
    /// at any time.
    pub open spec fn admits<E: Error>(self, event: Events<E>) -> bool {
        !self.stopped && match event {
            Events::Ready => self.open.len() == 0 && self.closed.len() == 0,
            Events::Shutdown => self.open.len() == 0,
            Events::Connected(id) => self.ready && !self.knows(id),
            _ => match event.bearer() {
                Some(id) => self.open.contains(id),
                None => true,
            },
        }
    }

    /// The ledger once `event` has been emitted.
    pub open spec fn after<E: Error>(self, event: Events<E>) -> Ledger {
        match event {
            Events::Ready => Ledger { ready: true, ..self },
            Events::Shutdown => Ledger { stopped: true, ..self },
            Events::Connected(id) => Ledger { open: self.open.push(id), ..self },
            Events::Disconnected(id) => Ledger {
                open: self.open.remove(self.open.index_of(id)),
                closed: self.closed.push(id),
                ..self
            },
            _ => self,
        }
    }

    /// The ledger once every connected peer has disconnected, first
    /// connected first.
    pub open spec fn after_all_closed(self) -> Ledger {
        Ledger { open: Seq::empty(), closed: self.closed + self.open, ..self }
    }

    /// What holds of every ledger that events have led to: no identifier is
    /// listed twice, none is both connected and disconnected, there are
    /// identifiers only once the server is ready, and none is connected once
    /// it has stopped.
    pub open spec fn sound(self) -> bool {
        &&& self.open.no_duplicates()
        &&& self.closed.no_duplicates()
        &&& self.open.disjoint(self.closed)
        &&& (self.open.len() > 0 || self.closed.len() > 0) ==> self.ready
        &&& self.stopped ==> self.open.len() == 0
    }

    /// An admitted event leaves a sound ledger sound.
    pub proof fn lemma_after_sound<E: Error>(self, event: Events<E>)
        requires
            self.sound(),
            self.admits(event),
        ensures
            self.after(event).sound(),
    {
    }

    /// In a sound ledger, disconnecting `id` removes it from the connected
    /// and leaves every other identifier where it was.
    pub proof fn lemma_after_disconnected<E: Error>(self, id: ConnectionId, other: ConnectionId)
        requires
            self.sound(),
            self.open.contains(id),
        ensures
            !self.after(Events::<E>::Disconnected(id)).open.contains(id),
            self.after(Events::<E>::Disconnected(id)).closed.contains(id),
            other != id ==> (self.after(Events::<E>::Disconnected(id)).open.contains(other)
                <==> self.open.contains(other)),
            other != id ==> (self.after(Events::<E>::Disconnected(id)).closed.contains(other)
                <==> self.closed.contains(other)),
    {
        let at = self.open.index_of(id);
        let rest = self.open.remove(at);
        let shut = self.closed.push(id);
        assert(shut[self.closed.len() as int] == id);
        if other != id {
            if self.open.contains(other) {
                let j = self.open.index_of(other);
                assert(rest[if j < at {
                    j
                } else {
                    j - 1
                }] == other);
            }
            if self.closed.contains(other) {
                let j = self.closed.index_of(other);
                assert(shut[j] == other);
            }
        }
    }
}

/// The ledger that a sequence of events leaves behind, if every event in it
/// was admitted when it came.
pub open spec fn replay<E: Error>(trace: Seq<Events<E>>) -> Option<Ledger>
    decreases trace.len(),
{
    if trace.len() == 0 {
        Some(Ledger::start())
    } else {
        match replay(trace.drop_last()) {
            Some(before) => if before.admits(trace.last()) {
                Some(before.after(trace.last()))
            } else {
                None
            },
            None => None,
        }
    }
}

/// Whether a server may emit exactly these events, in this order.
pub open spec fn well_ordered<E: Error>(trace: Seq<Events<E>>) -> bool {
    replay(trace) is Some
}

/// The ledger of a well-ordered sequence is sound.
pub proof fn lemma_replay_sound<E: Error>(trace: Seq<Events<E>>)
    requires
        well_ordered(trace),
    ensures
        replay(trace).unwrap().sound(),
    decreases trace.len(),
{
    if trace.len() > 0 {
        lemma_replay_sound(trace.drop_last());
        replay(trace.drop_last()).unwrap().lemma_after_sound(trace.last());
    }
}

/// Every beginning of a well-ordered sequence is well ordered.
pub proof fn lemma_prefix_well_ordered<E: Error>(trace: Seq<Events<E>>, n: int)
    requires
        well_ordered(trace),
        0 <= n <= trace.len(),
    ensures
        well_ordered(trace.take(n)),
    decreases trace.len(),
{
    if n == trace.len() {
        assert(trace.take(n) =~= trace);
    } else {
        assert(trace.drop_last().take(n) =~= trace.take(n));
        lemma_prefix_well_ordered(trace.drop_last(), n);
    }
}

/// In a well-ordered sequence, the events before any place are well
/// ordered, their ledger admits the event at that place, and that event
/// brings the ledger forward.
pub proof fn lemma_admitted_at<E: Error>(trace: Seq<Events<E>>, j: int)
    requires
        well_ordered(trace),
        0 <= j < trace.len(),
    ensures
        well_ordered(trace.take(j)),
        well_ordered(trace.take(j + 1)),
        replay(trace.take(j)).unwrap().admits(trace[j]),
        replay(trace.take(j + 1)) == Some(replay(trace.take(j)).unwrap().after(trace[j])),
{
    lemma_prefix_well_ordered(trace, j + 1);
    assert(trace.take(j + 1).drop_last() =~= trace.take(j));
}

/// Appending one event to a sequence brings its ledger forward by that
/// event, if the ledger admits it.
pub proof fn lemma_replay_push<E: Error>(trace: Seq<Events<E>>, event: Events<E>)
    ensures
        replay(trace.push(event)) == match replay(trace) {
            Some(before) => if before.admits(event) {
                Some(before.after(event))
            } else {
                None
            },
            None => None,
        },
{
    assert(trace.push(event).drop_last() =~= trace);
}

} // verus!
