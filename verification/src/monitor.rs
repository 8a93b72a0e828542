//! Following a server's events as they arrive.

use crate::events::{Error, Events};
use crate::ident::ConnectionId;
use crate::laws::{about, is_complete, lemma_finished_stories};
use crate::protocol::{lemma_prefix_well_ordered, replay, well_ordered, Ledger};
use vstd::prelude::*;

verus! {

/// Where `id` stands in `list`, if it does; the first place if it stands
/// there more than once.
fn position(list: &Vec<ConnectionId>, id: ConnectionId) -> (at: Option<usize>)
    ensures
        match at {
            Some(i) => i < list@.len() && list@[i as int] == id && forall|j: int|
                0 <= j < i ==> list@[j] != id,
            None => !list@.contains(id),
        },
{
    let mut i: usize = 0;
    while i < list.len()
        invariant
            i <= list@.len(),
            forall|j: int| 0 <= j < i ==> list@[j] != id,
        decreases list@.len() - i,
    {
        if list[i] == id {
            return Some(i);
        }
        i += 1;
    }
    None
}

/// The running ledger of one server's events: it judges each event against
/// those before it and remembers what the next judgement needs.
pub struct Monitor {
    ready: bool,
    stopped: bool,
    open: Vec<ConnectionId>,
    closed: Vec<ConnectionId>,
}

impl View for Monitor {
    type V = Ledger;

    closed spec fn view(&self) -> Ledger {
        Ledger {
            ready: self.ready,
            stopped: self.stopped,
            open: self.open@,
            closed: self.closed@,
        }
    }
}

impl Monitor {
    /// The ledger is one that events can have led to.
    pub open spec fn wf(&self) -> bool {
        self@.sound()
    }

    /// A monitor that has seen no event.
    pub fn new() -> (monitor: Monitor)
        ensures
            monitor@ == Ledger::start(),
            monitor.wf(),
    {
        Monitor { ready: false, stopped: false, open: Vec::new(), closed: Vec::new() }
    }

    /// Whether `Ready` has been seen.
    pub fn is_ready(&self) -> (ready: bool)
        ensures
            ready == self@.ready,
    {
        self.ready
    }

    /// Whether `Shutdown` has been seen.
    pub fn is_stopped(&self) -> (stopped: bool)
        ensures
            stopped == self@.stopped,
    {
        self.stopped
    }

    /// Whether the connection is connected now.
    pub fn is_open(&self, id: ConnectionId) -> (open: bool)
        ensures
            open == self@.open.contains(id),
    {
        position(&self.open, id).is_some()
    }

    /// Whether the connection has ever been connected.
    pub fn knows(&self, id: ConnectionId) -> (known: bool)
        ensures
            known == self@.knows(id),
    {
        position(&self.open, id).is_some() || position(&self.closed, id).is_some()
    }

    /// The connections that are connected now, in the order they connected.
    pub fn peers(&self) -> (peers: &Vec<ConnectionId>)
        ensures
            peers@ == self@.open,
    {
        &self.open
    }

    /// Whether `event` may come next.
    pub fn admits<E: Error>(&self, event: &Events<E>) -> (ok: bool)
        ensures
            ok == self@.admits(*event),
    {
        if self.stopped {
            return false;
        }
        match event {
            Events::Ready => self.open.len() == 0 && self.closed.len() == 0,
            Events::Shutdown => self.open.len() == 0,
            Events::Connected(id) => self.ready && !self.knows(*id),
            _ => match event.connection() {
                Some(id) => self.is_open(id),
                None => true,
            },
        }
    }

    /// Takes the next event. An event that may not come next is refused and
    /// leaves the monitor as it was.
    pub fn observe<E: Error>(&mut self, event: &Events<E>) -> (ok: bool)
        requires
            old(self).wf(),
        ensures
            final(self).wf(),
            ok == old(self)@.admits(*event),
            ok ==> final(self)@ == old(self)@.after(*event),
            !ok ==> final(self)@ == old(self)@,
    {
        if !self.admits(event) {
            return false;
        }
        proof {
            self@.lemma_after_sound(*event);
        }
        match event {
            Events::Ready => {
                self.ready = true;
            },
            Events::Shutdown => {
                self.stopped = true;
            },
            Events::Connected(id) => {
                self.open.push(*id);
            },
            Events::Disconnected(id) => {
                let found = position(&self.open, *id);
                let at = found.unwrap();
                self.open.remove(at);
                self.closed.push(*id);
            },
            _ => {},
        }
        true
    }

    /// Whether a server may have emitted exactly these events, in this order.
    pub fn check<E: Error>(trace: &Vec<Events<E>>) -> (ok: bool)
        ensures
            ok == well_ordered(trace@),
    {
        let mut monitor = Monitor::new();
        let mut i: usize = 0;
        while i < trace.len()
            invariant
                i <= trace@.len(),
                monitor.wf(),
                replay(trace@.take(i as int)) == Some(monitor@),
            decreases trace@.len() - i,
        {
            assert(trace@.take(i + 1).drop_last() =~= trace@.take(i as int));
            if !monitor.observe(&trace[i]) {
                proof {
                    if well_ordered(trace@) {
                        lemma_prefix_well_ordered(trace@, i + 1);
                    }
                }
                return false;
            }
            i += 1;
        }
        assert(trace@.take(i as int) =~= trace@);
        true
    }

    /// Whether these are all the events of a server that has run its course:
    /// they are well ordered and `Shutdown` is the last of them. Every
    /// connection among them has then been connected and disconnected.
    pub fn check_finished<E: Error>(trace: &Vec<Events<E>>) -> (ok: bool)
        ensures
            ok == (well_ordered(trace@) && trace@.len() > 0 && trace@.last() is Shutdown),
            ok ==> replay(trace@).unwrap().stopped && replay(trace@).unwrap().open.len() == 0,
            ok ==> forall|id: ConnectionId|
                about(trace@, id).len() == 0 || is_complete(#[trigger] about(trace@, id), id),
    {
        if trace.len() == 0 {
            return false;
        }
        let ended = match &trace[trace.len() - 1] {
            Events::Shutdown => true,
            _ => false,
        };
        let ok = ended && Monitor::check(trace);
        proof {
            if ok {
                lemma_finished_stories(trace@);
            }
        }
        ok
    }
}

} // verus!
