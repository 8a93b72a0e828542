//! A server that lives in memory: it keeps its events and its wire writes
//! where a caller can read them, and carries out every command at once.
//! It shows what the commands owe their caller, and stands in for a real
//! transport wherever one is to be exercised without a network.

use crate::events::{Error, Events};
use crate::ident::ConnectionId;
use crate::laws::{about, is_complete, lemma_finished_stories};
use crate::monitor::Monitor;
use crate::protocol::{lemma_replay_push, lemma_replay_sound, replay, well_ordered, Ledger};
use vstd::prelude::*;

verus! {

/// Why a command was not carried out.
#[derive(Clone, Copy, Debug, PartialEq, Eq, Structural)]
pub enum Refusal {
    /// The server has stopped and takes no more commands.
    Stopped,
    /// The server is listening already.
    AlreadyListening,
    /// No connected peer bears this identifier.
    UnknownConnection(ConnectionId),
}

/// `Disconnected` for each of the identifiers, in their order.
pub open spec fn farewells<E: Error>(ids: Seq<ConnectionId>) -> Seq<Events<E>> {
    ids.map_values(|id: ConnectionId| Events::<E>::Disconnected(id))
}

/// One write of `bytes` to each of the identifiers, in their order.
pub open spec fn copies(ids: Seq<ConnectionId>, bytes: Seq<u8>) -> Seq<(ConnectionId, Seq<u8>)> {
    ids.map_values(|id: ConnectionId| (id, bytes))
}

/// Wire writes as plain values: who was written to, and which bytes.
pub open spec fn payloads(wire: Seq<(ConnectionId, Vec<u8>)>) -> Seq<(ConnectionId, Seq<u8>)> {
    wire.map_values(|write: (ConnectionId, Vec<u8>)| (write.0, write.1@))
}

/// All there is to know of a loopback server.
pub struct Scene<E: Error> {
    /// Every event emitted so far, in the order of emission.
    pub history: Seq<Events<E>>,
    /// The events that the observer has not taken yet: the end of `history`.
    pub unread: Seq<Events<E>>,
    /// Every write enqueued so far, in order.
    pub written: Seq<(ConnectionId, Seq<u8>)>,
}

impl<E: Error> Scene<E> {
    /// The scene of a server that has done nothing yet.
    pub open spec fn start() -> Scene<E> {
        Scene { history: Seq::empty(), unread: Seq::empty(), written: Seq::empty() }
    }

    /// The ledger that the events so far have left behind.
    pub open spec fn ledger(self) -> Ledger {
        replay(self.history).unwrap()
    }

    /// The scene once `events` have been emitted.
    pub open spec fn emit(self, events: Seq<Events<E>>) -> Scene<E> {
        Scene { history: self.history + events, unread: self.unread + events, ..self }
    }

    /// The scene once `writes` have been enqueued.
    pub open spec fn write(self, writes: Seq<(ConnectionId, Seq<u8>)>) -> Scene<E> {
        Scene { written: self.written + writes, ..self }
    }

    /// The peers that a send reaches: the one named, or all that are
    /// connected.
    pub open spec fn targets(self, client: Option<ConnectionId>) -> Seq<ConnectionId> {
        match client {
            Some(id) => seq![id],
            None => self.ledger().open,
        }
    }
}

/// A server in memory.
pub struct Loopback<E: Error> {
    monitor: Monitor,
    unread: Vec<Events<E>>,
    wire: Vec<(ConnectionId, Vec<u8>)>,
    taken: Ghost<Seq<Events<E>>>,
}

impl<E: Error> View for Loopback<E> {
    type V = Scene<E>;

    closed spec fn view(&self) -> Scene<E> {
        Scene {
            history: self.taken@ + self.unread@,
            unread: self.unread@,
            written: payloads(self.wire@),
        }
    }
}

impl<E: Error> Loopback<E> {
    /// The events so far are well ordered and the server knows where they
    /// have led.
    pub closed spec fn wf(&self) -> bool {
        &&& self.monitor.wf()
        &&& replay(self@.history) == Some(self.monitor@)
    }

    /// The events of a loopback server are well ordered, and those not yet
    /// taken are the last of them.
    pub proof fn lemma_well_ordered(&self)
        requires
            self.wf(),
        ensures
            well_ordered(self@.history),
            self@.ledger().sound(),
            self@.unread.len() <= self@.history.len(),
            self@.unread == self@.history.skip(self@.history.len() - self@.unread.len()),
    {
        lemma_replay_sound(self@.history);
    }

    /// A server that has done nothing yet.
    pub fn new() -> (server: Loopback<E>)
        ensures
            server.wf(),
            server@ == Scene::<E>::start(),
    {
        let server = Loopback {
            monitor: Monitor::new(),
            unread: Vec::new(),
            wire: Vec::new(),
            taken: Ghost(Seq::empty()),
        };
        assert(server@.written =~= Seq::empty());
        server
    }

    /// Whether the server has stopped.
    pub fn is_stopped(&self) -> (stopped: bool)
        requires
            self.wf(),
        ensures
            stopped == self@.ledger().stopped,
    {
        self.monitor.is_stopped()
    }

    /// Whether the server has begun to listen.
    pub fn is_listening(&self) -> (ready: bool)
        requires
            self.wf(),
        ensures
            ready == self@.ledger().ready,
    {
        self.monitor.is_ready()
    }

    /// The peers that are connected, in the order they connected.
    pub fn peers(&self) -> (peers: &Vec<ConnectionId>)
        requires
            self.wf(),
        ensures
            peers@ == self@.ledger().open,
    {
        self.monitor.peers()
    }

    /// Every write enqueued so far, in order.
    pub fn written(&self) -> (wire: &Vec<(ConnectionId, Vec<u8>)>)
        ensures
            payloads(wire@) == self@.written,
    {
        &self.wire
    }

    /// Emits one event that the ledger admits.
    fn emit(&mut self, event: Events<E>)
        requires
            old(self).wf(),
            old(self)@.ledger().admits(event),
        ensures
            final(self).wf(),
            final(self)@ == old(self)@.emit(seq![event]),
            final(self)@.ledger() == old(self)@.ledger().after(event),
    {
        proof {
            lemma_replay_push(self@.history, event);
        }
        self.monitor.observe(&event);
        self.unread.push(event);
        assert(self@.history =~= old(self)@.history + seq![event]);
        assert(self@.unread =~= old(self)@.unread + seq![event]);
    }

    /// Begins to accept connections and says so with `Ready`. Listening is
    /// begun once: a server that listens already, or has stopped, refuses.
    pub fn listen(&mut self) -> (done: Result<(), Refusal>)
        requires
            old(self).wf(),
        ensures
            final(self).wf(),
            old(self)@.ledger().stopped ==> done == Err::<(), Refusal>(Refusal::Stopped),
            !old(self)@.ledger().stopped && old(self)@.ledger().ready ==> done == Err::<
                (),
                Refusal,
            >(Refusal::AlreadyListening),
            !old(self)@.ledger().stopped && !old(self)@.ledger().ready ==> done is Ok,
            done is Ok ==> final(self)@ == old(self)@.emit(seq![Events::Ready]),
            done is Ok ==> final(self)@.ledger() == old(self)@.ledger().after(Events::<E>::Ready),
            done is Err ==> final(self)@ == old(self)@,
    {
        if self.monitor.is_stopped() {
            return Err(Refusal::Stopped);
        }
        if self.monitor.is_ready() {
            return Err(Refusal::AlreadyListening);
        }
        self.emit(Events::Ready);
        Ok(())
    }

    /// Emits an event of the transport's own making: a connection accepted
    /// or lost, bytes received, an error. The event is emitted if the order
    /// of events admits it next; otherwise it is handed back and nothing
    /// changes. `Ready` and `Shutdown` are not for the transport to report:
    /// they come from `listen` and `shutdown`.
    pub fn report(&mut self, event: Events<E>) -> (done: Result<(), Events<E>>)
        requires
            old(self).wf(),
        ensures
            final(self).wf(),
            done is Ok <==> !(event is Ready) && !(event is Shutdown) && old(
                self,
            )@.ledger().admits(event),
            done is Ok ==> final(self)@ == old(self)@.emit(seq![event]),
            done is Ok ==> final(self)@.ledger() == old(self)@.ledger().after(event),
            done is Err ==> done == Err::<(), Events<E>>(event) && final(self)@ == old(self)@,
    {
        let lifecycle = match &event {
            Events::Ready => true,
            Events::Shutdown => true,
            _ => false,
        };
        if lifecycle || !self.monitor.admits(&event) {
            return Err(event);
        }
        self.emit(event);
        Ok(())
    }

    /// Hands over the events that have not been taken yet, in the order of
    /// emission.
    pub fn drain(&mut self) -> (events: Vec<Events<E>>)
        requires
            old(self).wf(),
        ensures
            final(self).wf(),
            events@ == old(self)@.unread,
            final(self)@ == (Scene { unread: Seq::empty(), ..old(self)@ }),
    {
        let mut events: Vec<Events<E>> = Vec::new();
        core::mem::swap(&mut self.unread, &mut events);
        self.taken = Ghost(self.taken@ + events@);
        events
    }

    /// Closes every connected peer, first connected first.
    fn close_all(&mut self)
        requires
            old(self).wf(),
            !old(self)@.ledger().stopped,
        ensures
            final(self).wf(),
            final(self)@ == old(self)@.emit(farewells(old(self)@.ledger().open)),
            final(self)@.ledger() == old(self)@.ledger().after_all_closed(),
    {
        let ghost before = self@;
        let ghost ids = self@.ledger().open;
        let ghost mut k: int = 0;
        assert(ids.skip(0) =~= ids);
        assert(before.emit(farewells::<E>(ids.take(0))) == before);
        while self.monitor.peers().len() > 0
            invariant
                self.wf(),
                0 <= k <= ids.len(),
                self@.ledger() == (Ledger {
                    open: ids.skip(k),
                    closed: before.ledger().closed + ids.take(k),
                    ..before.ledger()
                }),
                !before.ledger().stopped,
                ids == before.ledger().open,
                self@ == before.emit(farewells(ids.take(k))),
            decreases self@.ledger().open.len(),
        {
            let id = self.monitor.peers()[0];
            let ghost open = self@.ledger().open;
            proof {
                self.lemma_well_ordered();
                assert(open.remove(0) =~= ids.skip(k + 1));
                assert((before.ledger().closed + ids.take(k)).push(id) =~= before.ledger().closed
                    + ids.take(k + 1));
                assert(farewells::<E>(ids.take(k + 1)) =~= farewells::<E>(ids.take(k)) + seq![
                    Events::<E>::Disconnected(id),
                ]);
                assert(before.history + (farewells::<E>(ids.take(k)) + seq![
                    Events::<E>::Disconnected(id),
                ]) =~= before.history + farewells::<E>(ids.take(k)) + seq![
                    Events::<E>::Disconnected(id),
                ]);
                assert(before.unread + (farewells::<E>(ids.take(k)) + seq![
                    Events::<E>::Disconnected(id),
                ]) =~= before.unread + farewells::<E>(ids.take(k)) + seq![
                    Events::<E>::Disconnected(id),
                ]);
            }
            self.emit(Events::Disconnected(id));
            proof {
                k = k + 1;
            }
        }
        assert(ids.skip(k) =~= Seq::empty());
    }

    /// Stops the server for good: every connected peer is closed, first
    /// connected first, and `Shutdown` is emitted last. Every connection the
    /// server ever had has then run its whole course. A server that has
    /// stopped already refuses, and emits nothing more.
    pub fn shutdown(&mut self) -> (done: Result<(), Refusal>)
        requires
            old(self).wf(),
        ensures
            final(self).wf(),
            done == (if old(self)@.ledger().stopped {
                Err::<(), Refusal>(Refusal::Stopped)
            } else {
                Ok::<(), Refusal>(())
            }),
            done is Ok ==> final(self)@ == old(self)@.emit(
                farewells(old(self)@.ledger().open).push(Events::Shutdown),
            ),
            done is Ok ==> final(self)@.ledger() == old(self)@.ledger().after_all_closed().after(
                Events::<E>::Shutdown,
            ),
            done is Ok ==> forall|id: ConnectionId|
                about(final(self)@.history, id).len() == 0 || is_complete(
                    #[trigger] about(final(self)@.history, id),
                    id,
                ),
            done is Err ==> final(self)@ == old(self)@,
    {
        if self.monitor.is_stopped() {
            return Err(Refusal::Stopped);
        }
        self.close_all();
        self.emit(Events::Shutdown);
        proof {
            self.lemma_well_ordered();
            lemma_finished_stories(self@.history);
            let leaving = farewells::<E>(old(self)@.ledger().open);
            assert(old(self)@.history + leaving + seq![Events::<E>::Shutdown] =~= old(
                self,
            )@.history + leaving.push(Events::Shutdown));
            assert(old(self)@.unread + leaving + seq![Events::<E>::Shutdown] =~= old(self)@.unread
                + leaving.push(Events::Shutdown));
        }
        Ok(())
    }

    /// Closes one connected peer and says so with `Disconnected`. The call
    /// fails, and emits nothing, if the server has stopped or no connected
    /// peer bears the identifier.
    pub fn disconnect(&mut self, client: ConnectionId) -> (done: Result<(), Refusal>)
        requires
            old(self).wf(),
        ensures
            final(self).wf(),
            done == (if old(self)@.ledger().stopped {
                Err::<(), Refusal>(Refusal::Stopped)
            } else if !old(self)@.ledger().open.contains(client) {
                Err::<(), Refusal>(Refusal::UnknownConnection(client))
            } else {
                Ok::<(), Refusal>(())
            }),
            done is Ok ==> final(self)@ == old(self)@.emit(seq![Events::Disconnected(client)]),
            done is Ok ==> final(self)@.ledger() == old(self)@.ledger().after(
                Events::<E>::Disconnected(client),
            ),
            done is Err ==> final(self)@ == old(self)@,
            !old(self)@.ledger().open.contains(client) ==> done is Err && final(self)@.history
                == old(self)@.history,
    {
        if self.monitor.is_stopped() {
            return Err(Refusal::Stopped);
        }
        if !self.monitor.is_open(client) {
            return Err(Refusal::UnknownConnection(client));
        }
        self.emit(Events::Disconnected(client));
        Ok(())
    }

    /// Closes every connected peer, first connected first, with one
    /// `Disconnected` each. The call fails only if the server has stopped.
    pub fn disconnect_all(&mut self) -> (done: Result<(), Refusal>)
        requires
            old(self).wf(),
        ensures
            final(self).wf(),
            done == (if old(self)@.ledger().stopped {
                Err::<(), Refusal>(Refusal::Stopped)
            } else {
                Ok::<(), Refusal>(())
            }),
            done is Ok ==> final(self)@ == old(self)@.emit(farewells(old(self)@.ledger().open)),
            done is Ok ==> final(self)@.ledger() == old(self)@.ledger().after_all_closed(),
            done is Err ==> final(self)@ == old(self)@,
    {
        if self.monitor.is_stopped() {
            return Err(Refusal::Stopped);
        }
        self.close_all();
        Ok(())
    }

    /// Enqueues `buffer`, unchanged, for the peer named, or once for every
    /// connected peer if none is named. No event is emitted. The call fails,
    /// and enqueues nothing, if the server has stopped or the peer named is
    /// not connected.
    pub fn send(&mut self, buffer: Vec<u8>, client: Option<ConnectionId>) -> (done: Result<
        (),
        Refusal,
    >)
        requires
            old(self).wf(),
        ensures
            final(self).wf(),
            done == (if old(self)@.ledger().stopped {
                Err::<(), Refusal>(Refusal::Stopped)
            } else if client is Some && !old(self)@.ledger().open.contains(client.unwrap()) {
                Err::<(), Refusal>(Refusal::UnknownConnection(client.unwrap()))
            } else {
                Ok::<(), Refusal>(())
            }),
            done is Ok ==> final(self)@ == old(self)@.write(
                copies(old(self)@.targets(client), buffer@),
            ),
            done is Err ==> final(self)@ == old(self)@,
            final(self)@.history == old(self)@.history,
            final(self)@.unread == old(self)@.unread,
            !old(self)@.ledger().stopped && client is None && old(self)@.ledger().open.len() == 0
                ==> done is Ok && final(self)@ == old(self)@,
            !old(self)@.ledger().stopped && client is Some && old(self)@.ledger().open.contains(
                client.unwrap(),
            ) ==> done is Ok && final(self)@.written == old(self)@.written.push(
                (client.unwrap(), buffer@),
            ),
    {
        if self.monitor.is_stopped() {
            return Err(Refusal::Stopped);
        }
        match client {
            Some(id) => {
                if !self.monitor.is_open(id) {
                    return Err(Refusal::UnknownConnection(id));
                }
                self.wire.push((id, buffer));
                assert(self@.written =~= old(self)@.written + copies(seq![id], buffer@));
            },
            None => {
                let mut i: usize = 0;
                while i < self.monitor.peers().len()
                    invariant
                        i <= self.monitor@.open.len(),
                        self.monitor == old(self).monitor,
                        self.unread == old(self).unread,
                        self.taken == old(self).taken,
                        payloads(self.wire@) == payloads(old(self).wire@) + copies(
                            self.monitor@.open.take(i as int),
                            buffer@,
                        ),
                    decreases self.monitor@.open.len() - i,
                {
                    let id = self.monitor.peers()[i];
                    let bytes = buffer.clone();
                    let ghost sofar = self.wire@;
                    self.wire.push((id, bytes));
                    assert(payloads(self.wire@) =~= payloads(sofar).push((id, buffer@)));
                    i += 1;
                }
                assert(self.monitor@.open.take(i as int) =~= self.monitor@.open);
            },
        }
        Ok(())
    }
}

} // verus!
