use vstd::prelude::*;

use crate::endpoint::EndpointRegistry;
use crate::errors::{BindError, SendError};
use crate::message::{
    connected_event, disconnected_event, message_event, EventModel, IpcMessage,
};
use crate::queue::EventQueue;
use crate::trace::{
    client_events, client_trace_shape, closed_client_trace, connected_ids,
    lemma_client_events_concat, lemma_client_events_push, lemma_client_trace_shape_prefix,
    lemma_connected_ids_push, lifecycle_payloads_empty, open_client_trace,
};

verus! {

/// The capacity of a server's event queue when the host does not choose
/// one: fixed and small, so a slow consumer becomes backpressure on fast
/// producers instead of unbounded buffering or silent loss.
pub const DEFAULT_EVENT_QUEUE_CAPACITY: usize = 32;

/// How long, in milliseconds, the host waits during shutdown for a
/// signalled session to publish its `Disconnected` event and close before
/// forcibly closing its transport.
pub const STOP_GRACE_PERIOD_MS: u64 = 2000;

/// Where a tracked session stands in its lifecycle. A session is `Active`
/// from the moment its `Connected` event is enqueued until it is told to
/// terminate; it is `Terminating` once `stop` has signalled it, when all
/// that remains is to publish its `Disconnected` event and leave the
/// registry. A closed session is simply no longer tracked.
#[derive(Clone, Copy, Debug, PartialEq, Eq, Structural)]
pub enum SessionPhase {
    Active,
    Terminating,
}

/// One tracked client session: the non-owning reference the server keeps
/// for `send` fan-out and `stop` signalling.
#[derive(Clone, Copy, Debug, PartialEq, Eq, Structural)]
pub struct Session {
    pub id: u32,
    pub phase: SessionPhase,
}

/// Whether some tracked session carries `id`.
pub open spec fn has_session(sessions: Seq<Session>, id: u32) -> bool {
    exists|i: int| 0 <= i < sessions.len() && (#[trigger] sessions[i]).id == id
}

/// Whether the session carrying `id` is live (still reading, a broadcast
/// target).
pub open spec fn is_live(sessions: Seq<Session>, id: u32) -> bool {
    exists|i: int|
        0 <= i < sessions.len() && (#[trigger] sessions[i]).id == id
            && sessions[i].phase is Active
}

/// No two simultaneously-tracked sessions share an id.
pub open spec fn distinct_ids(sessions: Seq<Session>) -> bool {
    forall|i: int, j: int|
        0 <= i < j < sessions.len()
            ==> (#[trigger] sessions[i]).id != (#[trigger] sessions[j]).id
}

/// Every tracked session has been signalled to terminate.
pub open spec fn all_terminating(sessions: Seq<Session>) -> bool {
    forall|i: int| 0 <= i < sessions.len() ==> (#[trigger] sessions[i]).phase is Terminating
}

/// The ids of the live sessions, in registry order: the broadcast targets
/// of `send`.
pub open spec fn live_ids(sessions: Seq<Session>) -> Seq<u32>
    decreases sessions.len(),
{
    if sessions.len() == 0 {
        Seq::<u32>::empty()
    } else {
        let rest = live_ids(sessions.drop_last());
        if sessions.last().phase is Active {
            rest.push(sessions.last().id)
        } else {
            rest
        }
    }
}

/// The mathematical state of one server instance.
#[verifier::ext_equal]
pub struct ServerModel {
    /// The logical endpoint name this server bound.
    pub endpoint: Seq<char>,
    /// False once `stop` has run; a stopped server never runs again.
    pub running: bool,
    /// The id the next accepted client will get; ids are never reused.
    pub next_id: u32,
    /// The registry of tracked sessions, in accept order.
    pub sessions: Seq<Session>,
    /// The events sitting in the bounded queue, oldest first.
    pub queue: Seq<EventModel>,
    /// The fixed capacity of the event queue.
    pub capacity: nat,
    /// The events the consumer bridge has already handed to the host
    /// callback, in delivery order.
    pub delivered: Seq<EventModel>,
}

impl ServerModel {
    /// Every event this server ever enqueued, in order: what the consumer
    /// has seen followed by what still waits in the queue.
    pub open spec fn history(self) -> Seq<EventModel> {
        self.delivered + self.queue
    }

    /// The per-client ordering discipline for one id: a tracked session's
    /// stream is open (`Connected`, then only `Message`s so far); a spent
    /// id's stream is closed by exactly one `Disconnected`; an unassigned
    /// id has no events at all.
    pub open spec fn client_ok(self, id: u32) -> bool {
        if has_session(self.sessions, id) {
            open_client_trace(client_events(self.history(), id))
        } else if id < self.next_id {
            closed_client_trace(client_events(self.history(), id))
        } else {
            client_events(self.history(), id).len() == 0
        }
    }

    /// The server invariant: the queue respects its bound, tracked ids are
    /// unique and below `next_id`, a stopped server tracks only
    /// terminating sessions, every client's stream is well shaped, and the
    /// ids ever assigned are exactly 0, 1, ... `next_id` - 1 in order.
    pub open spec fn wf(self) -> bool {
        &&& self.capacity >= 1
        &&& self.queue.len() <= self.capacity
        &&& distinct_ids(self.sessions)
        &&& forall|i: int|
            0 <= i < self.sessions.len() ==> (#[trigger] self.sessions[i]).id < self.next_id
        &&& (!self.running ==> all_terminating(self.sessions))
        &&& forall|id: u32| #[trigger] self.client_ok(id)
        &&& lifecycle_payloads_empty(self.history())
        &&& connected_ids(self.history()) == Seq::new(self.next_id as nat, |i: int| i as u32)
    }
}

/// The state a server starts in: running, nothing tracked, nothing queued,
/// nothing delivered, no id assigned yet.
pub open spec fn fresh_server(endpoint: Seq<char>, capacity: nat) -> ServerModel {
    ServerModel {
        endpoint,
        running: true,
        next_id: 0,
        sessions: Seq::<Session>::empty(),
        queue: Seq::<EventModel>::empty(),
        capacity,
        delivered: Seq::<EventModel>::empty(),
    }
}

/// A fresh server satisfies the invariant.
pub proof fn lemma_fresh_server_wf(endpoint: Seq<char>, capacity: nat)
    requires
        capacity >= 1,
    ensures
        fresh_server(endpoint, capacity).wf(),
{
    let m = fresh_server(endpoint, capacity);
    assert(m.history() =~= Seq::<EventModel>::empty());
    assert forall|id: u32| #[trigger] m.client_ok(id) by {
        assert(client_events(m.history(), id).len() == 0);
    }
    assert(connected_ids(m.history()) =~= Seq::new(0, |i: int| i as u32));
}

/// Every tracked session, signalled to terminate: what the registry holds
/// the moment `stop` has run.
pub open spec fn terminate_all(sessions: Seq<Session>) -> Seq<Session> {
    sessions.map_values(|s: Session| Session { id: s.id, phase: SessionPhase::Terminating })
}

/// The state transition `stop` performs: the server stops running and
/// every tracked session is signalled; ids, queue, capacity and the event
/// history are untouched.
pub open spec fn stop_model(m: ServerModel) -> ServerModel {
    ServerModel { running: false, sessions: terminate_all(m.sessions), ..m }
}

/// Stopping preserves the server invariant.
pub proof fn lemma_stop_wf(m: ServerModel)
    requires
        m.wf(),
    ensures
        stop_model(m).wf(),
{
    let m1 = stop_model(m);
    assert forall|a: int, b: int| 0 <= a < b < m1.sessions.len() implies (
    #[trigger] m1.sessions[a]).id != (#[trigger] m1.sessions[b]).id by {
        assert(m.sessions[a].id != m.sessions[b].id);
    }
    assert forall|j: int| 0 <= j < m1.sessions.len() implies (#[trigger] m1.sessions[j]).id
        < m1.next_id by {
        assert(m.sessions[j].id < m.next_id);
    }
    assert(m1.history() == m.history());
    assert forall|id: u32| #[trigger] m1.client_ok(id) by {
        assert(m.client_ok(id));
        if has_session(m1.sessions, id) {
            let w = choose|i: int|
                0 <= i < m1.sessions.len() && (#[trigger] m1.sessions[i]).id == id;
            assert(m.sessions[w].id == id);
            assert(has_session(m.sessions, id));
        }
        if has_session(m.sessions, id) {
            let w = choose|i: int| 0 <= i < m.sessions.len() && (#[trigger] m.sessions[i]).id == id;
            assert(m1.sessions[w].id == id);
            assert(has_session(m1.sessions, id));
        }
    }
}

/// What `accept` decided.
#[derive(Clone, Copy, Debug, PartialEq, Eq, Structural)]
pub enum AcceptOutcome {
    /// A connection was admitted and got this fresh id; its `Connected`
    /// event is in the queue.
    Accepted(u32),
    /// The event queue is full: nothing changed, the accept loop must
    /// suspend and retry once the consumer has drained a slot.
    MustWait,
    /// The server is stopped (or the id space is spent): nothing changed
    /// and no connection is admitted.
    Refused,
}

/// What publishing a session event came to.
#[derive(Clone, Copy, Debug, PartialEq, Eq, Structural)]
pub enum PublishOutcome {
    /// The event went into the queue.
    Enqueued,
    /// The queue is full: nothing changed, nothing was dropped, the
    /// producing session must suspend and retry.
    MustWait,
    /// No session in the right phase carries that id: nothing changed.
    Rejected,
}

/// One IPC server instance: the verified core of the connection lifecycle.
/// The host binds the real transport, runs the accept and read loops, and
/// reports what it observes; every decision — which id a client gets,
/// which events reach the queue in which order, who a broadcast targets,
/// what `stop` tears down — is made and proved here.
pub struct IpcServer {
    name: String,
    running: bool,
    next_id: u32,
    sessions: Vec<Session>,
    queue: EventQueue,
    delivered: Ghost<Seq<EventModel>>,
}

impl View for IpcServer {
    type V = ServerModel;

    closed spec fn view(&self) -> ServerModel {
        ServerModel {
            endpoint: self.name@,
            running: self.running,
            next_id: self.next_id,
            sessions: self.sessions@,
            queue: self.queue.contents(),
            capacity: self.queue.cap(),
            delivered: self.delivered@,
        }
    }
}

impl IpcServer {
    /// Create and start a server on the named endpoint. Fails with
    /// `BindError` exactly when the name is already in use by a live
    /// server; on success the name is claimed and the server starts
    /// fresh with an empty bounded queue of the given capacity.
    pub fn listen(
        name: String,
        endpoints: &mut EndpointRegistry,
        capacity: usize,
    ) -> (r: Result<IpcServer, BindError>)
        requires
            old(endpoints).wf(),
            capacity >= 1,
        ensures
            final(endpoints).wf(),
            match r {
                Result::Err(_) => old(endpoints).is_bound(name@) && *final(endpoints) == *old(
                    endpoints,
                ),
                Result::Ok(server) => {
                    &&& !old(endpoints).is_bound(name@)
                    &&& final(endpoints).names() == old(endpoints).names().push(name@)
                    &&& server@ == fresh_server(name@, capacity as nat)
                    &&& server@.wf()
                },
            },
    {
        let ghost nm = name@;
        match endpoints.bind(&name) {
            Err(e) => Err(e),
            Ok(_) => {
                let server = IpcServer {
                    name,
                    running: true,
                    next_id: 0,
                    sessions: Vec::new(),
                    queue: EventQueue::new(capacity),
                    delivered: Ghost(Seq::<EventModel>::empty()),
                };
                proof {
                    lemma_fresh_server_wf(nm, capacity as nat);
                    assert(server@ =~= fresh_server(nm, capacity as nat));
                }
                Ok(server)
            },
        }
    }

    /// Whether the server is still running (`stop` has not been called).
    pub fn is_running(&self) -> (b: bool)
        ensures
            b == self@.running,
    {
        self.running
    }

    /// How many sessions the registry currently tracks.
    pub fn session_count(&self) -> (n: usize)
        ensures
            n == self@.sessions.len(),
    {
        self.sessions.len()
    }

    /// How many events wait in the queue for the consumer bridge.
    pub fn pending_events(&self) -> (n: usize)
        ensures
            n == self@.queue.len(),
    {
        self.queue.len()
    }

    /// Admit one accepted connection: assign the next client id, track the
    /// session as live, and enqueue its `Connected` event — or refuse to,
    /// changing nothing, when the server is stopped, and suspend, changing
    /// nothing, while the queue is full.
    pub fn accept(&mut self) -> (r: AcceptOutcome)
        requires
            old(self)@.wf(),
        ensures
            final(self)@.wf(),
            match r {
                AcceptOutcome::Refused => (!old(self)@.running || old(self)@.next_id
                    == u32::MAX) && *final(self) == *old(self),
                AcceptOutcome::MustWait => old(self)@.running && old(self)@.next_id < u32::MAX
                    && old(self)@.queue.len() == old(self)@.capacity && *final(self) == *old(self),
                AcceptOutcome::Accepted(id) => {
                    &&& old(self)@.running
                    &&& old(self)@.next_id < u32::MAX
                    &&& old(self)@.queue.len() < old(self)@.capacity
                    &&& id == old(self)@.next_id
                    &&& final(self)@ == (ServerModel {
                        next_id: (old(self)@.next_id + 1) as u32,
                        sessions: old(self)@.sessions.push(
                            Session { id, phase: SessionPhase::Active },
                        ),
                        queue: old(self)@.queue.push(connected_event(id)),
                        ..old(self)@
                    })
                },
            },
    {
        if !self.running || self.next_id == u32::MAX {
            return AcceptOutcome::Refused;
        }
        let id = self.next_id;
        let ev = IpcMessage::connected(id);
        match self.queue.try_enqueue(ev) {
            Some(_) => AcceptOutcome::MustWait,
            None => {
                self.next_id = id + 1;
                self.sessions.push(Session { id, phase: SessionPhase::Active });
                proof {
                    let m0 = old(self)@;
                    let m1 = self@;
                    let e = connected_event(id);
                    assert(m1.history() =~= m0.history().push(e));
                    lemma_connected_ids_push(m0.history(), e);
                    assert forall|k: int| 0 <= k < m1.history().len() implies ((
                    #[trigger] m1.history()[k]).kind is Message || m1.history()[k].message.len()
                        == 0) by {
                        if k < m0.history().len() {
                            assert(m1.history()[k] == m0.history()[k]);
                        } else {
                            assert(m1.history()[k] == e);
                        }
                    }
                    assert(connected_ids(m1.history()) =~= Seq::new(
                        m1.next_id as nat,
                        |i: int| i as u32,
                    ));
                    assert forall|i: int, j: int| 0 <= i < j < m1.sessions.len() implies (
                    #[trigger] m1.sessions[i]).id != (#[trigger] m1.sessions[j]).id by {
                        if j == m1.sessions.len() - 1 {
                            assert(m1.sessions[i] == m0.sessions[i]);
                        }
                    }
                    assert forall|cid: u32| #[trigger] m1.client_ok(cid) by {
                        lemma_client_events_push(m0.history(), e, cid);
                        assert(m0.client_ok(cid));
                        if cid == id {
                            assert(!has_session(m0.sessions, cid));
                            assert(client_events(m0.history(), cid).len() == 0);
                            let s1 = client_events(m1.history(), cid);
                            assert(s1.len() == 1 && s1[0] == e);
                            assert(m1.sessions[m1.sessions.len() - 1].id == cid);
                            assert(has_session(m1.sessions, cid));
                            assert(open_client_trace(s1));
                        } else {
                            assert(client_events(m1.history(), cid) == client_events(
                                m0.history(),
                                cid,
                            ));
                            if has_session(m1.sessions, cid) {
                                let w = choose|i: int|
                                    0 <= i < m1.sessions.len() && (#[trigger] m1.sessions[i]).id
                                        == cid;
                                assert(w < m0.sessions.len());
                                assert(m0.sessions[w].id == cid);
                                assert(has_session(m0.sessions, cid));
                            }
                            if has_session(m0.sessions, cid) {
                                let w = choose|i: int|
                                    0 <= i < m0.sessions.len() && (#[trigger] m0.sessions[i]).id
                                        == cid;
                                assert(m1.sessions[w].id == cid);
                                assert(has_session(m1.sessions, cid));
                            }
                        }
                    }
                    assert(m1 =~= (ServerModel {
                        next_id: (m0.next_id + 1) as u32,
                        sessions: m0.sessions.push(Session { id, phase: SessionPhase::Active }),
                        queue: m0.queue.push(connected_event(id)),
                        ..m0
                    }));
                }
                AcceptOutcome::Accepted(id)
            },
        }
    }

    /// Find the registry index of the session carrying `client_id`.
    fn find_session(&self, client_id: u32) -> (r: Option<usize>)
        ensures
            match r {
                Option::Some(i) => i < self@.sessions.len() && self@.sessions[i as int].id
                    == client_id,
                Option::None => !has_session(self@.sessions, client_id),
            },
    {
        let mut i: usize = 0;
        while i < self.sessions.len()
            invariant
                0 <= i <= self.sessions.len(),
                forall|j: int| 0 <= j < i ==> (#[trigger] self.sessions@[j]).id != client_id,
            decreases self.sessions.len() - i,
        {
            if self.sessions[i].id == client_id {
                return Some(i);
            }
            i += 1;
        }
        None
    }

    /// Publish one framed payload read from a live session: enqueue its
    /// `Message` event. A full queue suspends the session (nothing
    /// changes, nothing is dropped); an id with no live session is
    /// rejected (a terminating or departed client publishes no more
    /// messages).
    pub fn client_message(&mut self, client_id: u32, payload: String) -> (r: PublishOutcome)
        requires
            old(self)@.wf(),
        ensures
            final(self)@.wf(),
            match r {
                PublishOutcome::Rejected => !is_live(old(self)@.sessions, client_id) && *final(self) == *old(self),
                PublishOutcome::MustWait => is_live(old(self)@.sessions, client_id) && old(self)@.queue.len() == old(self)@.capacity && *final(self) == *old(self),
                PublishOutcome::Enqueued => {
                    &&& is_live(old(self)@.sessions, client_id)
                    &&& old(self)@.queue.len() < old(self)@.capacity
                    &&& final(self)@ == (ServerModel {
                        queue: old(self)@.queue.push(message_event(client_id, payload@)),
                        ..old(self)@
                    })
                },
            },
    {
        let idx = match self.find_session(client_id) {
            None => {
                proof {
                    if is_live(self@.sessions, client_id) {
                        let w = choose|i: int|
                            0 <= i < self@.sessions.len() && (#[trigger] self@.sessions[i]).id
                                == client_id && self@.sessions[i].phase is Active;
                        assert(has_session(self@.sessions, client_id));
                    }
                }
                return PublishOutcome::Rejected;
            },
            Some(i) => i,
        };
        let s = self.sessions[idx];
        match s.phase {
            SessionPhase::Terminating => {
                proof {
                    if is_live(self@.sessions, client_id) {
                        let w = choose|i: int|
                            0 <= i < self@.sessions.len() && (#[trigger] self@.sessions[i]).id
                                == client_id && self@.sessions[i].phase is Active;
                        assert(w != idx);
                        assert(self@.sessions[w].id == self@.sessions[idx as int].id);
                        assert(false);
                    }
                }
                PublishOutcome::Rejected
            },
            SessionPhase::Active => {
                proof {
                    assert(is_live(self@.sessions, client_id));
                }
                let ev = IpcMessage::text(client_id, payload);
                match self.queue.try_enqueue(ev) {
                    Some(_) => PublishOutcome::MustWait,
                    None => {
                        proof {
                            let m0 = old(self)@;
                            let m1 = self@;
                            let e = message_event(client_id, ev.message@);
                            assert(m1.history() =~= m0.history().push(e));
                            lemma_connected_ids_push(m0.history(), e);
                            assert(connected_ids(m1.history()) == connected_ids(m0.history()));
                            assert forall|k: int| 0 <= k < m1.history().len() implies ((
                            #[trigger] m1.history()[k]).kind is Message || m1.history()[k].message.len()
                                == 0) by {
                                if k < m0.history().len() {
                                    assert(m1.history()[k] == m0.history()[k]);
                                } else {
                                    assert(m1.history()[k] == e);
                                }
                            }
                            assert forall|cid: u32| #[trigger] m1.client_ok(cid) by {
                                lemma_client_events_push(m0.history(), e, cid);
                                assert(m0.client_ok(cid));
                                if cid == client_id {
                                    assert(has_session(m0.sessions, cid));
                                    let s0 = client_events(m0.history(), cid);
                                    let s1 = client_events(m1.history(), cid);
                                    assert(s1 == s0.push(e));
                                    assert forall|i: int| 1 <= i < s1.len() implies (
                                    #[trigger] s1[i].kind) is Message by {
                                        if i < s1.len() - 1 {
                                            assert(s1[i] == s0[i]);
                                        }
                                    }
                                    assert(s1[0] == s0[0]);
                                    assert(open_client_trace(s1));
                                } else {
                                    assert(client_events(m1.history(), cid) == client_events(
                                        m0.history(),
                                        cid,
                                    ));
                                }
                            }
                            assert(m1 =~= (ServerModel {
                                queue: m0.queue.push(message_event(client_id, e.message)),
                                ..m0
                            }));
                        }
                        PublishOutcome::Enqueued
                    },
                }
            },
        }
    }

    /// Close the session carrying `client_id` — the peer went away, a read
    /// or write on it failed, or it was signalled by `stop`: enqueue its
    /// `Disconnected` event exactly once and drop it from the registry. A
    /// full queue suspends the closing session (nothing changes, nothing
    /// is dropped); an id no longer tracked is rejected, so `Disconnected`
    /// can never be published twice.
    pub fn client_disconnected(&mut self, client_id: u32) -> (r: PublishOutcome)
        requires
            old(self)@.wf(),
        ensures
            final(self)@.wf(),
            match r {
                PublishOutcome::Rejected => !has_session(old(self)@.sessions, client_id)
                    && *final(self) == *old(self),
                PublishOutcome::MustWait => has_session(old(self)@.sessions, client_id) && old(self)@.queue.len() == old(self)@.capacity && *final(self) == *old(self),
                PublishOutcome::Enqueued => {
                    &&& has_session(old(self)@.sessions, client_id)
                    &&& old(self)@.queue.len() < old(self)@.capacity
                    &&& exists|i: int|
                        0 <= i < old(self)@.sessions.len() && (#[trigger] old(self)@.sessions[i]).id == client_id && final(self)@ == (ServerModel {
                            sessions: old(self)@.sessions.remove(i),
                            queue: old(self)@.queue.push(disconnected_event(client_id)),
                            ..old(self)@
                        })
                },
            },
    {
        let idx = match self.find_session(client_id) {
            None => {
                return PublishOutcome::Rejected;
            },
            Some(i) => i,
        };
        let ev = IpcMessage::disconnected(client_id);
        match self.queue.try_enqueue(ev) {
            Some(_) => PublishOutcome::MustWait,
            None => {
                let ghost gi = idx as int;
                self.sessions.remove(idx);
                proof {
                    let m0 = old(self)@;
                    let m1 = self@;
                    let e = disconnected_event(client_id);
                    m0.sessions.remove_ensures(gi);
                    assert(m1.history() =~= m0.history().push(e));
                    lemma_connected_ids_push(m0.history(), e);
                    assert(connected_ids(m1.history()) == connected_ids(m0.history()));
                    assert forall|k: int| 0 <= k < m1.history().len() implies ((
                    #[trigger] m1.history()[k]).kind is Message || m1.history()[k].message.len()
                        == 0) by {
                        if k < m0.history().len() {
                            assert(m1.history()[k] == m0.history()[k]);
                        } else {
                            assert(m1.history()[k] == e);
                        }
                    }
                    assert forall|a: int, b: int| 0 <= a < b < m1.sessions.len() implies (
                    #[trigger] m1.sessions[a]).id != (#[trigger] m1.sessions[b]).id by {
                        let oa = if a < gi { a } else { a + 1 };
                        let ob = if b < gi { b } else { b + 1 };
                        assert(m1.sessions[a] == m0.sessions[oa]);
                        assert(m1.sessions[b] == m0.sessions[ob]);
                    }
                    assert forall|j: int| 0 <= j < m1.sessions.len() implies (
                    #[trigger] m1.sessions[j]).id < m1.next_id by {
                        let oj = if j < gi { j } else { j + 1 };
                        assert(m1.sessions[j] == m0.sessions[oj]);
                    }
                    if !m1.running {
                        assert forall|j: int| 0 <= j < m1.sessions.len() implies (
                        #[trigger] m1.sessions[j]).phase is Terminating by {
                            let oj = if j < gi { j } else { j + 1 };
                            assert(m1.sessions[j] == m0.sessions[oj]);
                        }
                    }
                    assert forall|cid: u32| #[trigger] m1.client_ok(cid) by {
                        lemma_client_events_push(m0.history(), e, cid);
                        assert(m0.client_ok(cid));
                        if cid == client_id {
                            assert(has_session(m0.sessions, cid));
                            if has_session(m1.sessions, cid) {
                                let w = choose|i: int|
                                    0 <= i < m1.sessions.len() && (#[trigger] m1.sessions[i]).id
                                        == cid;
                                let ow = if w < gi { w } else { w + 1 };
                                assert(m1.sessions[w] == m0.sessions[ow]);
                                assert(m0.sessions[ow].id == m0.sessions[gi].id);
                                assert(false);
                            }
                            let s0 = client_events(m0.history(), cid);
                            let s1 = client_events(m1.history(), cid);
                            assert(s1 == s0.push(e));
                            assert(open_client_trace(s0));
                            assert forall|i: int| 1 <= i < s1.len() - 1 implies (
                            #[trigger] s1[i].kind) is Message by {
                                assert(s1[i] == s0[i]);
                            }
                            assert(s1[0] == s0[0]);
                            assert(s1.last() == e);
                            assert(closed_client_trace(s1));
                            assert(m0.sessions[gi].id == cid);
                            assert(cid < m1.next_id);
                        } else {
                            assert(client_events(m1.history(), cid) == client_events(
                                m0.history(),
                                cid,
                            ));
                            if has_session(m1.sessions, cid) {
                                let w = choose|i: int|
                                    0 <= i < m1.sessions.len() && (#[trigger] m1.sessions[i]).id
                                        == cid;
                                let ow = if w < gi { w } else { w + 1 };
                                assert(m1.sessions[w] == m0.sessions[ow]);
                                assert(has_session(m0.sessions, cid));
                            }
                            if has_session(m0.sessions, cid) {
                                let w = choose|i: int|
                                    0 <= i < m0.sessions.len() && (#[trigger] m0.sessions[i]).id
                                        == cid;
                                assert(w != gi);
                                let nw = if w < gi { w } else { w - 1 };
                                assert(m1.sessions[nw] == m0.sessions[w]);
                                assert(has_session(m1.sessions, cid));
                            }
                        }
                    }
                    assert(m0.sessions[gi].id == client_id);
                    assert(m1 =~= (ServerModel {
                        sessions: m0.sessions.remove(gi),
                        queue: m0.queue.push(disconnected_event(client_id)),
                        ..m0
                    }));
                }
                PublishOutcome::Enqueued
            },
        }
    }

    /// Stop the server: signal the accept loop and every tracked session
    /// to terminate, and give the endpoint name back so it can be bound
    /// again. Returns the ids of the sessions newly signalled (the host
    /// joins them, forcing any that outlives the grace period); on an
    /// already-stopped server nothing is signalled. Events, queue and
    /// history are untouched: the signalled sessions still publish their
    /// `Disconnected` events through the queue, and once the registry is
    /// drained no event is ever published again.
    pub fn stop(&mut self, endpoints: &mut EndpointRegistry) -> (signaled: Vec<u32>)
        requires
            old(self)@.wf(),
            old(endpoints).wf(),
        ensures
            final(self)@.wf(),
            final(self)@ == stop_model(old(self)@),
            signaled@ == live_ids(old(self)@.sessions),
            final(endpoints).wf(),
            !final(endpoints).is_bound(old(self)@.endpoint),
            forall|other: Seq<char>|
                other != old(self)@.endpoint ==> (final(endpoints).is_bound(other) == old(
                    endpoints,
                ).is_bound(other)),
    {
        self.running = false;
        let mut signaled: Vec<u32> = Vec::new();
        let mut i: usize = 0;
        proof {
            assert(old(self)@.sessions.take(0) =~= Seq::<Session>::empty());
        }
        while i < self.sessions.len()
            invariant
                0 <= i <= self.sessions@.len(),
                self@.sessions.len() == old(self)@.sessions.len(),
                self@.endpoint == old(self)@.endpoint,
                self@.running == false,
                self@.next_id == old(self)@.next_id,
                self@.queue == old(self)@.queue,
                self@.capacity == old(self)@.capacity,
                self@.delivered == old(self)@.delivered,
                forall|j: int|
                    0 <= j < i ==> (#[trigger] self@.sessions[j]) == (Session {
                        id: old(self)@.sessions[j].id,
                        phase: SessionPhase::Terminating,
                    }),
                forall|j: int|
                    i <= j < self@.sessions.len() ==> (#[trigger] self@.sessions[j]) == old(
                        self,
                    )@.sessions[j],
                signaled@ == live_ids(old(self)@.sessions.take(i as int)),
            decreases self.sessions@.len() - i,
        {
            let s = self.sessions[i];
            match s.phase {
                SessionPhase::Active => {
                    signaled.push(s.id);
                },
                SessionPhase::Terminating => {},
            }
            self.sessions.set(i, Session { id: s.id, phase: SessionPhase::Terminating });
            proof {
                let pre = old(self)@.sessions.take(i as int);
                let cur = old(self)@.sessions.take(i + 1);
                assert(cur.drop_last() =~= pre);
                assert(cur.last() == old(self)@.sessions[i as int]);
            }
            i += 1;
        }
        endpoints.release(&self.name);
        proof {
            assert(old(self)@.sessions.take(old(self)@.sessions.len() as int) =~= old(
                self,
            )@.sessions);
            assert(self@.sessions =~= terminate_all(old(self)@.sessions));
            assert(self@ =~= stop_model(old(self)@));
            lemma_stop_wf(old(self)@);
        }
        signaled
    }

    /// Resolve one broadcast: `payload` is to be written to every live
    /// session's transport, each exactly once, in registry order. Fails
    /// with `SendError` exactly when the server is already stopped. A
    /// write the host then fails to complete terminates only that session
    /// (its disconnect path), never the broadcast.
    pub fn send(&self, payload: String) -> (r: Result<Broadcast, SendError>)
        requires
            self@.wf(),
        ensures
            match r {
                Result::Err(_) => !self@.running,
                Result::Ok(b) => {
                    &&& self@.running
                    &&& b.targets@ == live_ids(self@.sessions)
                    &&& b.payload@ == payload@
                },
            },
    {
        if !self.running {
            return Err(SendError);
        }
        let mut targets: Vec<u32> = Vec::new();
        let mut i: usize = 0;
        proof {
            assert(self@.sessions.take(0) =~= Seq::<Session>::empty());
        }
        while i < self.sessions.len()
            invariant
                0 <= i <= self@.sessions.len(),
                targets@ == live_ids(self@.sessions.take(i as int)),
            decreases self@.sessions.len() - i,
        {
            let s = self.sessions[i];
            match s.phase {
                SessionPhase::Active => {
                    targets.push(s.id);
                },
                SessionPhase::Terminating => {},
            }
            proof {
                let pre = self@.sessions.take(i as int);
                let cur = self@.sessions.take(i + 1);
                assert(cur.drop_last() =~= pre);
                assert(cur.last() == self@.sessions[i as int]);
            }
            i += 1;
        }
        proof {
            assert(self@.sessions.take(self@.sessions.len() as int) =~= self@.sessions);
        }
        Ok(Broadcast { targets, payload })
    }

    /// The consumer bridge's step: take the oldest queued event, to be
    /// handed to the host callback. The bridge is the queue's only
    /// consumer and waits for each callback to return before dequeuing
    /// the next, so delivery order is queue order and callbacks never
    /// overlap. Returns `None` exactly when the queue is empty.
    pub fn next_event(&mut self) -> (r: Option<IpcMessage>)
        requires
            old(self)@.wf(),
        ensures
            final(self)@.wf(),
            match r {
                Option::None => old(self)@.queue.len() == 0 && *final(self) == *old(self),
                Option::Some(m) => {
                    &&& old(self)@.queue.len() >= 1
                    &&& m@ == old(self)@.queue[0]
                    &&& final(self)@ == (ServerModel {
                        queue: old(self)@.queue.skip(1),
                        delivered: old(self)@.delivered.push(old(self)@.queue[0]),
                        ..old(self)@
                    })
                },
            },
    {
        match self.queue.dequeue() {
            None => None,
            Some(m) => {
                self.delivered = Ghost(self.delivered@.push(m@));
                proof {
                    let m0 = old(self)@;
                    let m1 = self@;
                    assert(m1.history() =~= m0.history());
                    assert forall|cid: u32| #[trigger] m1.client_ok(cid) by {
                        assert(m0.client_ok(cid));
                    }
                    assert(m1 =~= (ServerModel {
                        queue: m0.queue.skip(1),
                        delivered: m0.delivered.push(m0.queue[0]),
                        ..m0
                    }));
                }
                Some(m)
            },
        }
    }
}

/// One resolved broadcast: the host writes `payload` to the transport of
/// each id in `targets`.
pub struct Broadcast {
    /// The live sessions at the moment of the call, each exactly once.
    pub targets: Vec<u32>,
    /// The text every target receives.
    pub payload: String,
}

/// LAW — unique, sequential client ids: over any run of one server, the
/// ids carried by the `Connected` events ever emitted are exactly
/// 0, 1, ..., `next_id` - 1, in assignment order; in particular they are
/// strictly increasing, so no two clients ever share an id and no id is
/// reused after a disconnect.
pub proof fn lemma_client_ids_sequential(m: ServerModel)
    requires
        m.wf(),
    ensures
        connected_ids(m.history()).len() == m.next_id,
        forall|i: int| 0 <= i < m.next_id ==> #[trigger] connected_ids(m.history())[i] == i as u32,
        forall|a: int, b: int|
            0 <= a < b < m.next_id ==> #[trigger] connected_ids(m.history())[a]
                < #[trigger] connected_ids(m.history())[b],
{
    let ids = connected_ids(m.history());
    assert forall|a: int, b: int| 0 <= a < b < m.next_id implies #[trigger] ids[a]
        < #[trigger] ids[b] by {
        assert(ids[a] == a as u32);
        assert(ids[b] == b as u32);
    }
}

/// LAW — per-client event order: for any client id, the full event stream
/// of one server, and likewise the part of it the consumer has already
/// observed, restricted to that id, is exactly one `Connected`, then zero
/// or more `Message` events in publish order, then at most one
/// `Disconnected` — never reordered, never duplicated, never omitted; and
/// the observed part is exactly what was published for that id minus what
/// still waits in the queue.
pub proof fn lemma_per_client_stream(m: ServerModel, id: u32)
    requires
        m.wf(),
    ensures
        client_trace_shape(client_events(m.history(), id)),
        client_trace_shape(client_events(m.delivered, id)),
        client_events(m.history(), id) == client_events(m.delivered, id) + client_events(
            m.queue,
            id,
        ),
{
    assert(m.client_ok(id));
    lemma_client_events_concat(m.delivered, m.queue, id);
    let h = client_events(m.history(), id);
    let d = client_events(m.delivered, id);
    assert(d =~= h.take(d.len() as int));
    lemma_client_trace_shape_prefix(h, d.len() as int);
}

/// LAW — `stop` is idempotent: stopping a server a second time is the
/// identity on its state, signals no session, and adds nothing to the
/// event history.
pub proof fn lemma_stop_idempotent(m: ServerModel)
    ensures
        stop_model(stop_model(m)) == stop_model(m),
        stop_model(m).history() == m.history(),
{
    assert(terminate_all(terminate_all(m.sessions)) =~= terminate_all(m.sessions));
    assert(stop_model(stop_model(m)) =~= stop_model(m));
}

/// No session of an all-terminating registry is a broadcast target.
pub proof fn lemma_live_ids_all_terminating(sessions: Seq<Session>)
    requires
        all_terminating(sessions),
    ensures
        live_ids(sessions).len() == 0,
    decreases sessions.len(),
{
    if sessions.len() > 0 {
        let pre = sessions.drop_last();
        assert forall|j: int| 0 <= j < pre.len() implies (
        #[trigger] pre[j]).phase is Terminating by {
            assert(pre[j] == sessions[j]);
        }
        lemma_live_ids_all_terminating(pre);
        assert(sessions[sessions.len() - 1].phase is Terminating);
    }
}

/// LAW — a stopped server is quiescent: after `stop` no session is live,
/// so a broadcast has no targets, no further `Message` event can be
/// published, and once every signalled session has published its
/// `Disconnected` and left the registry, no event at all is ever
/// published again.
pub proof fn lemma_stopped_quiescent(m: ServerModel)
    requires
        m.wf(),
        !m.running,
    ensures
        live_ids(m.sessions).len() == 0,
        forall|id: u32| !is_live(m.sessions, id),
{
    lemma_live_ids_all_terminating(m.sessions);
    assert forall|id: u32| !is_live(m.sessions, id) by {
        if is_live(m.sessions, id) {
            let w = choose|i: int|
                0 <= i < m.sessions.len() && (#[trigger] m.sessions[i]).id == id
                    && m.sessions[i].phase is Active;
            assert(m.sessions[w].phase is Terminating);
        }
    }
}

/// LAW — a broadcast reaches each live client exactly once: the fan-out
/// targets of `send` are precisely the ids with a live session, and no id
/// appears twice in the target list.
pub proof fn lemma_broadcast_targets(sessions: Seq<Session>)
    requires
        distinct_ids(sessions),
    ensures
        forall|x: u32| #[trigger] live_ids(sessions).contains(x) <==> is_live(sessions, x),
        forall|a: int, b: int|
            0 <= a < b < live_ids(sessions).len() ==> #[trigger] live_ids(sessions)[a]
                != #[trigger] live_ids(sessions)[b],
    decreases sessions.len(),
{
    let l = live_ids(sessions);
    if sessions.len() == 0 {
        assert forall|x: u32| #[trigger] l.contains(x) <==> is_live(sessions, x) by {
            assert(!l.contains(x));
            assert(!is_live(sessions, x));
        }
    } else {
        let pre = sessions.drop_last();
        let s = sessions.last();
        assert forall|a: int, b: int| 0 <= a < b < pre.len() implies (#[trigger] pre[a]).id != (
        #[trigger] pre[b]).id by {
            assert(pre[a] == sessions[a]);
            assert(pre[b] == sessions[b]);
        }
        lemma_broadcast_targets(pre);
        let lp = live_ids(pre);
        assert forall|x: u32| #[trigger] l.contains(x) <==> is_live(sessions, x) by {
            if l.contains(x) {
                let k = choose|k: int| 0 <= k < l.len() && l[k] == x;
                if s.phase is Active && k == l.len() - 1 {
                    assert(sessions[sessions.len() - 1].id == x);
                    assert(is_live(sessions, x));
                } else {
                    assert(lp[k] == x);
                    assert(lp.contains(x));
                    assert(is_live(pre, x));
                    let w = choose|i: int|
                        0 <= i < pre.len() && (#[trigger] pre[i]).id == x && pre[i].phase
                            is Active;
                    assert(sessions[w] == pre[w]);
                    assert(is_live(sessions, x));
                }
            }
            if is_live(sessions, x) {
                let w = choose|i: int|
                    0 <= i < sessions.len() && (#[trigger] sessions[i]).id == x
                        && sessions[i].phase is Active;
                if w == sessions.len() - 1 {
                    assert(l[l.len() - 1] == x);
                    assert(l.contains(x));
                } else {
                    assert(pre[w] == sessions[w]);
                    assert(is_live(pre, x));
                    assert(lp.contains(x));
                    let k = choose|k: int| 0 <= k < lp.len() && lp[k] == x;
                    assert(l[k] == x);
                    assert(l.contains(x));
                }
            }
        }
        assert forall|a: int, b: int| 0 <= a < b < l.len() implies #[trigger] l[a]
            != #[trigger] l[b] by {
            if s.phase is Active && b == l.len() - 1 {
                assert(l[a] == lp[a]);
                assert(lp.contains(lp[a]));
                assert(is_live(pre, l[a]));
                if l[a] == s.id {
                    let j = choose|i: int|
                        0 <= i < pre.len() && (#[trigger] pre[i]).id == l[a] && pre[i].phase
                            is Active;
                    assert(sessions[j] == pre[j]);
                    assert(sessions[j].id == sessions[sessions.len() - 1].id);
                    assert(false);
                }
            } else {
                assert(l[a] == lp[a]);
                assert(l[b] == lp[b]);
            }
        }
    }
}

} // verus!
