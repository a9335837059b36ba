//! One client request as the load balancer serves it: read the request,
//! pick a server, connect, forward, read the answer and relay it. The
//! network work is done by the caller; this module decides, step by step,
//! what comes next and keeps the load balancer's books.
use vstd::prelude::*;
use crate::balancer::{
    begin_step, end_step, has_server, ids_valid, index_of, lemma_index_of, lemma_update_keeps,
    response_step, rotate, select_step, total_weight, BalancerView, ForwardFailure, LoadBalancer,
    Server,
};
use crate::strategy::Strategy;

verus! {

/// Where the handling of a client request stands.
#[derive(Debug)]
pub enum SessionState {
    /// Waiting for the client's request.
    Reading,
    /// A server was chosen and counted; waiting to be connected to it.
    Connecting { server: Server },
    /// Connected; waiting for the request to have been sent on.
    Sending { server: Server },
    /// The request was sent on; waiting for the server's answer.
    Awaiting { server: Server },
    /// The client is being answered; the server stays counted until then.
    Finishing { server: Server },
    /// Nothing more to do.
    Done,
}

/// What happened since the last step.
#[derive(Debug)]
pub enum SessionEvent {
    /// The client's request was read; `len` bytes (0 where the client sent
    /// nothing or reading failed).
    Request { len: usize },
    /// The connection to the chosen server is up.
    Connected,
    /// The chosen server could not be reached.
    ConnectFailed,
    /// The request went out to the chosen server.
    Sent,
    /// The request could not be sent to the chosen server.
    SendFailed,
    /// The server answered with `len` bytes; `response_time` is the
    /// server's response time to record, in nanoseconds, measured at time
    /// `checked_at`.
    Answer { len: usize, response_time: u128, checked_at: u128 },
    /// The server's answer could not be read.
    AnswerFailed,
    /// The client was answered (or the answer could not be written).
    Replied,
}

/// What the caller is to do next.
#[derive(Debug)]
pub enum SessionAction {
    /// Close the client connection; nothing more is sent.
    Close,
    /// Connect to the server at `address`.
    ConnectTo { address: String },
    /// Send the client's request to the server.
    SendRequest,
    /// Read the server's answer.
    ReadAnswer,
    /// Pass the server's answer on to the client, then report `Replied`.
    Relay,
    /// Tell the client why its request failed, then report `Replied` where
    /// a server was chosen.
    Reply { failure: ForwardFailure },
    /// The chosen server's connection count cannot grow any further.
    CountOverflow,
    /// The event does not fit the state; nothing changes.
    Ignore,
}

/// The server whose connection the session holds counted, if any.
pub open spec fn held(state: SessionState) -> Option<usize> {
    match state {
        SessionState::Connecting { server } => Some(server.id),
        SessionState::Sending { server } => Some(server.id),
        SessionState::Awaiting { server } => Some(server.id),
        SessionState::Finishing { server } => Some(server.id),
        _ => None,
    }
}

/// One step of serving a client request: the next state, what to do, and
/// the load balancer after the step.
pub open spec fn session_step(
    v: BalancerView,
    client: Seq<char>,
    state: SessionState,
    event: SessionEvent,
) -> (SessionState, SessionAction, BalancerView) {
    match (state, event) {
        (SessionState::Reading, SessionEvent::Request { len }) => {
            if len == 0 {
                (SessionState::Done, SessionAction::Close, v)
            } else {
                let (chosen, v1) = select_step(v, client);
                match chosen {
                    None => (
                        SessionState::Done,
                        SessionAction::Reply { failure: ForwardFailure::NoServers },
                        v1,
                    ),
                    Some(server) => {
                        let (counted, v2) = begin_step(v1, server.id);
                        if counted {
                            (
                                SessionState::Connecting { server },
                                SessionAction::ConnectTo { address: server.address },
                                v2,
                            )
                        } else {
                            (SessionState::Done, SessionAction::CountOverflow, v2)
                        }
                    },
                }
            }
        },
        (SessionState::Connecting { server }, SessionEvent::Connected) => (
            SessionState::Sending { server },
            SessionAction::SendRequest,
            v,
        ),
        (SessionState::Connecting { server }, SessionEvent::ConnectFailed) => (
            SessionState::Finishing { server },
            SessionAction::Reply { failure: ForwardFailure::Connect },
            v,
        ),
        (SessionState::Sending { server }, SessionEvent::Sent) => (
            SessionState::Awaiting { server },
            SessionAction::ReadAnswer,
            v,
        ),
        (SessionState::Sending { server }, SessionEvent::SendFailed) => (
            SessionState::Finishing { server },
            SessionAction::Reply { failure: ForwardFailure::Forward },
            v,
        ),
        (SessionState::Awaiting { server }, SessionEvent::Answer { len, response_time, checked_at }) => {
            if len > 0 {
                (
                    SessionState::Finishing { server },
                    SessionAction::Relay,
                    response_step(v, server.id, response_time, checked_at).1,
                )
            } else {
                (
                    SessionState::Finishing { server },
                    SessionAction::Reply { failure: ForwardFailure::EmptyResponse },
                    v,
                )
            }
        },
        (SessionState::Awaiting { server }, SessionEvent::AnswerFailed) => (
            SessionState::Finishing { server },
            SessionAction::Reply { failure: ForwardFailure::ReadResponse },
            v,
        ),
        (SessionState::Finishing { server }, SessionEvent::Replied) => (
            SessionState::Done,
            SessionAction::Close,
            end_step(v, server.id).1,
        ),
        (state, _) => (state, SessionAction::Ignore, v),
    }
}

/// Whether the step may pick a server: a request that is not empty,
/// read while waiting for one.
pub open spec fn selects(state: SessionState, event: SessionEvent) -> bool {
    &&& state is Reading
    &&& event matches SessionEvent::Request { len } && len > 0
}

impl LoadBalancer {
    /// Advances the handling of a request from `client_ip` by one step.
    pub fn advance_session(&mut self, client_ip: &str, state: SessionState, event: SessionEvent) -> (r: (
        SessionState,
        SessionAction,
    ))
        requires
            old(self).wf(),
            selects(state, event) && old(self)@.strategy() == Strategy::WeightedRoundRobin
                ==> total_weight(old(self)@.servers) <= usize::MAX,
        ensures
            final(self).wf(),
            (r.0, r.1, final(self)@) == session_step(old(self)@, client_ip@, state, event),
    {
        match (state, event) {
            (SessionState::Reading, SessionEvent::Request { len }) => {
                if len == 0 {
                    return (SessionState::Done, SessionAction::Close);
                }
                match self.select_server(client_ip) {
                    None => (
                        SessionState::Done,
                        SessionAction::Reply { failure: ForwardFailure::NoServers },
                    ),
                    Some(server) => {
                        if self.begin_connection(server.id) {
                            let address = server.address.clone();
                            (SessionState::Connecting { server }, SessionAction::ConnectTo { address })
                        } else {
                            (SessionState::Done, SessionAction::CountOverflow)
                        }
                    },
                }
            },
            (SessionState::Connecting { server }, SessionEvent::Connected) => (
                SessionState::Sending { server },
                SessionAction::SendRequest,
            ),
            (SessionState::Connecting { server }, SessionEvent::ConnectFailed) => (
                SessionState::Finishing { server },
                SessionAction::Reply { failure: ForwardFailure::Connect },
            ),
            (SessionState::Sending { server }, SessionEvent::Sent) => (
                SessionState::Awaiting { server },
                SessionAction::ReadAnswer,
            ),
            (SessionState::Sending { server }, SessionEvent::SendFailed) => (
                SessionState::Finishing { server },
                SessionAction::Reply { failure: ForwardFailure::Forward },
            ),
            (SessionState::Awaiting { server }, SessionEvent::Answer { len, response_time, checked_at }) => {
                if len > 0 {
                    self.record_response_time(server.id, response_time, checked_at);
                    (SessionState::Finishing { server }, SessionAction::Relay)
                } else {
                    (
                        SessionState::Finishing { server },
                        SessionAction::Reply { failure: ForwardFailure::EmptyResponse },
                    )
                }
            },
            (SessionState::Awaiting { server }, SessionEvent::AnswerFailed) => (
                SessionState::Finishing { server },
                SessionAction::Reply { failure: ForwardFailure::ReadResponse },
            ),
            (SessionState::Finishing { server }, SessionEvent::Replied) => {
                self.end_connection(server.id);
                (SessionState::Done, SessionAction::Close)
            },
            (state, _) => (state, SessionAction::Ignore),
        }
    }
}


/// The open connections that the load balancer counts for server `id`
/// (none for a server it does not know).
pub open spec fn count_of(v: BalancerView, id: usize) -> int {
    if has_server(v.servers, id) {
        v.servers[index_of(v.servers, id)].connections as int
    } else {
        0
    }
}

/// Whether the session holds a counted connection on server `id`.
pub open spec fn holds(state: SessionState, id: usize) -> int {
    if held(state) == Some(id) {
        1
    } else {
        0
    }
}

/// Replacing a record by one with the same id finds every server where it
/// was.
proof fn lemma_update_finds(s: Seq<Server>, k: int, x: Server, id: usize)
    requires
        ids_valid(s),
        0 <= k < s.len(),
        x.id == s[k].id,
        x.weight == s[k].weight,
    ensures
        ids_valid(s.update(k, x)),
        total_weight(s.update(k, x)) == total_weight(s),
        has_server(s.update(k, x), id) == has_server(s, id),
        has_server(s, id) ==> index_of(s.update(k, x), id) == index_of(s, id),
{
    let u = s.update(k, x);
    lemma_update_keeps(s, k, x);
    if has_server(s, id) {
        let j = index_of(s, id);
        lemma_index_of(s, j);
        assert(u[j].id == id);
        lemma_index_of(u, j);
    } else if has_server(u, id) {
        let j = index_of(u, id);
        assert(s[j].id == u[j].id);
    }
}

/// Moving the first server to the end finds every server again, with the
/// same record.
proof fn lemma_rotate_finds(s: Seq<Server>, id: usize)
    requires
        ids_valid(s),
        s.len() > 0,
    ensures
        ids_valid(rotate(s)),
        total_weight(rotate(s)) == total_weight(s),
        has_server(rotate(s), id) == has_server(s, id),
        has_server(s, id) ==> rotate(s)[index_of(rotate(s), id)] == s[index_of(s, id)],
{
    let r = rotate(s);
    let n = s.len();
    crate::balancer::lemma_rotate_keeps(s);
    if has_server(s, id) {
        let k = index_of(s, id);
        lemma_index_of(s, k);
        let k2 = if k == 0 {
            n - 1
        } else {
            k - 1
        };
        assert(r[k2] == s[k]);
        lemma_index_of(r, k2);
    } else if has_server(r, id) {
        let j = index_of(r, id);
        if j < n - 1 {
            assert(r[j] == s[j + 1]);
        } else {
            assert(r[j] == s[0]);
        }
    }
}

/// Choosing a server changes no connection count.
proof fn lemma_select_counts(v: BalancerView, client: Seq<char>, id: usize)
    requires
        v.valid(),
        v.strategy() == Strategy::WeightedRoundRobin ==> total_weight(v.servers) <= usize::MAX,
    ensures
        select_step(v, client).1.valid(),
        count_of(select_step(v, client).1, id) == count_of(v, id),
{
    if v.servers.len() > 0 {
        if v.strategy() == Strategy::RoundRobin {
            lemma_rotate_finds(v.servers, id);
        } else if v.strategy() == Strategy::StickyRoundRobin {
            let n = v.servers.len() as int;
            let stored = if v.sticky.contains_key(client) {
                v.sticky[client] as int
            } else {
                0
            };
            assert(0 <= (crate::balancer::sticky_index(stored, n) + 1) % n < n) by (nonlinear_arith)
                requires
                    n > 0,
            ;
        } else if v.strategy() == Strategy::WeightedRoundRobin {
            let w = total_weight(v.servers);
            if w != 0 {
                assert(w > 0) by {
                    crate::weights::lemma_sum_nonneg(crate::balancer::weights_of(v.servers));
                }
                assert(0 <= (v.wrr_counter + 1) % w < w) by (nonlinear_arith)
                    requires
                        w > 0,
                ;
            }
        }
    }
}

/// Counting a connection adds one to that server's count only.
proof fn lemma_begin_counts(v: BalancerView, server: usize, id: usize)
    requires
        v.valid(),
    ensures
        begin_step(v, server).1.valid(),
        count_of(begin_step(v, server).1, id) == count_of(v, id) + if begin_step(v, server).0
            && id == server {
            1int
        } else {
            0int
        },
{
    if begin_step(v, server).0 {
        let k = index_of(v.servers, server);
        let x = crate::balancer::with_connections(v.servers[k], v.servers[k].connections + 1);
        lemma_update_finds(v.servers, k, x, id);
        lemma_update_finds(v.servers, k, x, server);
    }
}

/// Releasing a connection takes one from that server's count only.
proof fn lemma_end_counts(v: BalancerView, server: usize, id: usize)
    requires
        v.valid(),
        count_of(v, server) > 0,
    ensures
        end_step(v, server).0,
        end_step(v, server).1.valid(),
        count_of(end_step(v, server).1, id) == count_of(v, id) - if id == server {
            1int
        } else {
            0int
        },
{
    let k = index_of(v.servers, server);
    let x = crate::balancer::with_connections(v.servers[k], v.servers[k].connections - 1);
    lemma_update_finds(v.servers, k, x, id);
    lemma_update_finds(v.servers, k, x, server);
}

/// Recording a response time changes no connection count.
proof fn lemma_response_counts(v: BalancerView, server: usize, t: u128, at: u128, id: usize)
    requires
        v.valid(),
    ensures
        response_step(v, server, t, at).1.valid(),
        count_of(response_step(v, server, t, at).1, id) == count_of(v, id),
{
    if has_server(v.servers, server) {
        let k = index_of(v.servers, server);
        let x = crate::balancer::with_response_time(v.servers[k], t, at);
        lemma_update_finds(v.servers, k, x, id);
        lemma_update_finds(v.servers, k, x, server);
    }
}

/// Every step of serving a request keeps the books: a server's count of
/// open connections, plus one where the session held a connection on it
/// before the step, equals its count after, plus one where the session
/// holds one after. So a request holds one counted connection from the
/// choice of its server until it is done, and none after.
pub proof fn session_keeps_count(
    v: BalancerView,
    client: Seq<char>,
    state: SessionState,
    event: SessionEvent,
    id: usize,
)
    requires
        v.valid(),
        v.strategy() == Strategy::WeightedRoundRobin ==> total_weight(v.servers) <= usize::MAX,
        held(state) matches Some(h) ==> count_of(v, h) > 0,
        !(session_step(v, client, state, event).1 is CountOverflow),
    ensures
        session_step(v, client, state, event).2.valid(),
        count_of(session_step(v, client, state, event).2, id) + holds(state, id) == count_of(v, id)
            + holds(session_step(v, client, state, event).0, id),
{
    match (state, event) {
        (SessionState::Reading, SessionEvent::Request { len }) => {
            if len != 0 {
                lemma_select_counts(v, client, id);
                let (chosen, v1) = select_step(v, client);
                if let Some(server) = chosen {
                    lemma_begin_counts(v1, server.id, id);
                }
            }
        },
        (SessionState::Awaiting { server }, SessionEvent::Answer { len, response_time, checked_at }) => {
            if len > 0 {
                lemma_response_counts(v, server.id, response_time, checked_at, id);
            }
        },
        (SessionState::Finishing { server }, SessionEvent::Replied) => {
            lemma_end_counts(v, server.id, id);
        },
        _ => {},
    }
}

/// How many of `sessions` hold a counted connection on server `id`.
pub open spec fn holders(sessions: Seq<SessionState>, id: usize) -> int
    decreases sessions.len(),
{
    if sessions.len() == 0 {
        0
    } else {
        holders(sessions.drop_last(), id) + holds(sessions.last(), id)
    }
}

/// The load balancer's books agree with the requests in flight: every
/// server counts exactly the sessions that hold a connection on it.
pub open spec fn books_balanced(v: BalancerView, sessions: Seq<SessionState>) -> bool {
    &&& v.valid()
    &&& forall|id: usize| #[trigger] count_of(v, id) == holders(sessions, id)
}

proof fn lemma_holders_nonneg(sessions: Seq<SessionState>, id: usize)
    ensures
        holders(sessions, id) >= 0,
    decreases sessions.len(),
{
    if sessions.len() > 0 {
        lemma_holders_nonneg(sessions.drop_last(), id);
    }
}

/// Replacing one session changes the holders by what it held before and
/// after.
proof fn lemma_holders_update(sessions: Seq<SessionState>, j: int, x: SessionState, id: usize)
    requires
        0 <= j < sessions.len(),
    ensures
        holders(sessions.update(j, x), id) == holders(sessions, id) - holds(sessions[j], id) + holds(
            x,
            id,
        ),
        holders(sessions, id) >= holds(sessions[j], id),
    decreases sessions.len(),
{
    let u = sessions.update(j, x);
    if j == sessions.len() - 1 {
        assert(u.drop_last() =~= sessions.drop_last());
        lemma_holders_nonneg(sessions.drop_last(), id);
    } else {
        assert(u.drop_last() =~= sessions.drop_last().update(j, x));
        lemma_holders_update(sessions.drop_last(), j, x, id);
        lemma_holders_nonneg(sessions.drop_last(), id);
        assert(u.last() == sessions.last());
    }
}

/// Taking one session out takes away what it held.
proof fn lemma_holders_remove(sessions: Seq<SessionState>, j: int, id: usize)
    requires
        0 <= j < sessions.len(),
    ensures
        holders(sessions.remove(j), id) == holders(sessions, id) - holds(sessions[j], id),
    decreases sessions.len(),
{
    let r = sessions.remove(j);
    if j == sessions.len() - 1 {
        assert(r =~= sessions.drop_last());
    } else {
        assert(r.drop_last() =~= sessions.drop_last().remove(j));
        assert(r.last() == sessions.last());
        lemma_holders_remove(sessions.drop_last(), j, id);
    }
}

/// A new load balancer, with no request in flight, has balanced books.
pub proof fn books_start_balanced(name: Seq<char>)
    ensures
        books_balanced(crate::balancer::initial(name), Seq::empty()),
{
    let v = crate::balancer::initial(name);
    assert(total_weight(v.servers) == 0);
    assert forall|id: usize| #[trigger] count_of(v, id) == holders(Seq::<SessionState>::empty(), id) by {
        assert(!has_server(v.servers, id));
    }
}

/// A request that comes in starts holding nothing, so the books stay
/// balanced.
pub proof fn opening_keeps_books(v: BalancerView, sessions: Seq<SessionState>)
    requires
        books_balanced(v, sessions),
    ensures
        books_balanced(v, sessions.push(SessionState::Reading)),
{
    assert forall|id: usize| #[trigger] count_of(v, id) == holders(
        sessions.push(SessionState::Reading),
        id,
    ) by {
        assert(sessions.push(SessionState::Reading).drop_last() =~= sessions);
    }
}

/// A request that is done holds nothing, so dropping it keeps the books
/// balanced.
pub proof fn closing_keeps_books(v: BalancerView, sessions: Seq<SessionState>, j: int)
    requires
        books_balanced(v, sessions),
        0 <= j < sessions.len(),
        sessions[j] is Done,
    ensures
        books_balanced(v, sessions.remove(j)),
{
    assert forall|id: usize| #[trigger] count_of(v, id) == holders(sessions.remove(j), id) by {
        lemma_holders_remove(sessions, j, id);
    }
}

/// A server that subscribes starts with no connection and no session
/// holding it, so the books stay balanced.
pub proof fn subscribing_keeps_books(
    v: BalancerView,
    sessions: Seq<SessionState>,
    address: String,
    weight: usize,
    t: u128,
    at: u128,
)
    requires
        books_balanced(v, sessions),
        v.servers.len() < usize::MAX,
    ensures
        books_balanced(crate::balancer::register_step(v, address, weight, t, at).1, sessions),
{
    let (nid, w) = crate::balancer::register_step(v, address, weight, t, at);
    let s = v.servers;
    let x = Server { id: nid, address, weight, connections: 0, response_time: t, last_checked: at };
    let p = s.push(x);
    assert(w.servers == p);
    assert(ids_valid(p)) by {
        assert forall|i: int| 0 <= i < p.len() implies #[trigger] p[i].id < p.len() by {
            if i < s.len() {
                assert(p[i] == s[i]);
            }
        }
        assert forall|i: int, j: int| 0 <= i < j < p.len() implies #[trigger] p[i].id
            != #[trigger] p[j].id by {
            assert(p[i] == s[i]);
            if j < s.len() {
                assert(p[j] == s[j]);
            }
        }
    }
    assert(crate::balancer::weights_of(p) =~= crate::balancer::weights_of(s).push(weight as int));
    crate::weights::lemma_sum_push(crate::balancer::weights_of(s), weight as int);
    assert forall|id: usize| #[trigger] count_of(w, id) == holders(sessions, id) by {
        assert(count_of(v, id) == holders(sessions, id));
        if has_server(s, id) {
            let k = index_of(s, id);
            assert(p[k] == s[k]);
            lemma_index_of(p, k);
        } else if id == nid {
            assert(p[s.len() as int] == x);
            lemma_index_of(p, s.len() as int);
        } else {
            if has_server(p, id) {
                let k = index_of(p, id);
                if k < s.len() {
                    assert(p[k] == s[k]);
                } else {
                    assert(p[k] == x);
                }
            }
        }
    }
}

/// Whatever the interleaving of requests in flight, each step of one of
/// them keeps the books balanced: every server counts exactly the requests
/// that chose it and are not done yet. So no count ever goes below zero.
pub proof fn sessions_keep_books(
    v: BalancerView,
    sessions: Seq<SessionState>,
    j: int,
    event: SessionEvent,
    client: Seq<char>,
)
    requires
        books_balanced(v, sessions),
        0 <= j < sessions.len(),
        v.strategy() == Strategy::WeightedRoundRobin ==> total_weight(v.servers) <= usize::MAX,
        !(session_step(v, client, sessions[j], event).1 is CountOverflow),
    ensures
        books_balanced(
            session_step(v, client, sessions[j], event).2,
            sessions.update(j, session_step(v, client, sessions[j], event).0),
        ),
{
    let state = sessions[j];
    let (next, _, w) = session_step(v, client, state, event);
    if let Some(h) = held(state) {
        lemma_holders_update(sessions, j, next, h);
        assert(count_of(v, h) == holders(sessions, h));
    }
    session_keeps_count(v, client, state, event, 0);
    assert forall|id: usize| #[trigger] count_of(w, id) == holders(sessions.update(j, next), id) by {
        session_keeps_count(v, client, state, event, id);
        lemma_holders_update(sessions, j, next, id);
        assert(count_of(v, id) == holders(sessions, id));
    }
}

/// A request that is not empty goes on to the server that the strategy
/// picks, whenever some server has subscribed and that server's count has
/// not reached `usize::MAX`: the caller is told to connect to it, and its
/// count grows by one.
pub proof fn requests_reach_their_server(v: BalancerView, client: Seq<char>, len: usize)
    requires
        v.valid(),
        v.strategy() == Strategy::WeightedRoundRobin ==> total_weight(v.servers) <= usize::MAX,
        len > 0,
        v.servers.len() > 0,
        select_step(v, client).0 matches Some(s) && count_of(v, s.id) < usize::MAX,
    ensures
        ({
            let s = select_step(v, client).0->0;
            let (next, action, w) = session_step(
                v,
                client,
                SessionState::Reading,
                SessionEvent::Request { len },
            );
            &&& next == SessionState::Connecting { server: s }
            &&& action == SessionAction::ConnectTo { address: s.address }
            &&& count_of(w, s.id) == count_of(v, s.id) + 1
        }),
{
    let (c, v1) = select_step(v, client);
    let s = c->0;
    crate::laws::selection_keeps_servers(v, client);
    lemma_select_counts(v, client, s.id);
    let k = choose|k: int| 0 <= k < v.servers.len() && v.servers[k] == s;
    assert(v.servers[k].id == s.id);
    assert(has_server(v.servers, s.id));
    assert(has_server(v1.servers, s.id));
    lemma_begin_counts(v1, s.id, s.id);
}

/// A server's answer that is not empty is relayed, and the response time
/// and check time that came with it are recorded for that server,
/// whatever it had before.
pub proof fn answers_record_their_time(
    v: BalancerView,
    client: Seq<char>,
    server: Server,
    len: usize,
    t: u128,
    at: u128,
)
    requires
        v.valid(),
        len > 0,
        has_server(v.servers, server.id),
    ensures
        ({
            let (next, action, w) = session_step(
                v,
                client,
                SessionState::Awaiting { server },
                SessionEvent::Answer { len, response_time: t, checked_at: at },
            );
            &&& next == SessionState::Finishing { server }
            &&& action == SessionAction::Relay
            &&& has_server(w.servers, server.id)
            &&& w.servers[index_of(w.servers, server.id)].response_time == t
            &&& w.servers[index_of(w.servers, server.id)].last_checked == at
            &&& count_of(w, server.id) == count_of(v, server.id)
        }),
{
    crate::laws::response_time_read_back(v, server.id, t, at);
    lemma_response_counts(v, server.id, t, at, server.id);
}
} // verus!
