//! The load balancer's state and its decisions: which server takes a
//! request, who subscribes, and the bookkeeping of connections and
//! response times.
use vstd::prelude::*;
use vstd::string::*;
use crate::strategy::{strategy_of, Strategy};
use crate::subscription::Subscription;
use crate::weights::{
    first_min, lemma_first_min, lemma_first_min_step, lemma_sum_take_all, lemma_sum_take_mono,
    lemma_sum_take_step, nonneg, weight_sum, weighted_pick, pick_from,
};

verus! {

/// A backend server as the load balancer keeps track of it.
#[derive(Debug)]
pub struct Server {
    /// Tells the server apart from every other one that subscribed.
    pub id: usize,
    /// Where the server takes requests.
    pub address: String,
    /// Its share of requests under weighted round robin.
    pub weight: usize,
    /// Requests that are being forwarded to it right now.
    pub connections: usize,
    /// Its last measured response time, in nanoseconds.
    pub response_time: u128,
    /// When that response time was measured, in nanoseconds on the
    /// caller's clock.
    pub last_checked: u128,
}

impl Server {
    /// A copy of this record.
    pub fn duplicate(&self) -> (copy: Server)
        ensures
            copy == *self,
    {
        Server {
            id: self.id,
            address: self.address.clone(),
            weight: self.weight,
            connections: self.connections,
            response_time: self.response_time,
            last_checked: self.last_checked,
        }
    }
}

/// Where a client stands in its own round through the servers.
struct StickySession {
    client: String,
    next_index: usize,
}

/// The load balancer as a mathematical value.
pub struct BalancerView {
    /// The subscribed servers, in the order in which they are handed out.
    pub servers: Seq<Server>,
    /// The name of the strategy, as given at start.
    pub strategy_name: Seq<char>,
    /// For each client seen under sticky round robin, the index it is due next.
    pub sticky: Map<Seq<char>, usize>,
    /// The position in the weighted round-robin cycle last handed out.
    pub wrr_counter: usize,
}

impl BalancerView {
    /// The strategy that the name stands for.
    pub open spec fn strategy(self) -> Strategy {
        strategy_of(self.strategy_name)
    }

    /// What every state of a load balancer satisfies.
    pub open spec fn valid(self) -> bool {
        &&& ids_valid(self.servers)
        &&& self.servers.len() <= usize::MAX
        &&& self.wrr_counter < usize::MAX
        &&& (self.wrr_counter == 0 || self.wrr_counter < total_weight(self.servers))
    }

    /// This state with `servers` in place of its servers.
    pub open spec fn with_servers(self, servers: Seq<Server>) -> BalancerView {
        BalancerView {
            servers,
            strategy_name: self.strategy_name,
            sticky: self.sticky,
            wrr_counter: self.wrr_counter,
        }
    }
}

/// The servers' ids are distinct and smaller than their number: each
/// subscription got the next id.
pub open spec fn ids_valid(s: Seq<Server>) -> bool {
    &&& forall|i: int| 0 <= i < s.len() ==> #[trigger] s[i].id < s.len()
    &&& forall|i: int, j: int| 0 <= i < j < s.len() ==> #[trigger] s[i].id != #[trigger] s[j].id
}

/// The servers after the first one has moved to the end.
pub open spec fn rotate(s: Seq<Server>) -> Seq<Server> {
    s.drop_first().push(s[0])
}

/// The servers' weights.
pub open spec fn weights_of(s: Seq<Server>) -> Seq<int> {
    s.map_values(|x: Server| x.weight as int)
}

/// The servers' open connections.
pub open spec fn connections_of(s: Seq<Server>) -> Seq<int> {
    s.map_values(|x: Server| x.connections as int)
}

/// The servers' response times.
pub open spec fn response_times_of(s: Seq<Server>) -> Seq<int> {
    s.map_values(|x: Server| x.response_time as int)
}

/// The sum of the servers' weights.
pub open spec fn total_weight(s: Seq<Server>) -> int {
    weight_sum(weights_of(s))
}

/// The index that a client who is due at `stored` gets among `n` servers.
pub open spec fn sticky_index(stored: int, n: int) -> int {
    stored % n
}

/// The server a request is sent to, and the load balancer after the choice.
pub open spec fn select_step(v: BalancerView, client: Seq<char>) -> (Option<Server>, BalancerView) {
    let n = v.servers.len() as int;
    if n == 0 {
        (None, v)
    } else {
        match v.strategy() {
            Strategy::RoundRobin => (Some(v.servers[0]), v.with_servers(rotate(v.servers))),
            Strategy::StickyRoundRobin => {
                let stored = if v.sticky.contains_key(client) {
                    v.sticky[client] as int
                } else {
                    0
                };
                let i = sticky_index(stored, n);
                (
                    Some(v.servers[i]),
                    BalancerView {
                        servers: v.servers,
                        strategy_name: v.strategy_name,
                        sticky: v.sticky.insert(client, ((i + 1) % n) as usize),
                        wrr_counter: v.wrr_counter,
                    },
                )
            },
            Strategy::WeightedRoundRobin => {
                let total = total_weight(v.servers);
                if total == 0 {
                    (Some(v.servers[0]), v)
                } else {
                    let pos = (v.wrr_counter + 1) % total;
                    (
                        Some(v.servers[weighted_pick(weights_of(v.servers), pos)]),
                        BalancerView {
                            servers: v.servers,
                            strategy_name: v.strategy_name,
                            sticky: v.sticky,
                            wrr_counter: pos as usize,
                        },
                    )
                }
            },
            Strategy::LeastConnections => (Some(v.servers[first_min(connections_of(v.servers))]), v),
            Strategy::LeastTime => (Some(v.servers[first_min(response_times_of(v.servers))]), v),
            Strategy::Unsupported => (Some(v.servers[0]), v),
        }
    }
}

/// Some server has id `id`.
pub open spec fn has_server(s: Seq<Server>, id: usize) -> bool {
    exists|i: int| 0 <= i < s.len() && #[trigger] s[i].id == id
}

/// The position of the server with id `id`.
pub open spec fn index_of(s: Seq<Server>, id: usize) -> int {
    choose|i: int| 0 <= i < s.len() && #[trigger] s[i].id == id
}

/// A server record with `connections` open connections.
pub open spec fn with_connections(s: Server, connections: int) -> Server {
    Server {
        id: s.id,
        address: s.address,
        weight: s.weight,
        connections: connections as usize,
        response_time: s.response_time,
        last_checked: s.last_checked,
    }
}

/// A server record with response time `t`, measured at time `at`.
pub open spec fn with_response_time(s: Server, t: u128, at: u128) -> Server {
    Server {
        id: s.id,
        address: s.address,
        weight: s.weight,
        connections: s.connections,
        response_time: t,
        last_checked: at,
    }
}

/// A request starts on server `id`: whether it was counted, and the state after.
pub open spec fn begin_step(v: BalancerView, id: usize) -> (bool, BalancerView) {
    if has_server(v.servers, id) && v.servers[index_of(v.servers, id)].connections < usize::MAX {
        let k = index_of(v.servers, id);
        (
            true,
            v.with_servers(
                v.servers.update(k, with_connections(v.servers[k], v.servers[k].connections + 1)),
            ),
        )
    } else {
        (false, v)
    }
}

/// A request on server `id` is over: whether it was counted, and the state after.
pub open spec fn end_step(v: BalancerView, id: usize) -> (bool, BalancerView) {
    if has_server(v.servers, id) && v.servers[index_of(v.servers, id)].connections > 0 {
        let k = index_of(v.servers, id);
        (
            true,
            v.with_servers(
                v.servers.update(k, with_connections(v.servers[k], v.servers[k].connections - 1)),
            ),
        )
    } else {
        (false, v)
    }
}

/// Server `id` was measured at time `at` to answer in `t`: whether it is
/// known, and the state after.
pub open spec fn response_step(v: BalancerView, id: usize, t: u128, at: u128) -> (bool, BalancerView) {
    if has_server(v.servers, id) {
        let k = index_of(v.servers, id);
        (true, v.with_servers(v.servers.update(k, with_response_time(v.servers[k], t, at))))
    } else {
        (false, v)
    }
}

/// A server subscribes at time `at` with response time `t`: its id, and
/// the state after.
pub open spec fn register_step(v: BalancerView, address: String, weight: usize, t: u128, at: u128) -> (
    usize,
    BalancerView,
) {
    let id = v.servers.len() as usize;
    (
        id,
        v.with_servers(
            v.servers.push(
                Server { id, address, weight, connections: 0, response_time: t, last_checked: at },
            ),
        ),
    )
}

/// The index due next for `client`, in the first session kept for it.
spec fn session_lookup(s: Seq<StickySession>, client: Seq<char>) -> Option<usize>
    decreases s.len(),
{
    if s.len() == 0 {
        None
    } else if s[0].client@ == client {
        Some(s[0].next_index)
    } else {
        session_lookup(s.drop_first(), client)
    }
}

spec fn sessions_map(s: Seq<StickySession>) -> Map<Seq<char>, usize> {
    Map::new(|k: Seq<char>| session_lookup(s, k) is Some, |k: Seq<char>| session_lookup(s, k)->0)
}

proof fn lemma_lookup_skip(s: Seq<StickySession>, i: int, k: Seq<char>)
    requires
        0 <= i < s.len(),
        s[i].client@ != k,
    ensures
        session_lookup(s.skip(i), k) == session_lookup(s.skip(i + 1), k),
{
    assert(s.skip(i).drop_first() =~= s.skip(i + 1));
}

proof fn lemma_lookup_update(s: Seq<StickySession>, i: int, e: StickySession, k: Seq<char>)
    requires
        0 <= i < s.len(),
        s[i].client@ == e.client@,
        forall|j: int| 0 <= j < i ==> (#[trigger] s[j]).client@ != s[i].client@,
    ensures
        session_lookup(s.update(i, e), k) == if k == e.client@ {
            Some(e.next_index)
        } else {
            session_lookup(s, k)
        },
    decreases s.len(),
{
    let u = s.update(i, e);
    if i > 0 {
        assert(u.drop_first() =~= s.drop_first().update(i - 1, e));
        assert forall|j: int| 0 <= j < i - 1 implies (#[trigger] s.drop_first()[j]).client@
            != s.drop_first()[i - 1].client@ by {
            assert(s[j + 1] == s.drop_first()[j]);
        }
        assert(s[0].client@ != s[i].client@);
        lemma_lookup_update(s.drop_first(), i - 1, e, k);
        assert(u[0] == s[0]);
    } else {
        assert(u.drop_first() =~= s.drop_first());
        assert(u[0] == e);
    }
}

proof fn lemma_lookup_push(s: Seq<StickySession>, e: StickySession, k: Seq<char>)
    requires
        session_lookup(s, e.client@) is None,
    ensures
        session_lookup(s.push(e), k) == if k == e.client@ {
            Some(e.next_index)
        } else {
            session_lookup(s, k)
        },
    decreases s.len(),
{
    if s.len() == 0 {
        assert(s.push(e).drop_first() =~= Seq::<StickySession>::empty());
        assert(s.push(e)[0] == e);
        assert(session_lookup(Seq::<StickySession>::empty(), k) is None);
    } else {
        assert(s.push(e).drop_first() =~= s.drop_first().push(e));
        assert(s.push(e)[0] == s[0]);
        assert(s[0].client@ != e.client@);
        lemma_lookup_push(s.drop_first(), e, k);
    }
}

/// The load balancer: its servers, its strategy and what the strategies
/// remember between requests.
pub struct LoadBalancer {
    servers: Vec<Server>,
    strategy: String,
    sticky_sessions: Vec<StickySession>,
    wrr_counter: usize,
}

impl View for LoadBalancer {
    type V = BalancerView;

    closed spec fn view(&self) -> BalancerView {
        BalancerView {
            servers: self.servers@,
            strategy_name: self.strategy@,
            sticky: sessions_map(self.sticky_sessions@),
            wrr_counter: self.wrr_counter,
        }
    }
}

/// The initial state of a load balancer with strategy `name`.
pub open spec fn initial(name: Seq<char>) -> BalancerView {
    BalancerView {
        servers: Seq::empty(),
        strategy_name: name,
        sticky: Map::empty(),
        wrr_counter: 0,
    }
}

impl LoadBalancer {
    /// The load balancer is in a state that its operations keep.
    pub open spec fn wf(&self) -> bool {
        self@.valid()
    }

    /// A load balancer with no servers yet, that will use the strategy
    /// named `strategy`.
    pub fn new(strategy: String) -> (lb: LoadBalancer)
        ensures
            lb@ == initial(strategy@),
            lb.wf(),
    {
        let lb = LoadBalancer {
            servers: Vec::new(),
            strategy,
            sticky_sessions: Vec::new(),
            wrr_counter: 0,
        };
        assert(sessions_map(lb.sticky_sessions@) =~= Map::<Seq<char>, usize>::empty());
        lb
    }
}


/// The position of a server is found again by its id.
pub(crate) proof fn lemma_index_of(s: Seq<Server>, k: int)
    requires
        ids_valid(s),
        0 <= k < s.len(),
    ensures
        has_server(s, s[k].id),
        index_of(s, s[k].id) == k,
{
    assert(s[k].id == s[k].id);
    let j = index_of(s, s[k].id);
    if j < k {
        assert(s[j].id != s[k].id);
    } else if k < j {
        assert(s[k].id != s[j].id);
    }
}

/// Moving the first server to the end keeps the ids valid and the sum of
/// the weights.
pub(crate) proof fn lemma_rotate_keeps(s: Seq<Server>)
    requires
        ids_valid(s),
        s.len() > 0,
    ensures
        ids_valid(rotate(s)),
        total_weight(rotate(s)) == total_weight(s),
{
    assert(weights_of(rotate(s)) =~= weights_of(s).drop_first().push(weights_of(s)[0]));
    crate::weights::lemma_sum_rotate(weights_of(s));
    let r = rotate(s);
    let n = s.len();
    assert forall|i: int| 0 <= i < r.len() implies #[trigger] r[i].id < r.len() by {
        if i < n - 1 {
            assert(r[i] == s[i + 1]);
        } else {
            assert(r[i] == s[0]);
        }
    }
    assert forall|i: int, j: int| 0 <= i < j < r.len() implies #[trigger] r[i].id
        != #[trigger] r[j].id by {
        assert(r[i] == s[i + 1]);
        if j < n - 1 {
            assert(r[j] == s[j + 1]);
            assert(s[i + 1].id != s[j + 1].id);
        } else {
            assert(r[j] == s[0]);
            assert(s[0].id != s[i + 1].id);
        }
    }
}

/// Replacing a server record by one with the same id and weight keeps the
/// ids valid and the sum of the weights.
pub(crate) proof fn lemma_update_keeps(s: Seq<Server>, k: int, x: Server)
    requires
        ids_valid(s),
        0 <= k < s.len(),
        x.id == s[k].id,
        x.weight == s[k].weight,
    ensures
        ids_valid(s.update(k, x)),
        total_weight(s.update(k, x)) == total_weight(s),
{
    assert(weights_of(s.update(k, x)) =~= weights_of(s));
    let u = s.update(k, x);
    assert forall|i: int| 0 <= i < u.len() implies #[trigger] u[i].id < u.len() by {
        assert(u[i].id == s[i].id);
    }
    assert forall|i: int, j: int| 0 <= i < j < u.len() implies #[trigger] u[i].id
        != #[trigger] u[j].id by {
        assert(u[i].id == s[i].id);
        assert(u[j].id == s[j].id);
    }
}

impl LoadBalancer {
    /// The position of the server with id `id`, if it has subscribed.
    fn find_server(&self, id: usize) -> (r: Option<usize>)
        requires
            self.wf(),
        ensures
            r is None <==> !has_server(self@.servers, id),
            r matches Some(k) ==> k < self@.servers.len() && k == index_of(self@.servers, id),
    {
        let n = self.servers.len();
        let mut k: usize = 0;
        while k < n
            invariant
                k <= n,
                n == self.servers@.len(),
                ids_valid(self.servers@),
                forall|j: int| 0 <= j < k ==> (#[trigger] self.servers@[j]).id != id,
            decreases n - k,
        {
            if self.servers[k].id == id {
                proof {
                    lemma_index_of(self.servers@, k as int);
                }
                return Some(k);
            }
            k = k + 1;
        }
        None
    }

    /// The first kept session of `client`, if there is one.
    fn find_session(&self, client: &String) -> (r: Option<usize>)
        ensures
            r is None ==> session_lookup(self.sticky_sessions@, client@) is None,
            r matches Some(j) ==> {
                &&& j < self.sticky_sessions@.len()
                &&& self.sticky_sessions@[j as int].client@ == client@
                &&& forall|m: int| 0 <= m < j ==> (#[trigger] self.sticky_sessions@[m]).client@ != client@
                &&& session_lookup(self.sticky_sessions@, client@) == Some(self.sticky_sessions@[j as int].next_index)
            },
    {
        let ghost s = self.sticky_sessions@;
        let n = self.sticky_sessions.len();
        let mut j: usize = 0;
        assert(s.skip(0) =~= s);
        while j < n
            invariant
                j <= n,
                n == s.len(),
                s == self.sticky_sessions@,
                forall|m: int| 0 <= m < j ==> (#[trigger] s[m]).client@ != client@,
                session_lookup(s, client@) == session_lookup(s.skip(j as int), client@),
            decreases n - j,
        {
            if self.sticky_sessions[j].client == *client {
                assert(s.skip(j as int)[0] == s[j as int]);
                return Some(j);
            }
            proof {
                lemma_lookup_skip(s, j as int, client@);
            }
            j = j + 1;
        }
        assert(s.skip(j as int).len() == 0);
        None
    }

    /// Round robin: the first server, which then moves to the end.
    fn select_round_robin(&mut self) -> (chosen: Server)
        requires
            old(self).wf(),
            old(self)@.servers.len() > 0,
        ensures
            final(self).wf(),
            chosen == old(self)@.servers[0],
            final(self)@ == old(self)@.with_servers(rotate(old(self)@.servers)),
    {
        let chosen = self.servers[0].duplicate();
        let first = self.servers.remove(0);
        self.servers.push(first);
        proof {
            assert(self.servers@ =~= rotate(old(self)@.servers));
            lemma_rotate_keeps(old(self)@.servers);
        }
        chosen
    }

    /// Sticky round robin: the server this client is due at, after which
    /// the client is due at the next one.
    fn select_sticky(&mut self, client_ip: &str) -> (chosen: Server)
        requires
            old(self).wf(),
            old(self)@.servers.len() > 0,
            old(self)@.strategy() == Strategy::StickyRoundRobin,
        ensures
            final(self).wf(),
            select_step(old(self)@, client_ip@) == (Some(chosen), final(self)@),
    {
        let key = String::from_str(client_ip);
        let n = self.servers.len();
        let found = self.find_session(&key);
        let stored = match found {
            Some(j) => self.sticky_sessions[j].next_index,
            None => 0,
        };
        let i = stored % n;
        let chosen = self.servers[i].duplicate();
        let next = (i + 1) % n;
        let ghost old_sessions = self.sticky_sessions@;
        let entry = StickySession { client: key, next_index: next };
        let ghost e = entry;
        match found {
            Some(j) => {
                self.sticky_sessions.set(j, entry);
                proof {
                    assert forall|k: Seq<char>| #[trigger] session_lookup(self.sticky_sessions@, k)
                        == if k == e.client@ {
                        Some(e.next_index)
                    } else {
                        session_lookup(old_sessions, k)
                    } by {
                        lemma_lookup_update(old_sessions, j as int, e, k);
                    }
                }
            },
            None => {
                self.sticky_sessions.push(entry);
                proof {
                    assert forall|k: Seq<char>| #[trigger] session_lookup(self.sticky_sessions@, k)
                        == if k == e.client@ {
                        Some(e.next_index)
                    } else {
                        session_lookup(old_sessions, k)
                    } by {
                        lemma_lookup_push(old_sessions, e, k);
                    }
                }
            },
        }
        proof {
            assert(sessions_map(self.sticky_sessions@) =~= sessions_map(old_sessions).insert(
                client_ip@,
                next,
            ));
        }
        chosen
    }
}

impl LoadBalancer {
    /// The sum of all weights.
    fn weight_total(&self) -> (total: usize)
        requires
            total_weight(self@.servers) <= usize::MAX,
        ensures
            total == total_weight(self@.servers),
    {
        let ghost ws = weights_of(self.servers@);
        let n = self.servers.len();
        let mut total: usize = 0;
        let mut i: usize = 0;
        assert(ws.take(0) =~= Seq::<int>::empty());
        while i < n
            invariant
                i <= n,
                n == ws.len(),
                ws == weights_of(self.servers@),
                nonneg(ws),
                weight_sum(ws) <= usize::MAX,
                total == weight_sum(ws.take(i as int)),
            decreases n - i,
        {
            proof {
                lemma_sum_take_step(ws, i as int);
                lemma_sum_take_mono(ws, i + 1, n as int);
                lemma_sum_take_all(ws);
            }
            total = total + self.servers[i].weight;
            i = i + 1;
        }
        proof {
            lemma_sum_take_all(ws);
        }
        total
    }

    /// Weighted round robin: the cycle position moves on by one, and the
    /// server whose share of the cycle holds that position is chosen.
    #[verifier::loop_isolation(false)]
    fn select_weighted(&mut self) -> (chosen: Server)
        requires
            old(self).wf(),
            old(self)@.servers.len() > 0,
            old(self)@.strategy() == Strategy::WeightedRoundRobin,
            total_weight(old(self)@.servers) <= usize::MAX,
        ensures
            final(self).wf(),
            select_step(old(self)@, Seq::empty()) == (Some(chosen), final(self)@),
    {
        let ghost ws = weights_of(self.servers@);
        let n = self.servers.len();
        let total = self.weight_total();
        if total == 0 {
            return self.servers[0].duplicate();
        }
        self.wrr_counter = (self.wrr_counter + 1) % total;
        let pos = self.wrr_counter;
        let mut acc: usize = 0;
        let mut i: usize = 0;
        assert(ws.take(0) =~= Seq::<int>::empty());
        while i < n
            invariant
                i <= n,
                n == ws.len(),
                ws == weights_of(self.servers@),
                nonneg(ws),
                weight_sum(ws) == total,
                acc == weight_sum(ws.take(i as int)),
                pick_from(ws, pos as int, 0) == pick_from(ws, pos as int, i as int),
                self.servers@ == old(self).servers@,
                self.sticky_sessions@ == old(self).sticky_sessions@,
                self.strategy@ == old(self).strategy@,
                self.wrr_counter == pos,
                pos < total,
                pos == (old(self).wrr_counter + 1) % (total as int),
            decreases n - i,
        {
            proof {
                lemma_sum_take_step(ws, i as int);
                lemma_sum_take_mono(ws, i + 1, n as int);
                lemma_sum_take_all(ws);
            }
            acc = acc + self.servers[i].weight;
            if pos < acc {
                return self.servers[i].duplicate();
            }
            i = i + 1;
        }
        self.servers[0].duplicate()
    }

    /// The position of the first server with the fewest open connections.
    fn least_connections_index(&self) -> (best: usize)
        requires
            self@.servers.len() > 0,
        ensures
            best == first_min(connections_of(self@.servers)),
    {
        let ghost keys = connections_of(self.servers@);
        let n = self.servers.len();
        let mut best: usize = 0;
        let mut i: usize = 1;
        assert(first_min(keys.take(1)) == 0);
        while i < n
            invariant
                1 <= i <= n,
                n == keys.len(),
                keys == connections_of(self.servers@),
                best < i,
                best == first_min(keys.take(i as int)),
            decreases n - i,
        {
            proof {
                lemma_first_min_step(keys, i as int);
                lemma_first_min(keys.take(i as int));
            }
            if self.servers[i].connections < self.servers[best].connections {
                best = i;
            }
            i = i + 1;
        }
        assert(keys.take(n as int) =~= keys);
        best
    }

    /// The position of the first server with the shortest response time.
    fn least_time_index(&self) -> (best: usize)
        requires
            self@.servers.len() > 0,
        ensures
            best == first_min(response_times_of(self@.servers)),
    {
        let ghost keys = response_times_of(self.servers@);
        let n = self.servers.len();
        let mut best: usize = 0;
        let mut i: usize = 1;
        assert(first_min(keys.take(1)) == 0);
        while i < n
            invariant
                1 <= i <= n,
                n == keys.len(),
                keys == response_times_of(self.servers@),
                best < i,
                best == first_min(keys.take(i as int)),
            decreases n - i,
        {
            proof {
                lemma_first_min_step(keys, i as int);
                lemma_first_min(keys.take(i as int));
            }
            if self.servers[i].response_time < self.servers[best].response_time {
                best = i;
            }
            i = i + 1;
        }
        assert(keys.take(n as int) =~= keys);
        best
    }

    /// Picks the server that takes a request from `client_ip`, by the
    /// load balancer's strategy; `None` while no server has subscribed.
    pub fn select_server(&mut self, client_ip: &str) -> (chosen: Option<Server>)
        requires
            old(self).wf(),
            old(self)@.strategy() == Strategy::WeightedRoundRobin ==> total_weight(
                old(self)@.servers,
            ) <= usize::MAX,
        ensures
            final(self).wf(),
            (chosen, final(self)@) == select_step(old(self)@, client_ip@),
    {
        if self.servers.len() == 0 {
            return None;
        }
        match Strategy::from_name(&self.strategy) {
            Strategy::RoundRobin => Some(self.select_round_robin()),
            Strategy::StickyRoundRobin => Some(self.select_sticky(client_ip)),
            Strategy::WeightedRoundRobin => Some(self.select_weighted()),
            Strategy::LeastConnections => {
                let i = self.least_connections_index();
                proof {
                    lemma_first_min(connections_of(self@.servers));
                }
                Some(self.servers[i].duplicate())
            },
            Strategy::LeastTime => {
                let i = self.least_time_index();
                proof {
                    lemma_first_min(response_times_of(self@.servers));
                }
                Some(self.servers[i].duplicate())
            },
            Strategy::Unsupported => Some(self.servers[0].duplicate()),
        }
    }
}

impl LoadBalancer {
    /// Adds a server that has subscribed at time `checked_at`, with no open
    /// connections and the given initial response time; returns its id.
    pub fn register_server(
        &mut self,
        address: String,
        weight: usize,
        response_time: u128,
        checked_at: u128,
    ) -> (id: usize)
        requires
            old(self).wf(),
        ensures
            final(self).wf(),
            (id, final(self)@) == register_step(old(self)@, address, weight, response_time, checked_at),
    {
        let id = self.servers.len();
        let server = Server {
            id,
            address,
            weight,
            connections: 0,
            response_time,
            last_checked: checked_at,
        };
        self.servers.push(server);
        assert(self.servers@.len() == self.servers.len());
        proof {
            let s = self.servers@;
            assert(weights_of(s) =~= weights_of(old(self).servers@).push(weight as int));
            crate::weights::lemma_sum_push(weights_of(old(self).servers@), weight as int);
            assert forall|i: int| 0 <= i < s.len() implies #[trigger] s[i].id < s.len() by {
                if i < s.len() - 1 {
                    assert(s[i] == old(self).servers@[i]);
                }
            }
            assert forall|i: int, j: int| 0 <= i < j < s.len() implies #[trigger] s[i].id
                != #[trigger] s[j].id by {
                assert(s[i] == old(self).servers@[i]);
                if j < s.len() - 1 {
                    assert(s[j] == old(self).servers@[j]);
                }
            }
        }
        id
    }

    /// Counts one more open connection on server `id`; `false`, with
    /// nothing changed, where there is no such server or its count is at
    /// its limit.
    pub fn begin_connection(&mut self, id: usize) -> (counted: bool)
        requires
            old(self).wf(),
        ensures
            final(self).wf(),
            (counted, final(self)@) == begin_step(old(self)@, id),
    {
        match self.find_server(id) {
            Some(k) => {
                let s = &self.servers[k];
                if s.connections == usize::MAX {
                    return false;
                }
                let updated = Server {
                    id: s.id,
                    address: s.address.clone(),
                    weight: s.weight,
                    connections: s.connections + 1,
                    response_time: s.response_time,
                    last_checked: s.last_checked,
                };
                self.servers.set(k, updated);
                proof {
                    lemma_update_keeps(old(self)@.servers, k as int, updated);
                }
                true
            },
            None => false,
        }
    }

    /// Counts one open connection less on server `id`; `false`, with
    /// nothing changed, where there is no such server or it has none open.
    pub fn end_connection(&mut self, id: usize) -> (counted: bool)
        requires
            old(self).wf(),
        ensures
            final(self).wf(),
            (counted, final(self)@) == end_step(old(self)@, id),
    {
        match self.find_server(id) {
            Some(k) => {
                let s = &self.servers[k];
                if s.connections == 0 {
                    return false;
                }
                let updated = Server {
                    id: s.id,
                    address: s.address.clone(),
                    weight: s.weight,
                    connections: s.connections - 1,
                    response_time: s.response_time,
                    last_checked: s.last_checked,
                };
                self.servers.set(k, updated);
                proof {
                    lemma_update_keeps(old(self)@.servers, k as int, updated);
                }
                true
            },
            None => false,
        }
    }

    /// Records that server `id`, checked at time `checked_at`, answered in
    /// `response_time` nanoseconds; `false`, with nothing changed, where
    /// there is no such server.
    pub fn record_response_time(&mut self, id: usize, response_time: u128, checked_at: u128) -> (known: bool)
        requires
            old(self).wf(),
        ensures
            final(self).wf(),
            (known, final(self)@) == response_step(old(self)@, id, response_time, checked_at),
    {
        match self.find_server(id) {
            Some(k) => {
                let s = &self.servers[k];
                let updated = Server {
                    id: s.id,
                    address: s.address.clone(),
                    weight: s.weight,
                    connections: s.connections,
                    response_time,
                    last_checked: checked_at,
                };
                self.servers.set(k, updated);
                proof {
                    lemma_update_keeps(old(self)@.servers, k as int, updated);
                }
                true
            },
            None => false,
        }
    }

    /// The last recorded response time of server `id`, if there is one.
    pub fn response_time_of(&self, id: usize) -> (t: Option<u128>)
        requires
            self.wf(),
        ensures
            t == if has_server(self@.servers, id) {
                Some(self@.servers[index_of(self@.servers, id)].response_time)
            } else {
                None::<u128>
            },
    {
        match self.find_server(id) {
            Some(k) => Some(self.servers[k].response_time),
            None => None,
        }
    }

    /// Copies of the servers, in their current order.
    pub fn servers(&self) -> (copies: Vec<Server>)
        ensures
            copies@ == self@.servers,
    {
        let n = self.servers.len();
        let mut copies: Vec<Server> = Vec::new();
        let mut i: usize = 0;
        while i < n
            invariant
                i <= n,
                n == self.servers@.len(),
                copies@ == self.servers@.take(i as int),
            decreases n - i,
        {
            copies.push(self.servers[i].duplicate());
            assert(copies@ =~= self.servers@.take(i + 1));
            i = i + 1;
        }
        assert(self.servers@.take(n as int) =~= self.servers@);
        copies
    }

    /// The number of servers that have subscribed.
    pub fn server_count(&self) -> (n: usize)
        ensures
            n == self@.servers.len(),
    {
        self.servers.len()
    }

    /// The name of the strategy, as given at start.
    pub fn strategy_name(&self) -> (name: &String)
        ensures
            name@ == self@.strategy_name,
    {
        &self.strategy
    }

    /// The strategy in use.
    pub fn strategy(&self) -> (s: Strategy)
        ensures
            s == self@.strategy(),
    {
        Strategy::from_name(&self.strategy)
    }

    /// Whether servers are probed for their response time: at subscription
    /// and periodically after. Only the least-time strategy needs it.
    pub fn probes_servers(&self) -> (probes: bool)
        ensures
            probes == (self@.strategy() == Strategy::LeastTime),
    {
        match self.strategy() {
            Strategy::LeastTime => true,
            _ => false,
        }
    }

    /// Whether the weights sum up to a `usize`, as weighted round robin
    /// needs when it adds them up.
    pub fn weights_fit(&self) -> (fits: bool)
        ensures
            fits == (total_weight(self@.servers) <= usize::MAX),
    {
        let ghost ws = weights_of(self.servers@);
        let n = self.servers.len();
        let mut total: usize = 0;
        let mut i: usize = 0;
        assert(ws.take(0) =~= Seq::<int>::empty());
        while i < n
            invariant
                i <= n,
                n == ws.len(),
                ws == weights_of(self.servers@),
                nonneg(ws),
                total == weight_sum(ws.take(i as int)),
            decreases n - i,
        {
            proof {
                lemma_sum_take_step(ws, i as int);
                lemma_sum_take_mono(ws, i + 1, n as int);
                lemma_sum_take_all(ws);
            }
            match total.checked_add(self.servers[i].weight) {
                Some(t) => {
                    total = t;
                },
                None => {
                    return false;
                },
            }
            i = i + 1;
        }
        proof {
            lemma_sum_take_all(ws);
        }
        true
    }
}

/// The response time a server starts with where it is not probed: one second.
pub const DEFAULT_RESPONSE_TIME_NANOS: u128 = 1_000_000_000;

/// The response time of a server that could not be reached: one minute.
pub const UNREACHABLE_RESPONSE_TIME_NANOS: u128 = 60_000_000_000;

/// Seconds between two rounds of health checks.
pub const HEALTH_CHECK_INTERVAL_SECS: u64 = 30;

/// What a health check measures: the time it took to connect, or the
/// penalty for a server that could not be reached.
pub open spec fn probe_time(probe: Option<u128>) -> u128 {
    match probe {
        Some(elapsed) => elapsed,
        None => UNREACHABLE_RESPONSE_TIME_NANOS,
    }
}

/// The response time a newly subscribed server starts with: what probing
/// it gave where the strategy probes servers, one second otherwise.
pub open spec fn initial_response_time(strategy: Strategy, probe: Option<u128>) -> u128 {
    if strategy == Strategy::LeastTime {
        probe_time(probe)
    } else {
        DEFAULT_RESPONSE_TIME_NANOS
    }
}

/// The response time that a health check reports: the time it took to
/// connect (`Some`), or one minute where the server could not be reached.
pub fn health_check_time(probe: Option<u128>) -> (t: u128)
    ensures
        t == probe_time(probe),
{
    match probe {
        Some(elapsed) => elapsed,
        None => UNREACHABLE_RESPONSE_TIME_NANOS,
    }
}

/// Why a client's request could not be answered by a backend server.
#[derive(Clone, Copy, Debug, PartialEq, Eq, Structural)]
pub enum ForwardFailure {
    /// No server has subscribed.
    NoServers,
    /// The chosen server could not be reached.
    Connect,
    /// The request could not be sent to the chosen server.
    Forward,
    /// The chosen server closed the connection without an answer.
    EmptyResponse,
    /// The chosen server's answer could not be read.
    ReadResponse,
}

impl ForwardFailure {
    /// What the client is told.
    pub fn reply(&self) -> (text: &'static str)
        ensures
            *self == ForwardFailure::NoServers ==> text@ == "Error: No servers available"@,
            *self == ForwardFailure::Connect ==> text@ == "Error connecting to backend server"@,
            *self == ForwardFailure::Forward ==> text@ == "Error forwarding request"@,
            *self == ForwardFailure::EmptyResponse ==> text@ == "Error: Empty response from server"@,
            *self == ForwardFailure::ReadResponse ==> text@ == "Error reading response from server"@,
    {
        match self {
            ForwardFailure::NoServers => "Error: No servers available",
            ForwardFailure::Connect => "Error connecting to backend server",
            ForwardFailure::Forward => "Error forwarding request",
            ForwardFailure::EmptyResponse => "Error: Empty response from server",
            ForwardFailure::ReadResponse => "Error reading response from server",
        }
    }
}

impl LoadBalancer {
    /// Takes in a server whose subscription was accepted. `probe` is what
    /// connecting to it gave (the time it took, or `None` where it failed);
    /// it is consulted only where the strategy probes servers. `checked_at`
    /// is the time of the subscription. Returns the new server's id.
    pub fn subscribe(&mut self, subscription: Subscription, probe: Option<u128>, checked_at: u128) -> (id: usize)
        requires
            old(self).wf(),
        ensures
            final(self).wf(),
            (id, final(self)@) == register_step(
                old(self)@,
                subscription.address,
                subscription.weight,
                initial_response_time(old(self)@.strategy(), probe),
                checked_at,
            ),
    {
        let initial = if self.probes_servers() {
            health_check_time(probe)
        } else {
            DEFAULT_RESPONSE_TIME_NANOS
        };
        self.register_server(subscription.address, subscription.weight, initial, checked_at)
    }
}
} // verus!
