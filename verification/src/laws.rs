//! What holds of the load balancer over many requests: how each strategy
//! spreads them, and how its bookkeeping undoes itself.
use vstd::prelude::*;
use crate::balancer::{
    begin_step, connections_of, end_step, has_server, index_of, response_step,
    response_times_of, rotate, select_step, total_weight, weights_of, with_connections,
    BalancerView, Server,
};
use crate::strategy::{strategy_of, Strategy};
use crate::weights::{first_min, lemma_first_min, lemma_pick_iff_interval, nonneg, weighted_pick};

verus! {

/// The load balancer after `k` requests from `client`.
pub open spec fn select_times(v: BalancerView, client: Seq<char>, k: nat) -> BalancerView
    decreases k,
{
    if k == 0 {
        v
    } else {
        select_step(select_times(v, client, (k - 1) as nat), client).1
    }
}

/// The server that the `k`-th request (counting from 0) of `client` goes to.
pub open spec fn kth_choice(v: BalancerView, client: Seq<char>, k: nat) -> Option<Server> {
    select_step(select_times(v, client, k), client).0
}

proof fn lemma_mod_succ(k: int, n: int)
    requires
        0 <= k,
        0 < n,
    ensures
        0 <= k % n < n,
        (k + 1) % n == if k % n + 1 == n {
            0
        } else {
            k % n + 1
        },
        (k % n + 1) % n == (k + 1) % n,
        (k % n) % n == k % n,
{
    assert((k + 1) % n == if k % n + 1 == n {
        0
    } else {
        k % n + 1
    }) by (nonlinear_arith)
        requires
            0 <= k,
            0 < n,
    ;
    assert(0 <= k % n < n) by (nonlinear_arith)
        requires
            0 < n,
    ;
    vstd::arithmetic::div_mod::lemma_small_mod((k % n) as nat, n as nat);
    if k % n + 1 < n {
        vstd::arithmetic::div_mod::lemma_small_mod((k % n + 1) as nat, n as nat);
    } else {
        vstd::arithmetic::div_mod::lemma_mod_self_0(n);
    }
}

/// No server can be chosen while none has subscribed, and one always is
/// once one has.
pub proof fn selection_needs_servers(v: BalancerView, client: Seq<char>)
    ensures
        select_step(v, client).0 is None <==> v.servers.len() == 0,
{
}

/// Choosing a server keeps the load balancer's state valid, keeps its
/// strategy and keeps the same servers (round robin only reorders them).
pub proof fn selection_keeps_servers(v: BalancerView, client: Seq<char>)
    requires
        v.valid(),
    ensures
        select_step(v, client).1.strategy_name == v.strategy_name,
        select_step(v, client).1.servers.to_multiset() == v.servers.to_multiset(),
        select_step(v, client).0 matches Some(s) ==> v.servers.contains(s),
{
    broadcast use vstd::seq_lib::group_to_multiset_ensures;

    if v.servers.len() > 0 && v.strategy() == Strategy::RoundRobin {
        let s = v.servers;
        assert(rotate(s) =~= s.remove(0).push(s[0]));
        assert(s.to_multiset().remove(s[0]).insert(s[0]) =~= s.to_multiset());
    }
    if v.servers.len() > 0 {
        let (c, _) = select_step(v, client);
        if v.strategy() == Strategy::LeastConnections {
            let k = first_min(connections_of(v.servers));
            lemma_first_min(connections_of(v.servers));
            assert(v.servers[k] == c->0);
        } else if v.strategy() == Strategy::LeastTime {
            let k = first_min(response_times_of(v.servers));
            lemma_first_min(response_times_of(v.servers));
            assert(v.servers[k] == c->0);
        } else if v.strategy() == Strategy::WeightedRoundRobin && total_weight(v.servers) > 0 {
            let ws = weights_of(v.servers);
            let pos = (v.wrr_counter + 1) % total_weight(v.servers);
            assert(nonneg(ws));
            lemma_mod_succ(v.wrr_counter as int, total_weight(v.servers));
            crate::weights::lemma_pick_interval(ws, pos);
            let k = weighted_pick(ws, pos);
            assert(v.servers[k] == c->0);
        } else if v.strategy() == Strategy::StickyRoundRobin {
            let stored = if v.sticky.contains_key(client) {
                v.sticky[client] as int
            } else {
                0
            };
            lemma_mod_succ(stored, v.servers.len() as int);
            let k = stored % (v.servers.len() as int);
            assert(v.servers[k] == c->0);
        } else {
            let ws = weights_of(v.servers);
            assert(nonneg(ws));
            crate::weights::lemma_sum_nonneg(ws);
            assert(v.servers[0] == c->0);
        }
    }
}

/// Round robin hands the servers out in their order, one per request, and
/// after as many requests as there are servers their order is back as it
/// was.
pub proof fn round_robin_cycle(v: BalancerView, client: Seq<char>, k: nat)
    requires
        v.strategy() == Strategy::RoundRobin,
        v.servers.len() > 0,
    ensures
        kth_choice(v, client, k) == Some(v.servers[(k % v.servers.len()) as int]),
        select_times(v, client, v.servers.len()) == v,
{
    lemma_round_robin_state(v, client, k);
    let n = v.servers.len();
    lemma_round_robin_state(v, client, n);
    vstd::arithmetic::div_mod::lemma_mod_self_0(n as int);
    let s = v.servers;
    assert(s.skip(0) + s.take(0) =~= s);
    assert(select_times(v, client, n).servers =~= s);
    let j = k % n;
    lemma_mod_succ(k as int, n as int);
    assert((s.skip(j as int) + s.take(j as int))[0] == s[j as int]);
}

/// Rotating the servers once more moves the split point on by one.
proof fn lemma_rotate_shift(s: Seq<Server>, j: int)
    requires
        0 <= j < s.len(),
    ensures
        rotate(s.skip(j) + s.take(j)) == if j + 1 < s.len() {
            s.skip(j + 1) + s.take(j + 1)
        } else {
            s.skip(0) + s.take(0)
        },
{
    let cur = s.skip(j) + s.take(j);
    assert(cur[0] == s[j]);
    if j + 1 < s.len() {
        assert(rotate(cur) =~= s.skip(j + 1) + s.take(j + 1));
    } else {
        assert(rotate(cur) =~= s.skip(0) + s.take(0));
    }
}

/// After `k` round-robin requests, the server list is rotated by `k`.
proof fn lemma_round_robin_state(v: BalancerView, client: Seq<char>, k: nat)
    requires
        v.strategy() == Strategy::RoundRobin,
        v.servers.len() > 0,
    ensures
        select_times(v, client, k) == v.with_servers(
            v.servers.skip((k % v.servers.len()) as int) + v.servers.take(
                (k % v.servers.len()) as int,
            ),
        ),
    decreases k,
{
    let s = v.servers;
    let n = s.len() as int;
    if k == 0 {
        vstd::arithmetic::div_mod::lemma_small_mod(0, s.len());
        assert(s.skip(0) + s.take(0) =~= s);
        assert(v.with_servers(s) == v);
    } else {
        let p = (k - 1) as nat;
        lemma_round_robin_state(v, client, p);
        lemma_mod_succ(p as int, n);
        let j = (p % s.len()) as int;
        let cur = s.skip(j) + s.take(j);
        let prev = select_times(v, client, p);
        assert(cur.len() == n);
        assert(prev.strategy() == Strategy::RoundRobin);
        lemma_rotate_shift(s, j);
        let jk = (k % s.len()) as int;
        assert(select_times(v, client, k) == prev.with_servers(rotate(cur)));
        assert(rotate(cur) == s.skip(jk) + s.take(jk));
    }
}

/// Under sticky round robin, a client that has not been seen before is
/// sent to the servers in their order, one per request, round and round.
pub proof fn sticky_round_robin_cycle(v: BalancerView, client: Seq<char>, k: nat)
    requires
        v.valid(),
        v.strategy() == Strategy::StickyRoundRobin,
        v.servers.len() > 0,
        !v.sticky.contains_key(client),
    ensures
        kth_choice(v, client, k) == Some(v.servers[(k % v.servers.len()) as int]),
{
    lemma_sticky_state(v, client, k);
    let n = v.servers.len() as int;
    lemma_mod_succ(k as int, n);
    if k == 0 {
        vstd::arithmetic::div_mod::lemma_small_mod(0, n as nat);
    }
}

proof fn lemma_sticky_state(v: BalancerView, client: Seq<char>, k: nat)
    requires
        v.valid(),
        v.strategy() == Strategy::StickyRoundRobin,
        v.servers.len() > 0,
        !v.sticky.contains_key(client),
    ensures
        select_times(v, client, k).servers == v.servers,
        select_times(v, client, k).strategy_name == v.strategy_name,
        k == 0 ==> !select_times(v, client, k).sticky.contains_key(client),
        k > 0 ==> select_times(v, client, k).sticky.contains_key(client) && select_times(
            v,
            client,
            k,
        ).sticky[client] == k % v.servers.len(),
    decreases k,
{
    if k > 0 {
        let p = (k - 1) as nat;
        lemma_sticky_state(v, client, p);
        let n = v.servers.len() as int;
        lemma_mod_succ(p as int, n);
        if p == 0 {
            vstd::arithmetic::div_mod::lemma_small_mod(0, n as nat);
        }
    }
}

/// Under weighted round robin the cycle position moves on by one for each
/// request, and request `k` goes to the server whose share of the cycle
/// holds the position it moved to.
pub proof fn weighted_round_robin_positions(v: BalancerView, client: Seq<char>, k: nat)
    requires
        v.valid(),
        v.strategy() == Strategy::WeightedRoundRobin,
        v.servers.len() > 0,
        total_weight(v.servers) > 0,
        total_weight(v.servers) <= usize::MAX,
    ensures
        select_times(v, client, k).wrr_counter == (v.wrr_counter + k) % total_weight(v.servers),
        kth_choice(v, client, k) == Some(
            v.servers[weighted_pick(
                weights_of(v.servers),
                (v.wrr_counter + k + 1) % total_weight(v.servers),
            )],
        ),
    decreases k,
{
    let w = total_weight(v.servers);
    lemma_wrr_state(v, client, k);
    lemma_mod_succ(v.wrr_counter + k, w);
}

proof fn lemma_wrr_state(v: BalancerView, client: Seq<char>, k: nat)
    requires
        v.valid(),
        v.strategy() == Strategy::WeightedRoundRobin,
        v.servers.len() > 0,
        total_weight(v.servers) > 0,
        total_weight(v.servers) <= usize::MAX,
    ensures
        select_times(v, client, k).servers == v.servers,
        select_times(v, client, k).strategy_name == v.strategy_name,
        select_times(v, client, k).wrr_counter == (v.wrr_counter + k) % total_weight(v.servers),
    decreases k,
{
    let w = total_weight(v.servers);
    if k == 0 {
        vstd::arithmetic::div_mod::lemma_small_mod(v.wrr_counter as nat, w as nat);
    } else {
        let p = (k - 1) as nat;
        lemma_wrr_state(v, client, p);
        lemma_mod_succ(v.wrr_counter + p, w);
        lemma_mod_succ((v.wrr_counter + p) % w, w);
    }
}

/// Weighted round robin gives every server a share of the cycle as long as
/// its weight: a position picks server `i` exactly when it lies between the
/// weights of the servers before `i` and that sum plus `i`'s weight.
pub proof fn weighted_share(v: BalancerView, pos: int, i: int)
    requires
        0 <= pos < total_weight(v.servers),
        0 <= i < v.servers.len(),
    ensures
        weighted_pick(weights_of(v.servers), pos) == i <==> crate::weights::weight_sum(
            weights_of(v.servers).take(i),
        ) <= pos < crate::weights::weight_sum(weights_of(v.servers).take(i)) + v.servers[i].weight,
{
    lemma_pick_iff_interval(weights_of(v.servers), pos, i);
}

/// Least connections sends a request to a server with no more open
/// connections than any other, and to the first of several such.
pub proof fn least_connections_choice(v: BalancerView, client: Seq<char>)
    requires
        v.strategy() == Strategy::LeastConnections,
        v.servers.len() > 0,
    ensures
        select_step(v, client).0 matches Some(s) && exists|i: int|
            0 <= i < v.servers.len() && v.servers[i] == s && (forall|j: int|
                0 <= j < v.servers.len() ==> s.connections <= (#[trigger] v.servers[j]).connections)
                && (forall|j: int| 0 <= j < i ==> s.connections < (#[trigger] v.servers[j]).connections),
        select_step(v, client).1 == v,
{
    let keys = connections_of(v.servers);
    lemma_first_min(keys);
    let i = first_min(keys);
    assert forall|j: int| 0 <= j < v.servers.len() implies v.servers[i].connections <= (
    #[trigger] v.servers[j]).connections by {
        assert(keys[i] <= keys[j]);
    }
    assert forall|j: int| 0 <= j < i implies v.servers[i].connections < (
    #[trigger] v.servers[j]).connections by {
        assert(keys[i] < keys[j]);
    }
}

/// Least time sends a request to a server with no longer a response time
/// than any other, and to the first of several such.
pub proof fn least_time_choice(v: BalancerView, client: Seq<char>)
    requires
        v.strategy() == Strategy::LeastTime,
        v.servers.len() > 0,
    ensures
        select_step(v, client).0 matches Some(s) && exists|i: int|
            0 <= i < v.servers.len() && v.servers[i] == s && (forall|j: int|
                0 <= j < v.servers.len() ==> s.response_time <= (
                #[trigger] v.servers[j]).response_time) && (forall|j: int|
                0 <= j < i ==> s.response_time < (#[trigger] v.servers[j]).response_time),
        select_step(v, client).1 == v,
{
    let keys = response_times_of(v.servers);
    lemma_first_min(keys);
    let i = first_min(keys);
    assert forall|j: int| 0 <= j < v.servers.len() implies v.servers[i].response_time <= (
    #[trigger] v.servers[j]).response_time by {
        assert(keys[i] <= keys[j]);
    }
    assert forall|j: int| 0 <= j < i implies v.servers[i].response_time < (
    #[trigger] v.servers[j]).response_time by {
        assert(keys[i] < keys[j]);
    }
}

/// A request that starts and then ends on a server leaves the load
/// balancer as it was.
pub proof fn connection_round_trip(v: BalancerView, id: usize)
    requires
        v.valid(),
        begin_step(v, id).0,
    ensures
        end_step(begin_step(v, id).1, id) == (true, v),
{
    let k = index_of(v.servers, id);
    let x = v.servers[k];
    let y = with_connections(x, x.connections + 1);
    let s1 = v.servers.update(k, y);
    crate::balancer::lemma_update_keeps(v.servers, k, y);
    crate::balancer::lemma_index_of(s1, k);
    assert(s1[k].id == id);
    assert(with_connections(y, y.connections - 1) == x);
    assert(s1.update(k, x) =~= v.servers);
    assert(v.with_servers(v.servers) == v);
}

/// A recorded response time is the one read back for that server, with
/// the time it was measured at.
pub proof fn response_time_read_back(v: BalancerView, id: usize, t: u128, at: u128)
    requires
        v.valid(),
        has_server(v.servers, id),
    ensures
        response_step(v, id, t, at).0,
        has_server(response_step(v, id, t, at).1.servers, id),
        response_step(v, id, t, at).1.servers[index_of(response_step(v, id, t, at).1.servers, id)].response_time
            == t,
        response_step(v, id, t, at).1.servers[index_of(response_step(v, id, t, at).1.servers, id)].last_checked
            == at,
{
    let k = index_of(v.servers, id);
    let x = crate::balancer::with_response_time(v.servers[k], t, at);
    let s1 = v.servers.update(k, x);
    crate::balancer::lemma_update_keeps(v.servers, k, x);
    crate::balancer::lemma_index_of(s1, k);
}


/// How many of the first `m` requests of `client` go to server `s`.
pub open spec fn times_chosen(v: BalancerView, client: Seq<char>, m: nat, s: Server) -> nat
    decreases m,
{
    if m == 0 {
        0
    } else {
        times_chosen(v, client, (m - 1) as nat, s) + if kth_choice(v, client, (m - 1) as nat) == Some(
            s,
        ) {
            1nat
        } else {
            0nat
        }
    }
}

/// How many positions in `[a, b)` weighted round robin gives to server `i`.
spec fn picks_in(ws: Seq<int>, i: int, a: int, b: int) -> nat
    decreases b - a,
{
    if b <= a {
        0
    } else {
        picks_in(ws, i, a, b - 1) + if weighted_pick(ws, b - 1) == i {
            1nat
        } else {
            0nat
        }
    }
}

/// The positions of `[a, b)` that go to server `i` are those it shares with
/// the interval of `i`.
proof fn lemma_picks_in(ws: Seq<int>, i: int, a: int, b: int)
    requires
        nonneg(ws),
        0 <= i < ws.len(),
        0 <= a <= b <= crate::weights::weight_sum(ws),
    ensures
        ({
            let lo = crate::weights::weight_sum(ws.take(i));
            let hi = lo + ws[i];
            let top = if b < hi {
                b
            } else {
                hi
            };
            let bottom = if a > lo {
                a
            } else {
                lo
            };
            picks_in(ws, i, a, b) == if top > bottom {
                top - bottom
            } else {
                0
            }
        }),
    decreases b - a,
{
    if b > a {
        lemma_picks_in(ws, i, a, b - 1);
        lemma_pick_iff_interval(ws, b - 1, i);
    }
}

/// Over one cycle of weighted round robin, as many requests as the weights
/// add up to, each server receives as many requests as its weight.
pub proof fn weighted_round_robin_fairness(v: BalancerView, client: Seq<char>, i: int)
    requires
        v.valid(),
        v.strategy() == Strategy::WeightedRoundRobin,
        total_weight(v.servers) > 0,
        total_weight(v.servers) <= usize::MAX,
        0 <= i < v.servers.len(),
    ensures
        times_chosen(v, client, total_weight(v.servers) as nat, v.servers[i]) == v.servers[i].weight,
{
    let w = total_weight(v.servers);
    let ws = weights_of(v.servers);
    let c = v.wrr_counter as int;
    assert(nonneg(ws));
    lemma_times_chosen_positions(v, client, i, w as nat);
    lemma_picks_in(ws, i, c + 1, w);
    lemma_picks_in(ws, i, 0, c + 1);
    let lo = crate::weights::weight_sum(ws.take(i));
    crate::weights::lemma_sum_take_step(ws, i);
    crate::weights::lemma_sum_take_mono(ws, i + 1, ws.len() as int);
    crate::weights::lemma_sum_take_mono(ws, 0, i);
    crate::weights::lemma_sum_take_all(ws);
    assert(ws.take(0) =~= Seq::<int>::empty());
    assert(crate::weights::weight_sum(Seq::<int>::empty()) == 0);
}

/// The first `m` requests of a cycle, counted through the positions they
/// are given: first those after the counter, then those from 0 on.
proof fn lemma_times_chosen_positions(v: BalancerView, client: Seq<char>, i: int, m: nat)
    requires
        v.valid(),
        v.strategy() == Strategy::WeightedRoundRobin,
        total_weight(v.servers) > 0,
        total_weight(v.servers) <= usize::MAX,
        0 <= i < v.servers.len(),
        m <= total_weight(v.servers),
    ensures
        ({
            let w = total_weight(v.servers);
            let ws = weights_of(v.servers);
            let c = v.wrr_counter as int;
            times_chosen(v, client, m, v.servers[i]) == if m <= w - c - 1 {
                picks_in(ws, i, c + 1, c + 1 + m)
            } else {
                picks_in(ws, i, c + 1, w) + picks_in(ws, i, 0, m - (w - c - 1))
            }
        }),
    decreases m,
{
    let w = total_weight(v.servers);
    let ws = weights_of(v.servers);
    let c = v.wrr_counter as int;
    if m == 0 {
        assert(picks_in(ws, i, c + 1, c + 1) == 0);
    } else {
        let k = (m - 1) as nat;
        lemma_times_chosen_positions(v, client, i, k);
        weighted_round_robin_positions(v, client, k);
        let x = c + k + 1;
        let pos = x % w;
        if x < w {
            vstd::arithmetic::div_mod::lemma_small_mod(x as nat, w as nat);
        } else {
            assert(x % w == x - w) by (nonlinear_arith)
                requires
                    w <= x < 2 * w,
            ;
        }
        let p = weighted_pick(ws, pos);
        assert(0 <= pos < w);
        crate::weights::lemma_pick_interval(ws, pos);
        let s = v.servers;
        assert(kth_choice(v, client, k) == Some(s[p]));
        if p != i {
            if p < i {
                assert(s[p].id != s[i].id);
            } else {
                assert(s[i].id != s[p].id);
            }
        }
        assert((kth_choice(v, client, k) == Some(s[i])) == (p == i));
        if k == w - c - 1 {
            assert(picks_in(ws, i, 0, 0) == 0);
        }
    }
}

/// The load balancer after one request from each client of `calls`, in order.
pub open spec fn run(v: BalancerView, calls: Seq<Seq<char>>) -> BalancerView
    decreases calls.len(),
{
    if calls.len() == 0 {
        v
    } else {
        select_step(run(v, calls.drop_last()), calls.last()).1
    }
}

/// The servers that the requests of `client` among `calls` went to, in order.
pub open spec fn choices_for(v: BalancerView, calls: Seq<Seq<char>>, client: Seq<char>) -> Seq<
    Option<Server>,
>
    decreases calls.len(),
{
    if calls.len() == 0 {
        Seq::empty()
    } else {
        let before = choices_for(v, calls.drop_last(), client);
        if calls.last() == client {
            before.push(select_step(run(v, calls.drop_last()), client).0)
        } else {
            before
        }
    }
}

/// How many of `calls` come from `client`.
pub open spec fn calls_by(calls: Seq<Seq<char>>, client: Seq<char>) -> nat
    decreases calls.len(),
{
    if calls.len() == 0 {
        0
    } else {
        calls_by(calls.drop_last(), client) + if calls.last() == client {
            1nat
        } else {
            0nat
        }
    }
}

/// Two states look alike to `client` under sticky round robin: same
/// servers, same strategy, same entry for the client.
spec fn agree(r: BalancerView, s: BalancerView, client: Seq<char>) -> bool {
    &&& r.servers == s.servers
    &&& r.strategy_name == s.strategy_name
    &&& r.sticky.contains_key(client) == s.sticky.contains_key(client)
    &&& r.sticky.contains_key(client) ==> r.sticky[client] == s.sticky[client]
}

proof fn lemma_select_times_name(v: BalancerView, client: Seq<char>, k: nat)
    ensures
        select_times(v, client, k).strategy_name == v.strategy_name,
    decreases k,
{
    if k > 0 {
        lemma_select_times_name(v, client, (k - 1) as nat);
    }
}

/// States that look alike to a client give it the same server and stay
/// alike after its request.
proof fn lemma_agree_step(r: BalancerView, s: BalancerView, client: Seq<char>)
    requires
        agree(r, s, client),
        r.strategy() == Strategy::StickyRoundRobin,
    ensures
        select_step(r, client).0 == select_step(s, client).0,
        agree(select_step(r, client).1, select_step(s, client).1, client),
{
}

/// A request from another client leaves a client's view as it was.
proof fn lemma_other_client(r: BalancerView, other: Seq<char>, client: Seq<char>)
    requires
        other != client,
        r.strategy() == Strategy::StickyRoundRobin,
    ensures
        agree(select_step(r, other).1, r, client),
{
}

proof fn lemma_run_agrees(v: BalancerView, calls: Seq<Seq<char>>, client: Seq<char>)
    requires
        v.strategy() == Strategy::StickyRoundRobin,
    ensures
        run(v, calls).strategy_name == v.strategy_name,
        agree(run(v, calls), select_times(v, client, calls_by(calls, client)), client),
        choices_for(v, calls, client) == Seq::new(
            calls_by(calls, client),
            |k: int| kth_choice(v, client, k as nat),
        ),
    decreases calls.len(),
{
    if calls.len() == 0 {
        assert(choices_for(v, calls, client) =~= Seq::new(
            0,
            |k: int| kth_choice(v, client, k as nat),
        ));
    } else {
        let prev = calls.drop_last();
        lemma_run_agrees(v, prev, client);
        let m = calls_by(prev, client);
        let r = run(v, prev);
        let sm = select_times(v, client, m);
        lemma_select_times_name(v, client, m);
        if calls.last() == client {
            lemma_agree_step(r, sm, client);
            assert(choices_for(v, calls, client) =~= Seq::new(
                m + 1,
                |k: int| kth_choice(v, client, k as nat),
            ));
        } else {
            lemma_other_client(r, calls.last(), client);
        }
    }
}

/// Under sticky round robin a client's servers depend only on the servers
/// and on its own requests: the requests of other clients in between
/// change nothing for it. Its `k`-th request goes where it would have gone
/// had it been the only client, and two runs with as many requests from it
/// give it the same servers.
pub proof fn sticky_choices_are_per_client(
    v: BalancerView,
    calls1: Seq<Seq<char>>,
    calls2: Seq<Seq<char>>,
    client: Seq<char>,
)
    requires
        v.strategy() == Strategy::StickyRoundRobin,
        calls_by(calls1, client) == calls_by(calls2, client),
    ensures
        choices_for(v, calls1, client) == Seq::new(
            calls_by(calls1, client),
            |k: int| kth_choice(v, client, k as nat),
        ),
        choices_for(v, calls1, client) == choices_for(v, calls2, client),
{
    lemma_run_agrees(v, calls1, client);
    lemma_run_agrees(v, calls2, client);
}

/// One round of health checks: the servers as they stood when the round
/// began are checked in their order, and `results[i]` (response time, time
/// of the check) is recorded for the `i`-th of them.
pub open spec fn health_round(v: BalancerView, results: Seq<(u128, u128)>) -> BalancerView
    decreases results.len(),
{
    if results.len() == 0 {
        v
    } else {
        let i = results.len() - 1;
        response_step(
            health_round(v, results.drop_last()),
            v.servers[i].id,
            results.last().0,
            results.last().1,
        ).1
    }
}

/// Rounds of health checks, one after the other.
pub open spec fn health_rounds(v: BalancerView, rounds: Seq<Seq<(u128, u128)>>) -> BalancerView
    decreases rounds.len(),
{
    if rounds.len() == 0 {
        v
    } else {
        health_round(health_rounds(v, rounds.drop_last()), rounds.last())
    }
}

/// `w` differs from `v` at most in the servers' response times and check
/// times: same servers in the same order, same weights and connection
/// counts, same strategy, sticky sessions and weighted counter.
pub open spec fn only_times_differ(v: BalancerView, w: BalancerView) -> bool {
    &&& w.strategy_name == v.strategy_name
    &&& w.sticky == v.sticky
    &&& w.wrr_counter == v.wrr_counter
    &&& w.servers.len() == v.servers.len()
    &&& forall|i: int|
        0 <= i < v.servers.len() ==> {
            &&& (#[trigger] w.servers[i]).id == v.servers[i].id
            &&& w.servers[i].address == v.servers[i].address
            &&& w.servers[i].weight == v.servers[i].weight
            &&& w.servers[i].connections == v.servers[i].connections
        }
}

proof fn lemma_health_round_prefix(v: BalancerView, results: Seq<(u128, u128)>)
    requires
        v.valid(),
        results.len() <= v.servers.len(),
    ensures
        health_round(v, results).valid(),
        only_times_differ(v, health_round(v, results)),
        forall|i: int|
            0 <= i < results.len() ==> (#[trigger] health_round(v, results).servers[i]).response_time
                == results[i].0 && health_round(v, results).servers[i].last_checked == results[i].1,
        forall|i: int|
            results.len() <= i < v.servers.len() ==> #[trigger] health_round(v, results).servers[i]
                == v.servers[i],
    decreases results.len(),
{
    if results.len() > 0 {
        let k = results.len() - 1;
        let prev_results = results.drop_last();
        lemma_health_round_prefix(v, prev_results);
        let prev = health_round(v, prev_results);
        let id = v.servers[k].id;
        assert(prev.servers[k] == v.servers[k]);
        crate::balancer::lemma_index_of(prev.servers, k);
        let x = crate::balancer::with_response_time(prev.servers[k], results.last().0, results.last().1);
        crate::balancer::lemma_update_keeps(prev.servers, k, x);
        let w = health_round(v, results);
        assert(w.servers == prev.servers.update(k, x));
        assert forall|i: int| 0 <= i < results.len() implies (#[trigger] w.servers[i]).response_time
            == results[i].0 && w.servers[i].last_checked == results[i].1 by {
            if i < k {
                assert(prev_results[i] == results[i]);
                assert(w.servers[i] == prev.servers[i]);
            }
        }
        assert forall|i: int| 0 <= i < v.servers.len() implies {
            &&& (#[trigger] w.servers[i]).id == v.servers[i].id
            &&& w.servers[i].address == v.servers[i].address
            &&& w.servers[i].weight == v.servers[i].weight
            &&& w.servers[i].connections == v.servers[i].connections
        } by {
            if i != k {
                assert(w.servers[i] == prev.servers[i]);
            }
        }
    }
}

/// A round of health checks over all servers records each result for its
/// server and changes nothing else: no server is added, removed or moved,
/// and no weight, connection count, sticky session or weighted counter
/// changes.
pub proof fn health_check_round(v: BalancerView, results: Seq<(u128, u128)>)
    requires
        v.valid(),
        results.len() == v.servers.len(),
    ensures
        health_round(v, results).valid(),
        only_times_differ(v, health_round(v, results)),
        forall|i: int|
            0 <= i < v.servers.len() ==> (#[trigger] health_round(v, results).servers[i]).response_time
                == results[i].0 && health_round(v, results).servers[i].last_checked == results[i].1,
{
    lemma_health_round_prefix(v, results);
}

/// Any number of rounds of health checks change nothing but response
/// times and check times.
pub proof fn health_checks_only_touch_times(v: BalancerView, rounds: Seq<Seq<(u128, u128)>>)
    requires
        v.valid(),
        forall|r: int| 0 <= r < rounds.len() ==> (#[trigger] rounds[r]).len() == v.servers.len(),
    ensures
        health_rounds(v, rounds).valid(),
        only_times_differ(v, health_rounds(v, rounds)),
    decreases rounds.len(),
{
    if rounds.len() > 0 {
        let prev = rounds.drop_last();
        assert forall|r: int| 0 <= r < prev.len() implies (#[trigger] prev[r]).len() == v.servers.len() by {
            assert(prev[r] == rounds[r]);
        }
        health_checks_only_touch_times(v, prev);
        let u = health_rounds(v, prev);
        assert(rounds.last() == rounds[rounds.len() - 1]);
        health_check_round(u, rounds.last());
        let w = health_rounds(v, rounds);
        assert forall|i: int| 0 <= i < v.servers.len() implies {
            &&& (#[trigger] w.servers[i]).id == v.servers[i].id
            &&& w.servers[i].address == v.servers[i].address
            &&& w.servers[i].weight == v.servers[i].weight
            &&& w.servers[i].connections == v.servers[i].connections
        } by {
            assert(w.servers[i].id == u.servers[i].id);
            assert(u.servers[i].id == v.servers[i].id);
        }
    }
}

/// A request that starts on a known server is always counted, as long as
/// its count has not reached `usize::MAX`: the count grows by one and the
/// other servers' counts stay as they were.
pub proof fn counting_succeeds_below_limit(v: BalancerView, id: usize)
    requires
        v.valid(),
        has_server(v.servers, id),
        v.servers[index_of(v.servers, id)].connections < usize::MAX,
    ensures
        begin_step(v, id).0,
        begin_step(v, id).1.servers.len() == v.servers.len(),
        has_server(begin_step(v, id).1.servers, id),
        begin_step(v, id).1.servers[index_of(begin_step(v, id).1.servers, id)].connections
            == v.servers[index_of(v.servers, id)].connections + 1,
        forall|i: int|
            0 <= i < v.servers.len() && v.servers[i].id != id ==> #[trigger] begin_step(
                v,
                id,
            ).1.servers[i] == v.servers[i],
{
    let k = index_of(v.servers, id);
    let x = with_connections(v.servers[k], v.servers[k].connections + 1);
    crate::balancer::lemma_update_keeps(v.servers, k, x);
    crate::balancer::lemma_index_of(v.servers.update(k, x), k);
}

/// A request that ends on a server that has connections open is always
/// counted off: the count shrinks by one.
pub proof fn releasing_succeeds_when_open(v: BalancerView, id: usize)
    requires
        v.valid(),
        has_server(v.servers, id),
        v.servers[index_of(v.servers, id)].connections > 0,
    ensures
        end_step(v, id).0,
        has_server(end_step(v, id).1.servers, id),
        end_step(v, id).1.servers[index_of(end_step(v, id).1.servers, id)].connections
            == v.servers[index_of(v.servers, id)].connections - 1,
{
    let k = index_of(v.servers, id);
    let x = with_connections(v.servers[k], v.servers[k].connections - 1);
    crate::balancer::lemma_update_keeps(v.servers, k, x);
    crate::balancer::lemma_index_of(v.servers.update(k, x), k);
}

/// The load balancer after the subscriptions `subs` (address, weight,
/// initial response time, time of subscription), in order.
pub open spec fn subscribe_all(v: BalancerView, subs: Seq<(String, usize, u128, u128)>) -> BalancerView
    decreases subs.len(),
{
    if subs.len() == 0 {
        v
    } else {
        let last = subs.last();
        crate::balancer::register_step(subscribe_all(v, subs.drop_last()), last.0, last.1, last.2, last.3).1
    }
}

proof fn lemma_subscribe_all(v: BalancerView, subs: Seq<(String, usize, u128, u128)>)
    requires
        v.servers.len() + subs.len() <= usize::MAX,
    ensures
        subscribe_all(v, subs).strategy_name == v.strategy_name,
        subscribe_all(v, subs).sticky == v.sticky,
        subscribe_all(v, subs).wrr_counter == v.wrr_counter,
        subscribe_all(v, subs).servers.len() == v.servers.len() + subs.len(),
        forall|i: int| 0 <= i < v.servers.len() ==> #[trigger] subscribe_all(v, subs).servers[i] == v.servers[i],
        forall|i: int|
            0 <= i < subs.len() ==> {
                let s = #[trigger] subscribe_all(v, subs).servers[v.servers.len() + i];
                &&& s.id == v.servers.len() + i
                &&& s.address == subs[i].0
                &&& s.weight == subs[i].1
                &&& s.connections == 0
                &&& s.response_time == subs[i].2
                &&& s.last_checked == subs[i].3
            },
    decreases subs.len(),
{
    if subs.len() > 0 {
        let prev = subs.drop_last();
        lemma_subscribe_all(v, prev);
        let u = subscribe_all(v, prev);
        let w = subscribe_all(v, subs);
        assert forall|i: int| 0 <= i < v.servers.len() implies #[trigger] w.servers[i] == v.servers[i] by {
            assert(w.servers[i] == u.servers[i]);
        }
        assert forall|i: int| 0 <= i < subs.len() implies {
            let s = #[trigger] w.servers[v.servers.len() + i];
            &&& s.id == v.servers.len() + i
            &&& s.address == subs[i].0
            &&& s.weight == subs[i].1
            &&& s.connections == 0
            &&& s.response_time == subs[i].2
            &&& s.last_checked == subs[i].3
        } by {
            if i < prev.len() {
                assert(w.servers[v.servers.len() + i] == u.servers[v.servers.len() + i]);
                assert(prev[i] == subs[i]);
            }
        }
    }
}

/// A new load balancer has no servers and knows no client: under sticky
/// round robin, once servers have subscribed, the first request of any
/// client goes to the first server that subscribed.
pub proof fn fresh_clients_start_at_first_server(
    name: Seq<char>,
    subs: Seq<(String, usize, u128, u128)>,
    client: Seq<char>,
)
    requires
        strategy_of(name) == Strategy::StickyRoundRobin,
        0 < subs.len() <= usize::MAX,
    ensures
        crate::balancer::initial(name).servers.len() == 0,
        !crate::balancer::initial(name).sticky.contains_key(client),
        select_step(subscribe_all(crate::balancer::initial(name), subs), client).0 matches Some(s)
            && s.id == 0 && s.address == subs[0].0 && s.weight == subs[0].1,
{
    let v = crate::balancer::initial(name);
    lemma_subscribe_all(v, subs);
    let w = subscribe_all(v, subs);
    assert(w.servers[(v.servers.len() + 0) as int] == w.servers[0]);
    vstd::arithmetic::div_mod::lemma_small_mod(0, w.servers.len());
}

/// A server that subscribes gets the next id, no open connections, the
/// time of its subscription, and its initial response time: under least
/// time what probing it gave (one minute where it could not be reached),
/// under every other strategy one second, whatever the probe gave.
pub proof fn subscription_initial_state(
    v: BalancerView,
    address: String,
    weight: usize,
    probe: Option<u128>,
    at: u128,
)
    requires
        v.servers.len() < usize::MAX,
    ensures
        ({
            let (id, w) = crate::balancer::register_step(
                v,
                address,
                weight,
                crate::balancer::initial_response_time(v.strategy(), probe),
                at,
            );
            let s = w.servers[id as int];
            &&& id == v.servers.len()
            &&& w.servers.len() == v.servers.len() + 1
            &&& s.id == id && s.address == address && s.weight == weight && s.connections == 0
            &&& s.last_checked == at
            &&& v.strategy() != Strategy::LeastTime ==> s.response_time == 1_000_000_000
            &&& v.strategy() == Strategy::LeastTime ==> s.response_time == match probe {
                Some(e) => e,
                None => 60_000_000_000u128,
            }
        }),
{
}

/// Under a strategy name that none of the strategies carries, every
/// request goes to the first server, and the load balancer stays as it was.
pub proof fn unknown_strategy_takes_first(v: BalancerView, client: Seq<char>)
    requires
        v.strategy() == Strategy::Unsupported,
        v.servers.len() > 0,
    ensures
        select_step(v, client) == (Some(v.servers[0]), v),
{
}

/// Under weighted round robin with no weight above zero, every request
/// goes to the first server, and the cycle position stays where it was.
pub proof fn zero_weights_take_first(v: BalancerView, client: Seq<char>)
    requires
        v.strategy() == Strategy::WeightedRoundRobin,
        v.servers.len() > 0,
        forall|i: int| 0 <= i < v.servers.len() ==> (#[trigger] v.servers[i]).weight == 0,
    ensures
        select_step(v, client) == (Some(v.servers[0]), v),
{
    let ws = weights_of(v.servers);
    assert(ws.take(ws.len() as int) =~= ws);
    assert forall|k: int| 0 <= k <= ws.len() implies #[trigger] crate::weights::weight_sum(ws.take(k))
        == 0 by {
        lemma_zero_prefix(ws, k);
    }
}

proof fn lemma_zero_prefix(ws: Seq<int>, k: int)
    requires
        0 <= k <= ws.len(),
        forall|i: int| 0 <= i < ws.len() ==> ws[i] == 0,
    ensures
        crate::weights::weight_sum(ws.take(k)) == 0,
    decreases k,
{
    if k == 0 {
        assert(ws.take(0) =~= Seq::<int>::empty());
        assert(crate::weights::weight_sum(Seq::<int>::empty()) == 0);
    } else {
        lemma_zero_prefix(ws, k - 1);
        crate::weights::lemma_sum_take_step(ws, k - 1);
    }
}
} // verus!
