//! The server's decisions on each packet and its schedule for applying
//! queued inputs across physics substeps.

use crate::server::client_manager::{
    first_index_with_addr, input_added, last_processed_map, ClientManager,
};
use crate::shared::{InputState, Packet, PeerAddr};
use vstd::prelude::*;

verus! {

/// The reason given to a client turned away because the server is full.
pub open spec fn server_full_reason() -> Seq<char> {
    "Server full"@
}

/// What the server loop does after a client's packet.
#[derive(Debug)]
pub enum ServerAction {
    /// Remove the player of client `client_id` from the game.
    RemovePlayer { client_id: u32 },
    /// Spawn a player for client `client_id`.
    AddPlayer { client_id: u32 },
    /// Tell the peer at `addr` that it was admitted as `client_id`.
    SendConnected { addr: PeerAddr, client_id: u32 },
    /// Tell the peer at `addr` that it was turned away for `reason`.
    SendDisconnected { addr: PeerAddr, reason: String },
}

/// No two clients of `s` are connected from the same address.
pub open spec fn addrs_unique(s: Seq<crate::server::client_manager::Client>) -> bool {
    forall|i: int, j: int| 0 <= i < j < s.len() ==> s[i].addr != s[j].addr
}

/// Removing a client keeps addresses unique, and leaves no client at the
/// removed client's address.
proof fn lemma_remove_keeps_addrs_unique(s: Seq<crate::server::client_manager::Client>, k: int)
    requires
        addrs_unique(s),
        0 <= k < s.len(),
    ensures
        addrs_unique(s.remove(k)),
        forall|i: int| 0 <= i < s.remove(k).len() ==> s.remove(k)[i].addr != s[k].addr,
{
    let t = s.remove(k);
    assert forall|i: int, j: int| 0 <= i < j < t.len() implies t[i].addr != t[j].addr by {
        let ii = if i < k { i } else { i + 1 };
        let jj = if j < k { j } else { j + 1 };
        assert(t[i] == s[ii] && t[j] == s[jj]);
    }
    assert forall|i: int| 0 <= i < t.len() implies t[i].addr != s[k].addr by {
        let ii = if i < k { i } else { i + 1 };
        assert(t[i] == s[ii]);
    }
}

/// The id of the first client connected from `addr`.
proof fn lemma_found_is_first(m: ClientManager, addr: PeerAddr, id: u32)
    requires
        exists|i: int|
            0 <= i < m.clients().len() && m.clients()[i].id == id && m.clients()[i].addr == addr
                && forall|j: int| 0 <= j < i ==> m.clients()[j].addr != addr,
    ensures
        first_index_with_addr(m.clients(), addr) >= 0,
        m.clients()[first_index_with_addr(m.clients(), addr)].id == id,
{
    let s = m.clients();
    let i = choose|i: int|
        0 <= i < s.len() && s[i].id == id && s[i].addr == addr && forall|j: int|
            0 <= j < i ==> s[j].addr != addr;
    let k = first_index_with_addr(s, addr);
    assert(0 <= k < s.len() && s[k].addr == addr && forall|j: int| 0 <= j < k ==> s[j].addr != addr);
    if k < i {
        assert(s[k].addr != addr);
    } else if i < k {
        assert(s[i].addr != addr);
    }
}

/// No client is connected from `addr`.
proof fn lemma_none_found(m: ClientManager, addr: PeerAddr)
    requires
        forall|i: int| 0 <= i < m.clients().len() ==> m.clients()[i].addr != addr,
    ensures
        first_index_with_addr(m.clients(), addr) == -1,
{
}

/// A connection request from `addr` finds room: after dropping any client
/// already connected from `addr`, fewer clients than the capacity remain.
pub open spec fn admits_connection(m: ClientManager, addr: PeerAddr) -> bool {
    (if first_index_with_addr(m.clients(), addr) >= 0 {
        m.clients().len() - 1
    } else {
        m.clients().len() as int
    }) < m.capacity()
}

/// The server's response to a packet from the peer at `addr`. A connection
/// request first drops any client already connected from `addr` (and its
/// player), then admits the peer under the next id and spawns its player, or
/// turns it away when the server is full. An input is queued for the client
/// connected from `addr`. A disconnection removes that client and its player.
/// Other packets are ignored.
pub fn handle_packet<P>(clients: &mut ClientManager, packet: Packet<P>, addr: PeerAddr) -> (r: Vec<
    ServerAction,
>)
    requires
        old(clients).wf(),
        packet is Connect && admits_connection(*old(clients), addr) ==> old(clients).next_id()
            < u32::MAX,
    ensures
        final(clients).wf(),
        final(clients).capacity() == old(clients).capacity(),
        addrs_unique(old(clients).clients()) ==> addrs_unique(final(clients).clients()),
        ({
            let o = old(clients).clients();
            let k = first_index_with_addr(o, addr);
            match packet {
                Packet::Connect { .. } => {
                    let mid = if k >= 0 {
                        o.remove(k)
                    } else {
                        o
                    };
                    let pre = if k >= 0 {
                        seq![ServerAction::RemovePlayer { client_id: o[k].id }]
                    } else {
                        Seq::<ServerAction>::empty()
                    };
                    if mid.len() < old(clients).capacity() {
                        let id = old(clients).next_id();
                        &&& final(clients).clients().drop_last() == mid
                        &&& final(clients).clients().len() == mid.len() + 1
                        &&& final(clients).clients().last().id == id
                        &&& final(clients).clients().last().addr == addr
                        &&& final(clients).clients().last().last_processed_input == 0
                        &&& final(clients).clients().last().pending_inputs@ == Seq::<
                            InputState,
                        >::empty()
                        &&& final(clients).next_id() == id + 1
                        &&& r@ == pre + seq![
                            ServerAction::AddPlayer { client_id: id },
                            ServerAction::SendConnected { addr, client_id: id },
                        ]
                    } else {
                        &&& final(clients).clients() == mid
                        &&& final(clients).next_id() == old(clients).next_id()
                        &&& r@.len() == pre.len() + 1
                        &&& r@.take(pre.len() as int) == pre
                        &&& r@.last() matches ServerAction::SendDisconnected { addr: a, reason }
                            && a == addr && reason@ == server_full_reason()
                    }
                },
                Packet::Input { sequence, timestamp, left, right, jump } => {
                    &&& r@ == Seq::<ServerAction>::empty()
                    &&& final(clients).next_id() == old(clients).next_id()
                    &&& k >= 0 ==> input_added(
                        o,
                        final(clients).clients(),
                        k,
                        InputState { sequence, timestamp, left, right, jump },
                    )
                    &&& k < 0 ==> final(clients).clients() == o
                },
                Packet::Disconnect => {
                    &&& final(clients).next_id() == old(clients).next_id()
                    &&& k >= 0 ==> final(clients).clients() == o.remove(k) && r@ == seq![
                        ServerAction::RemovePlayer { client_id: o[k].id },
                    ]
                    &&& k < 0 ==> final(clients).clients() == o && r@ == Seq::<
                        ServerAction,
                    >::empty()
                },
                _ => {
                    &&& r@ == Seq::<ServerAction>::empty()
                    &&& *final(clients) == *old(clients)
                },
            }
        }),
{
    let ghost o = clients.clients();
    match packet {
        Packet::Connect { .. } => {
            let mut actions: Vec<ServerAction> = Vec::new();
            let found = clients.find_client_by_addr(addr);
            match found {
                Some(existing) => {
                    proof {
                        lemma_found_is_first(*clients, addr, existing);
                    }
                    let ghost k = first_index_with_addr(o, addr);
                    clients.remove_client(&existing);
                    proof {
                        let i = choose|i: int|
                            0 <= i < o.len() && o[i].id == existing && clients.clients() == o.remove(
                                i,
                            );
                        if i != k {
                            assert(o[i].id != o[k].id) by {
                                lemma_ids_distinct(*old(clients), i, k);
                            }
                        }
                    }
                    actions.push(ServerAction::RemovePlayer { client_id: existing });
                },
                None => {
                    proof {
                        lemma_none_found(*clients, addr);
                    }
                },
            }
            let ghost pre = actions@;
            let ghost mid = clients.clients();
            proof {
                if addrs_unique(o) {
                    let k = first_index_with_addr(o, addr);
                    if k >= 0 {
                        lemma_remove_keeps_addrs_unique(o, k);
                    }
                }
            }
            match clients.add_client(addr) {
                Some(id) => {
                    proof {
                        if addrs_unique(o) {
                            let f = clients.clients();
                            assert(f == mid.push(f.last()));
                            assert forall|i: int, j: int| 0 <= i < j < f.len() implies f[i].addr
                                != f[j].addr by {
                                if j == f.len() - 1 {
                                    assert(f[i] == mid[i]);
                                } else {
                                    assert(f[i] == mid[i] && f[j] == mid[j]);
                                }
                            }
                        }
                    }
                    actions.push(ServerAction::AddPlayer { client_id: id });
                    actions.push(ServerAction::SendConnected { addr, client_id: id });
                },
                None => {
                    actions.push(
                        ServerAction::SendDisconnected { addr, reason: "Server full".to_string() },
                    );
                    assert(actions@.take(pre.len() as int) == pre);
                },
            }
            actions
        },
        Packet::Input { sequence, timestamp, left, right, jump } => {
            match clients.find_client_by_addr(addr) {
                Some(id) => {
                    proof {
                        lemma_found_is_first(*clients, addr, id);
                    }
                    let ghost k = first_index_with_addr(o, addr);
                    let input = InputState { sequence, timestamp, left, right, jump };
                    clients.add_input(id, input);
                    proof {
                        let i = choose|i: int|
                            0 <= i < o.len() && o[i].id == id && input_added(
                                o,
                                clients.clients(),
                                i,
                                input,
                            );
                        if i != k {
                            assert(o[i].id != o[k].id) by {
                                lemma_ids_distinct(*old(clients), i, k);
                            }
                        }
                        let f = clients.clients();
                        if addrs_unique(o) {
                            assert forall|a: int, b: int| 0 <= a < b < f.len() implies f[a].addr
                                != f[b].addr by {
                                assert(f[a].addr == o[a].addr);
                                assert(f[b].addr == o[b].addr);
                            }
                        }
                    }
                },
                None => {
                    proof {
                        lemma_none_found(*clients, addr);
                    }
                },
            }
            Vec::new()
        },
        Packet::Disconnect => {
            let mut actions: Vec<ServerAction> = Vec::new();
            match clients.find_client_by_addr(addr) {
                Some(id) => {
                    proof {
                        lemma_found_is_first(*clients, addr, id);
                    }
                    let ghost k = first_index_with_addr(o, addr);
                    clients.remove_client(&id);
                    proof {
                        let i = choose|i: int|
                            0 <= i < o.len() && o[i].id == id && clients.clients() == o.remove(i);
                        if i != k {
                            assert(o[i].id != o[k].id) by {
                                lemma_ids_distinct(*old(clients), i, k);
                            }
                        }
                    }
                    proof {
                        if addrs_unique(o) {
                            lemma_remove_keeps_addrs_unique(o, k);
                        }
                    }
                    actions.push(ServerAction::RemovePlayer { client_id: id });
                },
                None => {
                    proof {
                        lemma_none_found(*clients, addr);
                    }
                },
            }
            actions
        },
        _ => Vec::new(),
    }
}

/// Two different connected clients have different ids.
proof fn lemma_ids_distinct(m: ClientManager, i: int, j: int)
    requires
        m.wf(),
        0 <= i < m.clients().len(),
        0 <= j < m.clients().len(),
        i != j,
    ensures
        m.clients()[i].id != m.clients()[j].id,
{
    crate::server::client_manager::lemma_client_ids_fresh(m);
}

/// The most inputs applied in one physics substep (but the last).
pub const INPUT_BATCH_SIZE: usize = 50;

/// How many inputs each substep takes when `n` inputs are spread over
/// `substeps` substeps: an equal share capped at `INPUT_BATCH_SIZE` when there
/// are at least as many inputs as substeps, else up to `INPUT_BATCH_SIZE`.
pub open spec fn inputs_per_substep(n: nat, substeps: nat) -> nat {
    let share: nat = if n >= substeps && substeps > 0 {
        n / substeps
    } else {
        n
    };
    if share <= INPUT_BATCH_SIZE {
        share
    } else {
        INPUT_BATCH_SIZE as nat
    }
}

/// How many of `n` inputs have been applied before substep `s`.
pub open spec fn inputs_before_substep(n: nat, substeps: nat, s: nat) -> nat {
    let taken = s * inputs_per_substep(n, substeps);
    if taken <= n {
        taken
    } else {
        n
    }
}

/// How many inputs substep `s` applies: the next share of inputs, and in the
/// last substep all that remain.
pub open spec fn substep_input_count(n: nat, substeps: nat, s: nat) -> nat {
    if s + 1 == substeps {
        (n - inputs_before_substep(n, substeps, s)) as nat
    } else {
        (inputs_before_substep(n, substeps, (s + 1) as nat) - inputs_before_substep(
            n,
            substeps,
            s,
        )) as nat
    }
}

/// The sum of the counts.
pub open spec fn count_sum(s: Seq<usize>) -> int
    decreases s.len(),
{
    if s.len() == 0 {
        0
    } else {
        count_sum(s.drop_last()) + s.last()
    }
}

/// The number of inputs to apply in each of `total_substeps` physics
/// substeps when `n_inputs` inputs are queued, in order; together they apply
/// every input exactly once.
pub fn plan_substep_inputs(n_inputs: usize, total_substeps: u32) -> (r: Vec<usize>)
    requires
        n_inputs > 0 ==> total_substeps > 0,
    ensures
        r@.len() == total_substeps,
        forall|s: int|
            0 <= s < total_substeps ==> r@[s] == substep_input_count(
                n_inputs as nat,
                total_substeps as nat,
                s as nat,
            ),
        total_substeps > 0 ==> count_sum(r@) == n_inputs,
        forall|s: int| 0 <= s < total_substeps - 1 ==> r@[s] <= INPUT_BATCH_SIZE,
{
    let ghost n = n_inputs as nat;
    let ghost st = total_substeps as nat;
    let share: usize = if n_inputs >= total_substeps as usize && total_substeps > 0 {
        n_inputs / (total_substeps as usize)
    } else {
        n_inputs
    };
    let per: usize = if share <= INPUT_BATCH_SIZE {
        share
    } else {
        INPUT_BATCH_SIZE
    };
    assert(per == inputs_per_substep(n, st));
    let mut counts: Vec<usize> = Vec::new();
    let mut applied: usize = 0;
    let mut s: u32 = 0;
    while s < total_substeps
        invariant
            n == n_inputs,
            st == total_substeps,
            per == inputs_per_substep(n, st),
            0 <= s <= total_substeps,
            counts@.len() == s,
            s < total_substeps ==> applied == inputs_before_substep(n, st, s as nat),
            s == total_substeps && total_substeps > 0 ==> applied == n_inputs,
            applied <= n_inputs,
            count_sum(counts@) == applied,
            forall|k: int|
                0 <= k < s ==> counts@[k] == substep_input_count(n, st, k as nat),
            per <= INPUT_BATCH_SIZE,
            forall|k: int| 0 <= k < s && k < total_substeps - 1 ==> counts@[k] <= per,
        decreases total_substeps - s,
    {
        let remaining = n_inputs - applied;
        let this_step: usize = if s == total_substeps - 1 {
            remaining
        } else if per <= remaining {
            per
        } else {
            remaining
        };
        proof {
            let t = s as nat;
            assert((t + 1) * per == t * per + per) by (nonlinear_arith);
            if t + 1 != st {
                if t * per <= n {
                    assert(inputs_before_substep(n, st, t) == t * per);
                } else {
                    assert(inputs_before_substep(n, st, t) == n);
                    assert((t + 1) * per >= t * per) by (nonlinear_arith)
                        requires
                            per >= 0,
                    ;
                }
                assert(this_step == substep_input_count(n, st, t));
            }
            assert(counts@.push(this_step).drop_last() == counts@);
        }
        counts.push(this_step);
        applied = applied + this_step;
        s = s + 1;
    }
    counts
}

/// The state broadcast after a tick: nothing while no client is connected;
/// otherwise the tick, the wall-clock stamp `now_ms` (saturated to 64 bits),
/// each client's last applied input sequence and the players.
pub fn game_state_packet<P>(clients: &ClientManager, tick: u32, now_ms: u128, players: Vec<P>) -> (r:
    Option<Packet<P>>)
    ensures
        clients.clients().len() == 0 ==> r is None,
        clients.clients().len() > 0 ==> (r matches Some(
            Packet::GameState { tick: t, timestamp, last_processed_input, players: ps },
        ) && t == tick && timestamp == (if now_ms > u64::MAX as u128 {
            u64::MAX
        } else {
            now_ms as u64
        }) && last_processed_input@ == last_processed_map(clients.clients()) && ps == players),
{
    if clients.is_empty() {
        return None;
    }
    let timestamp: u64 = if now_ms > u64::MAX as u128 {
        u64::MAX
    } else {
        now_ms as u64
    };
    let last_processed_input = clients.get_last_processed_inputs();
    Some(Packet::GameState { tick, timestamp, last_processed_input, players })
}

} // verus!
