//! Registry of connected clients and the queues of inputs they have sent.

use crate::clock::{duration_as_nanos, elapsed_nanos, nanos_between, silent_longer_than, MonoClock};
use crate::shared::{InputState, PeerAddr};
use crate::sorting::{
    has_key, key_sorted, lemma_filter_all, lemma_filter_congruent, lemma_filter_idempotent,
    lemma_filter_keeps_order, lemma_filter_none, lemma_stable_sort_keeps_sorted_part,
    lemma_stable_sorted_members, stable_sort_by_key, stable_sorted, SortKey,
};
use core::time::Duration;
use std::collections::HashMap;
use vstd::prelude::*;

verus! {

/// A pending input ordered by its sequence number.
impl SortKey for InputState {
    open spec fn spec_key(&self) -> int {
        self.sequence as int
    }

    fn key_le(&self, other: &Self) -> (b: bool) {
        self.sequence <= other.sequence
    }
}

/// A connected client: its address, when it was last heard from (a reading
/// of its clock, in nanoseconds), the highest input sequence applied for it,
/// and its pending inputs.
#[derive(Debug)]
pub struct Client {
    pub id: u32,
    pub addr: PeerAddr,
    pub clock: MonoClock,
    pub last_seen: u128,
    pub last_processed_input: u32,
    pub pending_inputs: Vec<InputState>,
}

impl Client {
    /// A client with no pending inputs and nothing processed, last seen now.
    pub fn new(id: u32, addr: PeerAddr) -> (c: Self)
        ensures
            c.id == id,
            c.addr == addr,
            c.last_processed_input == 0,
            c.pending_inputs@ == Seq::<InputState>::empty(),
            c.clock.is_reading_of(c.last_seen),
    {
        let clock = MonoClock::new();
        let last_seen = clock.now_nanos();
        Client {
            id,
            addr,
            clock,
            last_seen,
            last_processed_input: 0,
            pending_inputs: Vec::new(),
        }
    }

    /// Appends `input` to the pending inputs and sorts them stably by
    /// sequence, so that inputs arriving out of order are applied in order;
    /// the client was last seen at `now`, a reading of its clock.
    pub fn add_input_at(&mut self, input: InputState, now: u128)
        ensures
            final(self).clock == old(self).clock,
            final(self).id == old(self).id,
            final(self).addr == old(self).addr,
            final(self).last_processed_input == old(self).last_processed_input,
            final(self).last_seen == now,
            stable_sorted(old(self).pending_inputs@.push(input), final(self).pending_inputs@),
    {
        self.last_seen = now;
        self.pending_inputs.push(input);
        self.pending_inputs = stable_sort_by_key(&self.pending_inputs);
    }

    /// Appends `input` to the pending inputs and sorts them stably by
    /// sequence, so that inputs arriving out of order are applied in order;
    /// the client was last seen now, as its clock reads.
    pub fn add_input(&mut self, input: InputState)
        ensures
            final(self).clock == old(self).clock,
            final(self).id == old(self).id,
            final(self).addr == old(self).addr,
            final(self).last_processed_input == old(self).last_processed_input,
            stable_sorted(old(self).pending_inputs@.push(input), final(self).pending_inputs@),
            final(self).clock.is_reading_of(final(self).last_seen),
    {
        let now = self.clock.now_nanos();
        self.add_input_at(input, now);
    }

    /// Whether a client silent for `elapsed_nanos` nanoseconds has timed
    /// out under a timeout of `timeout_nanos` nanoseconds: the silence is
    /// longer than the timeout.
    pub fn is_timed_out_after(&self, elapsed_nanos: u128, timeout_nanos: u128) -> (r: bool)
        ensures
            r == (elapsed_nanos > timeout_nanos),
    {
        elapsed_nanos > timeout_nanos
    }

    /// Whether more than `timeout` has passed since the client was last seen,
    /// as its clock reads now: the time from `last_seen` to the reading,
    /// compared with the timeout's nanoseconds.
    pub fn is_timed_out(&self, timeout: Duration) -> (r: bool)
        ensures
            exists|now: u128, timeout_nanos: u128|
                self.clock.is_reading_of(now) && r == #[trigger] silent_longer_than(
                    now,
                    self.last_seen,
                    timeout_nanos,
                ),
    {
        let now = self.clock.now_nanos();
        let silent = elapsed_nanos(now, self.last_seen);
        let limit = duration_as_nanos(&timeout);
        let r = self.is_timed_out_after(silent, limit);
        assert(r == silent_longer_than(now, self.last_seen, limit));
        r
    }
}

/// `id` belongs to one of the clients in `s`.
pub open spec fn has_client(s: Seq<Client>, id: u32) -> bool {
    exists|i: int| 0 <= i < s.len() && #[trigger] s[i].id == id
}

/// Client ids are strictly increasing along `s`.
pub open spec fn ids_ascending(s: Seq<Client>) -> bool {
    forall|i: int, j: int| 0 <= i < j < s.len() ==> s[i].id < s[j].id
}

/// The predicate "not yet applied" for a client whose inputs up to
/// `last_processed` have been applied.
pub open spec fn is_unprocessed(last_processed: u32) -> spec_fn(InputState) -> bool {
    |x: InputState| x.sequence > last_processed
}

/// Pairs an input with the id of the client that sent it.
pub open spec fn tagged(id: u32) -> spec_fn(InputState) -> (u32, InputState) {
    |x: InputState| (id, x)
}

/// The pending inputs of `c` not yet applied, in queue order, each with `c`'s
/// id.
pub open spec fn unprocessed_inputs(c: Client) -> Seq<(u32, InputState)> {
    c.pending_inputs@.filter(is_unprocessed(c.last_processed_input)).map_values(tagged(c.id))
}

/// The unapplied inputs of all clients of `s`, client by client in the order
/// of `s`.
pub open spec fn pending_candidates(s: Seq<Client>) -> Seq<(u32, InputState)>
    decreases s.len(),
{
    if s.len() == 0 {
        Seq::empty()
    } else {
        pending_candidates(s.drop_last()) + unprocessed_inputs(s.last())
    }
}

/// Each client's id mapped to the highest input sequence applied for it.
pub open spec fn last_processed_map(s: Seq<Client>) -> Map<u32, u32>
    decreases s.len(),
{
    if s.len() == 0 {
        Map::empty()
    } else {
        last_processed_map(s.drop_last()).insert(s.last().id, s.last().last_processed_input)
    }
}

/// Every client's queue of pending inputs is in sequence order.
pub open spec fn queues_sorted(s: Seq<Client>) -> bool {
    forall|i: int| 0 <= i < s.len() ==> key_sorted(#[trigger] s[i].pending_inputs@)
}

/// Clients drawn from a registry whose queues are in sequence order have
/// their queues in sequence order.
proof fn lemma_queues_sorted_sub(s: Seq<Client>, t: Seq<Client>)
    requires
        queues_sorted(s),
        forall|k: int| 0 <= k < t.len() ==> s.contains(#[trigger] t[k]),
    ensures
        queues_sorted(t),
{
    assert forall|k: int| 0 <= k < t.len() implies key_sorted(#[trigger] t[k].pending_inputs@) by {
        assert(s.contains(t[k]));
        let j = choose|j: int| 0 <= j < s.len() && s[j] == t[k];
        assert(key_sorted(s[j].pending_inputs@));
    }
}

/// The predicate "not listed in `ids`" on clients.
pub open spec fn not_listed(ids: Seq<u32>) -> spec_fn(Client) -> bool {
    |c: Client| !ids.contains(c.id)
}

/// An input tagged with its client is ordered by its timestamp.
impl SortKey for (u32, InputState) {
    open spec fn spec_key(&self) -> int {
        self.1.timestamp as int
    }

    fn key_le(&self, other: &Self) -> (b: bool) {
        self.1.timestamp <= other.1.timestamp
    }
}

/// How long a client may stay silent before it is dropped: five seconds.
pub const CLIENT_TIMEOUT_NANOS: u128 = 5_000_000_000;

/// How long each client of `s` has been silent when its clock reads the
/// corresponding entry of `nows`: the time from its `last_seen` to that
/// reading.
pub open spec fn silences(s: Seq<Client>, nows: Seq<u128>) -> Seq<u128> {
    Seq::new(s.len(), |i: int| nanos_between(nows[i], s[i].last_seen))
}

/// Each entry of `nows` is a reading of the clock of the client of `s` at the
/// same position.
pub open spec fn readings_of_clocks(s: Seq<Client>, nows: Seq<u128>) -> bool {
    forall|i: int| 0 <= i < s.len() ==> #[trigger] s[i].clock.is_reading_of(nows[i])
}

/// The ids, in order, of the clients among the first `k` of `s` whose silence
/// in `silent` is longer than `CLIENT_TIMEOUT_NANOS`.
pub open spec fn timed_out_ids(s: Seq<Client>, silent: Seq<u128>, k: nat) -> Seq<u32>
    decreases k,
{
    if k == 0 {
        Seq::empty()
    } else {
        timed_out_ids(s, silent, (k - 1) as nat) + if silent[k - 1] > CLIENT_TIMEOUT_NANOS {
            seq![s[k - 1].id]
        } else {
            Seq::<u32>::empty()
        }
    }
}

/// `after` is `before` with `input` queued for the client at index `i`: that
/// client's queue gains `input` and is re-sorted stably by sequence, its
/// last-seen time is refreshed to a reading of its clock, and nothing else
/// changes.
pub open spec fn input_added(before: Seq<Client>, after: Seq<Client>, i: int, input: InputState) -> bool {
    let (o, f) = (before[i], after[i]);
    &&& after.len() == before.len()
    &&& forall|j: int| 0 <= j < before.len() && j != i ==> after[j] == before[j]
    &&& f.id == o.id
    &&& f.addr == o.addr
    &&& f.last_processed_input == o.last_processed_input
    &&& f.clock == o.clock
    &&& f.clock.is_reading_of(f.last_seen)
    &&& stable_sorted(o.pending_inputs@.push(input), f.pending_inputs@)
}

/// The index of the first client of `s` connected from `addr`, or -1.
pub open spec fn first_index_with_addr(s: Seq<Client>, addr: PeerAddr) -> int {
    if exists|i: int|
        0 <= i < s.len() && s[i].addr == addr && forall|j: int| 0 <= j < i ==> s[j].addr != addr {
        choose|i: int|
            0 <= i < s.len() && s[i].addr == addr && forall|j: int|
                0 <= j < i ==> s[j].addr != addr
    } else {
        -1
    }
}

/// All connected clients, and the rules by which they are admitted and their
/// inputs scheduled.
pub struct ClientManager {
    clients: Vec<Client>,
    next_client_id: u32,
    max_clients: usize,
}

impl ClientManager {
    /// The connected clients, in increasing order of id.
    pub closed spec fn clients(self) -> Seq<Client> {
        self.clients@
    }

    /// The id that the next admitted client receives.
    pub closed spec fn next_id(self) -> u32 {
        self.next_client_id
    }

    /// The most clients admitted at once.
    pub closed spec fn capacity(self) -> usize {
        self.max_clients
    }

    /// Ids are positive, unique, listed in increasing order and below the
    /// next id to assign; no more clients than the capacity are connected;
    /// every queue of pending inputs is in sequence order.
    pub closed spec fn wf(self) -> bool {
        &&& ids_ascending(self.clients@)
        &&& queues_sorted(self.clients@)
        &&& self.next_client_id > 0
        &&& forall|i: int|
            0 <= i < self.clients@.len() ==> 0 < #[trigger] self.clients@[i].id
                < self.next_client_id
        &&& self.clients@.len() <= self.max_clients
    }

    /// An empty registry admitting up to `max_clients` clients; ids start at 1.
    pub fn new(max_clients: usize) -> (m: Self)
        ensures
            m.wf(),
            m.clients() == Seq::<Client>::empty(),
            m.next_id() == 1,
            m.capacity() == max_clients,
    {
        ClientManager { clients: Vec::new(), next_client_id: 1, max_clients }
    }

    /// Admits a client at `addr` under the next id, unless the registry is
    /// full.
    pub fn add_client(&mut self, addr: PeerAddr) -> (r: Option<u32>)
        requires
            old(self).wf(),
            old(self).clients().len() < old(self).capacity() ==> old(self).next_id() < u32::MAX,
        ensures
            final(self).wf(),
            final(self).capacity() == old(self).capacity(),
            old(self).clients().len() >= old(self).capacity() ==> r == None::<u32> && *final(self)
                == *old(self),
            old(self).clients().len() < old(self).capacity() ==> {
                &&& r == Some(old(self).next_id())
                &&& !has_client(old(self).clients(), old(self).next_id())
                &&& final(self).next_id() == old(self).next_id() + 1
                &&& final(self).clients().len() == old(self).clients().len() + 1
                &&& final(self).clients().drop_last() == old(self).clients()
                &&& final(self).clients().last().id == old(self).next_id()
                &&& final(self).clients().last().addr == addr
                &&& final(self).clients().last().last_processed_input == 0
                &&& final(self).clients().last().pending_inputs@ == Seq::<InputState>::empty()
            },
    {
        if self.clients.len() >= self.max_clients {
            return None;
        }
        let client_id = self.next_client_id;
        self.next_client_id = self.next_client_id + 1;
        let client = Client::new(client_id, addr);
        self.clients.push(client);
        assert(self.clients@.drop_last() == old(self).clients@);
        assert forall|i: int, j: int| 0 <= i < j < self.clients@.len() implies self.clients@[i].id
            < self.clients@[j].id by {
            if j == self.clients@.len() - 1 {
                assert(old(self).clients@[i].id < client_id);
            } else {
                assert(old(self).clients@[i].id < old(self).clients@[j].id);
            }
        }
        Some(client_id)
    }

    /// Disconnects the client `client_id`; returns whether it was connected.
    #[verifier::loop_isolation(false)]
    pub fn remove_client(&mut self, client_id: &u32) -> (r: bool)
        requires
            old(self).wf(),
        ensures
            final(self).wf(),
            final(self).next_id() == old(self).next_id(),
            final(self).capacity() == old(self).capacity(),
            r == has_client(old(self).clients(), *client_id),
            r ==> exists|i: int|
                0 <= i < old(self).clients().len() && old(self).clients()[i].id == *client_id
                    && final(self).clients() == old(self).clients().remove(i),
            !r ==> final(self).clients() == old(self).clients(),
    {
        let n = self.clients.len();
        let mut i: usize = 0;
        while i < n
            invariant
                n == self.clients@.len(),
                0 <= i <= n,
                self.clients@ == old(self).clients@,
                self.next_client_id == old(self).next_client_id,
                self.max_clients == old(self).max_clients,
                forall|j: int| 0 <= j < i ==> self.clients@[j].id != *client_id,
            decreases n - i,
        {
            if self.clients[i].id == *client_id {
                let ghost before = self.clients@;
                let _removed = self.clients.remove(i);
                assert(self.clients@ == before.remove(i as int));
                assert(old(self).clients()[i as int].id == *client_id);
                return true;
            }
            i = i + 1;
        }
        false
    }

    /// The id of a client connected from `addr` (the smallest such id), if
    /// any.
    #[verifier::loop_isolation(false)]
    pub fn find_client_by_addr(&self, addr: PeerAddr) -> (r: Option<u32>)
        ensures
            r == None::<u32> <==> forall|i: int|
                0 <= i < self.clients().len() ==> self.clients()[i].addr != addr,
            r matches Some(id) ==> exists|i: int|
                0 <= i < self.clients().len() && self.clients()[i].id == id
                    && self.clients()[i].addr == addr && forall|j: int|
                    0 <= j < i ==> self.clients()[j].addr != addr,
    {
        let n = self.clients.len();
        let mut i: usize = 0;
        while i < n
            invariant
                n == self.clients@.len(),
                0 <= i <= n,
                forall|j: int| 0 <= j < i ==> self.clients@[j].addr != addr,
            decreases n - i,
        {
            if self.clients[i].addr == addr {
                assert(self.clients()[i as int].addr == addr);
                return Some(self.clients[i].id);
            }
            i = i + 1;
        }
        None
    }

    /// Queues `input` for the client `client_id`; returns whether that client
    /// is connected.
    #[verifier::loop_isolation(false)]
    pub fn add_input(&mut self, client_id: u32, input: InputState) -> (r: bool)
        requires
            old(self).wf(),
        ensures
            final(self).wf(),
            final(self).next_id() == old(self).next_id(),
            final(self).capacity() == old(self).capacity(),
            r == has_client(old(self).clients(), client_id),
            !r ==> final(self).clients() == old(self).clients(),
            r ==> exists|i: int|
                0 <= i < old(self).clients().len() && old(self).clients()[i].id == client_id
                    && input_added(old(self).clients(), final(self).clients(), i, input),
    {
        let n = self.clients.len();
        let mut i: usize = 0;
        while i < n
            invariant
                n == self.clients@.len(),
                0 <= i <= n,
                self.clients@ == old(self).clients@,
                self.next_client_id == old(self).next_client_id,
                self.max_clients == old(self).max_clients,
                forall|j: int| 0 <= j < i ==> self.clients@[j].id != client_id,
            decreases n - i,
        {
            if self.clients[i].id == client_id {
                self.clients[i].add_input(input);
                assert(old(self).clients()[i as int].id == client_id);
                assert(input_added(old(self).clients(), self.clients(), i as int, input));
                assert(exists|k: int|
                    0 <= k < old(self).clients().len() && old(self).clients()[k].id == client_id
                        && input_added(old(self).clients(), self.clients(), k, input));
                assert forall|a: int, b: int| 0 <= a < b < self.clients@.len() implies self.clients@[a].id
                    < self.clients@[b].id by {
                    assert(old(self).clients@[a].id < old(self).clients@[b].id);
                }
                assert forall|j: int| 0 <= j < self.clients@.len() implies 0 < #[trigger] self.clients@[j].id
                    < self.next_client_id by {
                    assert(0 < old(self).clients@[j].id < self.next_client_id);
                }
                return true;
            }
            i = i + 1;
        }
        false
    }

    /// Records that the inputs of `client_id` up to `sequence` have been
    /// applied; the recorded value never decreases.
    #[verifier::loop_isolation(false)]
    pub fn mark_input_processed(&mut self, client_id: u32, sequence: u32)
        requires
            old(self).wf(),
        ensures
            final(self).wf(),
            final(self).next_id() == old(self).next_id(),
            final(self).capacity() == old(self).capacity(),
            final(self).clients().len() == old(self).clients().len(),
            forall|j: int|
                0 <= j < old(self).clients().len() ==> {
                    let (o, f) = (old(self).clients()[j], #[trigger] final(self).clients()[j]);
                    &&& f.id == o.id
                    &&& f.addr == o.addr
                    &&& f.last_seen == o.last_seen
                    &&& f.pending_inputs == o.pending_inputs
                    &&& f.last_processed_input == if o.id == client_id && o.last_processed_input
                        < sequence {
                        sequence
                    } else {
                        o.last_processed_input
                    }
                },
    {
        let n = self.clients.len();
        let mut i: usize = 0;
        while i < n
            invariant
                n == self.clients@.len(),
                0 <= i <= n,
                self.clients@ == old(self).clients@,
                self.next_client_id == old(self).next_client_id,
                self.max_clients == old(self).max_clients,
                forall|j: int| 0 <= j < i ==> self.clients@[j].id != client_id,
            decreases n - i,
        {
            if self.clients[i].id == client_id {
                if self.clients[i].last_processed_input < sequence {
                    self.clients[i].last_processed_input = sequence;
                }
                assert forall|j: int| 0 <= j < n && j != i implies self.clients@[j].id != client_id by {
                    if j > i {
                        assert(old(self).clients@[i as int].id < old(self).clients@[j].id);
                    }
                }
                assert forall|a: int, b: int| 0 <= a < b < self.clients@.len() implies self.clients@[a].id
                    < self.clients@[b].id by {
                    assert(old(self).clients@[a].id < old(self).clients@[b].id);
                }
                assert forall|j: int| 0 <= j < self.clients@.len() implies 0 < #[trigger] self.clients@[j].id
                    < self.next_client_id by {
                    assert(0 < old(self).clients@[j].id < self.next_client_id);
                }
                return;
            }
            i = i + 1;
        }
    }

    /// All inputs not yet applied, across clients, ordered by timestamp;
    /// inputs with equal timestamps keep their order of collection (client by
    /// client in increasing id, each client's queue in order).
    #[verifier::loop_isolation(false)]
    pub fn get_chronological_inputs(&self) -> (r: Vec<(u32, InputState)>)
        ensures
            stable_sorted(pending_candidates(self.clients()), r@),
    {
        let mut all: Vec<(u32, InputState)> = Vec::new();
        let n = self.clients.len();
        let mut i: usize = 0;
        while i < n
            invariant
                n == self.clients@.len(),
                0 <= i <= n,
                all@ == pending_candidates(self.clients@.take(i as int)),
            decreases n - i,
        {
            let c = &self.clients[i];
            let m = c.pending_inputs.len();
            let mut j: usize = 0;
            let ghost base = all@;
            let ghost p = is_unprocessed(c.last_processed_input);
            let ghost f = tagged(c.id);
            while j < m
                invariant
                    c == self.clients@[i as int],
                    m == c.pending_inputs@.len(),
                    0 <= j <= m,
                    all@ == base + c.pending_inputs@.take(j as int).filter(p).map_values(f),
                decreases m - j,
            {
                let x = c.pending_inputs[j];
                let ghost pre = c.pending_inputs@.take(j as int);
                proof {
                    assert(c.pending_inputs@.take(j + 1) == pre.push(x));
                    pre.lemma_filter_push(x, p);
                }
                if x.sequence > c.last_processed_input {
                    all.push((c.id, x));
                    proof {
                        pre.filter(p).lemma_push_map_commute(f, x);
                        assert(all@ == base + pre.push(x).filter(p).map_values(f));
                    }
                }
                j = j + 1;
            }
            assert(c.pending_inputs@.take(m as int) == c.pending_inputs@);
            assert(self.clients@.take(i + 1).drop_last() == self.clients@.take(i as int));
            i = i + 1;
        }
        assert(self.clients@.take(n as int) == self.clients@);
        stable_sort_by_key(&all)
    }

    /// Drops from every client's queue the inputs already applied.
    #[verifier::loop_isolation(false)]
    pub fn cleanup_processed_inputs(&mut self)
        requires
            old(self).wf(),
        ensures
            final(self).wf(),
            final(self).next_id() == old(self).next_id(),
            final(self).capacity() == old(self).capacity(),
            final(self).clients().len() == old(self).clients().len(),
            forall|j: int|
                0 <= j < old(self).clients().len() ==> {
                    let (o, f) = (old(self).clients()[j], #[trigger] final(self).clients()[j]);
                    &&& f.id == o.id
                    &&& f.addr == o.addr
                    &&& f.last_seen == o.last_seen
                    &&& f.last_processed_input == o.last_processed_input
                    &&& f.pending_inputs@ == o.pending_inputs@.filter(
                        is_unprocessed(o.last_processed_input),
                    )
                },
    {
        let n = self.clients.len();
        let mut i: usize = 0;
        while i < n
            invariant
                n == self.clients@.len(),
                n == old(self).clients@.len(),
                0 <= i <= n,
                self.next_client_id == old(self).next_client_id,
                self.max_clients == old(self).max_clients,
                forall|j: int|
                    0 <= j < n ==> {
                        let (o, f) = (old(self).clients@[j], #[trigger] self.clients@[j]);
                        &&& f.id == o.id
                        &&& f.addr == o.addr
                        &&& f.last_seen == o.last_seen
                        &&& f.last_processed_input == o.last_processed_input
                        &&& f.pending_inputs@ == if j < i {
                            o.pending_inputs@.filter(is_unprocessed(o.last_processed_input))
                        } else {
                            o.pending_inputs@
                        }
                    },
            decreases n - i,
        {
            let lpi = self.clients[i].last_processed_input;
            let m = self.clients[i].pending_inputs.len();
            let ghost src = self.clients@[i as int].pending_inputs@;
            let ghost p = is_unprocessed(lpi);
            let mut kept: Vec<InputState> = Vec::new();
            let mut j: usize = 0;
            while j < m
                invariant
                    m == src.len(),
                    src == self.clients@[i as int].pending_inputs@,
                    lpi == self.clients@[i as int].last_processed_input,
                    0 <= j <= m,
                    kept@ == src.take(j as int).filter(p),
                decreases m - j,
            {
                let x = self.clients[i].pending_inputs[j];
                proof {
                    assert(src.take(j + 1) == src.take(j as int).push(x));
                    src.take(j as int).lemma_filter_push(x, p);
                }
                if x.sequence > lpi {
                    kept.push(x);
                }
                j = j + 1;
            }
            assert(src.take(m as int) == src);
            self.clients[i].pending_inputs = kept;
            i = i + 1;
        }
        assert forall|j: int| 0 <= j < self.clients@.len() implies key_sorted(
            #[trigger] self.clients@[j].pending_inputs@,
        ) by {
            let o = old(self).clients@[j];
            let q = o.pending_inputs@;
            let le = |a: InputState, b: InputState| a.spec_key() <= b.spec_key();
            assert(key_sorted(q));
            assert forall|a: int, b: int| 0 <= a <= b < q.len() implies #[trigger] le(q[a], q[b]) by {}
            lemma_filter_keeps_order(q, is_unprocessed(o.last_processed_input), le);
            let f = q.filter(is_unprocessed(o.last_processed_input));
            assert forall|a: int, b: int| 0 <= a <= b < f.len() implies f[a].spec_key()
                <= f[b].spec_key() by {
                assert(le(f[a], f[b]));
            }
        }
        assert forall|a: int, b: int| 0 <= a < b < self.clients@.len() implies self.clients@[a].id
            < self.clients@[b].id by {
            assert(old(self).clients@[a].id < old(self).clients@[b].id);
        }
        assert forall|j: int| 0 <= j < self.clients@.len() implies 0 < #[trigger] self.clients@[j].id
            < self.next_client_id by {
            assert(0 < old(self).clients@[j].id < self.next_client_id);
        }
    }

    /// The highest applied input sequence of every client, keyed by id.
    #[verifier::loop_isolation(false)]
    pub fn get_last_processed_inputs(&self) -> (r: HashMap<u32, u32>)
        ensures
            r@ == last_processed_map(self.clients()),
    {
        broadcast use vstd::std_specs::hash::group_hash_axioms;

        let mut out: HashMap<u32, u32> = HashMap::new();
        let n = self.clients.len();
        let mut i: usize = 0;
        while i < n
            invariant
                n == self.clients@.len(),
                0 <= i <= n,
                out@ == last_processed_map(self.clients@.take(i as int)),
            decreases n - i,
        {
            out.insert(self.clients[i].id, self.clients[i].last_processed_input);
            assert(self.clients@.take(i + 1).drop_last() == self.clients@.take(i as int));
            i = i + 1;
        }
        assert(self.clients@.take(n as int) == self.clients@);
        out
    }

    /// Disconnects every client silent for more than five seconds, where
    /// `silent_nanos[i]` is how long the `i`-th client (in increasing order of
    /// id) has been silent; returns their ids in increasing order. Every other
    /// client stays, unchanged.
    #[verifier::loop_isolation(false)]
    pub fn check_timeouts_at(&mut self, silent_nanos: &Vec<u128>) -> (r: Vec<u32>)
        requires
            old(self).wf(),
            silent_nanos@.len() == old(self).clients().len(),
        ensures
            final(self).wf(),
            final(self).next_id() == old(self).next_id(),
            final(self).capacity() == old(self).capacity(),
            r@ == timed_out_ids(old(self).clients(), silent_nanos@, old(self).clients().len()),
            final(self).clients() == old(self).clients().filter(not_listed(r@)),
            forall|k: int| 0 <= k < r@.len() ==> has_client(old(self).clients(), #[trigger] r@[k]),
            forall|a: int, b: int| 0 <= a < b < r@.len() ==> r@[a] < r@[b],
    {
        let ghost orig = self.clients@;
        let mut removed: Vec<u32> = Vec::new();
        let mut i: usize = 0;
        while i < self.clients.len()
            invariant
                self.next_client_id == old(self).next_client_id,
                self.max_clients == old(self).max_clients,
                orig == old(self).clients@,
                silent_nanos@.len() == orig.len(),
                removed@ == timed_out_ids(orig, silent_nanos@, (i + removed@.len()) as nat),
                ids_ascending(orig),
                0 <= i <= self.clients@.len(),
                i + removed@.len() <= orig.len(),
                self.clients@.len() + removed@.len() == orig.len(),
                self.clients@.take(i as int) == orig.take(i + removed@.len()).filter(
                    not_listed(removed@),
                ),
                self.clients@.skip(i as int) == orig.skip(i + removed@.len()),
                ids_ascending(self.clients@),
                forall|j: int|
                    0 <= j < self.clients@.len() ==> 0 < #[trigger] self.clients@[j].id
                        < self.next_client_id,
                self.clients@.len() <= self.max_clients,
                forall|k: int|
                    0 <= k < removed@.len() ==> exists|j: int|
                        0 <= j < i + removed@.len() && orig[j].id == #[trigger] removed@[k],
                forall|a: int, b: int| 0 <= a < b < removed@.len() ==> removed@[a] < removed@[b],
            decreases self.clients@.len() - i,
        {
            let ghost r0 = removed@.len();
            let ghost pre = orig.take(i + r0);
            let ghost cur = orig[i + r0];
            assert(self.clients@[i as int] == self.clients@.skip(i as int)[0]);
            assert(self.clients@[i as int] == cur);
            proof {
                assert forall|k: int| 0 <= k < r0 implies #[trigger] removed@[k] < cur.id by {
                    let j = choose|j: int| 0 <= j < i + r0 && orig[j].id == removed@[k];
                    assert(orig[j].id < orig[i + r0].id);
                }
                assert(orig.take(i + r0 + 1) == pre.push(cur));
            }
            let silent = silent_nanos[i + removed.len()];
            assert(timed_out_ids(orig, silent_nanos@, (i + r0 + 1) as nat) == timed_out_ids(
                orig,
                silent_nanos@,
                (i + r0) as nat,
            ) + if silent > CLIENT_TIMEOUT_NANOS {
                seq![cur.id]
            } else {
                Seq::<u32>::empty()
            });
            if silent > CLIENT_TIMEOUT_NANOS {
                let ghost before = self.clients@;
                let c = self.clients.remove(i);
                let ghost old_removed = removed@;
                removed.push(c.id);
                proof {
                    assert(c == cur);
                    assert(self.clients@ == before.remove(i as int));
                    assert(self.clients@.take(i as int) == before.take(i as int));
                    assert(self.clients@.skip(i as int) == before.skip(i + 1));
                    assert(before.skip(i + 1) == before.skip(i as int).drop_first());
                    assert(orig.skip(i + r0 + 1) == orig.skip(i + r0).drop_first());
                    assert(before.skip(i + 1) == orig.skip(i + r0 + 1));
                    assert forall|j: int| 0 <= j < pre.len() implies not_listed(old_removed)(pre[j])
                        == not_listed(removed@)(pre[j]) by {
                        assert(pre[j] == orig[j]);
                        assert(orig[j].id < orig[i + r0].id);
                        assert(pre[j].id < cur.id);
                        assert(removed@ == old_removed.push(cur.id));
                        if removed@.contains(pre[j].id) {
                            let k = choose|k: int| 0 <= k < removed@.len() && removed@[k] == pre[j].id;
                            assert(k < old_removed.len());
                            assert(old_removed[k] == pre[j].id);
                            assert(old_removed.contains(pre[j].id));
                        }
                        if old_removed.contains(pre[j].id) {
                            let k = choose|k: int| 0 <= k < old_removed.len() && old_removed[k] == pre[j].id;
                            assert(removed@[k] == pre[j].id);
                            assert(removed@.contains(pre[j].id));
                        }
                    }
                    lemma_filter_congruent(pre, not_listed(old_removed), not_listed(removed@));
                    pre.lemma_filter_push(cur, not_listed(removed@));
                    assert(removed@[removed@.len() - 1] == cur.id);
                    assert forall|k: int| 0 <= k < removed@.len() implies exists|j: int|
                        0 <= j < i + removed@.len() && orig[j].id == #[trigger] removed@[k] by {
                        if k < r0 {
                            let j = choose|j: int| 0 <= j < i + r0 && orig[j].id == old_removed[k];
                            assert(orig[j].id == removed@[k]);
                        } else {
                            assert(orig[i + r0].id == removed@[k]);
                        }
                    }
                    assert forall|a: int, b: int| 0 <= a < b < self.clients@.len() implies self.clients@[a].id
                        < self.clients@[b].id by {
                        if a < i {
                            if b < i {
                                assert(before[a].id < before[b].id);
                            } else {
                                assert(before[a].id < before[b + 1].id);
                            }
                        } else {
                            assert(before[a + 1].id < before[b + 1].id);
                        }
                    }
                    assert forall|j: int| 0 <= j < self.clients@.len() implies 0 < #[trigger] self.clients@[j].id
                        < self.next_client_id by {
                        if j < i {
                            assert(self.clients@[j] == before[j]);
                        } else {
                            assert(self.clients@[j] == before[j + 1]);
                        }
                    }
                }
            } else {
                proof {
                    assert(!removed@.contains(cur.id)) by {
                        if removed@.contains(cur.id) {
                            let k = choose|k: int| 0 <= k < removed@.len() && removed@[k] == cur.id;
                            assert(removed@[k] < cur.id);
                        }
                    }
                    pre.lemma_filter_push(cur, not_listed(removed@));
                    assert(self.clients@.take(i + 1) == self.clients@.take(i as int).push(cur));
                    assert(self.clients@.skip(i + 1) == self.clients@.skip(i as int).drop_first());
                    assert(orig.skip(i + r0 + 1) == orig.skip(i + r0).drop_first());
                }
                i = i + 1;
            }
        }
        proof {
            assert(i + removed@.len() == orig.len());
            assert(orig.take(orig.len() as int) == orig);
            assert(self.clients@.take(i as int) == self.clients@);
            assert forall|k: int| 0 <= k < removed@.len() implies has_client(orig, #[trigger] removed@[k]) by {
                let j = choose|j: int| 0 <= j < i + removed@.len() && orig[j].id == removed@[k];
                assert(orig[j].id == removed@[k]);
            }
            let kept = orig.filter(not_listed(removed@));
            assert forall|k: int| 0 <= k < kept.len() implies orig.contains(#[trigger] kept[k]) by {
                assert(kept.contains(kept[k]));
                orig.lemma_filter_contains_rev(not_listed(removed@), kept[k]);
            }
            lemma_queues_sorted_sub(orig, kept);
        }
        removed
    }

    /// Disconnects every client silent for more than five seconds, as each
    /// client's clock reads now; returns their ids in increasing order. A
    /// client's silence is the time from its `last_seen` to the reading of its
    /// clock; whatever the clocks read, the outcome is that of
    /// `check_timeouts_at` for those silences.
    pub fn check_timeouts(&mut self) -> (r: Vec<u32>)
        requires
            old(self).wf(),
        ensures
            final(self).wf(),
            final(self).next_id() == old(self).next_id(),
            final(self).capacity() == old(self).capacity(),
            exists|nows: Seq<u128>|
                nows.len() == old(self).clients().len() && readings_of_clocks(
                    old(self).clients(),
                    nows,
                ) && r@ == #[trigger] timed_out_ids(
                    old(self).clients(),
                    silences(old(self).clients(), nows),
                    old(self).clients().len(),
                ),
            final(self).clients() == old(self).clients().filter(not_listed(r@)),
            forall|k: int| 0 <= k < r@.len() ==> has_client(old(self).clients(), #[trigger] r@[k]),
            forall|a: int, b: int| 0 <= a < b < r@.len() ==> r@[a] < r@[b],
    {
        let mut silent_nanos: Vec<u128> = Vec::new();
        let mut nows: Vec<u128> = Vec::new();
        let n = self.clients.len();
        let mut i: usize = 0;
        while i < n
            invariant
                n == self.clients@.len(),
                0 <= i <= n,
                silent_nanos@.len() == i,
                nows@.len() == i,
                forall|j: int|
                    0 <= j < i ==> silent_nanos@[j] == nanos_between(
                        nows@[j],
                        self.clients@[j].last_seen,
                    ),
                forall|j: int|
                    0 <= j < i ==> #[trigger] self.clients@[j].clock.is_reading_of(nows@[j]),
            decreases n - i,
        {
            let now = self.clients[i].clock.now_nanos();
            nows.push(now);
            silent_nanos.push(elapsed_nanos(now, self.clients[i].last_seen));
            i = i + 1;
        }
        assert(silent_nanos@ == silences(self.clients@, nows@));
        assert(readings_of_clocks(self.clients@, nows@));
        self.check_timeouts_at(&silent_nanos)
    }

    /// Sets when the client `client_id` was last heard from (a reading of its
    /// clock); returns whether
    /// that client is connected.
    #[verifier::loop_isolation(false)]
    pub fn set_last_seen(&mut self, client_id: u32, at: u128) -> (r: bool)
        requires
            old(self).wf(),
        ensures
            final(self).wf(),
            final(self).next_id() == old(self).next_id(),
            final(self).capacity() == old(self).capacity(),
            r == has_client(old(self).clients(), client_id),
            final(self).clients().len() == old(self).clients().len(),
            forall|j: int|
                0 <= j < old(self).clients().len() ==> {
                    let (o, f) = (old(self).clients()[j], #[trigger] final(self).clients()[j]);
                    &&& f.id == o.id
                    &&& f.addr == o.addr
                    &&& f.last_processed_input == o.last_processed_input
                    &&& f.pending_inputs == o.pending_inputs
                    &&& f.last_seen == if o.id == client_id {
                        at
                    } else {
                        o.last_seen
                    }
                },
    {
        let n = self.clients.len();
        let mut i: usize = 0;
        while i < n
            invariant
                n == self.clients@.len(),
                0 <= i <= n,
                self.clients@ == old(self).clients@,
                self.next_client_id == old(self).next_client_id,
                self.max_clients == old(self).max_clients,
                forall|j: int| 0 <= j < i ==> self.clients@[j].id != client_id,
            decreases n - i,
        {
            if self.clients[i].id == client_id {
                self.clients[i].last_seen = at;
                assert(old(self).clients()[i as int].id == client_id);
                assert forall|j: int| 0 <= j < n && j != i implies self.clients@[j].id != client_id by {
                    if j > i {
                        assert(old(self).clients@[i as int].id < old(self).clients@[j].id);
                    }
                }
                assert forall|a: int, b: int| 0 <= a < b < self.clients@.len() implies self.clients@[a].id
                    < self.clients@[b].id by {
                    assert(old(self).clients@[a].id < old(self).clients@[b].id);
                }
                assert forall|j: int| 0 <= j < self.clients@.len() implies 0 < #[trigger] self.clients@[j].id
                    < self.next_client_id by {
                    assert(0 < old(self).clients@[j].id < self.next_client_id);
                }
                return true;
            }
            i = i + 1;
        }
        false
    }

    /// Every client's id with its address, in increasing order of id.
    #[verifier::loop_isolation(false)]
    pub fn get_client_addrs(&self) -> (r: Vec<(u32, PeerAddr)>)
        ensures
            r@ == self.clients().map_values(|c: Client| (c.id, c.addr)),
    {
        let mut out: Vec<(u32, PeerAddr)> = Vec::new();
        let n = self.clients.len();
        let mut i: usize = 0;
        while i < n
            invariant
                n == self.clients@.len(),
                0 <= i <= n,
                out@ == self.clients@.take(i as int).map_values(|c: Client| (c.id, c.addr)),
            decreases n - i,
        {
            out.push((self.clients[i].id, self.clients[i].addr));
            assert(self.clients@.take(i + 1) == self.clients@.take(i as int).push(
                self.clients@[i as int],
            ));
            i = i + 1;
        }
        assert(self.clients@.take(n as int) == self.clients@);
        out
    }

    /// The number of connected clients.
    pub fn len(&self) -> (r: usize)
        ensures
            r == self.clients().len(),
    {
        self.clients.len()
    }

    /// Whether no client is connected.
    pub fn is_empty(&self) -> (r: bool)
        ensures
            r == (self.clients().len() == 0),
    {
        self.clients.len() == 0
    }

    /// The most clients admitted at once.
    pub fn max_clients(&self) -> (r: usize)
        ensures
            r == self.capacity(),
    {
        self.max_clients
    }

    /// The id that the next admitted client receives.
    pub fn next_client_id(&self) -> (r: u32)
        ensures
            r == self.next_id(),
    {
        self.next_client_id
    }
}

/// Ids of connected clients are unique, and the id that the next admitted
/// client receives is larger than all of them: an id is never handed out
/// twice, even after its client has left.
pub proof fn lemma_client_ids_fresh(m: ClientManager)
    requires
        m.wf(),
    ensures
        forall|i: int, j: int|
            0 <= i < j < m.clients().len() ==> m.clients()[i].id != m.clients()[j].id,
        forall|i: int| 0 <= i < m.clients().len() ==> m.clients()[i].id < m.next_id(),
        !has_client(m.clients(), m.next_id()),
{
}

/// Every unapplied input belongs to a connected client and has a sequence
/// above that client's last applied one.
proof fn lemma_candidates_unapplied(s: Seq<Client>)
    requires
        ids_ascending(s),
    ensures
        forall|k: int|
            0 <= k < pending_candidates(s).len() ==> {
                let e = #[trigger] pending_candidates(s)[k];
                &&& has_client(s, e.0)
                &&& last_processed_map(s).contains_key(e.0)
                &&& e.1.sequence > last_processed_map(s)[e.0]
            },
    decreases s.len(),
{
    if s.len() > 0 {
        let s0 = s.drop_last();
        let c = s.last();
        assert(ids_ascending(s0));
        lemma_candidates_unapplied(s0);
        let a = pending_candidates(s0);
        let b = unprocessed_inputs(c);
        let q = c.pending_inputs@.filter(is_unprocessed(c.last_processed_input));
        assert(pending_candidates(s) == a + b);
        assert forall|k: int| 0 <= k < pending_candidates(s).len() implies {
            let e = #[trigger] pending_candidates(s)[k];
            &&& has_client(s, e.0)
            &&& last_processed_map(s).contains_key(e.0)
            &&& e.1.sequence > last_processed_map(s)[e.0]
        } by {
            let e = pending_candidates(s)[k];
            if k < a.len() {
                assert(e == a[k]);
                let i = choose|i: int| 0 <= i < s0.len() && #[trigger] s0[i].id == e.0;
                assert(s[i] == s0[i]);
                assert(s0[i].id < c.id);
            } else {
                let k2 = k - a.len();
                assert(e == b[k2]);
                assert(b[k2] == (c.id, q[k2]));
                c.pending_inputs@.lemma_filter_pred(is_unprocessed(c.last_processed_input), k2);
                assert(s[s.len() - 1].id == c.id);
            }
        }
    }
}

/// The inputs that `get_chronological_inputs` returns all belong to
/// connected clients and come after each one's last applied input: an input
/// once marked processed is never handed out again.
pub proof fn lemma_chronological_inputs_unapplied(m: ClientManager, r: Seq<(u32, InputState)>)
    requires
        m.wf(),
        stable_sorted(pending_candidates(m.clients()), r),
    ensures
        forall|k: int|
            0 <= k < r.len() ==> {
                &&& has_client(m.clients(), #[trigger] r[k].0)
                &&& last_processed_map(m.clients()).contains_key(r[k].0)
                &&& r[k].1.sequence > last_processed_map(m.clients())[r[k].0]
            },
{
    let c = pending_candidates(m.clients());
    lemma_candidates_unapplied(m.clients());
    assert forall|k: int| 0 <= k < r.len() implies {
        &&& has_client(m.clients(), #[trigger] r[k].0)
        &&& last_processed_map(m.clients()).contains_key(r[k].0)
        &&& r[k].1.sequence > last_processed_map(m.clients())[r[k].0]
    } by {
        lemma_stable_sorted_members(c, r, k);
        let i = choose|i: int| 0 <= i < c.len() && c[i] == r[k];
        assert(c[i] == pending_candidates(m.clients())[i]);
    }
}

/// Dropping applied inputs from the queues changes nothing about which
/// inputs remain to be applied: the candidates for `get_chronological_inputs`
/// are the same before and after `cleanup_processed_inputs`.
pub proof fn lemma_cleanup_keeps_candidates(before: Seq<Client>, after: Seq<Client>)
    requires
        after.len() == before.len(),
        forall|j: int|
            0 <= j < before.len() ==> {
                let (o, f) = (before[j], #[trigger] after[j]);
                &&& f.id == o.id
                &&& f.last_processed_input == o.last_processed_input
                &&& f.pending_inputs@ == o.pending_inputs@.filter(
                    is_unprocessed(o.last_processed_input),
                )
            },
    ensures
        pending_candidates(after) == pending_candidates(before),
    decreases before.len(),
{
    if before.len() > 0 {
        let o = before.last();
        let f = after.last();
        assert(after[after.len() - 1] == f);
        lemma_cleanup_keeps_candidates(before.drop_last(), after.drop_last());
        lemma_filter_idempotent(o.pending_inputs@, is_unprocessed(o.last_processed_input));
        assert(unprocessed_inputs(f) == unprocessed_inputs(o));
    }
}

/// The predicate "sent by client `id`" on inputs tagged with their client.
pub open spec fn from_client(id: u32) -> spec_fn((u32, InputState)) -> bool {
    |e: (u32, InputState)| e.0 == id
}

/// Of the unapplied inputs of all clients, those of the client at index `i`
/// are its own unapplied inputs, in queue order.
proof fn lemma_candidates_of_client(s: Seq<Client>, i: int)
    requires
        ids_ascending(s),
        0 <= i < s.len(),
    ensures
        pending_candidates(s).filter(from_client(s[i].id)) == unprocessed_inputs(s[i]),
    decreases s.len(),
{
    let s0 = s.drop_last();
    let c = s.last();
    let f = from_client(s[i].id);
    let u = unprocessed_inputs(c);
    assert(ids_ascending(s0));
    assert(pending_candidates(s) == pending_candidates(s0) + u);
    Seq::filter_distributes_over_add(pending_candidates(s0), u, f);
    if i == s.len() - 1 {
        lemma_candidates_unapplied(s0);
        assert forall|k: int| 0 <= k < pending_candidates(s0).len() implies !f(
            pending_candidates(s0)[k],
        ) by {
            let e = pending_candidates(s0)[k];
            let j = choose|j: int| 0 <= j < s0.len() && #[trigger] s0[j].id == e.0;
            assert(s[j] == s0[j]);
            assert(s0[j].id < c.id);
        }
        lemma_filter_none(pending_candidates(s0), f);
        assert forall|k: int| 0 <= k < u.len() implies f(u[k]) by {}
        lemma_filter_all(u, f);
        assert(Seq::<(u32, InputState)>::empty() + u == u);
    } else {
        assert(s0[i] == s[i]);
        lemma_candidates_of_client(s0, i);
        assert(s[i].id < c.id);
        assert forall|k: int| 0 <= k < u.len() implies !f(u[k]) by {}
        lemma_filter_none(u, f);
        assert(unprocessed_inputs(s[i]) + Seq::<(u32, InputState)>::empty() == unprocessed_inputs(
            s[i],
        ));
    }
}

/// A client's inputs are handed out in sequence order whenever their
/// timestamps do not decrease along its queue (which is kept in sequence
/// order): `get_chronological_inputs` interleaves the clients by timestamp but
/// never reorders the inputs of one client.
pub proof fn lemma_client_inputs_in_sequence_order(
    m: ClientManager,
    r: Seq<(u32, InputState)>,
    i: int,
)
    requires
        m.wf(),
        stable_sorted(pending_candidates(m.clients()), r),
        0 <= i < m.clients().len(),
        forall|a: int, b: int|
            0 <= a <= b < m.clients()[i].pending_inputs@.len() ==> #[trigger] m.clients()[i].pending_inputs@[a].timestamp
                <= #[trigger] m.clients()[i].pending_inputs@[b].timestamp,
    ensures
        r.filter(from_client(m.clients()[i].id)) == unprocessed_inputs(m.clients()[i]),
        forall|a: int, b: int|
            0 <= a <= b < r.filter(from_client(m.clients()[i].id)).len() ==> #[trigger] r.filter(
                from_client(m.clients()[i].id),
            )[a].1.sequence <= #[trigger] r.filter(from_client(m.clients()[i].id))[b].1.sequence,
{
    let s = m.clients();
    let c = s[i];
    let q = c.pending_inputs@;
    let p = is_unprocessed(c.last_processed_input);
    let by_time = |a: InputState, b: InputState| a.timestamp <= b.timestamp;
    assert forall|a: int, b: int| 0 <= a <= b < q.len() implies #[trigger] by_time(q[a], q[b]) by {
        assert(q[a].timestamp <= q[b].timestamp);
    }
    lemma_filter_keeps_order(q, p, by_time);
    let u = unprocessed_inputs(c);
    assert forall|a: int, b: int| 0 <= a <= b < u.len() implies u[a].spec_key() <= u[b].spec_key() by {
        assert(by_time(q.filter(p)[a], q.filter(p)[b]));
    }
    assert(key_sorted(u));
    lemma_candidates_of_client(s, i);
    lemma_stable_sort_keeps_sorted_part(pending_candidates(s), r, from_client(c.id));
    let by_seq = |a: InputState, b: InputState| a.sequence <= b.sequence;
    assert(key_sorted(q));
    assert forall|a: int, b: int| 0 <= a <= b < q.len() implies #[trigger] by_seq(q[a], q[b]) by {}
    lemma_filter_keeps_order(q, p, by_seq);
    assert forall|a: int, b: int| 0 <= a <= b < u.len() implies u[a].1.sequence <= u[b].1.sequence by {
        assert(by_seq(q.filter(p)[a], q.filter(p)[b]));
    }
}

/// The ids listed by `timed_out_ids` over the first `k` clients are ids of
/// those clients, and the `i`-th client's id is listed exactly when its
/// silence is longer than `CLIENT_TIMEOUT_NANOS`.
proof fn lemma_timed_out_ids_members(s: Seq<Client>, silent: Seq<u128>, k: nat)
    requires
        ids_ascending(s),
        k <= s.len(),
        silent.len() == s.len(),
    ensures
        forall|a: int|
            0 <= a < timed_out_ids(s, silent, k).len() ==> exists|j: int|
                0 <= j < k && s[j].id == #[trigger] timed_out_ids(s, silent, k)[a],
        forall|i: int|
            0 <= i < k ==> (timed_out_ids(s, silent, k).contains(#[trigger] s[i].id) <==> silent[i]
                > CLIENT_TIMEOUT_NANOS),
    decreases k,
{
    if k > 0 {
        let k1 = (k - 1) as nat;
        lemma_timed_out_ids_members(s, silent, k1);
        let t0 = timed_out_ids(s, silent, k1);
        let t = timed_out_ids(s, silent, k);
        let last = s[k - 1];
        assert(!t0.contains(last.id)) by {
            if t0.contains(last.id) {
                let a = choose|a: int| 0 <= a < t0.len() && t0[a] == last.id;
                let j = choose|j: int| 0 <= j < k1 && s[j].id == t0[a];
                assert(s[j].id < s[k - 1].id);
            }
        }
        assert forall|a: int| 0 <= a < t.len() implies exists|j: int|
            0 <= j < k && s[j].id == #[trigger] t[a] by {
            if a < t0.len() {
                assert(t[a] == t0[a]);
                let j = choose|j: int| 0 <= j < k1 && s[j].id == t0[a];
                assert(s[j].id == t[a]);
            } else {
                assert(t[a] == last.id);
                assert(s[k - 1].id == t[a]);
            }
        }
        assert forall|i: int| 0 <= i < k implies (t.contains(#[trigger] s[i].id) <==> silent[i]
            > CLIENT_TIMEOUT_NANOS) by {
            if i < k1 {
                assert(s[i].id < last.id);
                if t.contains(s[i].id) {
                    let a = choose|a: int| 0 <= a < t.len() && t[a] == s[i].id;
                    if a >= t0.len() {
                        assert(t[a] == last.id);
                    }
                    assert(t0[a] == s[i].id);
                    assert(t0.contains(s[i].id));
                }
                if t0.contains(s[i].id) {
                    let a = choose|a: int| 0 <= a < t0.len() && t0[a] == s[i].id;
                    assert(t[a] == s[i].id);
                }
            } else {
                if silent[i] > CLIENT_TIMEOUT_NANOS {
                    assert(t[t0.len() as int] == s[i].id);
                } else {
                    assert(t == t0);
                }
            }
        }
    }
}

/// Timeout detection: of the clients checked, exactly those silent for
/// longer than five seconds are reported and disconnected; every client
/// silent for five seconds or less stays connected, unchanged.
pub proof fn lemma_timeouts_drop_exactly_the_silent(
    m: ClientManager,
    silent: Seq<u128>,
    r: Seq<u32>,
    after: Seq<Client>,
)
    requires
        m.wf(),
        silent.len() == m.clients().len(),
        r == timed_out_ids(m.clients(), silent, m.clients().len()),
        after == m.clients().filter(not_listed(r)),
    ensures
        forall|i: int|
            0 <= i < m.clients().len() ==> (r.contains(#[trigger] m.clients()[i].id) <==> silent[i]
                > CLIENT_TIMEOUT_NANOS),
        forall|i: int|
            0 <= i < m.clients().len() ==> (after.contains(#[trigger] m.clients()[i]) <==> silent[i]
                <= CLIENT_TIMEOUT_NANOS),
{
    let s = m.clients();
    lemma_timed_out_ids_members(s, silent, s.len());
    assert forall|i: int| 0 <= i < s.len() implies (after.contains(#[trigger] s[i]) <==> silent[i]
        <= CLIENT_TIMEOUT_NANOS) by {
        assert(r.contains(s[i].id) <==> silent[i] > CLIENT_TIMEOUT_NANOS);
        if silent[i] <= CLIENT_TIMEOUT_NANOS {
            s.lemma_filter_contains(not_listed(r), i);
        }
        if after.contains(s[i]) {
            let idx = choose|idx: int| 0 <= idx < after.len() && after[idx] == s[i];
            s.lemma_filter_pred(not_listed(r), idx);
        }
    }
}

/// A timeout check, read on the clients' clocks: when each client's clock
/// reads the corresponding entry of `nows`, a client is reported and
/// disconnected exactly when more than five seconds separate its `last_seen`
/// from that reading, and it stays connected, unchanged, exactly when they are
/// five seconds or less apart.
pub proof fn lemma_timeout_check_measures_from_last_seen(
    m: ClientManager,
    nows: Seq<u128>,
    r: Seq<u32>,
    after: Seq<Client>,
)
    requires
        m.wf(),
        nows.len() == m.clients().len(),
        readings_of_clocks(m.clients(), nows),
        r == timed_out_ids(m.clients(), silences(m.clients(), nows), m.clients().len()),
        after == m.clients().filter(not_listed(r)),
    ensures
        forall|i: int|
            0 <= i < m.clients().len() ==> (r.contains(#[trigger] m.clients()[i].id) <==> nows[i]
                > m.clients()[i].last_seen + 5_000_000_000),
        forall|i: int|
            0 <= i < m.clients().len() ==> (after.contains(#[trigger] m.clients()[i]) <==> nows[i]
                <= m.clients()[i].last_seen + 5_000_000_000),
{
    let silent = silences(m.clients(), nows);
    lemma_timeouts_drop_exactly_the_silent(m, silent, r, after);
    assert forall|i: int| 0 <= i < m.clients().len() implies (silent[i] > CLIENT_TIMEOUT_NANOS
        <==> nows[i] > m.clients()[i].last_seen + 5_000_000_000) by {
        assert(silent[i] == nanos_between(nows[i], m.clients()[i].last_seen));
    }
}

/// The last applied sequence of client `id`, whose last applied one was
/// `last`, after `mark_input_processed` was called for each input of `r` in
/// order, with the input's client and sequence.
pub open spec fn marked_through(last: u32, id: u32, r: Seq<(u32, InputState)>) -> u32
    decreases r.len(),
{
    if r.len() == 0 {
        last
    } else {
        let cur = marked_through(last, id, r.drop_last());
        let e = r.last();
        if e.0 == id && cur < e.1.sequence {
            e.1.sequence
        } else {
            cur
        }
    }
}

/// Marking never lowers the last applied sequence, and leaves it at least
/// the sequence of every marked input of the client.
proof fn lemma_marked_through_bounds(last: u32, id: u32, r: Seq<(u32, InputState)>)
    ensures
        marked_through(last, id, r) >= last,
        forall|k: int|
            0 <= k < r.len() && #[trigger] r[k].0 == id ==> marked_through(last, id, r)
                >= r[k].1.sequence,
    decreases r.len(),
{
    if r.len() > 0 {
        let r0 = r.drop_last();
        lemma_marked_through_bounds(last, id, r0);
        assert forall|k: int| 0 <= k < r.len() && #[trigger] r[k].0 == id implies marked_through(
            last,
            id,
            r,
        ) >= r[k].1.sequence by {
            if k < r0.len() {
                assert(r0[k] == r[k]);
            }
        }
    }
}

/// Applying every input that `get_chronological_inputs` hands out, marking
/// each processed in turn with `mark_input_processed`, and then calling
/// `cleanup_processed_inputs` leaves every client's queue empty: the queue of
/// the client at index `i`, filtered to the inputs above its new last applied
/// sequence, is empty.
pub proof fn lemma_processing_handed_out_inputs_empties_queues(
    m: ClientManager,
    r: Seq<(u32, InputState)>,
    i: int,
)
    requires
        m.wf(),
        stable_sorted(pending_candidates(m.clients()), r),
        0 <= i < m.clients().len(),
    ensures
        m.clients()[i].pending_inputs@.filter(
            is_unprocessed(
                marked_through(m.clients()[i].last_processed_input, m.clients()[i].id, r),
            ),
        ) == Seq::<InputState>::empty(),
{
    let s = m.clients();
    let c = s[i];
    let q = c.pending_inputs@;
    let p = is_unprocessed(c.last_processed_input);
    let last2 = marked_through(c.last_processed_input, c.id, r);
    let p2 = is_unprocessed(last2);
    let pc = pending_candidates(s);
    lemma_marked_through_bounds(c.last_processed_input, c.id, r);
    lemma_candidates_of_client(s, i);
    assert forall|j: int| 0 <= j < q.len() implies !p2(q[j]) by {
        let x = q[j];
        if x.sequence > c.last_processed_input {
            q.lemma_filter_contains(p, j);
            let f = q.filter(p);
            let idx = choose|idx: int| 0 <= idx < f.len() && f[idx] == x;
            let e = (c.id, x);
            assert(unprocessed_inputs(c)[idx] == e);
            assert(pc.filter(from_client(c.id)).contains(e));
            pc.lemma_filter_contains_rev(from_client(c.id), e);
            let j2 = choose|j2: int| 0 <= j2 < pc.len() && pc[j2] == e;
            let hk = has_key::<(u32, InputState)>(e.spec_key());
            pc.lemma_filter_contains(hk, j2);
            assert(r.filter(hk) == pc.filter(hk));
            r.lemma_filter_contains_rev(hk, e);
            let k = choose|k: int| 0 <= k < r.len() && r[k] == e;
            assert(r[k].0 == c.id);
        }
    }
    lemma_filter_none(q, p2);
}

} // verus!
