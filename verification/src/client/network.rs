//! The client's connection state: whether and as whom it is connected, the
//! smoothed ping estimate, the netcode feature switches, and the decisions
//! taken on each packet from the server.

use crate::client::game::{saturating_sub, ServerStateConfig};
use crate::clock::{elapsed_nanos, is_wall_millis, nanos_between, unix_time_millis, MonoClock};
use crate::shared::{InputState, Packet, PeerAddr};
use crate::sorting::{key_sort, lemma_stable_sorted_is_key_sort, stable_sort_by_key, SortKey};
use std::collections::HashMap;
use vstd::prelude::*;

verus! {

broadcast use vstd::seq_lib::group_seq_properties;

/// A clock offset sample is ordered by its value.
impl SortKey for i64 {
    open spec fn spec_key(&self) -> int {
        *self as int
    }

    fn key_le(&self, other: &Self) -> (b: bool) {
        *self <= *other
    }
}

/// The server has been silent too long after `silent_nanos` nanoseconds
/// when they exceed `CONNECTION_TIMEOUT_NANOS`.
pub open spec fn connection_timed_out(silent_nanos: u128) -> bool {
    silent_nanos > CONNECTION_TIMEOUT_NANOS
}

/// The largest plausible ping, in milliseconds.
pub const MAX_PING_MS: u64 = 2000;
/// How many ping samples are averaged.
pub const PING_HISTORY_LEN: usize = 10;
/// How many clock offset samples are kept.
pub const OFFSET_SAMPLES_LEN: usize = 10;
/// How many server stamps with their arrival times are kept.
pub const SEND_TIMES_LEN: usize = 20;
/// How long the server may stay silent before the connection is considered
/// lost: five seconds.
pub const CONNECTION_TIMEOUT_NANOS: u128 = 5_000_000_000;

/// The smaller of `a` and `b`.
pub open spec fn min_u64(a: u64, b: u64) -> u64 {
    if a <= b {
        a
    } else {
        b
    }
}

/// The larger of `a` and `b`.
pub open spec fn max_u64(a: u64, b: u64) -> u64 {
    if a >= b {
        a
    } else {
        b
    }
}

/// `x` limited to the range `lo..=hi`.
pub open spec fn clamp_u64(x: u64, lo: u64, hi: u64) -> u64 {
    if x < lo {
        lo
    } else if x > hi {
        hi
    } else {
        x
    }
}

/// `x`, or `u64::MAX` when it does not fit.
pub open spec fn saturate_to_u64(x: u128) -> u64 {
    if x > u64::MAX as u128 {
        u64::MAX
    } else {
        x as u64
    }
}

/// `s` with `x` appended, then without its first element if that made it
/// longer than `cap`.
pub open spec fn bounded_push<T>(s: Seq<T>, x: T, cap: nat) -> Seq<T> {
    if s.len() + 1 > cap {
        s.push(x).drop_first()
    } else {
        s.push(x)
    }
}

/// The last `n` elements of `s` (all of them when there are fewer).
pub open spec fn keep_last<T>(s: Seq<T>, n: nat) -> Seq<T> {
    if s.len() > n {
        s.skip(s.len() - n)
    } else {
        s
    }
}

/// The sum of the samples.
pub open spec fn seq_sum(s: Seq<u64>) -> int
    decreases s.len(),
{
    if s.len() == 0 {
        0
    } else {
        seq_sum(s.drop_last()) + s.last()
    }
}

/// Ping against a loopback server whose stamp is `ts` when the wall clock
/// reads `now_ms`: the time since the stamp, at most 10 ms; 0 when the stamp
/// is ahead.
pub open spec fn loopback_ping(now_ms: u128, ts: u64) -> u64 {
    let now = now_ms as u64;
    if now >= ts {
        min_u64((now - ts) as u64, 10)
    } else {
        0
    }
}

/// The drift-resistant estimate from the previous server stamp `prev_ts`,
/// received `since_prev_ms` ago: it applies when the server's clock advanced
/// by less than five seconds and ours by less than five seconds too. Half the
/// excess of our elapsed time over the server's, or else the server's advance
/// capped by the current ping (at least 50 ms); limited to 10..=2000 ms.
pub open spec fn drift_estimate(prev_ts: u64, ts: u64, since_prev_ms: u128, real_ping: u64) -> Option<
    u64,
> {
    let sd = saturating_sub(ts, prev_ts);
    let cd = since_prev_ms as u64;
    if 0 < sd && sd < 5000 && cd < 5000 {
        Some(
            clamp_u64(
                if cd > sd {
                    ((cd - sd) / 2) as u64
                } else {
                    min_u64(sd, max_u64(real_ping, 50))
                },
                10,
                MAX_PING_MS,
            ),
        )
    } else {
        None
    }
}

/// The ping when the server's stamp `ts` is ahead of our clock `now`: with
/// at least three offset samples and a median offset under ten seconds, our
/// time since the stamp corrected by the median; otherwise the current ping,
/// at most one second.
pub open spec fn offset_corrected_ping(samples: Seq<i64>, ts: u64, now: u64, real_ping: u64) -> u64 {
    if samples.len() >= 3 {
        let m = key_sort(samples)[(samples.len() / 2) as int];
        if -10000 < m && m < 10000 {
            let magnitude: int = if m < 0 {
                -m
            } else {
                m as int
            };
            saturating_sub(now, saturating_sub(ts, magnitude as u64))
        } else {
            min_u64(real_ping, 1000)
        }
    } else {
        min_u64(real_ping, 1000)
    }
}

/// What the client does after a packet from the server.
#[derive(Debug)]
pub enum ClientEvent<P> {
    /// The server admitted us under `client_id`.
    Connected { client_id: u32 },
    /// Apply this authoritative state; if `graph_ping_ms` is given, record it
    /// in the network graph.
    ServerState {
        tick: u32,
        timestamp: u64,
        players: Vec<P>,
        last_processed_input: HashMap<u32, u32>,
        config: ServerStateConfig,
        graph_ping_ms: Option<u64>,
    },
    /// The server dropped us for `reason`.
    Disconnected { reason: String },
    /// A packet that a server does not send to clients.
    Unexpected,
}

/// The client's connection and ping state.
#[derive(Debug)]
pub struct ConnectionState {
    pub server_addr: PeerAddr,
    pub client_id: Option<u32>,
    pub connected: bool,
    pub real_ping_ms: u64,
    pub fake_ping_ms: u64,
    pub ping_ms: u64,
    pub ping_history: Vec<u64>,
    pub clock: MonoClock,
    pub last_packet_received: u128,
    pub clock_offset_samples: Vec<i64>,
    pub last_server_timestamp: Option<u64>,
    pub packet_send_times: Vec<(u64, u128)>,
    pub prediction_enabled: bool,
    pub reconciliation_enabled: bool,
    pub interpolation_enabled: bool,
}

impl ConnectionState {
    /// Pings stay in range: every sample and the average are at most
    /// `MAX_PING_MS`, and the artificial latency leaves room to add them.
    pub open spec fn wf(self) -> bool {
        &&& forall|i: int|
            0 <= i < self.ping_history@.len() ==> #[trigger] self.ping_history@[i] <= MAX_PING_MS
        &&& self.real_ping_ms <= MAX_PING_MS
        &&& self.fake_ping_ms <= u64::MAX - MAX_PING_MS
    }

    /// `a` and `b` agree on everything but the ping tracking (the last server
    /// stamp, the clock offset samples and the stamps' arrival times).
    pub open spec fn same_session(a: Self, b: Self) -> bool {
        &&& a.clock == b.clock
        &&& a.server_addr == b.server_addr
        &&& a.client_id == b.client_id
        &&& a.connected == b.connected
        &&& a.real_ping_ms == b.real_ping_ms
        &&& a.fake_ping_ms == b.fake_ping_ms
        &&& a.ping_ms == b.ping_ms
        &&& a.ping_history == b.ping_history
        &&& a.last_packet_received == b.last_packet_received
        &&& a.prediction_enabled == b.prediction_enabled
        &&& a.reconciliation_enabled == b.reconciliation_enabled
        &&& a.interpolation_enabled == b.interpolation_enabled
    }

    /// A disconnected state for the server at `server_addr`, adding
    /// `fake_ping_ms` of artificial latency; every netcode feature is on.
    pub fn new(server_addr: PeerAddr, fake_ping_ms: u64) -> (s: Self)
        requires
            fake_ping_ms <= u64::MAX - MAX_PING_MS,
        ensures
            s.wf(),
            s.server_addr == server_addr,
            s.client_id == None::<u32>,
            !s.connected,
            s.real_ping_ms == 0,
            s.fake_ping_ms == fake_ping_ms,
            s.ping_ms == 0,
            s.ping_history@ == Seq::<u64>::empty(),
            s.clock_offset_samples@ == Seq::<i64>::empty(),
            s.last_server_timestamp == None::<u64>,
            s.packet_send_times@ == Seq::<(u64, u128)>::empty(),
            s.prediction_enabled,
            s.reconciliation_enabled,
            s.interpolation_enabled,
            s.clock.is_reading_of(s.last_packet_received),
    {
        let clock = MonoClock::new();
        let last_packet_received = clock.now_nanos();
        ConnectionState {
            server_addr,
            client_id: None,
            connected: false,
            real_ping_ms: 0,
            fake_ping_ms,
            ping_ms: 0,
            ping_history: Vec::new(),
            clock,
            last_packet_received,
            clock_offset_samples: Vec::new(),
            last_server_timestamp: None,
            packet_send_times: Vec::new(),
            prediction_enabled: true,
            reconciliation_enabled: true,
            interpolation_enabled: true,
        }
    }

    /// Appends a server stamp with its arrival time, keeping the last
    /// `SEND_TIMES_LEN`.
    fn push_send_time(&mut self, server_timestamp: u64, now: u128)
        ensures
            Self::same_session(*old(self), *final(self)),
            final(self).last_server_timestamp == old(self).last_server_timestamp,
            final(self).clock_offset_samples == old(self).clock_offset_samples,
            final(self).packet_send_times@ == bounded_push(
                old(self).packet_send_times@,
                (server_timestamp, now),
                SEND_TIMES_LEN as nat,
            ),
    {
        self.packet_send_times.push((server_timestamp, now));
        if self.packet_send_times.len() > SEND_TIMES_LEN {
            self.packet_send_times.remove(0);
        }
    }

    /// What estimating the ping from a server stamp `server_timestamp`
    /// returns and changes, from state `o` to state `f`, given the wall clock
    /// `now_ms` and the reading `now` of the state's clock. The time since the
    /// previous stamp arrived is measured from the latest stored arrival to
    /// `now`, in whole milliseconds.
    pub open spec fn ping_estimated(
        o: Self,
        f: Self,
        server_timestamp: u64,
        now_ms: u128,
        now: u128,
        r: u64,
    ) -> bool {
        &&& r <= MAX_PING_MS
        &&& o.server_addr.spec_is_loopback() ==> r == loopback_ping(now_ms, server_timestamp)
            && f == o
        &&& !o.server_addr.spec_is_loopback() ==> {
            &&& Self::same_session(o, f)
            &&& f.last_server_timestamp == Some(server_timestamp)
            &&& f.packet_send_times@ == bounded_push(
                o.packet_send_times@,
                (server_timestamp, now),
                SEND_TIMES_LEN as nat,
            )
            &&& match (if o.packet_send_times@.len() > 0 {
                drift_estimate(
                    o.packet_send_times@.last().0,
                    server_timestamp,
                    nanos_between(now, o.packet_send_times@.last().1) / 1_000_000,
                    o.real_ping_ms,
                )
            } else {
                None
            }) {
                Some(e) => r == e && f.clock_offset_samples == o.clock_offset_samples,
                None => {
                    let now_safe = saturate_to_u64(now_ms);
                    if now_safe >= server_timestamp {
                        &&& f.clock_offset_samples == o.clock_offset_samples
                        &&& r == min_u64((now_safe - server_timestamp) as u64, MAX_PING_MS)
                    } else {
                        &&& f.clock_offset_samples@ == bounded_push(
                            o.clock_offset_samples@,
                            (server_timestamp - now_safe) as i64,
                            OFFSET_SAMPLES_LEN as nat,
                        )
                        &&& r == min_u64(
                            offset_corrected_ping(
                                f.clock_offset_samples@,
                                server_timestamp,
                                now_safe,
                                o.real_ping_ms,
                            ),
                            MAX_PING_MS,
                        )
                    }
                },
            }
        }
    }

    /// The ping estimated from a server stamp `server_timestamp`, given the
    /// wall clock `now_ms` and the reading `now` of the state's clock, from
    /// which the time since the previous stamp arrived is measured. Against a
    /// loopback server it is the plain time since the stamp; otherwise the
    /// drift-resistant estimate when it applies, else the time since the stamp
    /// corrected by the median clock offset when the server's clock is ahead.
    pub fn robust_ping_at(
        &mut self,
        server_timestamp: u64,
        now_ms: u128,
        now: u128,
    ) -> (r: u64)
        ensures
            Self::ping_estimated(*old(self), *final(self), server_timestamp, now_ms, now, r),
    {
        if self.server_addr.is_loopback() {
            let now64 = now_ms as u64;
            return if now64 >= server_timestamp {
                let d = now64 - server_timestamp;
                if d <= 10 {
                    d
                } else {
                    10
                }
            } else {
                0
            };
        }
        self.last_server_timestamp = Some(server_timestamp);
        let now_safe: u64 = if now_ms > u64::MAX as u128 {
            u64::MAX
        } else {
            now_ms as u64
        };
        let n = self.packet_send_times.len();
        if n > 0 {
            let prev_ts = self.packet_send_times[n - 1].0;
            let server_diff = if server_timestamp >= prev_ts {
                server_timestamp - prev_ts
            } else {
                0
            };
            let since_prev_ms = elapsed_nanos(now, self.packet_send_times[n - 1].1) / 1_000_000;
            let client_diff = since_prev_ms as u64;
            if server_diff > 0 && server_diff < 5000 && client_diff < 5000 {
                let estimated = if client_diff > server_diff {
                    (client_diff - server_diff) / 2
                } else {
                    let floor: u64 = if self.real_ping_ms >= 50 {
                        self.real_ping_ms
                    } else {
                        50
                    };
                    if server_diff <= floor {
                        server_diff
                    } else {
                        floor
                    }
                };
                self.push_send_time(server_timestamp, now);
                return if estimated < 10 {
                    10
                } else if estimated > MAX_PING_MS {
                    MAX_PING_MS
                } else {
                    estimated
                };
            }
        }
        let raw: u64 = if now_safe >= server_timestamp {
            now_safe - server_timestamp
        } else {
            let offset = server_timestamp - now_safe;
            self.clock_offset_samples.push(offset as i64);
            if self.clock_offset_samples.len() > OFFSET_SAMPLES_LEN {
                self.clock_offset_samples.remove(0);
            }
            let fallback: u64 = if self.real_ping_ms <= 1000 {
                self.real_ping_ms
            } else {
                1000
            };
            let len = self.clock_offset_samples.len();
            if len >= 3 {
                let sorted = stable_sort_by_key(&self.clock_offset_samples);
                proof {
                    lemma_stable_sorted_is_key_sort(self.clock_offset_samples@, sorted@);
                }
                let median = sorted[len / 2];
                if median > -10000 && median < 10000 {
                    let magnitude: u64 = if median < 0 {
                        (0 - median) as u64
                    } else {
                        median as u64
                    };
                    let corrected = if server_timestamp >= magnitude {
                        server_timestamp - magnitude
                    } else {
                        0
                    };
                    if now_safe >= corrected {
                        now_safe - corrected
                    } else {
                        0
                    }
                } else {
                    fallback
                }
            } else {
                fallback
            }
        };
        self.push_send_time(server_timestamp, now);
        if raw <= MAX_PING_MS {
            raw
        } else {
            MAX_PING_MS
        }
    }

    /// The ping estimated from a server stamp, reading the wall clock and the
    /// state's clock now. Whatever they read, the estimate is at most
    /// `MAX_PING_MS`, and the outcome is that of `robust_ping_at` for those
    /// readings.
    pub fn calculate_robust_ping(&mut self, server_timestamp: u64) -> (r: u64)
        ensures
            r <= MAX_PING_MS,
            Self::same_session(*old(self), *final(self)),
            exists|now_ms: u128, now: u128|
                is_wall_millis(now_ms) && old(self).clock.is_reading_of(now)
                    && #[trigger] Self::ping_estimated(
                    *old(self),
                    *final(self),
                    server_timestamp,
                    now_ms,
                    now,
                    r,
                ),
    {
        let now_ms = unix_time_millis();
        let now = self.clock.now_nanos();
        let r = self.robust_ping_at(server_timestamp, now_ms, now);
        assert(Self::ping_estimated(*old(self), *self, server_timestamp, now_ms, now, r));
        r
    }

    /// What folding the ping sample `candidate` into the moving average
    /// changes, from state `o` to state `f`.
    pub open spec fn ping_recorded(o: Self, f: Self, candidate: u64) -> bool {
        &&& candidate <= MAX_PING_MS ==> {
            &&& f.ping_history@ == keep_last(
                o.ping_history@.push(candidate),
                PING_HISTORY_LEN as nat,
            )
            &&& f.real_ping_ms == seq_sum(f.ping_history@) / f.ping_history@.len() as int
        }
        &&& candidate > MAX_PING_MS ==> f.ping_history == o.ping_history
            && f.real_ping_ms == o.real_ping_ms
        &&& f.ping_ms == f.real_ping_ms + f.fake_ping_ms
        &&& f.fake_ping_ms == o.fake_ping_ms
        &&& f.server_addr == o.server_addr
        &&& f.client_id == o.client_id
        &&& f.connected == o.connected
        &&& f.last_packet_received == o.last_packet_received
        &&& f.clock_offset_samples == o.clock_offset_samples
        &&& f.last_server_timestamp == o.last_server_timestamp
        &&& f.packet_send_times == o.packet_send_times
        &&& f.prediction_enabled == o.prediction_enabled
        &&& f.reconciliation_enabled == o.reconciliation_enabled
        &&& f.interpolation_enabled == o.interpolation_enabled
    }

    /// Folds a ping sample into the moving average: a plausible sample (at
    /// most `MAX_PING_MS`) joins the last `PING_HISTORY_LEN` samples and the
    /// average is recomputed; an implausible one is ignored. The displayed
    /// ping is the average plus the artificial latency.
    #[verifier::loop_isolation(false)]
    pub fn record_ping(&mut self, candidate: u64)
        requires
            old(self).wf(),
        ensures
            final(self).wf(),
            Self::ping_recorded(*old(self), *final(self), candidate),
    {
        if candidate <= MAX_PING_MS {
            let mut history: Vec<u64> = self.ping_history.clone();
            let ghost pushed = history@.push(candidate);
            history.push(candidate);
            while history.len() > PING_HISTORY_LEN
                invariant
                    forall|i: int|
                        0 <= i < history@.len() ==> #[trigger] history@[i] <= MAX_PING_MS,
                    history@.len() <= pushed.len(),
                    history@ == pushed.skip(pushed.len() - history@.len()),
                    pushed.len() <= PING_HISTORY_LEN ==> history@ == pushed,
                    pushed.len() > PING_HISTORY_LEN ==> history@.len() >= PING_HISTORY_LEN,
                decreases history@.len(),
            {
                let ghost before = history@;
                history.remove(0);
                assert(history@ == pushed.skip(pushed.len() - history@.len())) by {
                    assert(before.skip(1) == history@);
                }
            }
            let len = history.len();
            let mut sum: u64 = 0;
            let mut i: usize = 0;
            while i < len
                invariant
                    len == history@.len(),
                    len <= PING_HISTORY_LEN,
                    0 <= i <= len,
                    forall|j: int| 0 <= j < history@.len() ==> #[trigger] history@[j] <= MAX_PING_MS,
                    sum == seq_sum(history@.take(i as int)),
                    sum <= i * MAX_PING_MS,
                decreases len - i,
            {
                assert(history@.take(i + 1).drop_last() == history@.take(i as int));
                sum = sum + history[i];
                i = i + 1;
            }
            assert(history@.take(len as int) == history@);
            assert(len > 0);
            assert(sum / (len as u64) <= MAX_PING_MS) by (nonlinear_arith)
                requires
                    sum <= len * MAX_PING_MS,
                    len > 0,
            ;
            self.ping_history = history;
            self.real_ping_ms = sum / (len as u64);
        }
        self.ping_ms = self.real_ping_ms + self.fake_ping_ms;
    }

    /// What handling `packet` returns and changes, from state `o` to state
    /// `f`: a connection confirmation records our id; a game state (when
    /// stamped) updates the displayed ping and is handed on with the netcode
    /// switches in force; a disconnection forgets our id; anything else is
    /// unexpected and changes nothing of the connection.
    pub open spec fn packet_outcome<P>(
        o: Self,
        f: Self,
        packet: Packet<P>,
        r: ClientEvent<P>,
    ) -> bool {
        match packet {
            Packet::Connected { client_id } => {
                &&& r == ClientEvent::<P>::Connected { client_id }
                &&& f.client_id == Some(client_id)
                &&& f.connected
            },
            Packet::GameState { tick, timestamp, last_processed_input, players } => {
                &&& r == ClientEvent::ServerState {
                    tick,
                    timestamp,
                    players,
                    last_processed_input,
                    config: ServerStateConfig {
                        client_id: o.client_id,
                        reconciliation_enabled: o.reconciliation_enabled,
                        interpolation_enabled: o.interpolation_enabled,
                    },
                    graph_ping_ms: if timestamp > 0 {
                        Some(f.ping_ms)
                    } else {
                        None
                    },
                }
                &&& f.client_id == o.client_id
                &&& f.connected == o.connected
                &&& timestamp == 0 ==> f.ping_ms == o.ping_ms
                    && f.real_ping_ms == o.real_ping_ms
                &&& timestamp > 0 ==> f.ping_ms == f.real_ping_ms + f.fake_ping_ms
            },
            Packet::Disconnected { reason } => {
                &&& r == ClientEvent::<P>::Disconnected { reason }
                &&& f.client_id == None::<u32>
                &&& !f.connected
            },
            _ => {
                &&& r == ClientEvent::<P>::Unexpected
                &&& f.client_id == o.client_id
                &&& f.connected == o.connected
            },
        }
    }

    /// What handling `packet` returns and changes, from state `o` to state
    /// `f`, given the wall clock `now_ms` and the reading `now` of the state's
    /// clock: the arrival is recorded at `now`; a stamped game state folds a fresh ping estimate
    /// into the average; nothing else changes but what `packet_outcome`
    /// states.
    pub open spec fn packet_handled_at<P>(
        o: Self,
        f: Self,
        packet: Packet<P>,
        now_ms: u128,
        now: u128,
        r: ClientEvent<P>,
    ) -> bool {
        let received = Self { last_packet_received: now, ..o };
        &&& f.last_packet_received == now
        &&& Self::packet_outcome(o, f, packet, r)
        &&& match packet {
            Packet::GameState { timestamp, .. } => if timestamp > 0 {
                exists|mid: Self, c: u64|
                    #![trigger Self::ping_recorded(mid, f, c)]
                    Self::ping_estimated(received, mid, timestamp, now_ms, now, c)
                        && Self::ping_recorded(mid, f, c)
            } else {
                f == received
            },
            _ => f == Self { client_id: f.client_id, connected: f.connected, ..received },
        }
    }

    /// The decisions on a packet from the server, given the clock readings
    /// that the ping estimate uses: a connection confirmation records our id;
    /// a game state (when stamped) updates the ping and is handed on with the
    /// current netcode switches; a disconnection forgets our id.
    pub fn handle_packet_at<P>(
        &mut self,
        packet: Packet<P>,
        now_ms: u128,
        now: u128,
    ) -> (r: ClientEvent<P>)
        requires
            old(self).wf(),
        ensures
            final(self).wf(),
            final(self).last_packet_received == now,
            Self::packet_outcome(*old(self), *final(self), packet, r),
            Self::packet_handled_at(*old(self), *final(self), packet, now_ms, now, r),
            final(self).prediction_enabled == old(self).prediction_enabled,
            final(self).reconciliation_enabled == old(self).reconciliation_enabled,
            final(self).interpolation_enabled == old(self).interpolation_enabled,
            final(self).fake_ping_ms == old(self).fake_ping_ms,
            final(self).server_addr == old(self).server_addr,
    {
        self.last_packet_received = now;
        let ghost received = *self;
        assert(received == Self { last_packet_received: now, ..*old(self) });
        match packet {
            Packet::Connected { client_id } => {
                self.client_id = Some(client_id);
                self.connected = true;
                ClientEvent::Connected { client_id }
            },
            Packet::GameState { tick, timestamp, last_processed_input, players } => {
                let mut graph_ping_ms: Option<u64> = None;
                if timestamp > 0 {
                    let candidate = self.robust_ping_at(timestamp, now_ms, now);
                    let ghost mid = *self;
                    self.record_ping(candidate);
                    assert(Self::ping_recorded(mid, *self, candidate));
                    graph_ping_ms = Some(self.ping_ms);
                }
                let config = ServerStateConfig {
                    client_id: self.client_id,
                    reconciliation_enabled: self.reconciliation_enabled,
                    interpolation_enabled: self.interpolation_enabled,
                };
                ClientEvent::ServerState {
                    tick,
                    timestamp,
                    players,
                    last_processed_input,
                    config,
                    graph_ping_ms,
                }
            },
            Packet::Disconnected { reason } => {
                self.connected = false;
                self.client_id = None;
                ClientEvent::Disconnected { reason }
            },
            _ => ClientEvent::Unexpected,
        }
    }

    /// The decisions on a packet from the server, reading the wall clock and
    /// the state's clock now: the outcome is that of `handle_packet_at` for
    /// those readings.
    pub fn handle_packet_sync<P>(&mut self, packet: Packet<P>) -> (r: ClientEvent<P>)
        requires
            old(self).wf(),
        ensures
            final(self).wf(),
            Self::packet_outcome(*old(self), *final(self), packet, r),
            exists|now_ms: u128, now: u128|
                is_wall_millis(now_ms) && old(self).clock.is_reading_of(now)
                    && #[trigger] Self::packet_handled_at(
                    *old(self),
                    *final(self),
                    packet,
                    now_ms,
                    now,
                    r,
                ),
            final(self).prediction_enabled == old(self).prediction_enabled,
            final(self).reconciliation_enabled == old(self).reconciliation_enabled,
            final(self).interpolation_enabled == old(self).interpolation_enabled,
            final(self).fake_ping_ms == old(self).fake_ping_ms,
            final(self).server_addr == old(self).server_addr,
    {
        let now_ms = unix_time_millis();
        let now = self.clock.now_nanos();
        let ghost p = packet;
        let r = self.handle_packet_at(packet, now_ms, now);
        assert(Self::packet_handled_at(*old(self), *self, p, now_ms, now, r));
        r
    }

    /// The packet to send for a sampled input, and the client id under which
    /// to predict its effect locally (when prediction is on); nothing while
    /// not connected.
    pub fn send_input<P>(&self, input: InputState) -> (r: Option<(Packet<P>, Option<u32>)>)
        ensures
            !self.connected || self.client_id is None ==> r is None,
            self.connected && self.client_id is Some ==> r == Some(
                (
                    Packet::<P>::Input {
                        sequence: input.sequence,
                        timestamp: input.timestamp,
                        left: input.left,
                        right: input.right,
                        jump: input.jump,
                    },
                    if self.prediction_enabled {
                        self.client_id
                    } else {
                        None
                    },
                ),
            ),
    {
        if !self.connected || self.client_id.is_none() {
            return None;
        }
        let packet = Packet::Input {
            sequence: input.sequence,
            timestamp: input.timestamp,
            left: input.left,
            right: input.right,
            jump: input.jump,
        };
        let predict_for = if self.prediction_enabled {
            self.client_id
        } else {
            None
        };
        Some((packet, predict_for))
    }

    /// Flips the prediction, reconciliation and interpolation switches whose
    /// keys were pressed; returns whether a reconnect was requested.
    pub fn handle_toggles(&mut self, toggles: (bool, bool, bool, bool, bool)) -> (r: bool)
        ensures
            r == toggles.3,
            final(self).prediction_enabled == (old(self).prediction_enabled != toggles.0),
            final(self).reconciliation_enabled == (old(self).reconciliation_enabled != toggles.1),
            final(self).interpolation_enabled == (old(self).interpolation_enabled != toggles.2),
            final(self).server_addr == old(self).server_addr,
            final(self).client_id == old(self).client_id,
            final(self).connected == old(self).connected,
            final(self).real_ping_ms == old(self).real_ping_ms,
            final(self).fake_ping_ms == old(self).fake_ping_ms,
            final(self).ping_ms == old(self).ping_ms,
            final(self).ping_history == old(self).ping_history,
            final(self).last_packet_received == old(self).last_packet_received,
            final(self).clock_offset_samples == old(self).clock_offset_samples,
            final(self).last_server_timestamp == old(self).last_server_timestamp,
            final(self).packet_send_times == old(self).packet_send_times,
    {
        if toggles.0 {
            self.prediction_enabled = !self.prediction_enabled;
        }
        if toggles.1 {
            self.reconciliation_enabled = !self.reconciliation_enabled;
        }
        if toggles.2 {
            self.interpolation_enabled = !self.interpolation_enabled;
        }
        toggles.3
    }

    /// Forgets the connection before reconnecting: disconnected, no id, the
    /// measured ping cleared and the displayed ping reset to the artificial
    /// latency. Returns whether a connection was open (and so is owed a
    /// disconnect message).
    pub fn reset_for_reconnect(&mut self) -> (r: bool)
        requires
            old(self).wf(),
        ensures
            final(self).wf(),
            r == old(self).connected,
            !final(self).connected,
            final(self).client_id == None::<u32>,
            final(self).real_ping_ms == 0,
            final(self).ping_ms == old(self).fake_ping_ms,
            final(self).ping_history@ == Seq::<u64>::empty(),
            final(self).fake_ping_ms == old(self).fake_ping_ms,
            final(self).server_addr == old(self).server_addr,
            final(self).clock == old(self).clock,
            final(self).clock_offset_samples == old(self).clock_offset_samples,
            final(self).last_server_timestamp == old(self).last_server_timestamp,
            final(self).packet_send_times == old(self).packet_send_times,
            final(self).prediction_enabled == old(self).prediction_enabled,
            final(self).reconciliation_enabled == old(self).reconciliation_enabled,
            final(self).interpolation_enabled == old(self).interpolation_enabled,
            final(self).clock.is_reading_of(final(self).last_packet_received),
    {
        let was_connected = self.connected;
        self.connected = false;
        self.client_id = None;
        self.real_ping_ms = 0;
        self.ping_ms = self.fake_ping_ms;
        self.ping_history = Vec::new();
        self.last_packet_received = self.clock.now_nanos();
        was_connected
    }

    /// What a health check changes, from state `o` to state `f`, given
    /// whether the server has been silent too long (`timed_out`): an open
    /// connection that timed out is dropped (no id) and nothing else changes;
    /// otherwise nothing changes.
    pub open spec fn health_checked(o: Self, f: Self, timed_out: bool) -> bool {
        &&& o.connected && timed_out ==> !f.connected && f.client_id == None::<u32>
            && Self::same_fields_but_connection(o, f)
        &&& !(o.connected && timed_out) ==> f == o
    }

    /// Drops the connection when the server has been silent too long
    /// (`timed_out`) while connected.
    pub fn apply_health_check(&mut self, timed_out: bool)
        ensures
            Self::health_checked(*old(self), *final(self), timed_out),
    {
        if self.connected && timed_out {
            self.connected = false;
            self.client_id = None;
        }
    }

    /// Drops the connection when the server has been silent for
    /// `silent_nanos` nanoseconds, more than five seconds, while connected.
    pub fn check_connection_health_at(&mut self, silent_nanos: u128)
        ensures
            Self::health_checked(*old(self), *final(self), connection_timed_out(silent_nanos)),
    {
        let timed_out = silent_nanos > CONNECTION_TIMEOUT_NANOS;
        self.apply_health_check(timed_out);
    }

    /// Drops the connection when no packet has arrived for five seconds while
    /// connected, reading the state's clock now: the silence is the time from
    /// `last_packet_received` to that reading, and whatever it reads, the
    /// outcome is that of `check_connection_health_at` for that silence:
    /// either the state is unchanged, or a connection that was open is
    /// dropped (no id) and nothing else changes.
    pub fn check_connection_health(&mut self)
        ensures
            exists|now: u128|
                old(self).clock.is_reading_of(now) && Self::health_checked(
                    *old(self),
                    *final(self),
                    #[trigger] connection_timed_out(
                        nanos_between(now, old(self).last_packet_received),
                    ),
                ),
            !old(self).connected ==> *final(self) == *old(self),
            *final(self) == *old(self) || (old(self).connected && !final(self).connected
                && final(self).client_id == None::<u32> && Self::same_fields_but_connection(
                *old(self),
                *final(self),
            )),
            Self::same_fields_but_connection(*old(self), *final(self)),
    {
        let now = self.clock.now_nanos();
        let silent_nanos = elapsed_nanos(now, self.last_packet_received);
        self.check_connection_health_at(silent_nanos);
    }

    /// `a` and `b` agree on everything but whether and as whom the client is
    /// connected.
    pub open spec fn same_fields_but_connection(a: Self, b: Self) -> bool {
        &&& a.clock == b.clock
        &&& a.server_addr == b.server_addr
        &&& a.real_ping_ms == b.real_ping_ms
        &&& a.fake_ping_ms == b.fake_ping_ms
        &&& a.ping_ms == b.ping_ms
        &&& a.ping_history == b.ping_history
        &&& a.last_packet_received == b.last_packet_received
        &&& a.clock_offset_samples == b.clock_offset_samples
        &&& a.last_server_timestamp == b.last_server_timestamp
        &&& a.packet_send_times == b.packet_send_times
        &&& a.prediction_enabled == b.prediction_enabled
        &&& a.reconciliation_enabled == b.reconciliation_enabled
        &&& a.interpolation_enabled == b.interpolation_enabled
    }
}

/// Items held back until a release time, released in the order queued:
/// the artificial-latency queues for outgoing and incoming packets. Release
/// times are readings of the queue's clock, in nanoseconds.
#[derive(Debug)]
pub struct DelayQueue<T> {
    pub clock: MonoClock,
    pub items: Vec<(T, u128)>,
}

/// The queue `items` has an oldest item, and the reading `now` has reached
/// its release time.
pub open spec fn head_due<T>(items: Seq<(T, u128)>, now: u128) -> bool {
    items.len() > 0 && items[0].1 <= now
}

impl<T> DelayQueue<T> {
    /// An empty queue with a clock whose origin is now.
    pub fn new() -> (q: Self)
        ensures
            q.items@ == Seq::<(T, u128)>::empty(),
    {
        DelayQueue { clock: MonoClock::new(), items: Vec::new() }
    }

    /// Holds `item` back until `release_at`, a reading of the queue's clock.
    pub fn push(&mut self, item: T, release_at: u128)
        ensures
            final(self).items@ == old(self).items@.push((item, release_at)),
            final(self).clock == old(self).clock,
    {
        self.items.push((item, release_at));
    }

    /// What releasing from the queue returns and changes, from items `o` to
    /// items `f`, given whether the clock has reached the oldest item's
    /// release time (`reached`): the oldest item leaves and is returned when
    /// there is one and its time has been reached; otherwise nothing is
    /// returned and the queue is unchanged.
    pub open spec fn released(
        o: Seq<(T, u128)>,
        f: Seq<(T, u128)>,
        reached: bool,
        r: Option<T>,
    ) -> bool {
        if o.len() > 0 && reached {
            r == Some(o[0].0) && f == o.drop_first()
        } else {
            r is None && f == o
        }
    }

    /// The oldest item, if the clock has reached its release time
    /// (`reached`); later items wait behind it.
    pub fn pop_ready_at(&mut self, reached: bool) -> (r: Option<T>)
        ensures
            Self::released(old(self).items@, final(self).items@, reached, r),
            final(self).clock == old(self).clock,
    {
        if self.items.len() > 0 && reached {
            let (x, _) = self.items.remove(0);
            Some(x)
        } else {
            None
        }
    }

    /// The oldest item, if the reading `now` of the queue's clock is at or
    /// after its release time; later items wait behind it. Draining the queue
    /// with one reading releases, in order, the items due at that moment.
    pub fn pop_due(&mut self, now: u128) -> (r: Option<T>)
        ensures
            Self::released(old(self).items@, final(self).items@, head_due(old(self).items@, now), r),
            final(self).clock == old(self).clock,
    {
        let due = self.items.len() > 0 && self.items[0].1 <= now;
        self.pop_ready_at(due)
    }

    /// The oldest item, if the queue's clock, read now, has reached its
    /// release time; later items wait behind it. Whatever the clock reads,
    /// the outcome is that of `pop_due` for that reading.
    pub fn pop_ready(&mut self) -> (r: Option<T>)
        ensures
            exists|now: u128|
                old(self).clock.is_reading_of(now) && Self::released(
                    old(self).items@,
                    final(self).items@,
                    #[trigger] head_due(old(self).items@, now),
                    r,
                ),
            old(self).items@.len() == 0 ==> r is None,
            final(self).clock == old(self).clock,
    {
        let now = self.clock.now_nanos();
        self.pop_due(now)
    }

    /// Drops every held item.
    pub fn clear(&mut self)
        ensures
            final(self).items@ == Seq::<(T, u128)>::empty(),
            final(self).clock == old(self).clock,
    {
        self.items.clear();
    }
}

/// Pressing a netcode switch's key twice restores the switch: the toggles
/// undo themselves.
pub proof fn lemma_toggles_undo_themselves(
    a: ConnectionState,
    b: ConnectionState,
    c: ConnectionState,
    toggles: (bool, bool, bool, bool, bool),
)
    requires
        b.prediction_enabled == (a.prediction_enabled != toggles.0),
        b.reconciliation_enabled == (a.reconciliation_enabled != toggles.1),
        b.interpolation_enabled == (a.interpolation_enabled != toggles.2),
        c.prediction_enabled == (b.prediction_enabled != toggles.0),
        c.reconciliation_enabled == (b.reconciliation_enabled != toggles.1),
        c.interpolation_enabled == (b.interpolation_enabled != toggles.2),
    ensures
        c.prediction_enabled == a.prediction_enabled,
        c.reconciliation_enabled == a.reconciliation_enabled,
        c.interpolation_enabled == a.interpolation_enabled,
{
}

/// Connection health, read on the state's clock: when the clock reads `now`,
/// an open connection is dropped (no id, nothing else changed) exactly when
/// more than five seconds separate the last packet's arrival from `now`, and
/// is left as it was otherwise; a closed connection is left as it was.
pub proof fn lemma_health_check_measures_from_last_packet(
    o: ConnectionState,
    f: ConnectionState,
    now: u128,
)
    requires
        o.clock.is_reading_of(now),
        ConnectionState::health_checked(
            o,
            f,
            connection_timed_out(nanos_between(now, o.last_packet_received)),
        ),
    ensures
        f.connected <==> (o.connected && now <= o.last_packet_received + 5_000_000_000),
        now <= o.last_packet_received + 5_000_000_000 ==> f == o,
        !o.connected ==> f == o,
        o.connected && now > o.last_packet_received + 5_000_000_000 ==> f.client_id
            == None::<u32> && ConnectionState::same_fields_but_connection(o, f),
{
}

/// The drift-resistant ping estimate, against a remote server whose stamp
/// `ts` is 1 to 4999 ms past the last stored stamp, while our clock advanced
/// by fewer than five seconds since that stamp arrived. When ours advanced no
/// more than the server's, the estimate is never more than the server's
/// advance (nor under 10 ms) and at least the smaller of that advance and
/// 50 ms: it is the server's advance capped by the current ping or 50 ms,
/// whichever is larger, kept within 10..=2000 ms. When ours advanced more, it
/// is half the difference, kept within 10..=2000 ms.
pub proof fn lemma_drift_estimate_follows_both_clocks(
    o: ConnectionState,
    f: ConnectionState,
    ts: u64,
    now_ms: u128,
    now: u128,
    r: u64,
)
    requires
        ConnectionState::ping_estimated(o, f, ts, now_ms, now, r),
        !o.server_addr.spec_is_loopback(),
        o.packet_send_times@.len() > 0,
        o.packet_send_times@.last().0 < ts < o.packet_send_times@.last().0 + 5000,
        nanos_between(now, o.packet_send_times@.last().1) < 5_000_000_000,
    ensures
        ({
            let sd = ts - o.packet_send_times@.last().0;
            let cd = nanos_between(now, o.packet_send_times@.last().1) / 1_000_000;
            &&& 10 <= r <= 2000
            &&& cd <= sd ==> r <= if sd < 10 {
                10
            } else {
                sd
            }
            &&& cd <= sd ==> r >= sd || r >= 50
            &&& cd <= sd ==> r == ({
                let cap = if o.real_ping_ms >= 50 {
                    o.real_ping_ms as int
                } else {
                    50
                };
                let e = if sd <= cap {
                    sd
                } else {
                    cap
                };
                if e < 10 {
                    10
                } else if e > 2000 {
                    2000
                } else {
                    e
                }
            })
            &&& cd > sd ==> r == if (cd - sd) / 2 < 10 {
                10
            } else if (cd - sd) / 2 > 2000 {
                2000
            } else {
                (cd - sd) / 2
            }
        }),
        f.packet_send_times@.last() == (ts, now),
        f.clock_offset_samples == o.clock_offset_samples,
{
    let prev = o.packet_send_times@.last();
    let cd = nanos_between(now, prev.1) / 1_000_000;
    assert(cd < 5000);
    assert(cd as u64 == cd);
}

/// Release from a delay queue, read on the queue's clock: when the clock
/// reads `now`, the oldest item leaves and is returned exactly when its
/// release time is at most `now`; otherwise nothing is returned and the queue
/// is unchanged.
pub proof fn lemma_release_waits_for_the_clock<T>(
    clock: MonoClock,
    o: Seq<(T, u128)>,
    f: Seq<(T, u128)>,
    now: u128,
    r: Option<T>,
)
    requires
        clock.is_reading_of(now),
        DelayQueue::<T>::released(o, f, head_due(o, now), r),
    ensures
        r is Some <==> (o.len() > 0 && o[0].1 <= now),
        r matches Some(x) ==> x == o[0].0 && f == o.drop_first(),
        r is None ==> f == o,
{
}

} // verus!
