//! A connection of the entity server: its address, liveness, the entity it
//! controls and the inputs waiting to be applied.

use crate::clock::{duration_as_nanos, elapsed_nanos, silent_longer_than, MonoClock};
use crate::server::packets::InputState;
use crate::shared::PeerAddr;
use core::time::Duration;
use tokio::sync::mpsc::Sender;
use tokio_tungstenite::tungstenite::Message;
use vstd::prelude::*;

verus! {

/// The sending half of a tokio channel, `tokio::sync::mpsc::Sender`, carried
/// opaquely.
#[verifier::external_type_specification]
#[verifier::external_body]
#[verifier::reject_recursive_types(T)]
pub struct ExSender<T>(Sender<T>);

/// A WebSocket message, `tokio_tungstenite::tungstenite::Message`, carried
/// opaquely.
#[verifier::external_type_specification]
#[verifier::external_body]
pub struct ExMessage(Message);

/// The largest sequence number among `s` (0 for none).
pub open spec fn max_sequence<V>(s: Seq<InputState<V>>) -> u32
    decreases s.len(),
{
    if s.len() == 0 {
        0
    } else {
        let m = max_sequence(s.drop_last());
        if s.last().sequence > m {
            s.last().sequence
        } else {
            m
        }
    }
}

/// A connection: `sender` delivers WebSocket messages to it; `V` is the
/// direction type that its inputs carry. `last_seen` is a reading of `clock`,
/// in nanoseconds.
#[derive(Debug)]
pub struct Client<V> {
    pub id: u32,
    pub addr: PeerAddr,
    pub clock: MonoClock,
    pub last_seen: u128,
    pub entity_id: u32,
    pub last_processed_input: u32,
    pub input_buffer: Vec<InputState<V>>,
    pub sender: Sender<Message>,
}

impl<V> Client<V> {
    /// A connection controlling `entity_id`, last seen now, with nothing
    /// buffered or processed.
    pub fn new(id: u32, addr: PeerAddr, entity_id: u32, sender: Sender<Message>) -> (c: Self)
        ensures
            c.id == id,
            c.addr == addr,
            c.entity_id == entity_id,
            c.last_processed_input == 0,
            c.input_buffer@ == Seq::<InputState<V>>::empty(),
            c.sender == sender,
            c.clock.is_reading_of(c.last_seen),
    {
        let clock = MonoClock::new();
        let last_seen = clock.now_nanos();
        Client {
            id,
            addr,
            clock,
            last_seen,
            entity_id,
            last_processed_input: 0,
            input_buffer: Vec::new(),
            sender,
        }
    }

    /// Marks the connection as heard from at `now`, a reading of its clock.
    pub fn refresh_last_seen_at(&mut self, now: u128)
        ensures
            final(self).last_seen == now,
            final(self).clock == old(self).clock,
            final(self).id == old(self).id,
            final(self).addr == old(self).addr,
            final(self).entity_id == old(self).entity_id,
            final(self).last_processed_input == old(self).last_processed_input,
            final(self).input_buffer == old(self).input_buffer,
            final(self).sender == old(self).sender,
    {
        self.last_seen = now;
    }

    /// Marks the connection as heard from now, as its clock reads.
    pub fn refresh_last_seen(&mut self)
        ensures
            final(self).clock == old(self).clock,
            final(self).id == old(self).id,
            final(self).addr == old(self).addr,
            final(self).entity_id == old(self).entity_id,
            final(self).last_processed_input == old(self).last_processed_input,
            final(self).input_buffer == old(self).input_buffer,
            final(self).sender == old(self).sender,
            final(self).clock.is_reading_of(final(self).last_seen),
    {
        let now = self.clock.now_nanos();
        self.refresh_last_seen_at(now);
    }

    /// Whether a connection silent for `elapsed_nanos` nanoseconds has timed
    /// out under a timeout of `timeout_nanos` nanoseconds: the silence is
    /// longer than the timeout.
    pub fn is_timed_out_after(&self, elapsed_nanos: u128, timeout_nanos: u128) -> (r: bool)
        ensures
            r == (elapsed_nanos > timeout_nanos),
    {
        elapsed_nanos > timeout_nanos
    }

    /// Whether more than `timeout` has passed since the connection was last
    /// heard from, as its clock reads now: the time from `last_seen` to the
    /// reading, compared with the timeout's nanoseconds.
    pub fn is_timed_out(&self, timeout: Duration) -> (r: bool)
        ensures
            exists|now: u128, timeout_nanos: u128|
                self.clock.is_reading_of(now) && r == #[trigger] silent_longer_than(
                    now,
                    self.last_seen,
                    timeout_nanos,
                ),
    {
        let now = self.clock.now_nanos();
        let silent = elapsed_nanos(now, self.last_seen);
        let limit = duration_as_nanos(&timeout);
        let r = self.is_timed_out_after(silent, limit);
        assert(r == silent_longer_than(now, self.last_seen, limit));
        r
    }

    /// Buffers `input` and marks the connection as heard from now.
    pub fn add_input(&mut self, input: InputState<V>)
        ensures
            final(self).input_buffer@ == old(self).input_buffer@.push(input),
            final(self).clock == old(self).clock,
            final(self).id == old(self).id,
            final(self).addr == old(self).addr,
            final(self).entity_id == old(self).entity_id,
            final(self).last_processed_input == old(self).last_processed_input,
            final(self).sender == old(self).sender,
            final(self).clock.is_reading_of(final(self).last_seen),
    {
        self.refresh_last_seen();
        self.input_buffer.push(input);
    }

    /// Consumes the buffered inputs: the highest buffered sequence becomes the
    /// last processed one and is returned, and the buffer is emptied. With
    /// nothing buffered, returns the last processed sequence unchanged.
    pub fn process_inputs(&mut self) -> (r: u32)
        ensures
            old(self).input_buffer@.len() == 0 ==> r == old(self).last_processed_input
                && *final(self) == *old(self),
            old(self).input_buffer@.len() > 0 ==> {
                &&& r == max_sequence(old(self).input_buffer@)
                &&& final(self).last_processed_input == r
                &&& final(self).input_buffer@ == Seq::<InputState<V>>::empty()
            },
            final(self).id == old(self).id,
            final(self).addr == old(self).addr,
            final(self).last_seen == old(self).last_seen,
            final(self).clock == old(self).clock,
            final(self).entity_id == old(self).entity_id,
            final(self).sender == old(self).sender,
    {
        let n = self.input_buffer.len();
        if n == 0 {
            return self.last_processed_input;
        }
        let mut highest: u32 = 0;
        let mut i: usize = 0;
        while i < n
            invariant
                n == self.input_buffer@.len(),
                0 <= i <= n,
                highest == max_sequence(self.input_buffer@.take(i as int)),
            decreases n - i,
        {
            assert(self.input_buffer@.take(i + 1).drop_last() == self.input_buffer@.take(i as int));
            if self.input_buffer[i].sequence > highest {
                highest = self.input_buffer[i].sequence;
            }
            i = i + 1;
        }
        assert(self.input_buffer@.take(n as int) == self.input_buffer@);
        self.last_processed_input = highest;
        self.input_buffer.clear();
        highest
    }
}

} // verus!
