//! Turning sampled key states into control events and sequenced inputs.

use crate::clock::{elapsed_nanos, nanos_between, MonoClock};
use crate::server::utils::{get_timestamp, is_wall_stamp};
use crate::shared::InputState;
use vstd::prelude::*;

verus! {

/// The interval after which an unchanged input is sent again to keep the
/// connection alive: 16 ms.
pub const KEEPALIVE_NANOS: u128 = 16_000_000;

/// The keys held down in one frame.
#[derive(Debug, Clone, Copy, PartialEq, Eq, Structural)]
pub struct KeyStates {
    pub left: bool,
    pub right: bool,
    pub jump: bool,
    pub key_1: bool,
    pub key_2: bool,
    pub key_3: bool,
    pub key_r: bool,
    pub key_g: bool,
}

/// The sequence number after `n`: the next one, wrapping from `u32::MAX`
/// to 0.
pub open spec fn sequence_after(n: u32) -> u32 {
    if n == u32::MAX {
        0
    } else {
        (n + 1) as u32
    }
}

/// The keep-alive is due after `elapsed_nanos` nanoseconds without sending
/// when they are 16 ms or more.
pub open spec fn is_keepalive_due(elapsed_nanos: u128) -> bool {
    elapsed_nanos >= KEEPALIVE_NANOS
}

/// Whether the keep-alive is due after `elapsed_nanos` nanoseconds without
/// sending: 16 ms or more.
pub fn keepalive_due(elapsed_nanos: u128) -> (r: bool)
    ensures
        r == is_keepalive_due(elapsed_nanos),
{
    elapsed_nanos >= KEEPALIVE_NANOS
}

/// Sequences sampled inputs and detects presses of the control keys.
#[derive(Debug)]
pub struct InputManager {
    pub next_sequence: u32,
    pub current_input: InputState,
    pub clock: MonoClock,
    pub last_input_sent: u128,
    pub prev_key_1: bool,
    pub prev_key_2: bool,
    pub prev_key_3: bool,
    pub prev_key_r: bool,
    pub prev_key_g: bool,
}

impl InputManager {
    /// No input sent yet: the next sequence is 1, the current input is all
    /// released with sequence and timestamp 0, no control key was held.
    pub fn new() -> (m: Self)
        ensures
            m.next_sequence == 1,
            m.current_input == (InputState {
                sequence: 0,
                timestamp: 0,
                left: false,
                right: false,
                jump: false,
            }),
            !m.prev_key_1 && !m.prev_key_2 && !m.prev_key_3 && !m.prev_key_r && !m.prev_key_g,
            m.clock.is_reading_of(m.last_input_sent),
    {
        let clock = MonoClock::new();
        let last_input_sent = clock.now_nanos();
        InputManager {
            next_sequence: 1,
            current_input: InputState {
                sequence: 0,
                timestamp: 0,
                left: false,
                right: false,
                jump: false,
            },
            clock,
            last_input_sent,
            prev_key_1: false,
            prev_key_2: false,
            prev_key_3: false,
            prev_key_r: false,
            prev_key_g: false,
        }
    }

    /// What one frame of input sampling returns and changes, from state `o`
    /// to state `f`, for the keys `keys`, whether the keep-alive is due, the
    /// wall-clock `timestamp` and the reading `now` of the manager's clock: a control
    /// event fires on the frame its key goes down (prediction,
    /// reconciliation, interpolation, reconnect, network graph); an input is
    /// sent when the movement keys changed or the keep-alive is due, and it
    /// takes the next sequence number.
    pub open spec fn update_outcome(
        o: Self,
        f: Self,
        keys: KeyStates,
        keepalive_due: bool,
        timestamp: u64,
        now: u128,
        r: ((bool, bool, bool, bool, bool), Option<InputState>),
    ) -> bool {
        &&& r.0 == (
            keys.key_1 && !o.prev_key_1,
            keys.key_2 && !o.prev_key_2,
            keys.key_3 && !o.prev_key_3,
            keys.key_r && !o.prev_key_r,
            keys.key_g && !o.prev_key_g,
        )
        &&& f.prev_key_1 == keys.key_1
        &&& f.prev_key_2 == keys.key_2
        &&& f.prev_key_3 == keys.key_3
        &&& f.prev_key_r == keys.key_r
        &&& f.prev_key_g == keys.key_g
        &&& f.clock == o.clock
        &&& if keys.left != o.current_input.left || keys.right != o.current_input.right || keys.jump
            != o.current_input.jump || keepalive_due {
            let sent = InputState {
                sequence: o.next_sequence,
                timestamp,
                left: keys.left,
                right: keys.right,
                jump: keys.jump,
            };
            &&& r.1 == Some(sent)
            &&& f.current_input == sent
            &&& f.next_sequence == sequence_after(o.next_sequence)
            &&& f.last_input_sent == now
        } else {
            &&& r.1 == None::<InputState>
            &&& f.current_input == o.current_input
            &&& f.next_sequence == o.next_sequence
            &&& f.last_input_sent == o.last_input_sent
        }
    }

    /// The control events and the input to send for the keys `keys`, given
    /// whether the keep-alive interval has passed (`keepalive_due`), the wall
    /// clock `timestamp` and the reading `now` of the manager's clock. A control event
    /// fires on the frame its key goes down (prediction, reconciliation,
    /// interpolation, reconnect, network graph). An input is sent when the
    /// movement keys changed or the keep-alive is due; it takes the next
    /// sequence number, which then advances, wrapping from `u32::MAX` to 0.
    pub fn update_with(
        &mut self,
        keys: KeyStates,
        keepalive_due: bool,
        timestamp: u64,
        now: u128,
    ) -> (r: ((bool, bool, bool, bool, bool), Option<InputState>))
        ensures
            Self::update_outcome(*old(self), *final(self), keys, keepalive_due, timestamp, now, r),
    {
        let toggles = (
            keys.key_1 && !self.prev_key_1,
            keys.key_2 && !self.prev_key_2,
            keys.key_3 && !self.prev_key_3,
            keys.key_r && !self.prev_key_r,
            keys.key_g && !self.prev_key_g,
        );
        self.prev_key_1 = keys.key_1;
        self.prev_key_2 = keys.key_2;
        self.prev_key_3 = keys.key_3;
        self.prev_key_r = keys.key_r;
        self.prev_key_g = keys.key_g;
        let input_changed = keys.left != self.current_input.left || keys.right
            != self.current_input.right || keys.jump != self.current_input.jump;
        let mut input_to_send: Option<InputState> = None;
        if input_changed || keepalive_due {
            self.current_input = InputState {
                sequence: self.next_sequence,
                timestamp,
                left: keys.left,
                right: keys.right,
                jump: keys.jump,
            };
            input_to_send = Some(self.current_input);
            self.next_sequence = self.next_sequence.wrapping_add(1);
            self.last_input_sent = now;
        }
        (toggles, input_to_send)
    }

    /// The control events and the input to send for the keys `keys`, reading
    /// the clocks now: the keep-alive is due when 16 ms have passed since the
    /// last input was sent, that is from `last_input_sent` to the reading
    /// `now` of the manager's clock. Whatever the clocks read, the outcome is
    /// that of `update_with` for that reading and the wall-clock stamp read
    /// in the call.
    pub fn update(&mut self, keys: KeyStates) -> (r: (
        (bool, bool, bool, bool, bool),
        Option<InputState>,
    ))
        ensures
            exists|timestamp: u64, now: u128|
                is_wall_stamp(timestamp) && old(self).clock.is_reading_of(now)
                    && #[trigger] Self::update_outcome(
                    *old(self),
                    *final(self),
                    keys,
                    is_keepalive_due(nanos_between(now, old(self).last_input_sent)),
                    timestamp,
                    now,
                    r,
                ),
    {
        let now = self.clock.now_nanos();
        let due = keepalive_due(elapsed_nanos(now, self.last_input_sent));
        let timestamp = Self::get_timestamp();
        let r = self.update_with(keys, due, timestamp, now);
        assert(Self::update_outcome(
            *old(self),
            *self,
            keys,
            is_keepalive_due(nanos_between(now, old(self).last_input_sent)),
            timestamp,
            now,
            r,
        ));
        r
    }

    /// The input most recently sent (all released before the first).
    pub fn get_current_input(&self) -> (r: &InputState)
        ensures
            *r == self.current_input,
    {
        &self.current_input
    }

    /// Milliseconds since the Unix epoch on the wall clock.
    pub fn get_timestamp() -> (r: u64)
        ensures
            is_wall_stamp(r),
    {
        get_timestamp()
    }
}

impl Default for InputManager {
    /// The same as `InputManager::new()`.
    fn default() -> (m: Self)
        ensures
            m.next_sequence == 1,
            m.current_input == (InputState {
                sequence: 0,
                timestamp: 0,
                left: false,
                right: false,
                jump: false,
            }),
            !m.prev_key_1 && !m.prev_key_2 && !m.prev_key_3 && !m.prev_key_r && !m.prev_key_g,
            m.clock.is_reading_of(m.last_input_sent),
    {
        Self::new()
    }
}

/// Inputs are numbered in the order they are sent: of two frames in a row,
/// a frame that sends nothing leaves the numbering where it was, and two
/// frames that both send give consecutive sequence numbers (wrapping from
/// `u32::MAX` to 0).
pub proof fn lemma_sent_inputs_numbered_consecutively(
    a: InputManager,
    b: InputManager,
    c: InputManager,
    keys1: KeyStates,
    keys2: KeyStates,
    due1: bool,
    due2: bool,
    ts1: u64,
    ts2: u64,
    now1: u128,
    now2: u128,
    r1: ((bool, bool, bool, bool, bool), Option<InputState>),
    r2: ((bool, bool, bool, bool, bool), Option<InputState>),
)
    requires
        InputManager::update_outcome(a, b, keys1, due1, ts1, now1, r1),
        InputManager::update_outcome(b, c, keys2, due2, ts2, now2, r2),
    ensures
        r1.1 is None ==> b.next_sequence == a.next_sequence,
        r1.1 is Some && r2.1 is Some ==> r2.1->0.sequence == sequence_after(r1.1->0.sequence),
        r1.1 is None && r2.1 is Some ==> r2.1->0.sequence == a.next_sequence,
{
}

/// One frame of input sampling, read on the clocks: an input goes out with
/// the wall-clock stamp read in that frame, the next sequence number and the
/// movement keys held; it goes out whenever the movement keys changed or at
/// least 16 ms of the manager's clock have passed since the last one went out,
/// and in no other frame.
pub proof fn lemma_sampled_input_is_stamped_and_kept_alive(
    o: InputManager,
    f: InputManager,
    keys: KeyStates,
    timestamp: u64,
    now: u128,
    r: ((bool, bool, bool, bool, bool), Option<InputState>),
)
    requires
        is_wall_stamp(timestamp),
        o.clock.is_reading_of(now),
        InputManager::update_outcome(
            o,
            f,
            keys,
            is_keepalive_due(nanos_between(now, o.last_input_sent)),
            timestamp,
            now,
            r,
        ),
    ensures
        r.1 is Some <==> (keys.left != o.current_input.left || keys.right != o.current_input.right
            || keys.jump != o.current_input.jump || now >= o.last_input_sent + 16_000_000),
        r.1 matches Some(sent) ==> {
            &&& is_wall_stamp(sent.timestamp)
            &&& sent.sequence == o.next_sequence
            &&& sent.left == keys.left && sent.right == keys.right && sent.jump == keys.jump
            &&& f.current_input == sent
            &&& f.last_input_sent == now
        },
        r.1 is None ==> f.current_input == o.current_input && f.last_input_sent
            == o.last_input_sent && f.next_sequence == o.next_sequence,
        f.clock == o.clock,
{
}

} // verus!
