//! Data shared by client and server: world constants, the input record, the
//! wire packet and peer addresses.

use std::collections::HashMap;
use vstd::prelude::*;

verus! {

/// Downward acceleration, pixels per second squared.
pub const GRAVITY: i32 = 980;
/// Horizontal speed of a moving player, pixels per second.
pub const PLAYER_SPEED: i32 = 300;
/// Vertical speed given by a jump, pixels per second (negative is upward).
pub const JUMP_VELOCITY: i32 = -400;
/// Height of the floor, pixels from the top.
pub const FLOOR_Y: i32 = 550;
/// Width of the world in pixels.
pub const WORLD_WIDTH: i32 = 800;
/// Height of the world in pixels.
pub const WORLD_HEIGHT: i32 = 600;
/// Side of a player's square, in pixels.
pub const PLAYER_SIZE: i32 = 32;

/// The world constants are consistent: gravity pulls down, a jump goes up,
/// the floor lies below a player's height, the world holds two players side
/// by side, and the apex of a jump (v^2 / 2g) lies above a player's height
/// and below half the world's height.
pub proof fn lemma_physics_constants_consistent()
    ensures
        GRAVITY > 0,
        PLAYER_SPEED > 0,
        JUMP_VELOCITY < 0,
        FLOOR_Y > PLAYER_SIZE,
        WORLD_WIDTH > 2 * PLAYER_SIZE,
        PLAYER_SIZE > 0,
        JUMP_VELOCITY * JUMP_VELOCITY > 2 * GRAVITY * PLAYER_SIZE,
        JUMP_VELOCITY * JUMP_VELOCITY < GRAVITY * WORLD_HEIGHT,
{
}

/// One sampled input: ordered by `sequence`, stamped with the sender's
/// wall-clock milliseconds.
#[derive(Debug, Clone, Copy, PartialEq, Eq, Structural)]
pub struct InputState {
    pub sequence: u32,
    pub timestamp: u64,
    pub left: bool,
    pub right: bool,
    pub jump: bool,
}

/// A peer's network address: the IP address as a 128-bit number (IPv4 in the
/// low 32 bits), the port, and the IPv6 flow label and scope.
#[derive(Debug, Clone, Copy, PartialEq, Eq, Structural)]
pub struct PeerAddr {
    pub ip: u128,
    pub port: u16,
    pub is_ipv6: bool,
    pub flowinfo: u32,
    pub scope_id: u32,
}

impl PeerAddr {
    /// Whether the address is a loopback address: 127.0.0.0/8 for IPv4,
    /// `::1` for IPv6.
    pub open spec fn spec_is_loopback(self) -> bool {
        if self.is_ipv6 {
            self.ip == 1
        } else {
            self.ip / 0x100_0000 == 127
        }
    }

    /// Whether the address is a loopback address.
    pub fn is_loopback(&self) -> (r: bool)
        ensures
            r == self.spec_is_loopback(),
    {
        if self.is_ipv6 {
            self.ip == 1
        } else {
            self.ip / 0x100_0000 == 127
        }
    }
}

/// Messages between client and server. `P` is the player snapshot that game
/// states carry.
#[derive(Debug)]
pub enum Packet<P> {
    Connect { client_version: u32 },
    Input { sequence: u32, timestamp: u64, left: bool, right: bool, jump: bool },
    Disconnect,
    Connected { client_id: u32 },
    GameState {
        tick: u32,
        timestamp: u64,
        last_processed_input: HashMap<u32, u32>,
        players: Vec<P>,
    },
    Disconnected { reason: String },
}

} // verus!
