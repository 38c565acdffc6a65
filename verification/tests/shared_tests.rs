use netcode::clock::millis_or_zero;
use netcode::shared::{
    InputState, PeerAddr, FLOOR_Y, GRAVITY, JUMP_VELOCITY, PLAYER_SIZE, PLAYER_SPEED, WORLD_HEIGHT,
    WORLD_WIDTH,
};

#[test]
fn test_physics_constants_validity() {
    assert!(GRAVITY > 0, "Gravity should be positive (downward)");
    assert!(PLAYER_SPEED > 0, "Player speed should be positive");
    assert!(JUMP_VELOCITY < 0, "Jump velocity should be negative (upward)");
    assert!(FLOOR_Y > PLAYER_SIZE, "Floor should be below player size");
    assert!(WORLD_WIDTH > PLAYER_SIZE * 2, "World should fit at least 2 players");
    assert!(PLAYER_SIZE > 0, "Player size should be positive");

    let jump = JUMP_VELOCITY as f32;
    let jump_height = (jump * jump) / (2.0 * GRAVITY as f32);
    assert!(jump_height > PLAYER_SIZE as f32, "Jump height should be meaningful");
    assert!(jump_height < WORLD_HEIGHT as f32 / 2.0, "Jump shouldn't be too high");
}

#[test]
fn test_input_state_validation() {
    let input = InputState {
        sequence: u32::MAX,
        timestamp: u64::MAX,
        left: true,
        right: true,
        jump: true,
    };

    assert_eq!(input.sequence, u32::MAX);
    assert_eq!(input.timestamp, u64::MAX);
    assert!(input.left && input.right);
}

#[test]
fn jump_apex_in_whole_pixels() {
    // v^2 / 2g = 160000 / 1960, about 81.6 pixels: above a player, below half the world.
    let v2 = (JUMP_VELOCITY as i64) * (JUMP_VELOCITY as i64);
    assert_eq!(v2, 160_000);
    assert!(v2 > 2 * GRAVITY as i64 * PLAYER_SIZE as i64);
    assert!(v2 < GRAVITY as i64 * WORLD_HEIGHT as i64);
}

fn v4(ip: u128, port: u16) -> PeerAddr {
    PeerAddr { ip, port, is_ipv6: false, flowinfo: 0, scope_id: 0 }
}

fn v6(ip: u128, port: u16) -> PeerAddr {
    PeerAddr { ip, port, is_ipv6: true, flowinfo: 0, scope_id: 0 }
}

#[test]
fn loopback_addresses() {
    assert!(v4(0x7f00_0001, 8080).is_loopback());
    assert!(v4(0x7f12_3456, 1).is_loopback());
    assert!(!v4(0xc0a8_0101, 8080).is_loopback());
    assert!(!v4(0x0a00_0001, 8080).is_loopback());
    assert!(v6(1, 8080).is_loopback());
    assert!(!v6(0x7f00_0001, 8080).is_loopback());
    assert!(!v6(0, 8080).is_loopback());
}

#[test]
fn readings_before_the_epoch_count_as_zero() {
    assert_eq!(millis_or_zero(None), 0);
    assert_eq!(millis_or_zero(Some(42)), 42);
}
