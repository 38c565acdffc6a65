use netcode::client::input::{keepalive_due, InputManager, KeyStates};
use netcode::shared::InputState;
use std::time::{Duration, Instant, SystemTime, UNIX_EPOCH};

fn pause_ms(ms: u64) {
    let start = Instant::now();
    while start.elapsed() < Duration::from_millis(ms) {}
}

fn keys(left: bool, right: bool, jump: bool) -> KeyStates {
    KeyStates {
        left,
        right,
        jump,
        key_1: false,
        key_2: false,
        key_3: false,
        key_r: false,
        key_g: false,
    }
}

fn get_current_timestamp() -> u64 {
    SystemTime::now().duration_since(UNIX_EPOCH).unwrap().as_millis() as u64
}

#[test]
fn test_input_manager_creation() {
    let input_manager = InputManager::new();
    assert_eq!(input_manager.next_sequence, 1);
    assert_eq!(input_manager.current_input.sequence, 0);
    assert!(!input_manager.current_input.left);
    assert!(!input_manager.current_input.right);
    assert!(!input_manager.current_input.jump);
    assert!(!input_manager.prev_key_1);
    assert!(!input_manager.prev_key_2);
    assert!(!input_manager.prev_key_3);
    assert!(!input_manager.prev_key_r);
    assert!(!input_manager.prev_key_g);
}

#[test]
fn test_get_timestamp() {
    let timestamp1 = InputManager::get_timestamp();
    pause_ms(2);
    let timestamp2 = InputManager::get_timestamp();
    assert!(timestamp2 > timestamp1);
    assert!(timestamp2 - timestamp1 >= 1);
}

#[test]
fn test_timestamp_monotonic() {
    let timestamps: Vec<u64> = (0..10)
        .map(|_| {
            let ts = InputManager::get_timestamp();
            pause_ms(1);
            ts
        })
        .collect();

    for i in 1..timestamps.len() {
        assert!(
            timestamps[i] >= timestamps[i - 1],
            "Timestamp should be monotonic: {} >= {}",
            timestamps[i],
            timestamps[i - 1]
        );
    }
}

#[test]
fn test_default_implementation() {
    let input_manager = InputManager::default();
    assert_eq!(input_manager.next_sequence, 1);
    assert_eq!(input_manager.current_input.sequence, 0);
}

#[test]
fn test_sequence_increment() {
    let mut input_manager = InputManager::new();
    assert_eq!(input_manager.next_sequence, 1);

    input_manager.current_input = InputState {
        sequence: input_manager.next_sequence,
        timestamp: InputManager::get_timestamp(),
        left: true,
        right: false,
        jump: false,
    };
    input_manager.next_sequence += 1;

    assert_eq!(input_manager.current_input.sequence, 1);
    assert_eq!(input_manager.next_sequence, 2);
}

#[test]
fn test_input_state_consistency() {
    let input_manager = InputManager::new();
    let input_state = input_manager.get_current_input();

    assert_eq!(input_state.sequence, 0);
    assert_eq!(input_state.timestamp, 0);
    assert!(!input_state.left);
    assert!(!input_state.right);
    assert!(!input_state.jump);
}

#[test]
fn test_sequence_overflow_safety() {
    let mut input_manager = InputManager::new();
    input_manager.next_sequence = u32::MAX - 1;

    input_manager.current_input = InputState {
        sequence: input_manager.next_sequence,
        timestamp: InputManager::get_timestamp(),
        left: false,
        right: false,
        jump: false,
    };
    input_manager.next_sequence += 1;

    assert_eq!(input_manager.current_input.sequence, u32::MAX - 1);
    assert_eq!(input_manager.next_sequence, u32::MAX);

    input_manager.current_input = InputState {
        sequence: input_manager.next_sequence,
        timestamp: InputManager::get_timestamp(),
        left: false,
        right: false,
        jump: false,
    };
    input_manager.next_sequence = input_manager.next_sequence.wrapping_add(1);

    assert_eq!(input_manager.current_input.sequence, u32::MAX);
    assert_eq!(input_manager.next_sequence, 0);
}

#[test]
fn test_timestamp_validity() {
    let timestamp = InputManager::get_timestamp();
    let year_2020_ms = 1577836800000u64;
    assert!(timestamp > year_2020_ms);
    let year_2100_ms = 4102444800000u64;
    assert!(timestamp < year_2100_ms);
}

#[test]
fn test_edge_detection_state_tracking() {
    let mut input_manager = InputManager::new();

    assert!(!input_manager.prev_key_1);
    assert!(!input_manager.prev_key_2);
    assert!(!input_manager.prev_key_3);
    assert!(!input_manager.prev_key_r);
    assert!(!input_manager.prev_key_g);

    input_manager.prev_key_1 = true;
    input_manager.prev_key_2 = true;

    assert!(input_manager.prev_key_1);
    assert!(input_manager.prev_key_2);
    assert!(!input_manager.prev_key_3);
}

#[test]
fn test_input_state_cloning() {
    let input_state = InputState {
        sequence: 42,
        timestamp: 12345,
        left: true,
        right: false,
        jump: true,
    };

    let cloned = input_state.clone();

    assert_eq!(cloned.sequence, 42);
    assert_eq!(cloned.timestamp, 12345);
    assert!(cloned.left);
    assert!(!cloned.right);
    assert!(cloned.jump);
}

#[test]
fn test_timing_calculations() {
    let input_manager = InputManager::new();
    let start_time = input_manager.last_input_sent;
    let now = input_manager.clock.now_nanos();
    let elapsed = Duration::from_nanos((now - start_time) as u64);
    assert!(elapsed < Duration::from_secs(1));
}

#[test]
fn test_input_change_detection_logic() {
    let mut input_manager = InputManager::new();

    input_manager.current_input = InputState {
        sequence: 1,
        timestamp: InputManager::get_timestamp(),
        left: false,
        right: false,
        jump: false,
    };

    let left = true;
    let right = false;
    let jump = false;

    let input_changed = left != input_manager.current_input.left
        || right != input_manager.current_input.right
        || jump != input_manager.current_input.jump;

    assert!(input_changed);

    let left = false;
    let input_changed = left != input_manager.current_input.left
        || right != input_manager.current_input.right
        || jump != input_manager.current_input.jump;

    assert!(!input_changed);
}

#[test]
fn test_keepalive_timing() {
    let input_manager = InputManager::new();
    let keepalive_interval = Duration::from_millis(16);
    let elapsed = input_manager.clock.now_nanos() - input_manager.last_input_sent;
    let time_to_send = Duration::from_nanos(elapsed as u64) >= keepalive_interval;
    assert!(!time_to_send);
}

#[test]
fn test_input_state_combinations() {
    let combinations = [
        (false, false, false),
        (true, false, false),
        (false, true, false),
        (false, false, true),
        (true, true, false),
        (true, false, true),
        (false, true, true),
        (true, true, true),
    ];

    for (left, right, jump) in combinations.iter() {
        let input_state = InputState {
            sequence: 1,
            timestamp: InputManager::get_timestamp(),
            left: *left,
            right: *right,
            jump: *jump,
        };

        assert_eq!(input_state.left, *left);
        assert_eq!(input_state.right, *right);
        assert_eq!(input_state.jump, *jump);
    }
}

#[test]
fn test_toggle_state_representation() {
    let toggle_combinations = [
        (false, false, false, false, false),
        (true, false, false, false, false),
        (false, true, false, false, false),
        (false, false, true, false, false),
        (false, false, false, true, false),
        (false, false, false, false, true),
        (true, true, true, true, true),
    ];

    for (pred, recon, interp, reconnect, graph) in toggle_combinations.iter() {
        let toggles = (*pred, *recon, *interp, *reconnect, *graph);

        assert_eq!(toggles.0, *pred);
        assert_eq!(toggles.1, *recon);
        assert_eq!(toggles.2, *interp);
        assert_eq!(toggles.3, *reconnect);
        assert_eq!(toggles.4, *graph);
    }
}

#[test]
fn input_timing_integration() {
    let input1 = InputState {
        sequence: 1,
        timestamp: get_current_timestamp(),
        left: true,
        right: false,
        jump: false,
    };

    pause_ms(2);

    let input2 = InputState {
        sequence: 2,
        timestamp: get_current_timestamp(),
        left: false,
        right: true,
        jump: false,
    };

    assert!(input2.timestamp > input1.timestamp);
    assert!(input2.sequence > input1.sequence);
}

#[test]
fn update_with_sends_on_change_and_numbers_inputs() {
    let mut manager = InputManager::new();
    let now = manager.clock.now_nanos();

    let (toggles, sent) = manager.update_with(keys(true, false, false), false, 500, now);
    assert_eq!(toggles, (false, false, false, false, false));
    assert_eq!(
        sent,
        Some(InputState { sequence: 1, timestamp: 500, left: true, right: false, jump: false })
    );
    assert_eq!(manager.next_sequence, 2);
    assert_eq!(manager.last_input_sent, now);

    // Same keys, keep-alive not due: nothing is sent and nothing moves.
    let (_, sent) = manager.update_with(keys(true, false, false), false, 600, manager.clock.now_nanos());
    assert_eq!(sent, None);
    assert_eq!(manager.next_sequence, 2);
    assert_eq!(manager.current_input.timestamp, 500);
    assert_eq!(manager.last_input_sent, now);

    // Same keys, keep-alive due: the input is sent again under a new number.
    let (_, sent) = manager.update_with(keys(true, false, false), true, 700, now);
    assert_eq!(sent.map(|x| (x.sequence, x.timestamp)), Some((2, 700)));
    assert_eq!(manager.next_sequence, 3);
}

#[test]
fn update_with_fires_control_events_on_press_only() {
    let mut manager = InputManager::new();
    let mut held = keys(false, false, false);
    held.key_1 = true;
    held.key_g = true;

    let (toggles, _) = manager.update_with(held, false, 1, manager.clock.now_nanos());
    assert_eq!(toggles, (true, false, false, false, true));
    assert!(manager.prev_key_1 && manager.prev_key_g);

    // Still held on the next frame: no new event.
    let (toggles, _) = manager.update_with(held, false, 2, manager.clock.now_nanos());
    assert_eq!(toggles, (false, false, false, false, false));

    // Released, then pressed again: fires again.
    manager.update_with(keys(false, false, false), false, 3, manager.clock.now_nanos());
    let mut again = keys(false, false, false);
    again.key_r = true;
    again.key_1 = true;
    let (toggles, _) = manager.update_with(again, false, 4, manager.clock.now_nanos());
    assert_eq!(toggles, (true, false, false, true, false));
}

#[test]
fn update_sends_first_change_with_next_sequence() {
    let mut manager = InputManager::new();
    let (_, sent) = manager.update(keys(false, true, true));
    let sent = sent.expect("a change of keys is sent");
    assert_eq!(sent.sequence, 1);
    assert!(!sent.left && sent.right && sent.jump);
    assert_eq!(manager.next_sequence, 2);
    assert_eq!(*manager.get_current_input(), sent);
}

#[test]
fn sequence_counter_wraps_after_the_largest_number() {
    let mut manager = InputManager::new();
    manager.next_sequence = u32::MAX;
    let (_, sent) = manager.update_with(keys(true, false, false), false, 7, manager.clock.now_nanos());
    assert_eq!(sent.map(|x| x.sequence), Some(u32::MAX));
    assert_eq!(manager.next_sequence, 0);
    let (_, sent) = manager.update_with(keys(false, false, false), false, 8, manager.clock.now_nanos());
    assert_eq!(sent.map(|x| x.sequence), Some(0));
    assert_eq!(manager.next_sequence, 1);
}

#[test]
fn keepalive_is_due_from_sixteen_milliseconds() {
    assert!(!keepalive_due(15_999_999));
    assert!(keepalive_due(16_000_000));
    assert!(keepalive_due(u128::MAX));
}

#[test]
fn keepalive_is_measured_from_the_last_send() {
    let mut manager = InputManager::new();
    manager.last_input_sent = manager.clock.now_nanos() - 20_000_000;
    let (_, sent) = manager.update(keys(false, false, false));
    assert_eq!(sent.map(|x| x.sequence), Some(1));
    let (_, sent) = manager.update(keys(false, false, false));
    assert_eq!(sent, None);
}
