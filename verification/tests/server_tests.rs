use netcode::server::client::Client as Connection;
use netcode::server::client_manager::ClientManager;
use netcode::server::entity::EntityType;
use netcode::server::network::{
    game_state_packet, handle_packet, plan_substep_inputs, ServerAction, INPUT_BATCH_SIZE,
};
use netcode::server::packets::InputState as EntityInput;
use netcode::server::utils::{generate_color, get_timestamp, truncate_millis};
use netcode::shared::{InputState, Packet, PeerAddr};
use netcode::sorting::stable_sort_by_key;
use std::time::{Duration, Instant};

fn addr(last: u8, port: u16) -> PeerAddr {
    PeerAddr { ip: 0x0a00_0000 | last as u128, port, is_ipv6: false, flowinfo: 0, scope_id: 0 }
}

fn connect() -> Packet<()> {
    Packet::Connect { client_version: 1 }
}

fn describe(actions: &[ServerAction]) -> Vec<String> {
    actions
        .iter()
        .map(|a| match a {
            ServerAction::RemovePlayer { client_id } => format!("remove {}", client_id),
            ServerAction::AddPlayer { client_id } => format!("add {}", client_id),
            ServerAction::SendConnected { addr, client_id } => {
                format!("connected {} to {}", client_id, addr.port)
            }
            ServerAction::SendDisconnected { addr, reason } => {
                format!("disconnected {}: {}", addr.port, reason)
            }
        })
        .collect()
}

#[test]
fn stress_test_many_inputs() {
    let inputs: Vec<(u32, InputState)> = (0..1000u32)
        .map(|i| {
            (
                0,
                InputState {
                    sequence: i,
                    timestamp: i as u64 * 16,
                    left: i % 3 == 0,
                    right: i % 3 == 1,
                    jump: i % 7 == 0,
                },
            )
        })
        .collect();

    let start = Instant::now();
    let sorted_inputs = stable_sort_by_key(&inputs);
    for i in 1..sorted_inputs.len() {
        assert!(sorted_inputs[i].1.timestamp >= sorted_inputs[i - 1].1.timestamp);
    }
    let duration = start.elapsed();
    println!("Input processing: {} inputs in {:?}", inputs.len(), duration);
    assert!(duration.as_millis() < 100);
}

#[test]
fn stable_sort_keeps_order_of_equal_keys() {
    let entry = |seq: u32, ts: u64| {
        (seq, InputState { sequence: seq, timestamp: ts, left: false, right: false, jump: false })
    };
    let v = vec![entry(1, 30), entry(2, 10), entry(3, 30), entry(4, 20), entry(5, 10)];
    let sorted = stable_sort_by_key(&v);
    let order: Vec<u32> = sorted.iter().map(|e| e.0).collect();
    assert_eq!(order, vec![2, 5, 4, 1, 3]);
}

#[test]
fn connect_admits_and_spawns() {
    let mut clients = ClientManager::new(2);
    let actions = handle_packet(&mut clients, connect(), addr(1, 7000));
    assert_eq!(describe(&actions), vec!["add 1", "connected 1 to 7000"]);
    assert_eq!(clients.find_client_by_addr(addr(1, 7000)), Some(1));
}

#[test]
fn reconnect_from_same_address_replaces_client() {
    let mut clients = ClientManager::new(2);
    handle_packet(&mut clients, connect(), addr(1, 7000));
    let actions = handle_packet(&mut clients, connect(), addr(1, 7000));
    assert_eq!(describe(&actions), vec!["remove 1", "add 2", "connected 2 to 7000"]);
    assert_eq!(clients.len(), 1);
    assert_eq!(clients.find_client_by_addr(addr(1, 7000)), Some(2));
}

#[test]
fn connect_when_full_is_refused() {
    let mut clients = ClientManager::new(1);
    handle_packet(&mut clients, connect(), addr(1, 7000));
    let actions = handle_packet(&mut clients, connect(), addr(2, 7001));
    assert_eq!(describe(&actions), vec!["disconnected 7001: Server full"]);
    assert_eq!(clients.len(), 1);
    assert_eq!(clients.find_client_by_addr(addr(2, 7001)), None);
}

#[test]
fn input_is_queued_for_its_sender() {
    let mut clients = ClientManager::new(4);
    handle_packet(&mut clients, connect(), addr(1, 7000));
    handle_packet(&mut clients, connect(), addr(2, 7000));
    let input: Packet<()> =
        Packet::Input { sequence: 3, timestamp: 99, left: true, right: false, jump: true };
    let actions = handle_packet(&mut clients, input, addr(2, 7000));
    assert!(actions.is_empty());
    let queued = clients.get_chronological_inputs();
    assert_eq!(queued.len(), 1);
    assert_eq!(queued[0].0, 2);
    assert_eq!(
        queued[0].1,
        InputState { sequence: 3, timestamp: 99, left: true, right: false, jump: true }
    );

    // From an unknown address nothing is queued.
    let stray: Packet<()> =
        Packet::Input { sequence: 4, timestamp: 100, left: false, right: false, jump: false };
    assert!(handle_packet(&mut clients, stray, addr(9, 7000)).is_empty());
    assert_eq!(clients.get_chronological_inputs().len(), 1);
}

#[test]
fn disconnect_removes_client_and_player() {
    let mut clients = ClientManager::new(4);
    handle_packet(&mut clients, connect(), addr(1, 7000));
    handle_packet(&mut clients, connect(), addr(2, 7000));
    let actions = handle_packet(&mut clients, Packet::<()>::Disconnect, addr(1, 7000));
    assert_eq!(describe(&actions), vec!["remove 1"]);
    assert_eq!(clients.len(), 1);
    let again = handle_packet(&mut clients, Packet::<()>::Disconnect, addr(1, 7000));
    assert!(again.is_empty());
}

#[test]
fn server_bound_packets_are_ignored() {
    let mut clients = ClientManager::new(4);
    handle_packet(&mut clients, connect(), addr(1, 7000));
    let packet: Packet<()> = Packet::Connected { client_id: 5 };
    assert!(handle_packet(&mut clients, packet, addr(1, 7000)).is_empty());
    let packet: Packet<()> = Packet::Disconnected { reason: "bye".to_string() };
    assert!(handle_packet(&mut clients, packet, addr(1, 7000)).is_empty());
    assert_eq!(clients.len(), 1);
}

#[test]
fn substep_plan_splits_evenly() {
    assert_eq!(plan_substep_inputs(120, 3), vec![40, 40, 40]);
    assert_eq!(plan_substep_inputs(10, 3), vec![3, 3, 4]);
}

#[test]
fn substep_plan_caps_all_but_last() {
    assert_eq!(plan_substep_inputs(200, 2), vec![INPUT_BATCH_SIZE, 150]);
}

#[test]
fn substep_plan_with_fewer_inputs_than_substeps() {
    assert_eq!(plan_substep_inputs(5, 3), vec![1, 1, 3]);
    assert_eq!(plan_substep_inputs(2, 3), vec![2, 0, 0]);
    assert_eq!(plan_substep_inputs(0, 2), vec![0, 0]);
    assert_eq!(plan_substep_inputs(0, 0), Vec::<usize>::new());
}

#[test]
fn colors_cycle_from_client_one() {
    assert_eq!(generate_color(1), "blue");
    assert_eq!(generate_color(2), "red");
    assert_eq!(generate_color(8), "yellow");
    assert_eq!(generate_color(9), "blue");
    assert_eq!(generate_color(12), "purple");
}

#[test]
fn server_timestamp_is_recent() {
    let t = get_timestamp();
    assert!(t > 1577836800000u64);
    assert!(t < 4102444800000u64);
}

#[test]
fn entity_kind() {
    assert!(matches!(EntityType::Player, EntityType::Player));
}

#[test]
fn connection_processes_to_highest_sequence() {
    let (tx, _rx) = tokio::sync::mpsc::channel(4);
    let mut c: Connection<(i32, i32)> = Connection::new(3, addr(1, 9000), 7, tx);
    assert_eq!((c.id, c.entity_id, c.last_processed_input), (3, 7, 0));
    assert_eq!(c.process_inputs(), 0);
    for seq in [4u32, 9, 2] {
        c.add_input(EntityInput { client_id: 3, sequence: seq, timestamp: 10, input_vector: (1, 0) });
    }
    assert_eq!(c.input_buffer.len(), 3);
    assert_eq!(c.process_inputs(), 9);
    assert_eq!(c.last_processed_input, 9);
    assert!(c.input_buffer.is_empty());
    assert_eq!(c.process_inputs(), 9);
}

#[test]
fn connection_timeout() {
    let (tx, _rx) = tokio::sync::mpsc::channel(4);
    let mut c: Connection<()> = Connection::new(1, addr(1, 9000), 1, tx);
    assert!(!c.is_timed_out(Duration::from_secs(1)));
    c.last_seen = c.clock.now_nanos() - 3_000_000_000;
    assert!(c.is_timed_out(Duration::from_secs(1)));
    c.refresh_last_seen();
    assert!(!c.is_timed_out(Duration::from_secs(1)));
}

#[test]
fn game_state_packet_only_with_clients() {
    let mut clients = ClientManager::new(4);
    assert!(game_state_packet(&clients, 3, 1000, vec!['a']).is_none());
    let id = clients.add_client(addr(1, 7000)).unwrap();
    clients.mark_input_processed(id, 12);
    match game_state_packet(&clients, 3, u128::MAX, vec!['a', 'b']) {
        Some(Packet::GameState { tick, timestamp, last_processed_input, players }) => {
            assert_eq!(tick, 3);
            assert_eq!(timestamp, u64::MAX);
            assert_eq!(last_processed_input.get(&id), Some(&12));
            assert_eq!(last_processed_input.len(), 1);
            assert_eq!(players, vec!['a', 'b']);
        }
        other => panic!("unexpected {:?}", other),
    }
    match game_state_packet(&clients, 4, 1234, Vec::<char>::new()) {
        Some(Packet::GameState { timestamp, .. }) => assert_eq!(timestamp, 1234),
        other => panic!("unexpected {:?}", other),
    }
}

#[test]
fn connection_refresh_sets_last_seen() {
    let (tx, _rx) = tokio::sync::mpsc::channel(4);
    let mut c: Connection<()> = Connection::new(1, addr(1, 9000), 1, tx);
    let at = c.clock.now_nanos() - 60_000_000_000;
    c.refresh_last_seen_at(at);
    assert_eq!(c.last_seen, at);
    assert!(c.is_timed_out(Duration::from_secs(5)));
    assert!(c.is_timed_out_after(6, 5));
    assert!(!c.is_timed_out_after(5, 5));
}

#[test]
fn stamps_truncate_to_64_bits() {
    assert_eq!(truncate_millis(1234), 1234);
    assert_eq!(truncate_millis((1u128 << 64) + 5), 5);
    assert_eq!(truncate_millis(u64::MAX as u128), u64::MAX);
}
