use netcode::server::client_manager::{Client, ClientManager};
use netcode::shared::{InputState, PeerAddr};
use netcode::clock::READING_BASE;
use std::time::{Duration, Instant};

fn ipv4(a: u8, b: u8, c: u8, d: u8, port: u16) -> PeerAddr {
    let ip = ((a as u128) << 24) | ((b as u128) << 16) | ((c as u128) << 8) | (d as u128);
    PeerAddr { ip, port, is_ipv6: false, flowinfo: 0, scope_id: 0 }
}

fn test_addr() -> PeerAddr {
    ipv4(127, 0, 0, 1, 8080)
}

fn input(sequence: u32, timestamp: u64, left: bool, right: bool, jump: bool) -> InputState {
    InputState { sequence, timestamp, left, right, jump }
}

#[test]
fn test_client_creation() {
    let addr = test_addr();
    let client = Client::new(1, addr);
    assert_eq!(client.id, 1);
    assert_eq!(client.addr, addr);
    assert_eq!(client.last_processed_input, 0);
    assert!(client.pending_inputs.is_empty());
}

#[test]
fn test_add_client() {
    let mut manager = ClientManager::new(2);
    let addr = test_addr();

    let client_id = manager.add_client(addr).unwrap();
    assert_eq!(client_id, 1);
    assert_eq!(manager.len(), 1);
}

#[test]
fn test_client_capacity() {
    let mut manager = ClientManager::new(1);
    let addr1 = ipv4(127, 0, 0, 1, 8080);
    let addr2 = ipv4(127, 0, 0, 1, 8081);

    assert!(manager.add_client(addr1).is_some());
    assert!(manager.add_client(addr2).is_none());
}

#[test]
fn test_chronological_inputs() {
    let mut manager = ClientManager::new(2);
    let addr1 = ipv4(127, 0, 0, 1, 8080);
    let addr2 = ipv4(127, 0, 0, 1, 8081);

    let client_id1 = manager.add_client(addr1).unwrap();
    let client_id2 = manager.add_client(addr2).unwrap();

    let input1 = input(1, 100, true, false, false);
    let input2 = input(1, 50, false, true, false);

    manager.add_input(client_id1, input1);
    manager.add_input(client_id2, input2);

    let chronological = manager.get_chronological_inputs();
    assert_eq!(chronological.len(), 2);
    assert_eq!(chronological[0].1.timestamp, 50);
    assert_eq!(chronological[1].1.timestamp, 100);
}

#[test]
fn test_client_timeout_detection() {
    let addr = test_addr();
    let mut client = Client::new(1, addr);

    assert!(!client.is_timed_out(Duration::from_secs(1)));

    client.last_seen = client.clock.now_nanos() - 2_000_000_000;
    assert!(client.is_timed_out(Duration::from_secs(1)));
}

#[test]
fn test_input_sequencing() {
    let addr = test_addr();
    let mut client = Client::new(1, addr);

    let input3 = input(3, 300, true, false, false);
    let input1 = input(1, 100, false, true, false);
    let input2 = input(2, 200, false, false, true);

    client.add_input(input3);
    client.add_input(input1);
    client.add_input(input2);

    assert_eq!(client.pending_inputs.len(), 3);
    assert_eq!(client.pending_inputs[0].sequence, 1);
    assert_eq!(client.pending_inputs[1].sequence, 2);
    assert_eq!(client.pending_inputs[2].sequence, 3);
}

#[test]
fn test_find_client_by_addr() {
    let mut manager = ClientManager::new(5);
    let addr1 = ipv4(127, 0, 0, 1, 8080);
    let addr2 = ipv4(127, 0, 0, 1, 8081);

    let client_id1 = manager.add_client(addr1).unwrap();
    let client_id2 = manager.add_client(addr2).unwrap();

    assert_eq!(manager.find_client_by_addr(addr1), Some(client_id1));
    assert_eq!(manager.find_client_by_addr(addr2), Some(client_id2));

    let unknown_addr = ipv4(192, 168, 1, 1, 9999);
    assert_eq!(manager.find_client_by_addr(unknown_addr), None);
}

#[test]
fn test_add_input_to_nonexistent_client() {
    let mut manager = ClientManager::new(5);
    let input = input(1, 100, true, false, false);
    assert!(!manager.add_input(999, input));
}

#[test]
fn test_input_processing_with_gaps() {
    let mut manager = ClientManager::new(5);
    let addr = test_addr();
    let client_id = manager.add_client(addr).unwrap();

    manager.add_input(client_id, input(1, 100, true, false, false));
    manager.add_input(client_id, input(3, 300, false, true, false));
    manager.add_input(client_id, input(5, 500, false, false, true));

    let chronological = manager.get_chronological_inputs();
    assert_eq!(chronological.len(), 3);

    manager.mark_input_processed(client_id, 3);

    let chronological = manager.get_chronological_inputs();
    assert_eq!(chronological.len(), 1);
    assert_eq!(chronological[0].1.sequence, 5);
}

#[test]
fn test_cleanup_processed_inputs() {
    let mut manager = ClientManager::new(5);
    let addr = test_addr();
    let client_id = manager.add_client(addr).unwrap();

    for i in 1..=10u32 {
        let entry = input(i, i as u64 * 100, i % 2 == 0, i % 3 == 0, i % 5 == 0);
        manager.add_input(client_id, entry);
    }

    manager.mark_input_processed(client_id, 5);
    manager.cleanup_processed_inputs();

    let chronological = manager.get_chronological_inputs();
    assert_eq!(chronological.len(), 5);
    assert_eq!(chronological[0].1.sequence, 6);
    assert_eq!(chronological[4].1.sequence, 10);
}

#[test]
fn test_last_processed_inputs_tracking() {
    let mut manager = ClientManager::new(5);
    let addr1 = ipv4(127, 0, 0, 1, 8080);
    let addr2 = ipv4(127, 0, 0, 1, 8081);

    let client_id1 = manager.add_client(addr1).unwrap();
    let client_id2 = manager.add_client(addr2).unwrap();

    manager.mark_input_processed(client_id1, 10);
    manager.mark_input_processed(client_id2, 15);

    let last_processed = manager.get_last_processed_inputs();
    assert_eq!(last_processed.get(&client_id1), Some(&10));
    assert_eq!(last_processed.get(&client_id2), Some(&15));

    manager.mark_input_processed(client_id1, 5);
    let last_processed = manager.get_last_processed_inputs();
    assert_eq!(last_processed.get(&client_id1), Some(&10));
}

#[test]
fn test_client_addrs_retrieval() {
    let mut manager = ClientManager::new(5);
    let addr1 = ipv4(127, 0, 0, 1, 8080);
    let addr2 = ipv4(192, 168, 1, 1, 9999);

    let client_id1 = manager.add_client(addr1).unwrap();
    let client_id2 = manager.add_client(addr2).unwrap();

    let addrs = manager.get_client_addrs();
    assert_eq!(addrs.len(), 2);

    let addr_map: std::collections::HashMap<u32, PeerAddr> = addrs.into_iter().collect();
    assert_eq!(addr_map.get(&client_id1), Some(&addr1));
    assert_eq!(addr_map.get(&client_id2), Some(&addr2));
}

#[test]
fn test_timeout_checking_and_removal() {
    let mut manager = ClientManager::new(5);
    let addr1 = ipv4(127, 0, 0, 1, 8080);
    let addr2 = ipv4(127, 0, 0, 1, 8081);

    let client_id1 = manager.add_client(addr1).unwrap();
    let client_id2 = manager.add_client(addr2).unwrap();

    // Ten seconds before the client's clock was made.
    assert!(manager.set_last_seen(client_id1, READING_BASE - 10_000_000_000));

    let timed_out = manager.check_timeouts();
    assert_eq!(timed_out.len(), 1);
    assert_eq!(timed_out[0], client_id1);

    assert_eq!(manager.len(), 1);
    let ids: Vec<u32> = manager.get_client_addrs().into_iter().map(|(id, _)| id).collect();
    assert!(!ids.contains(&client_id1));
    assert!(ids.contains(&client_id2));
}

#[test]
fn test_chronological_ordering_across_clients() {
    let mut manager = ClientManager::new(5);
    let addr1 = ipv4(127, 0, 0, 1, 8080);
    let addr2 = ipv4(127, 0, 0, 1, 8081);

    let client_id1 = manager.add_client(addr1).unwrap();
    let client_id2 = manager.add_client(addr2).unwrap();

    manager.add_input(client_id1, input(1, 100, true, false, false));
    manager.add_input(client_id1, input(2, 300, false, true, false));
    manager.add_input(client_id2, input(1, 200, false, false, true));

    let chronological = manager.get_chronological_inputs();
    assert_eq!(chronological.len(), 3);

    assert_eq!(chronological[0].1.timestamp, 100);
    assert_eq!(chronological[0].0, client_id1);

    assert_eq!(chronological[1].1.timestamp, 200);
    assert_eq!(chronological[1].0, client_id2);

    assert_eq!(chronological[2].1.timestamp, 300);
    assert_eq!(chronological[2].0, client_id1);
}

#[test]
fn test_client_manager_edge_cases() {
    let mut manager = ClientManager::new(0);
    let addr = test_addr();

    assert!(manager.add_client(addr).is_none());
    assert!(manager.is_empty());

    assert!(!manager.remove_client(&999));
}

#[test]
fn test_input_timestamp_ordering_stability() {
    let mut manager = ClientManager::new(5);
    let addr = test_addr();
    let client_id = manager.add_client(addr).unwrap();

    manager.add_input(client_id, input(1, 100, true, false, false));
    manager.add_input(client_id, input(2, 100, false, true, false));
    manager.add_input(client_id, input(3, 100, false, false, true));

    let chronological = manager.get_chronological_inputs();
    assert_eq!(chronological.len(), 3);

    for entry in &chronological {
        assert_eq!(entry.1.timestamp, 100);
    }
}

#[test]
fn test_client_id_generation() {
    let mut manager = ClientManager::new(5);
    let addr = test_addr();

    let id1 = manager.add_client(addr).unwrap();
    let id2 = manager.add_client(addr).unwrap();
    let id3 = manager.add_client(addr).unwrap();

    assert_eq!(id1, 1);
    assert_eq!(id2, 2);
    assert_eq!(id3, 3);

    manager.remove_client(&id2);
    let id4 = manager.add_client(addr).unwrap();
    assert_eq!(id4, 4);
}

#[test]
fn benchmark_server_input_processing() {
    let mut client_manager = ClientManager::new(50);

    for i in 1..=10u32 {
        let addr = ipv4(127, 0, 0, 1, 8000 + i as u16);
        client_manager.add_client(addr);

        for j in 1..=100u32 {
            let entry = input(j, j as u64 * 16, j % 2 == 0, j % 3 == 0, j % 5 == 0);
            client_manager.add_input(i, entry);
        }
    }

    let start = Instant::now();
    let chronological_inputs = client_manager.get_chronological_inputs();
    let duration = start.elapsed();
    println!(
        "Input processing: {} inputs processed in {:?}",
        chronological_inputs.len(),
        duration
    );

    assert!(duration.as_millis() < 10);
}

// Equal timestamps keep collection order: client by client in increasing id,
// each client's queue in sequence order.
#[test]
fn chronological_ties_follow_client_then_queue_order() {
    let mut manager = ClientManager::new(5);
    let id1 = manager.add_client(ipv4(10, 0, 0, 1, 1000)).unwrap();
    let id2 = manager.add_client(ipv4(10, 0, 0, 2, 1000)).unwrap();

    manager.add_input(id2, input(7, 100, true, false, false));
    manager.add_input(id1, input(9, 100, false, true, false));
    manager.add_input(id1, input(8, 100, false, false, true));

    let chronological = manager.get_chronological_inputs();
    let order: Vec<(u32, u32)> = chronological.iter().map(|(id, x)| (*id, x.sequence)).collect();
    assert_eq!(order, vec![(id1, 8), (id1, 9), (id2, 7)]);
}

#[test]
fn cleanup_keeps_what_chronological_listed() {
    let mut manager = ClientManager::new(3);
    let id = manager.add_client(test_addr()).unwrap();
    for i in 1..=6u32 {
        manager.add_input(id, input(i, 1000 - i as u64, false, false, false));
    }
    manager.mark_input_processed(id, 2);
    let before = manager.get_chronological_inputs();
    manager.cleanup_processed_inputs();
    let after = manager.get_chronological_inputs();
    assert_eq!(before, after);
    assert_eq!(after.len(), 4);
    assert_eq!(after[0].1.sequence, 6);
    assert_eq!(after[3].1.sequence, 3);
}

#[test]
fn removed_ids_are_never_reused() {
    let mut manager = ClientManager::new(2);
    let a = manager.add_client(test_addr()).unwrap();
    let b = manager.add_client(test_addr()).unwrap();
    assert!(manager.add_client(test_addr()).is_none());
    assert!(manager.remove_client(&a));
    assert!(!manager.remove_client(&a));
    let c = manager.add_client(test_addr()).unwrap();
    assert_eq!((a, b, c), (1, 2, 3));
    let ids: Vec<u32> = manager.get_client_addrs().into_iter().map(|(id, _)| id).collect();
    assert_eq!(ids, vec![2, 3]);
}

#[test]
fn find_client_by_addr_prefers_smallest_id() {
    let mut manager = ClientManager::new(4);
    let shared = ipv4(127, 0, 0, 1, 5000);
    manager.add_client(ipv4(127, 0, 0, 1, 4000)).unwrap();
    let second = manager.add_client(shared).unwrap();
    manager.add_client(shared).unwrap();
    assert_eq!(manager.find_client_by_addr(shared), Some(second));
}

#[test]
fn mark_input_processed_on_unknown_client_changes_nothing() {
    let mut manager = ClientManager::new(2);
    let id = manager.add_client(test_addr()).unwrap();
    manager.mark_input_processed(77, 40);
    let last = manager.get_last_processed_inputs();
    assert_eq!(last.len(), 1);
    assert_eq!(last.get(&id), Some(&0));
}

#[test]
fn fresh_clients_are_not_timed_out() {
    let mut manager = ClientManager::new(2);
    manager.add_client(test_addr()).unwrap();
    assert!(manager.check_timeouts().is_empty());
    assert_eq!(manager.len(), 1);
}

#[test]
fn each_clients_inputs_come_out_in_sequence_order() {
    let mut manager = ClientManager::new(3);
    let a = manager.add_client(ipv4(10, 0, 0, 1, 1)).unwrap();
    let b = manager.add_client(ipv4(10, 0, 0, 2, 1)).unwrap();
    // Out-of-order arrival; timestamps rise with sequence numbers.
    for (seq, ts) in [(3u32, 30u64), (1, 10), (4, 40), (2, 20)] {
        manager.add_input(a, input(seq, ts, false, false, false));
    }
    for (seq, ts) in [(2u32, 25u64), (1, 15), (3, 35)] {
        manager.add_input(b, input(seq, ts, false, false, false));
    }
    let chronological = manager.get_chronological_inputs();
    let of = |id: u32| -> Vec<u32> {
        chronological.iter().filter(|e| e.0 == id).map(|e| e.1.sequence).collect()
    };
    assert_eq!(of(a), vec![1, 2, 3, 4]);
    assert_eq!(of(b), vec![1, 2, 3]);
    let stamps: Vec<u64> = chronological.iter().map(|e| e.1.timestamp).collect();
    assert_eq!(stamps, vec![10, 15, 20, 25, 30, 35, 40]);
}

#[test]
fn timeouts_drop_exactly_the_clients_silent_over_five_seconds() {
    let mut manager = ClientManager::new(4);
    let a = manager.add_client(ipv4(10, 0, 0, 1, 1)).unwrap();
    let b = manager.add_client(ipv4(10, 0, 0, 2, 1)).unwrap();
    let c = manager.add_client(ipv4(10, 0, 0, 3, 1)).unwrap();
    let silences = vec![5_000_000_001u128, 5_000_000_000, 9_000_000_000];
    let timed_out = manager.check_timeouts_at(&silences);
    assert_eq!(timed_out, vec![a, c]);
    let ids: Vec<u32> = manager.get_client_addrs().into_iter().map(|(id, _)| id).collect();
    assert_eq!(ids, vec![b]);
}

#[test]
fn client_timeout_compares_silence_with_limit() {
    let client = Client::new(1, test_addr());
    assert!(!client.is_timed_out_after(1_000_000_000, 1_000_000_000));
    assert!(client.is_timed_out_after(1_000_000_001, 1_000_000_000));
    assert!(!client.is_timed_out_after(0, 0));
}

#[test]
fn input_records_when_client_was_seen() {
    let mut client = Client::new(1, test_addr());
    let at = client.clock.now_nanos() - 30_000_000_000;
    client.add_input_at(input(2, 20, true, false, false), at);
    client.add_input_at(input(1, 10, false, true, false), at);
    assert_eq!(client.last_seen, at);
    let seqs: Vec<u32> = client.pending_inputs.iter().map(|x| x.sequence).collect();
    assert_eq!(seqs, vec![1, 2]);
    assert!(client.is_timed_out(Duration::from_secs(5)));
}

#[test]
fn processing_every_handed_out_input_empties_the_queues() {
    let mut manager = ClientManager::new(3);
    let a = manager.add_client(ipv4(10, 0, 0, 1, 1)).unwrap();
    let b = manager.add_client(ipv4(10, 0, 0, 2, 1)).unwrap();
    for (id, seq, ts) in [(a, 4u32, 40u64), (b, 2, 5), (a, 1, 90), (b, 7, 70), (a, 3, 10)] {
        manager.add_input(id, input(seq, ts, false, false, false));
    }
    manager.mark_input_processed(a, 1);
    let handed_out = manager.get_chronological_inputs();
    assert_eq!(handed_out.len(), 4);
    for (id, x) in &handed_out {
        manager.mark_input_processed(*id, x.sequence);
    }
    manager.cleanup_processed_inputs();
    assert!(manager.get_chronological_inputs().is_empty());
    let last = manager.get_last_processed_inputs();
    assert_eq!(last.get(&a), Some(&4));
    assert_eq!(last.get(&b), Some(&7));
}
