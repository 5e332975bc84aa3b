use container_stats::registry::{Registration, Registry};

#[test]
fn new_registry_is_empty() {
    let registry = Registry::new();
    assert!(registry.is_empty());
    assert_eq!(registry.len(), 0);
    assert_eq!(registry.peers(), Vec::<u64>::new());
    assert!(!registry.contains(0));
}

#[test]
fn first_registration_starts_the_loop() {
    let mut registry = Registry::new();
    assert_eq!(registry.register(), Some(Registration { peer_id: 0, start_loop: true }));
    assert_eq!(registry.register(), Some(Registration { peer_id: 1, start_loop: false }));
    assert_eq!(registry.register(), Some(Registration { peer_id: 2, start_loop: false }));
    assert_eq!(registry.peers(), vec![0, 1, 2]);
    assert_eq!(registry.len(), 3);
    assert!(!registry.is_empty());
    assert!(registry.contains(1));
    assert!(!registry.contains(3));
}

#[test]
fn failed_observer_is_pruned_and_registry_stays_occupied() {
    let mut registry = Registry::new();
    let failing = registry.register().unwrap().peer_id;
    let healthy = registry.register().unwrap().peer_id;
    let still_occupied = registry.complete_broadcast(&vec![failing]);
    assert!(still_occupied);
    assert_eq!(registry.peers(), vec![healthy]);
    assert!(!registry.contains(failing));
    assert!(registry.contains(healthy));
}

#[test]
fn broadcast_without_failures_keeps_everyone() {
    let mut registry = Registry::new();
    registry.register();
    registry.register();
    assert!(registry.complete_broadcast(&Vec::new()));
    assert_eq!(registry.peers(), vec![0, 1]);
}

#[test]
fn broadcast_that_fails_everywhere_empties_the_registry() {
    let mut registry = Registry::new();
    registry.register();
    registry.register();
    assert!(!registry.complete_broadcast(&vec![1, 0]));
    assert!(registry.is_empty());
}

#[test]
fn broadcast_on_empty_registry_reports_empty() {
    let mut registry = Registry::new();
    assert!(!registry.complete_broadcast(&Vec::new()));
    assert!(!registry.complete_broadcast(&vec![4]));
}

#[test]
fn unknown_and_repeated_failures_are_passed_over() {
    let mut registry = Registry::new();
    registry.register();
    registry.register();
    registry.register();
    assert!(registry.complete_broadcast(&vec![7, 1, 1, 9]));
    assert_eq!(registry.peers(), vec![0, 2]);
}

#[test]
fn disconnect_removes_the_peer() {
    let mut registry = Registry::new();
    registry.register();
    registry.register();
    assert!(registry.disconnect(0));
    assert_eq!(registry.peers(), vec![1]);
    assert!(!registry.disconnect(0));
    assert!(!registry.disconnect(5));
    assert_eq!(registry.peers(), vec![1]);
    assert!(registry.disconnect(1));
    assert!(registry.is_empty());
}

#[test]
fn identifiers_are_never_reused() {
    let mut registry = Registry::new();
    let a = registry.register().unwrap();
    assert!(registry.disconnect(a.peer_id));
    let b = registry.register().unwrap();
    assert_ne!(a.peer_id, b.peer_id);
    assert_eq!(b, Registration { peer_id: 1, start_loop: true });
    assert!(!registry.complete_broadcast(&vec![b.peer_id]));
    let c = registry.register().unwrap();
    assert_eq!(c, Registration { peer_id: 2, start_loop: true });
}

#[test]
fn loop_restarts_after_registry_ran_empty() {
    let mut registry = Registry::new();
    let first = registry.register().unwrap();
    assert!(first.start_loop);
    assert!(!registry.complete_broadcast(&vec![first.peer_id]));
    let second = registry.register().unwrap();
    assert!(second.start_loop);
    let third = registry.register().unwrap();
    assert!(!third.start_loop);
}

#[test]
fn one_loop_over_a_long_run_of_events() {
    let mut registry = Registry::new();
    let mut loops: u32 = 0;
    let mut starts: u32 = 0;
    let mut stops: u32 = 0;
    let mut seed: u64 = 0x2545F4914F6CDD1D;
    for _ in 0..5000 {
        seed ^= seed << 13;
        seed ^= seed >> 7;
        seed ^= seed << 17;
        let peers = registry.peers();
        match seed % 4 {
            0 | 1 => {
                if peers.is_empty() && loops > 0 {
                    assert!(!registry.complete_broadcast(&Vec::new()));
                    loops -= 1;
                    stops += 1;
                }
                let was_empty = registry.is_empty();
                let registration = registry.register().unwrap();
                assert_eq!(registration.start_loop, was_empty);
                if registration.start_loop {
                    loops += 1;
                    starts += 1;
                }
            }
            2 => {
                if !peers.is_empty() {
                    let gone = peers[(seed >> 8) as usize % peers.len()];
                    assert!(registry.disconnect(gone));
                }
            }
            _ => {
                if loops > 0 {
                    let mut failed = Vec::new();
                    for (k, peer) in peers.iter().enumerate() {
                        if (seed >> (8 + k % 40)) & 1 == 1 {
                            failed.push(*peer);
                        }
                    }
                    let still_occupied = registry.complete_broadcast(&failed);
                    assert_eq!(still_occupied, !registry.is_empty());
                    if !still_occupied {
                        loops -= 1;
                        stops += 1;
                    }
                }
            }
        }
        assert!(loops <= 1);
        if !registry.is_empty() {
            assert_eq!(loops, 1);
        }
        assert_eq!(starts - stops, loops);
    }
    assert!(starts > 10);
}

#[test]
fn registration_that_overtakes_the_loop_starts_a_second() {
    let mut registry = Registry::new();
    let first = registry.register().unwrap();
    assert!(first.start_loop);
    assert!(registry.disconnect(first.peer_id));
    let second = registry.register().unwrap();
    assert!(second.start_loop);
}

#[test]
fn registry_can_start_at_any_identifier() {
    let mut registry = Registry::starting_at(40);
    assert!(registry.is_empty());
    assert_eq!(registry.register(), Some(Registration { peer_id: 40, start_loop: true }));
    assert_eq!(registry.register(), Some(Registration { peer_id: 41, start_loop: false }));
    assert_eq!(registry.peers(), vec![40, 41]);
}

#[test]
fn registry_runs_out_of_identifiers() {
    let mut registry = Registry::starting_at(u64::MAX - 1);
    assert_eq!(
        registry.register(),
        Some(Registration { peer_id: u64::MAX - 1, start_loop: true })
    );
    assert_eq!(registry.register(), None);
    assert_eq!(registry.peers(), vec![u64::MAX - 1]);
    assert!(!registry.complete_broadcast(&vec![u64::MAX - 1]));
    assert_eq!(registry.register(), None);
    assert!(registry.is_empty());
}
