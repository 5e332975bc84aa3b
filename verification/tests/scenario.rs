use container_stats::api::{ContainerStats, MetricSample, SortKey};
use container_stats::batch::prepare_batch;
use container_stats::registry::Registry;

fn tick() -> Vec<ContainerStats> {
    let sample = MetricSample::from_reading(
        "4f2a".to_string(),
        "/web".to_string(),
        Some(2147483648),
        1025,
        1000,
        Some(5100),
        Some(5000),
    );
    let batch = prepare_batch(vec![Some(sample)], SortKey::Name);
    assert_eq!(batch.duplicates_removed, 0);
    batch.entries
}

#[test]
fn two_observers_one_source() {
    let mut registry = Registry::new();
    let mut loops_started = 0;
    let mut loop_alive = false;

    let first = registry.register().unwrap();
    if first.start_loop {
        loops_started += 1;
        loop_alive = true;
    }
    let second = registry.register().unwrap();
    if second.start_loop {
        loops_started += 1;
    }
    assert_eq!(loops_started, 1);
    assert!(loop_alive);

    let expected = vec![ContainerStats {
        id: "container_4f2a".to_string(),
        name: "web".to_string(),
        memory_usage: "2 GB".to_string(),
        cpu_usage: "25.00%".to_string(),
        exited: false,
    }];

    let batch = tick();
    assert_eq!(batch, expected);
    let recipients = registry.peers();
    assert_eq!(recipients, vec![first.peer_id, second.peer_id]);
    loop_alive = registry.complete_broadcast(&Vec::new());
    assert!(loop_alive);

    let batch = tick();
    assert_eq!(batch, expected);
    assert_eq!(registry.peers(), vec![first.peer_id, second.peer_id]);
    loop_alive = registry.complete_broadcast(&vec![first.peer_id]);
    assert!(loop_alive);

    let batch = tick();
    assert_eq!(batch, expected);
    assert_eq!(registry.peers(), vec![second.peer_id]);
    loop_alive = registry.complete_broadcast(&vec![second.peer_id]);
    assert!(!loop_alive);
    assert!(registry.is_empty());
    assert_eq!(registry.peers(), Vec::<u64>::new());
    assert_eq!(loops_started, 1);
}

#[test]
fn observers_leaving_by_explicit_disconnect() {
    let mut registry = Registry::new();
    let first = registry.register().unwrap();
    let second = registry.register().unwrap();
    assert!(first.start_loop);
    assert!(!second.start_loop);

    assert_eq!(registry.peers().len(), 2);
    assert!(registry.complete_broadcast(&Vec::new()));

    assert!(registry.disconnect(first.peer_id));
    assert_eq!(registry.peers(), vec![second.peer_id]);
    assert!(registry.complete_broadcast(&Vec::new()));

    assert!(registry.disconnect(second.peer_id));
    assert_eq!(registry.peers(), Vec::<u64>::new());
    assert!(!registry.complete_broadcast(&Vec::new()));
}
