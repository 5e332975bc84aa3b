use container_stats::api::{ContainerStats, MetricSample, SortKey};
use container_stats::batch::{
    collect_all_stats, collect_samples, dedup_by_id, format_samples, prepare_batch, ranks_before,
    sort_samples, Batch,
};

fn reading(id: &str, name: &str, memory: Option<u64>, cpu: u64, system: u64) -> MetricSample {
    MetricSample {
        source_id: id.to_string(),
        display_name: name.to_string(),
        memory_bytes: memory,
        cpu_counter_now: cpu,
        cpu_counter_prev: 0,
        system_counter_now: Some(system),
        system_counter_prev: Some(0),
        is_exited: memory.is_none(),
    }
}

fn entry(id: &str, name: &str) -> ContainerStats {
    ContainerStats {
        id: id.to_string(),
        name: name.to_string(),
        memory_usage: "1 KB".to_string(),
        cpu_usage: "1.00%".to_string(),
        exited: false,
    }
}

fn ids(samples: &Vec<MetricSample>) -> Vec<String> {
    let mut out = Vec::new();
    for s in samples {
        out.push(s.source_id.clone());
    }
    out
}

fn wire_ids(batch: &Vec<ContainerStats>) -> Vec<String> {
    let mut out = Vec::new();
    for s in batch {
        out.push(s.id.clone());
    }
    out
}

#[test]
fn failed_sources_contribute_no_sample() {
    let a = reading("a", "a", Some(1), 1, 10);
    let c = reading("c", "c", Some(3), 3, 10);
    let samples = collect_samples(vec![Some(a.clone()), None, Some(c.clone()), None]);
    assert_eq!(samples, vec![a, c]);
    assert_eq!(collect_samples(vec![None, None]), Vec::<MetricSample>::new());
    assert_eq!(collect_samples(Vec::new()), Vec::<MetricSample>::new());
}

#[test]
fn name_sort_is_ascending_by_bytes() {
    let samples = vec![
        reading("1", "web", Some(1), 1, 10),
        reading("2", "Api", Some(1), 1, 10),
        reading("3", "db", Some(1), 1, 10),
        reading("4", "api", Some(1), 1, 10),
        reading("5", "", Some(1), 1, 10),
        reading("6", "dbx", Some(1), 1, 10),
    ];
    let sorted = sort_samples(samples, SortKey::Name);
    assert_eq!(ids(&sorted), vec!["5", "2", "4", "3", "6", "1"]);
}

#[test]
fn memory_sort_is_descending_with_absent_as_zero() {
    let samples = vec![
        reading("1", "a", Some(10), 1, 10),
        reading("2", "b", None, 1, 10),
        reading("3", "c", Some(30), 1, 10),
        reading("4", "d", Some(0), 1, 10),
        reading("5", "e", Some(20), 1, 10),
    ];
    let sorted = sort_samples(samples, SortKey::Memory);
    assert_eq!(ids(&sorted), vec!["3", "5", "1", "2", "4"]);
}

#[test]
fn cpu_sort_is_descending_with_undefined_last() {
    let samples = vec![
        reading("1", "a", Some(1), 10, 100),
        reading("2", "b", Some(1), 5, 0),
        reading("3", "c", Some(1), 90, 100),
        reading("4", "d", Some(1), 0, 100),
        reading("5", "e", Some(1), 1, 2),
    ];
    let sorted = sort_samples(samples, SortKey::Cpu);
    assert_eq!(ids(&sorted), vec!["3", "5", "1", "4", "2"]);
}

#[test]
fn cpu_sort_goes_by_usage_not_by_counter() {
    let busy = reading("busy", "a", Some(1), 10, 20);
    let mut old = reading("old", "b", Some(1), 1000010, 2000);
    old.cpu_counter_prev = 1000000;
    let sorted = sort_samples(vec![old, busy], SortKey::Cpu);
    assert_eq!(ids(&sorted), vec!["busy", "old"]);
}

#[test]
fn sort_is_stable() {
    let samples = vec![
        reading("1", "same", Some(5), 1, 10),
        reading("2", "same", Some(5), 1, 10),
        reading("3", "aaa", Some(5), 1, 10),
        reading("4", "same", Some(5), 1, 10),
    ];
    assert_eq!(ids(&sort_samples(samples.clone(), SortKey::Name)), vec!["3", "1", "2", "4"]);
    assert_eq!(ids(&sort_samples(samples.clone(), SortKey::Memory)), vec!["1", "2", "3", "4"]);
    assert_eq!(ids(&sort_samples(samples, SortKey::Cpu)), vec!["1", "2", "3", "4"]);
}

#[test]
fn sort_keeps_every_sample() {
    let samples = vec![
        reading("1", "c", Some(3), 1, 10),
        reading("2", "a", Some(1), 3, 10),
        reading("3", "b", Some(2), 2, 10),
    ];
    let mut sorted = ids(&sort_samples(samples, SortKey::Name));
    assert_eq!(sorted, vec!["2", "3", "1"]);
    sorted.sort();
    assert_eq!(sorted, vec!["1", "2", "3"]);
    assert_eq!(sort_samples(Vec::new(), SortKey::Name), Vec::<MetricSample>::new());
}

#[test]
fn sorting_a_sorted_batch_changes_nothing() {
    let samples = vec![
        reading("1", "c", Some(3), 1, 10),
        reading("2", "a", Some(1), 3, 10),
        reading("3", "b", Some(2), 2, 10),
        reading("4", "a", Some(9), 2, 10),
    ];
    let once = sort_samples(samples, SortKey::Name);
    let twice = sort_samples(once.clone(), SortKey::Name);
    assert_eq!(once, twice);
}

#[test]
fn ranking_is_strict() {
    let a = reading("1", "a", Some(5), 1, 10);
    let b = reading("2", "b", Some(5), 2, 10);
    assert!(ranks_before(&a, &b, SortKey::Name));
    assert!(!ranks_before(&b, &a, SortKey::Name));
    assert!(!ranks_before(&a, &a, SortKey::Name));
    assert!(!ranks_before(&a, &b, SortKey::Memory));
    assert!(!ranks_before(&b, &a, SortKey::Memory));
    assert!(ranks_before(&b, &a, SortKey::Cpu));
    assert!(!ranks_before(&a, &b, SortKey::Cpu));
}

#[test]
fn formatting_keeps_order() {
    let batch = format_samples(vec![
        reading("b", "second", Some(1024), 1, 4),
        reading("a", "first", None, 0, 0),
    ]);
    assert_eq!(
        batch,
        vec![
            ContainerStats {
                id: "container_b".to_string(),
                name: "second".to_string(),
                memory_usage: "1 KB".to_string(),
                cpu_usage: "25.00%".to_string(),
                exited: false,
            },
            ContainerStats {
                id: "container_a".to_string(),
                name: "first".to_string(),
                memory_usage: "Error".to_string(),
                cpu_usage: "Error".to_string(),
                exited: true,
            },
        ]
    );
}

#[test]
fn collecting_sorts_and_formats_what_arrived() {
    let batch = collect_all_stats(
        vec![
            Some(reading("1", "web", Some(3 * 1048576), 10, 100)),
            None,
            Some(reading("2", "db", Some(5 * 1073741824), 40, 100)),
            Some(reading("3", "cache", Some(700), 90, 100)),
        ],
        SortKey::Memory,
    );
    assert_eq!(wire_ids(&batch), vec!["container_2", "container_1", "container_3"]);
    assert_eq!(batch[0].memory_usage, "5 GB");
    assert_eq!(batch[1].memory_usage, "3 MB");
    assert_eq!(batch[2].memory_usage, "700 B");
    assert_eq!(batch[2].cpu_usage, "90.00%");
}

#[test]
fn dedup_keeps_first_entry_of_each_id() {
    let batch = vec![
        entry("a", "first a"),
        entry("b", "first b"),
        entry("a", "second a"),
        entry("c", "first c"),
        entry("b", "second b"),
        entry("a", "third a"),
    ];
    let kept = dedup_by_id(batch);
    assert_eq!(kept, vec![entry("a", "first a"), entry("b", "first b"), entry("c", "first c")]);
}

#[test]
fn dedup_removes_repetitions_that_are_apart() {
    let kept = dedup_by_id(vec![entry("a", "x"), entry("b", "x"), entry("a", "x")]);
    assert_eq!(wire_ids(&kept), vec!["a", "b"]);
}

#[test]
fn dedup_leaves_unique_batch_alone() {
    let batch = vec![entry("a", "same"), entry("b", "same"), entry("c", "same")];
    assert_eq!(dedup_by_id(batch.clone()), batch);
    assert_eq!(dedup_by_id(Vec::new()), Vec::<ContainerStats>::new());
}

#[test]
fn dedup_twice_is_dedup_once() {
    let batch = vec![
        entry("a", "1"),
        entry("a", "2"),
        entry("b", "3"),
        entry("a", "4"),
        entry("b", "5"),
    ];
    let once = dedup_by_id(batch);
    let twice = dedup_by_id(once.clone());
    assert_eq!(once, twice);
}

#[test]
fn dedup_result_has_unique_ids() {
    let batch = vec![
        entry("a", "1"),
        entry("b", "2"),
        entry("b", "3"),
        entry("c", "4"),
        entry("a", "5"),
        entry("c", "6"),
    ];
    let kept = dedup_by_id(batch);
    for i in 0..kept.len() {
        for j in (i + 1)..kept.len() {
            assert_ne!(kept[i].id, kept[j].id);
        }
    }
    assert_eq!(kept.len(), 3);
}

#[test]
fn prepared_batch_is_sorted_then_deduplicated() {
    let batch = prepare_batch(
        vec![
            Some(reading("x", "zeta", Some(1024), 1, 2)),
            Some(reading("y", "alpha", Some(2048), 1, 4)),
            None,
            Some(reading("x", "beta", Some(4096), 3, 4)),
        ],
        SortKey::Name,
    );
    assert_eq!(batch.duplicates_removed, 1);
    assert_eq!(wire_ids(&batch.entries), vec!["container_y", "container_x"]);
    assert_eq!(batch.entries[1].name, "beta");
    assert_eq!(batch.entries[1].memory_usage, "4 KB");
    assert_eq!(batch.entries[1].cpu_usage, "75.00%");
}

#[test]
fn prepared_batch_without_repetitions_reports_none() {
    let batch = prepare_batch(
        vec![Some(reading("x", "b", Some(1), 1, 2)), Some(reading("y", "a", Some(1), 1, 2))],
        SortKey::Name,
    );
    assert_eq!(batch.duplicates_removed, 0);
    assert_eq!(wire_ids(&batch.entries), vec!["container_y", "container_x"]);
    let empty = prepare_batch(vec![None], SortKey::Cpu);
    assert_eq!(empty, Batch { entries: Vec::new(), duplicates_removed: 0 });
}
