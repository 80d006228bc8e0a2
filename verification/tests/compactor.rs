use pulse::compactor::{expired_partitions, ttl_cutoff, Compaction, Entry, Phase};
use pulse::time::Instant;

fn phases(files: usize) -> Vec<Phase> {
    let mut seen = Vec::new();
    let mut c = Compaction::new(files);
    while c.phase() != Phase::Done {
        seen.push(c.phase());
        c = c.step();
    }
    assert_eq!(c.compacted(), files);
    assert_eq!(c.step(), c);
    seen
}

#[test]
fn files_are_removed_after_their_events_are_written() {
    assert!(phases(0).is_empty());
    assert_eq!(phases(1), vec![Phase::Read, Phase::Lock, Phase::Write, Phase::Remove(0)]);
    assert_eq!(
        phases(3),
        vec![
            Phase::Read,
            Phase::Lock,
            Phase::Write,
            Phase::Remove(0),
            Phase::Remove(1),
            Phase::Remove(2),
        ]
    );
}

fn entry(name: Option<&str>, is_dir: bool) -> Entry {
    Entry {
        name: name.map(|s| s.to_string()),
        is_dir,
    }
}

#[test]
fn old_partitions_are_dropped() {
    let now = Instant::parse_rfc3339("2026-06-12T10:00:00Z").unwrap();
    let cutoff = ttl_cutoff(&now, 730).unwrap();
    assert_eq!(cutoff, "2024-06-12");
    let entries = [
        entry(Some("date=2020-01-01"), true),
        entry(Some("date=2099-01-01"), true),
        entry(Some("date=2024-06-11"), true),
        entry(Some("date=2024-06-12"), true),
        entry(Some("date=2020-01-01"), false),
        entry(Some("2020-01-01"), true),
        entry(None, true),
    ];
    assert_eq!(expired_partitions(&entries, &cutoff), vec![0, 2]);
}

#[test]
fn without_days_nothing_is_dropped() {
    let now = Instant::parse_rfc3339("2026-06-12T10:00:00Z").unwrap();
    assert_eq!(ttl_cutoff(&now, 0), None);
    assert_eq!(ttl_cutoff(&now, -5), None);
    assert_eq!(ttl_cutoff(&now, 1).unwrap(), "2026-06-11");
}
