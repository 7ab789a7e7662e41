use dadophoros::proto::{EnrichedEvent, Verdict};
use dadophoros::stats::{host_or_ip, top_n, Accumulator, CountTable, ACTIVITY_BUCKETS, TOP_N};

fn ev(comm: &str, exe: Option<&str>, host: Option<&str>, verdict: Verdict) -> EnrichedEvent {
    EnrichedEvent {
        ts_unix_ns: 0,
        pid: 1,
        uid: 1000,
        comm: comm.to_string(),
        exe_path: exe.map(str::to_owned),
        family: 4,
        daddr_v4: 0x04030201, // 1.2.3.4 in network order
        daddr_v6: [0; 16],
        dport: 443,
        hostname: host.map(str::to_owned),
        verdict,
        matched_rule: None,
    }
}

#[test]
fn totals_split_allow_and_deny() {
    let mut acc = Accumulator::new();
    acc.record(&ev("curl", Some("/usr/bin/curl"), Some("github.com"), Verdict::Allow));
    acc.record(&ev("curl", Some("/usr/bin/curl"), Some("github.com"), Verdict::Deny));
    acc.record(&ev("curl", Some("/usr/bin/curl"), Some("github.com"), Verdict::Allow));
    let s = acc.snapshot();
    assert_eq!(s.total_events, 3);
    assert_eq!(s.total_allowed, 2);
    assert_eq!(s.total_denied, 1);
}

#[test]
fn top_processes_ranked_by_count() {
    let mut acc = Accumulator::new();
    for _ in 0..3 {
        acc.record(&ev("curl", Some("/usr/bin/curl"), None, Verdict::Allow));
    }
    acc.record(&ev("wget", Some("/usr/bin/wget"), None, Verdict::Allow));
    let s = acc.snapshot();
    assert_eq!(s.top_processes[0].label, "/usr/bin/curl");
    assert_eq!(s.top_processes[0].count, 3);
    assert_eq!(s.top_processes[1].label, "/usr/bin/wget");
}

#[test]
fn process_falls_back_to_comm_without_exe() {
    let mut acc = Accumulator::new();
    acc.record(&ev("mystery", None, None, Verdict::Allow));
    assert_eq!(acc.snapshot().top_processes[0].label, "mystery");
}

#[test]
fn host_falls_back_to_ip() {
    let mut acc = Accumulator::new();
    acc.record(&ev("curl", Some("/usr/bin/curl"), None, Verdict::Allow));
    assert_eq!(acc.snapshot().top_hosts[0].label, "1.2.3.4");
}

#[test]
fn activity_lands_in_current_bucket_then_rotates() {
    let mut acc = Accumulator::new();
    acc.record(&ev("curl", None, Some("h"), Verdict::Allow));
    acc.record(&ev("curl", None, Some("h"), Verdict::Allow));
    let before = acc.snapshot().activity;
    assert_eq!(*before.last().unwrap(), 2);
    acc.tick();
    let after = acc.snapshot().activity;
    // New current bucket is empty; the 2 slid one slot back.
    assert_eq!(*after.last().unwrap(), 0);
    assert_eq!(after[after.len() - 2], 2);
    // Ring stays a fixed width.
    assert_eq!(after.len(), ACTIVITY_BUCKETS);
}

#[test]
fn activity_is_forgotten_when_the_ring_has_turned() {
    let mut acc = Accumulator::default();
    acc.record(&ev("curl", None, Some("h"), Verdict::Allow));
    for _ in 0..ACTIVITY_BUCKETS - 1 {
        acc.tick();
    }
    assert_eq!(acc.snapshot().activity[0], 1);
    acc.tick();
    assert!(acc.snapshot().activity.iter().all(|&n| n == 0));
    assert_eq!(acc.snapshot().total_events, 1);
}

#[test]
fn ties_are_broken_by_label_and_the_list_is_cut() {
    let mut acc = Accumulator::new();
    for name in ["m", "c", "zz", "z", "b", "k", "a", "l", "d", "e", "f", "g"] {
        acc.record(&ev(name, None, Some("h"), Verdict::Allow));
    }
    acc.record(&ev("zz", Some(""), Some("h"), Verdict::Deny));
    let s = acc.snapshot();
    let labels: Vec<&str> = s.top_processes.iter().map(|e| e.label.as_str()).collect();
    assert_eq!(labels, vec!["zz", "a", "b", "c", "d", "e", "f", "g", "k", "l"]);
    assert_eq!(labels.len(), TOP_N);
    assert_eq!(s.top_hosts.len(), 1);
    assert_eq!(s.top_hosts[0].count, 13);
    assert_eq!(s.total_events, s.total_allowed + s.total_denied);
}

#[test]
fn labels_beyond_ascii_sort_by_code_point() {
    let mut acc = Accumulator::new();
    for name in ["é", "z", "日本", "日", "Z"] {
        acc.record(&ev(name, None, Some("h"), Verdict::Allow));
    }
    let s = acc.snapshot();
    let labels: Vec<&str> = s.top_processes.iter().map(|e| e.label.as_str()).collect();
    let mut sorted = labels.clone();
    sorted.sort();
    assert_eq!(labels, sorted);
}

#[test]
fn an_empty_host_name_counts_as_none() {
    let mut e = ev("curl", None, Some(""), Verdict::Allow);
    assert_eq!(host_or_ip(&e), "1.2.3.4");
    e.family = 6;
    e.daddr_v6[15] = 1;
    assert_eq!(host_or_ip(&e), "::1");
    e.hostname = Some("h.example".to_string());
    assert_eq!(host_or_ip(&e), "h.example");
}

#[test]
fn the_list_is_as_long_as_there_are_labels() {
    let mut table = CountTable::new();
    assert_eq!(top_n(&table).len(), 0);
    for i in 0..12 {
        table.bump(format!("p{i:02}"));
        table.bump(format!("p{i:02}"));
        assert_eq!(top_n(&table).len(), TOP_N.min(i + 1));
    }
}
