use dadophoros::app::{ip_string, App};
use dadophoros::common::ConnectEvent;
use dadophoros::daemon::{enrich, handle_event};
use dadophoros::deny_rule::{write_deny_rule, RuleDraft};
use dadophoros::dns::{event_ip_string, DnsCache};
use dadophoros::input::{handle_input, rule_msg};
use dadophoros::ipc::{handle_client, Session, SessionAction, SessionEvent};
use dadophoros::proto::{ClientMessage, DenyRuleKind, EnrichedEvent, Verdict};
use dadophoros::rule_files::{load_dir, RuleFile};
use dadophoros::rules::{evaluate, Action, Duration, Match, MatchField, MatchOp, MatchValue, Rule};
use dadophoros::stats::Accumulator;
use dadophoros::term::{Event, KeyCode, KeyEvent, KeyModifiers};

fn flow(host: Option<&str>, v4: u32) -> EnrichedEvent {
    EnrichedEvent {
        ts_unix_ns: 0,
        pid: 1,
        uid: 1000,
        comm: "curl".to_string(),
        exe_path: Some("/usr/bin/curl".to_string()),
        family: 4,
        daddr_v4: v4,
        daddr_v6: [0; 16],
        dport: 443,
        hostname: host.map(str::to_owned),
        verdict: Verdict::Allow,
        matched_rule: None,
    }
}

// Reads a rule file as far as deny rules go.
fn parse(draft: &RuleDraft) -> Rule {
    let table = draft.body.parse::<toml::Table>().unwrap();
    let matches = table["match"]
        .as_array()
        .unwrap()
        .iter()
        .map(|m| Match {
            field: match m["type"].as_str().unwrap() {
                "process_path" => MatchField::ProcessPath,
                "dest_host" => MatchField::DestHost,
                "dest_ip" => MatchField::DestIp,
                _ => MatchField::DestPort,
            },
            op: match m["op"].as_str().unwrap() {
                "exact" => MatchOp::Exact,
                "suffix" => MatchOp::Suffix,
                _ => MatchOp::Contains,
            },
            value: MatchValue::Str(m["value"].as_str().unwrap().to_string()),
        })
        .collect();
    Rule {
        id: table["id"].as_str().map(str::to_owned),
        priority: table["priority"].as_integer().unwrap() as u32,
        enabled: true,
        action: if table["action"].as_str() == Some("deny") { Action::Deny } else { Action::Allow },
        duration: Duration::Persistent,
        matches,
    }
}

fn rule_for(ev: &EnrichedEvent, by: DenyRuleKind) -> Rule {
    match rule_msg(ev, by) {
        ClientMessage::CreateDenyRule { exe_path, hostname, dest_ip, dport, by } => {
            parse(&write_deny_rule(exe_path, hostname, dest_ip, dport, by, 7).unwrap())
        }
        _ => panic!("expected CreateDenyRule"),
    }
}

fn verdict(rules: &[Rule], ev: &EnrichedEvent) -> Option<Action> {
    let ip = ip_string(ev);
    evaluate(rules, ev.exe_path.as_deref(), ev.hostname.as_deref(), Some(&ip), ev.dport).map(|v| v.action)
}

#[test]
fn a_rule_made_from_a_row_denies_that_row() {
    let ev = flow(Some("github.com"), 0x04030201);
    for by in [DenyRuleKind::Host, DenyRuleKind::Process, DenyRuleKind::Ip, DenyRuleKind::Both] {
        let rules = [rule_for(&ev, by)];
        assert_eq!(verdict(&rules, &ev), Some(Action::Deny));
        let mut other = flow(Some("example.com"), 0x01020304);
        other.exe_path = Some("/usr/bin/wget".to_string());
        assert_eq!(verdict(&rules, &other), None);
    }
}

#[test]
fn a_host_rule_covers_subdomains() {
    let rules = [rule_for(&flow(Some("github.com"), 1), DenyRuleKind::Host)];
    assert_eq!(verdict(&rules, &flow(Some("api.github.com"), 2)), Some(Action::Deny));
    assert_eq!(verdict(&rules, &flow(Some("github.org"), 2)), None);
}

#[test]
fn a_rule_of_lower_priority_number_comes_first() {
    let ev = flow(Some("github.com"), 0x04030201);
    let mut allow = rule_for(&ev, DenyRuleKind::Host);
    allow.action = Action::Allow;
    allow.priority = 99;
    let file = |name: &str, rule: Rule| RuleFile {
        name: name.as_bytes().to_vec(),
        path: name.to_string(),
        contents: String::new(),
        rule: Some(rule),
    };
    let rules = load_dir(vec![file("deny.toml", rule_for(&ev, DenyRuleKind::Host)), file("allow.toml", allow)]);
    assert_eq!(verdict(&rules, &ev), Some(Action::Allow));
}

#[test]
fn rows_marked_ahead_are_rows_the_rule_denies() {
    let mut app = App::new("v".to_string());
    let target = flow(Some("github.com"), 1);
    for (pid, host, v4) in [
        (1, Some("github.com"), 1),
        (2, Some("github.com"), 2),
        (3, Some("x.org"), 1),
        (4, None, 9),
        (5, Some("api.github.com"), 2),
        (6, Some("github.org"), 3),
    ] {
        let mut ev = flow(host, v4);
        ev.pid = pid;
        app.push(ev);
    }
    let mut wget = flow(Some("api.github.com"), 4);
    wget.pid = 7;
    wget.exe_path = Some("/usr/bin/wget".to_string());
    app.push(wget);
    assert_eq!(app.events.len(), 7);
    let before: Vec<EnrichedEvent> = app.events.iter().map(|r| r.event.clone()).collect();
    for by in [DenyRuleKind::Host, DenyRuleKind::Process, DenyRuleKind::Ip, DenyRuleKind::Both] {
        for (row, ev) in app.events.iter_mut().zip(&before) {
            row.event = ev.clone();
        }
        app.optimistically_deny(&target, by);
        let rules = [rule_for(&target, by)];
        for row in app.events.iter() {
            let marked = row.event.verdict == Verdict::Deny;
            assert_eq!(marked, verdict(&rules, &row.event) == Some(Action::Deny));
        }
    }
}

#[test]
fn the_client_writes_the_address_that_rules_compare() {
    let mut v6 = [0u8; 16];
    v6[0] = 0xfe;
    v6[1] = 0x80;
    v6[15] = 9;
    for (family, v4) in [(4, 0x04030201), (6, 0)] {
        let e = ConnectEvent {
            pid: 1,
            uid: 2,
            start_ns: 0,
            daddr_v4: v4,
            daddr_v6: v6,
            dport: 443,
            family,
            _pad: 0,
            comm: [0; 16],
        };
        let report = enrich(&e, None, None, None, 0);
        assert_eq!(event_ip_string(&e).as_deref(), Some(ip_string(&report).as_str()));
        let rules = [rule_for(&report, DenyRuleKind::Ip)];
        let handled = handle_event(&e, None, &DnsCache::new(), &rules, 0, 0);
        assert!(handled.deny.is_some());
    }
}

#[test]
fn what_the_dialog_asks_for_is_granted() {
    for c in ['h', 'p', 'i', 'b'] {
        let mut app = App::new("v".to_string());
        app.push(flow(Some("github.com"), 0x04030201));
        app.jump_to_end();
        let press = |c: char| Event::Key(KeyEvent::new(KeyCode::Char(c), KeyModifiers::none()));
        handle_input(press('d'), &mut app);
        let msg = match handle_input(press(c), &mut app) {
            dadophoros::app::InputAction::Send(msg) => msg,
            _ => panic!("expected a request"),
        };
        let (_, a) = handle_client(Session::Open { filter: None }, SessionEvent::Received(msg), 1);
        assert!(matches!(a, SessionAction::WriteRule(_)));
        assert_eq!(app.events.len(), 1);
    }
}

#[test]
fn rule_names_stay_within_the_directory() {
    let draft = write_deny_rule(
        None,
        Some("../../etc/passwd\u{0}δ".to_string()),
        None,
        1,
        DenyRuleKind::Host,
        12,
    )
    .unwrap();
    assert_eq!(draft.name, "auto-deny-______etc_passwd__-12.toml");
}

#[test]
fn every_event_is_counted_once_in_each_table() {
    let mut acc = Accumulator::new();
    for i in 0..7u32 {
        let mut ev = flow(if i % 2 == 0 { Some("a") } else { None }, i + 1);
        ev.comm = format!("c{}", i % 3);
        ev.exe_path = None;
        acc.record(&ev);
        acc.tick();
    }
    let s = acc.snapshot();
    assert_eq!(s.top_processes.iter().map(|e| e.count).sum::<u64>(), 7);
    assert_eq!(s.top_hosts.iter().map(|e| e.count).sum::<u64>(), 7);
    assert_eq!(s.activity.iter().sum::<u64>(), 7);
}

#[test]
fn a_row_that_is_full_is_told() {
    let mut app = App::new("v".to_string());
    app.push(flow(None, 1));
    assert!(app.can_push(&flow(None, 1)));
    app.events[0].count = u32::MAX;
    assert!(!app.can_push(&flow(None, 1)));
    assert!(app.can_push(&flow(None, 2)));
}

#[test]
fn a_snapshot_adds_up() {
    let mut acc = Accumulator::new();
    for i in 0..11u32 {
        let mut ev = flow(Some(if i < 6 { "a" } else { "b" }), 1);
        ev.exe_path = Some(format!("/bin/{i:02}"));
        ev.verdict = if i % 3 == 0 { Verdict::Deny } else { Verdict::Allow };
        acc.record(&ev);
    }
    let s = acc.snapshot();
    assert_eq!((s.total_events, s.total_allowed, s.total_denied), (11, 7, 4));
    // One process too many for the list, but not one host.
    assert_eq!(s.top_processes.iter().map(|e| e.count).sum::<u64>(), 10);
    assert_eq!(s.top_processes[9].label, "/bin/09");
    assert_eq!(s.top_hosts.iter().map(|e| e.count).sum::<u64>(), 11);
    assert_eq!(s.top_hosts[0].label, "a");
    for _ in 0..119 {
        acc.tick();
    }
    assert_eq!(acc.snapshot().activity.iter().sum::<u64>(), 11);
    acc.tick();
    let s = acc.snapshot();
    assert_eq!(s.activity.len(), 120);
    assert_eq!(s.activity.iter().sum::<u64>(), 0);
    assert_eq!(s.total_events, 11);
}

#[test]
fn a_rule_that_was_written_is_loaded() {
    let mut target = flow(Some("git\\hub\".com"), 0x04030201);
    target.exe_path = Some("/opt/my \"app\"".to_string());
    for by in [DenyRuleKind::Host, DenyRuleKind::Process, DenyRuleKind::Ip, DenyRuleKind::Both] {
        let file = |enabled: bool| {
            let mut rule = rule_for(&target, by);
            rule.enabled = enabled;
            RuleFile {
                name: b"auto.toml".to_vec(),
                path: "auto.toml".to_string(),
                contents: String::new(),
                rule: Some(rule),
            }
        };
        let rules = load_dir(vec![file(false), file(true)]);
        assert_eq!(rules.len(), 1);
        assert_eq!(rules[0].id, rule_for(&target, by).id);
        assert_eq!(rules[0].priority, 100);
        assert_eq!(rules[0].action, Action::Deny);
        let values: Vec<&str> = rules[0]
            .matches
            .iter()
            .map(|m| match &m.value {
                MatchValue::Str(s) => s.as_str(),
                _ => panic!("expected a text"),
            })
            .collect();
        let expected = match by {
            DenyRuleKind::Host => vec!["git\\hub\".com"],
            DenyRuleKind::Process => vec!["/opt/my \"app\""],
            DenyRuleKind::Ip => vec!["1.2.3.4"],
            DenyRuleKind::Both => vec!["/opt/my \"app\"", "git\\hub\".com"],
        };
        assert_eq!(values, expected);
        assert_eq!(verdict(&rules, &target), Some(Action::Deny));
    }
}
