use dadophoros::deny_rule::{naming_stem, path_file_name, sanitize, write_deny_rule};
use dadophoros::ipc::{greeting, handle_client, matches_filter, other_kind, Session, SessionAction, SessionEvent};
use dadophoros::proto::{
    ClientMessage, DenyRuleKind, EnrichedEvent, EventFilter, RuleAction, ServerMessage, Stats, Verdict,
};
use dadophoros::rule_files::RuleFile;
use dadophoros::rules::{Action, Duration, Rule};

const TS: u128 = 1_700_000_000_000;

fn some(s: &str) -> Option<String> {
    Some(s.to_string())
}

fn event(exe: Option<&str>, host: Option<&str>) -> ServerMessage {
    ServerMessage::Event(EnrichedEvent {
        ts_unix_ns: 0,
        pid: 1,
        uid: 1000,
        comm: "curl".to_string(),
        exe_path: exe.map(str::to_owned),
        family: 4,
        daddr_v4: 0x04030201,
        daddr_v6: [0; 16],
        dport: 443,
        hostname: host.map(str::to_owned),
        verdict: Verdict::Allow,
        matched_rule: None,
    })
}

fn rule_file(name: &str, id: Option<&str>, priority: u32, enabled: bool) -> RuleFile {
    RuleFile {
        name: name.as_bytes().to_vec(),
        path: format!("/etc/dadophoros/rules.d/{name}"),
        contents: "enabled = true\naction = \"deny\"\n".to_string(),
        rule: Some(Rule {
            id: id.map(str::to_owned),
            priority,
            enabled,
            action: Action::Deny,
            duration: Duration::Session,
            matches: vec![],
        }),
    }
}

#[test]
fn sanitize_keeps_alphanumerics_and_dashes() {
    assert_eq!(sanitize("github.com"), "github_com");
    assert_eq!(sanitize("api-test.example.com"), "api-test_example_com");
    assert_eq!(sanitize("/usr/bin/curl"), "_usr_bin_curl");
}

#[test]
fn write_deny_rule_host_creates_file() {
    let draft = write_deny_rule(
        some("/usr/bin/curl"),
        some("github.com"),
        some("1.2.3.4"),
        443,
        DenyRuleKind::Host,
        TS,
    )
    .unwrap();
    let body = draft.body;
    assert!(body.contains("action = \"deny\""));
    assert!(body.contains("type = \"dest_host\""));
    assert!(body.contains("op = \"suffix\""));
    assert!(body.contains("\"github.com\""));
    assert!(!body.contains("process_path"));
}

#[test]
fn write_deny_rule_process_creates_file() {
    let draft = write_deny_rule(
        some("/usr/bin/curl"),
        some("github.com"),
        some("1.2.3.4"),
        443,
        DenyRuleKind::Process,
        TS,
    )
    .unwrap();
    let body = draft.body;
    assert!(body.contains("type = \"process_path\""));
    assert!(body.contains("op = \"exact\""));
    assert!(body.contains("/usr/bin/curl"));
    assert!(!body.contains("dest_host"));
}

#[test]
fn write_deny_rule_both_includes_both_matches() {
    let draft = write_deny_rule(
        some("/usr/bin/curl"),
        some("github.com"),
        some("1.2.3.4"),
        443,
        DenyRuleKind::Both,
        TS,
    )
    .unwrap();
    let body = draft.body;
    assert!(body.contains("process_path"));
    assert!(body.contains("dest_host"));
}

#[test]
fn write_deny_rule_host_without_hostname_errors() {
    let err = write_deny_rule(some("/usr/bin/curl"), None, some("1.2.3.4"), 443, DenyRuleKind::Host, TS).unwrap_err();
    assert!(err.contains("hostname"));
    assert_eq!(err, "requested deny-by-host but no hostname on the row");
}

#[test]
fn write_deny_rule_process_without_exe_errors() {
    let err = write_deny_rule(None, some("github.com"), some("1.2.3.4"), 443, DenyRuleKind::Process, TS).unwrap_err();
    assert!(err.contains("exe"));
    assert_eq!(err, "requested deny-by-process but no exe path on the row");
}

#[test]
fn write_deny_rule_ip_creates_file() {
    let draft = write_deny_rule(None, None, some("140.82.112.4"), 443, DenyRuleKind::Ip, TS).unwrap();
    let body = draft.body;
    assert!(body.contains("type = \"dest_ip\""));
    assert!(body.contains("op = \"exact\""));
    assert!(body.contains("140.82.112.4"));
}

#[test]
fn write_deny_rule_ip_without_ip_errors() {
    let err = write_deny_rule(None, None, None, 443, DenyRuleKind::Ip, TS).unwrap_err();
    assert!(err.contains("dest_ip"));
    assert_eq!(err, "requested deny-by-ip but no dest_ip on the row");
}

#[test]
fn empty_facts_count_as_missing() {
    assert!(write_deny_rule(None, some(""), None, 1, DenyRuleKind::Host, TS).is_err());
    assert!(write_deny_rule(some(""), some("h"), None, 1, DenyRuleKind::Both, TS).is_err());
    let err = write_deny_rule(None, None, None, 1, DenyRuleKind::Both, TS).unwrap_err();
    assert!(err.contains("hostname"));
}

#[test]
fn the_rule_file_has_its_exact_text() {
    let draft = write_deny_rule(
        some("/usr/bin/curl"),
        some("github.com"),
        None,
        443,
        DenyRuleKind::Both,
        TS,
    )
    .unwrap();
    assert_eq!(draft.name, "auto-deny-curl-github_com-1700000000000.toml");
    assert_eq!(
        draft.body,
        "# Auto-generated by dadophoros TUI rule picker.\n\
         id = \"auto-deny-curl-github_com-1700000000000\"\n\
         priority = 100\n\
         action = \"deny\"\n\
         \n\
         [[match]]\ntype = \"process_path\"\nop = \"exact\"\nvalue = \"/usr/bin/curl\"\n\
         \n\
         [[match]]\ntype = \"dest_host\"\nop = \"suffix\"\nvalue = \"github.com\"\n"
    );
}

#[test]
fn the_rule_file_parses_back_to_its_clauses() {
    let exe = "/opt/we \"ird\\path/x";
    let draft = write_deny_rule(some(exe), some("h.example"), None, 443, DenyRuleKind::Both, 5).unwrap();
    let table = draft.body.parse::<toml::Table>().unwrap();
    assert_eq!(table["id"].as_str(), Some("auto-deny-x-h_example-5"));
    assert_eq!(table["priority"].as_integer(), Some(100));
    assert_eq!(table["action"].as_str(), Some("deny"));
    let clauses = table["match"].as_array().unwrap();
    assert_eq!(clauses.len(), 2);
    assert_eq!(clauses[0]["type"].as_str(), Some("process_path"));
    assert_eq!(clauses[0]["op"].as_str(), Some("exact"));
    assert_eq!(clauses[0]["value"].as_str(), Some(exe));
    assert_eq!(clauses[1]["type"].as_str(), Some("dest_host"));
    assert_eq!(clauses[1]["op"].as_str(), Some("suffix"));
    assert_eq!(clauses[1]["value"].as_str(), Some("h.example"));
}

#[test]
fn stems_name_what_is_denied() {
    let (exe, host, ip) = (some("/usr/bin/curl"), some("a.b"), some("::1"));
    assert_eq!(naming_stem(&exe, &host, &ip, 1, DenyRuleKind::Host), "a_b");
    assert_eq!(naming_stem(&exe, &host, &ip, 1, DenyRuleKind::Process), "curl");
    assert_eq!(naming_stem(&exe, &host, &ip, 1, DenyRuleKind::Ip), "__1");
    assert_eq!(naming_stem(&exe, &host, &ip, 1, DenyRuleKind::Both), "curl-a_b");
    assert_eq!(naming_stem(&None, &None, &None, 1, DenyRuleKind::Both), "unknown-unknown");
    assert_eq!(naming_stem(&some("/"), &host, &ip, 1, DenyRuleKind::Process), "unknown");
}

#[test]
fn file_names_are_those_of_std() {
    for p in ["/usr/bin/curl", "curl", "a/b/", "a/b/.", "a/..", "..", ".", "./.", "", "/", "//", "/.", "a/./.", "x/...", "./x", "a//b//"] {
        let want = std::path::Path::new(p).file_name().and_then(|s| s.to_str()).map(str::to_owned);
        assert_eq!(path_file_name(p), want, "{}", p);
    }
}

#[test]
fn kinds_are_named() {
    assert_eq!(other_kind(&ClientMessage::Subscribe { filter: None }), "Subscribe");
    assert_eq!(other_kind(&ClientMessage::Unsubscribe), "Unsubscribe");
    assert_eq!(other_kind(&ClientMessage::ListRules), "ListRules");
    assert_eq!(other_kind(&ClientMessage::GetStats), "GetStats");
    assert_eq!(
        other_kind(&ClientMessage::SetRuleEnabled { id: "a".to_string(), enabled: true }),
        "SetRuleEnabled"
    );
}

#[test]
fn filters_hold_back_events_only() {
    let by_exe = EventFilter { process_path_contains: some("fire"), host_contains: None };
    let by_host = EventFilter { process_path_contains: None, host_contains: some(".github.com") };
    let both = EventFilter { process_path_contains: some("fire"), host_contains: some(".github.com") };
    let e = event(Some("/usr/bin/firefox"), Some("api.github.com"));
    assert!(matches_filter(&e, None));
    assert!(matches_filter(&e, Some(&by_exe)));
    assert!(matches_filter(&e, Some(&by_host)));
    assert!(matches_filter(&e, Some(&both)));
    assert!(!matches_filter(&event(None, Some("api.github.com")), Some(&by_exe)));
    assert!(!matches_filter(&event(Some("/usr/bin/firefox"), Some("github.com")), Some(&both)));
    assert!(!matches_filter(&event(Some("x"), None), Some(&by_host)));
    assert!(matches_filter(&ServerMessage::Ack, Some(&both)));
}

#[test]
fn a_client_has_to_subscribe_first() {
    assert!(matches!(greeting("0.1.0"), ServerMessage::Hello { daemon_version } if daemon_version == "0.1.0"));
    let (s, a) = handle_client(Session::Greeted, SessionEvent::Received(ClientMessage::ListRules), TS);
    assert!(matches!(s, Session::Closed));
    assert!(matches!(a, SessionAction::SendAndClose(ServerMessage::Error(e)) if e == "expected Subscribe, got \"ListRules\""));
    let (s, a) = handle_client(Session::Greeted, SessionEvent::Broadcast(event(None, None)), TS);
    assert!(matches!(s, Session::Greeted));
    assert!(matches!(a, SessionAction::Wait));
    let (s, a) = handle_client(s, SessionEvent::Received(ClientMessage::Subscribe { filter: None }), TS);
    assert!(matches!(s, Session::Open { filter: None }));
    assert!(matches!(a, SessionAction::Send(ServerMessage::Ack)));
}

#[test]
fn an_open_session_forwards_wanted_events() {
    let filter = Some(EventFilter { process_path_contains: None, host_contains: some("a") });
    let (s, a) = handle_client(Session::Open { filter }, SessionEvent::Broadcast(event(None, Some("b"))), TS);
    assert!(matches!(a, SessionAction::Wait));
    let (s, a) = handle_client(s, SessionEvent::Broadcast(event(None, Some("abc"))), TS);
    assert!(matches!(a, SessionAction::Send(ServerMessage::Event(_))));
    let (s, a) = handle_client(s, SessionEvent::Lagged, TS);
    assert!(matches!(a, SessionAction::Wait));
    let (s, a) = handle_client(s, SessionEvent::BroadcastClosed, TS);
    assert!(matches!((s, a), (Session::Closed, SessionAction::Close)));
}

#[test]
fn deny_rules_are_written_and_acknowledged() {
    let ask = |host: Option<String>| {
        SessionEvent::Received(ClientMessage::CreateDenyRule {
            exe_path: None,
            hostname: host,
            dest_ip: None,
            dport: 443,
            by: DenyRuleKind::Host,
        })
    };
    let (s, a) = handle_client(Session::Open { filter: None }, ask(None), TS);
    assert!(matches!(s, Session::Open { .. }));
    assert!(matches!(a, SessionAction::Send(ServerMessage::Error(e)) if e.contains("hostname")));
    let (s, a) = handle_client(s, ask(some("github.com")), TS);
    assert!(matches!(a, SessionAction::WriteRule(d) if d.name == "auto-deny-github_com-1700000000000.toml"));
    let (s, a) = handle_client(s, SessionEvent::RuleWritten(Ok(())), TS);
    assert!(matches!(a, SessionAction::Send(ServerMessage::Ack)));
    let (s, _) = handle_client(s, ask(some("github.com")), TS);
    let (s, a) = handle_client(s, SessionEvent::RuleWritten(Err("disk full".to_string())), TS);
    assert!(matches!(a, SessionAction::Send(ServerMessage::Error(e)) if e == "disk full"));
    assert!(matches!(s, Session::Open { .. }));
}

#[test]
fn rules_are_listed_and_toggled() {
    let files = || vec![rule_file("b.toml", None, 20, false), rule_file("a.toml", Some("first"), 10, true)];
    let (s, a) = handle_client(Session::Open { filter: None }, SessionEvent::Received(ClientMessage::ListRules), TS);
    assert!(matches!(a, SessionAction::ReadRules));
    let (s, a) = handle_client(s, SessionEvent::RuleFiles(files()), TS);
    match a {
        SessionAction::Send(ServerMessage::Rules(infos)) => {
            assert_eq!(infos.len(), 2);
            assert_eq!((infos[0].id.as_str(), infos[0].enabled), ("first", true));
            assert_eq!((infos[1].id.as_str(), infos[1].enabled), ("b", false));
            assert_eq!(infos[1].action, RuleAction::Deny);
            assert_eq!(infos[1].duration, "session");
            assert_eq!(infos[1].path, "/etc/dadophoros/rules.d/b.toml");
        }
        _ => panic!("expected Rules"),
    }
    let set = |id: &str| SessionEvent::Received(ClientMessage::SetRuleEnabled { id: id.to_string(), enabled: false });
    let (s, a) = handle_client(s, set("first"), TS);
    assert!(matches!(a, SessionAction::ReadRules));
    let (s, a) = handle_client(s, SessionEvent::RuleFiles(files()), TS);
    assert!(matches!(a, SessionAction::RewriteRule(e)
        if e.path == "/etc/dadophoros/rules.d/a.toml" && e.contents == "enabled = false\naction = \"deny\"\n"));
    let (s, a) = handle_client(s, SessionEvent::RuleWritten(Ok(())), TS);
    assert!(matches!(a, SessionAction::Send(ServerMessage::Ack)));
    let (s, _) = handle_client(s, set("nope"), TS);
    let (s, a) = handle_client(s, SessionEvent::RuleFiles(files()), TS);
    assert!(matches!(a, SessionAction::Send(ServerMessage::Error(e)) if e == "no rule with id nope"));
    assert!(matches!(s, Session::Open { .. }));
}

#[test]
fn stats_are_fetched() {
    let (s, a) = handle_client(Session::Open { filter: None }, SessionEvent::Received(ClientMessage::GetStats), TS);
    assert!(matches!(a, SessionAction::ReadStats));
    let stats = Stats { total_events: 10, ..Stats::default() };
    let (s, a) = handle_client(s, SessionEvent::StatsRead(stats), TS);
    assert!(matches!(a, SessionAction::Send(ServerMessage::Stats(st)) if st.total_events == 10));
    assert!(matches!(s, Session::Open { .. }));
}

#[test]
fn sessions_close_for_good() {
    let (s, a) = handle_client(Session::Open { filter: None }, SessionEvent::Received(ClientMessage::Unsubscribe), TS);
    assert!(matches!((&s, a), (Session::Closed, SessionAction::Close)));
    let (s, a) = handle_client(s, SessionEvent::Received(ClientMessage::Subscribe { filter: None }), TS);
    assert!(matches!((s, a), (Session::Closed, SessionAction::Close)));
    let (s, _) = handle_client(Session::Greeted, SessionEvent::ReadFailed, TS);
    assert!(matches!(s, Session::Closed));
    let (s, _) = handle_client(Session::Open { filter: None }, SessionEvent::WriteFailed, TS);
    assert!(matches!(s, Session::Closed));
    let (s, a) = handle_client(
        Session::Open { filter: None },
        SessionEvent::Received(ClientMessage::Subscribe { filter: None }),
        TS,
    );
    assert!(matches!((s, a), (Session::Open { .. }, SessionAction::Wait)));
}
