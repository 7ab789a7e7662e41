use std::collections::HashMap;

use dadophoros::addr::IpAddr;
use dadophoros::common::{ConnectEvent, FlowKey};
use dadophoros::daemon::{
    comm_str, common_flow_key, enrich, handle_event, interface_is_up, is_exe_known, list_up_interfaces, lookup_exe,
    pid_of_name, print_event, Interface,
};
use dadophoros::dns::{connect_event_ip, event_ip_string, lookup_host, DnsCache, DnsEntry};
use dadophoros::proto::Verdict as Reported;
use dadophoros::rules::{Action, Duration, Match, MatchField, MatchOp, MatchValue, Rule, Verdict};

fn ev(family: u8, daddr_v4: u32, daddr_v6: [u8; 16]) -> ConnectEvent {
    ConnectEvent {
        pid: 0,
        uid: 0,
        start_ns: 0,
        daddr_v4,
        daddr_v6,
        dport: 443,
        family,
        _pad: 0,
        comm: [0; 16],
    }
}

const DOC_V6: [u8; 16] = [0x20, 0x01, 0x0d, 0xb8, 0, 0, 0, 0, 0, 0, 0, 0, 0, 0, 0, 0x01];

fn deny_rule(field: MatchField, op: MatchOp, value: &str) -> Rule {
    Rule {
        id: Some("block".to_string()),
        priority: 100,
        enabled: true,
        action: Action::Deny,
        duration: Duration::Persistent,
        matches: vec![Match { field, op, value: MatchValue::Str(value.to_string()) }],
    }
}

#[test]
fn comm_str_stops_at_null() {
    let buf = *b"curl\0extra-bytes";
    assert_eq!(comm_str(&buf), "curl");
}

#[test]
fn comm_str_empty_buffer() {
    let buf = [0u8; 16];
    assert_eq!(comm_str(&buf), "");
}

#[test]
fn comm_str_full_buffer_no_null() {
    let buf = *b"abcdefghijklmnop";
    assert_eq!(comm_str(&buf), "abcdefghijklmnop");
}

#[test]
fn comm_str_of_broken_utf8_is_unknown() {
    let mut buf = [0u8; 16];
    buf[0] = b'a';
    buf[1] = 0xff;
    assert_eq!(comm_str(&buf), "?");
    let mut cut = [0u8; 16];
    cut[0] = 0xce;
    cut[1] = 0xb4;
    assert_eq!(comm_str(&cut), "δ");
}

#[test]
fn connect_event_ip_v4_decodes_network_order() {
    let e = ev(4, 0x04030201, [0; 16]);
    let ip = connect_event_ip(&e).unwrap();
    // 1.2.3.4
    assert_eq!(ip, IpAddr::V4(0x01020304));
}

#[test]
fn connect_event_ip_v6_returns_addr_from_bytes() {
    let bytes: [u8; 16] = [
        0x20, 0x01, 0x0d, 0xb8, 0, 0, 0, 0, 0, 0, 0, 0, 0, 0, 0, 0x01,
    ];
    let e = ev(6, 0, bytes);
    let ip = connect_event_ip(&e).unwrap();
    // 2001:db8::1
    assert_eq!(ip, IpAddr::V6(0x2001_0db8_0000_0000_0000_0000_0000_0001));
}

#[test]
fn connect_event_ip_zero_v4_is_none() {
    let e = ev(4, 0, [0; 16]);
    assert!(connect_event_ip(&e).is_none());
}

#[test]
fn connect_event_ip_unknown_family_is_none() {
    let e = ev(255, 0, [0; 16]);
    assert!(connect_event_ip(&e).is_none());
}

#[test]
fn event_ip_string_is_the_display_form() {
    assert_eq!(event_ip_string(&ev(4, 0x04030201, [0; 16])).as_deref(), Some("1.2.3.4"));
    assert_eq!(event_ip_string(&ev(6, 0, DOC_V6)).as_deref(), Some("2001:db8::1"));
    assert!(event_ip_string(&ev(4, 0, [0; 16])).is_none());
    assert!(event_ip_string(&ev(0, 1, DOC_V6)).is_none());
}

#[test]
fn flow_key_takes_the_event_fields() {
    let mut e = ev(6, 7, DOC_V6);
    e.pid = 42;
    e.start_ns = 9;
    let k = common_flow_key(&e);
    let want = FlowKey {
        pid: 42,
        _pad0: 0,
        start_ns: 9,
        daddr_v4: 7,
        daddr_v6: DOC_V6,
        dport: 443,
        family: 6,
        _pad: 0,
    };
    assert_eq!(k.pid, want.pid);
    assert_eq!(k._pad0, want._pad0);
    assert_eq!(k.start_ns, want.start_ns);
    assert_eq!(k.daddr_v4, want.daddr_v4);
    assert_eq!(k.daddr_v6, want.daddr_v6);
    assert_eq!(k.dport, want.dport);
    assert_eq!(k.family, want.family);
    assert_eq!(k._pad, want._pad);
}

#[test]
fn event_line_shows_what_is_known() {
    let mut e = ev(4, 0x0479_528c, [0; 16]);
    e.pid = 12453;
    e.uid = 1000;
    e.comm[..4].copy_from_slice(b"curl");
    assert_eq!(
        print_event(&e, None, None, None),
        "pid=12453 uid=1000 comm=curl exe=? host=? verdict=allow rule=- -> 140.82.121.4:443"
    );
    let v = Verdict { action: Action::Deny, rule_id: "block-github".to_string() };
    assert_eq!(
        print_event(&e, Some("/usr/bin/curl"), Some("github.com"), Some(&v)),
        "pid=12453 uid=1000 comm=curl exe=/usr/bin/curl host=github.com verdict=deny rule=block-github -> 140.82.121.4:443"
    );
    let e6 = ev(6, 0, DOC_V6);
    assert_eq!(
        print_event(&e6, None, None, None),
        "pid=0 uid=0 comm= exe=? host=? verdict=allow rule=- -> [2001:db8::1]:443"
    );
}

#[test]
fn enrich_reports_every_field() {
    let mut e = ev(4, 0x04030201, [0; 16]);
    e.pid = 5;
    e.uid = 6;
    e.comm[..4].copy_from_slice(b"wget");
    let v = Verdict { action: Action::Allow, rule_id: "ok".to_string() };
    let r = enrich(&e, Some("/usr/bin/wget"), None, Some(&v), 77);
    assert_eq!(r.ts_unix_ns, 77);
    assert_eq!((r.pid, r.uid), (5, 6));
    assert_eq!(r.comm, "wget");
    assert_eq!(r.exe_path.as_deref(), Some("/usr/bin/wget"));
    assert_eq!(r.hostname, None);
    assert_eq!(r.family, 4);
    assert_eq!(r.daddr_v4, 0x04030201);
    assert_eq!(r.dport, 443);
    assert_eq!(r.verdict, Reported::Allow);
    assert_eq!(r.matched_rule.as_deref(), Some("ok"));
    let r = enrich(&e, None, Some("h"), None, 0);
    assert_eq!(r.verdict, Reported::Allow);
    assert_eq!(r.matched_rule, None);
    assert_eq!(r.hostname.as_deref(), Some("h"));
}

#[test]
fn a_denied_flow_is_remembered_and_reported() {
    let e = ev(4, 0x04030201, [0; 16]);
    let mut cache = DnsCache::new();
    cache.insert(IpAddr::V4(0x01020304), DnsEntry { hostname: "github.com".to_string(), expires_at: 100 });
    let rules = [deny_rule(MatchField::DestHost, MatchOp::Suffix, "github.com")];
    let h = handle_event(&e, Some("/usr/bin/curl"), &cache, &rules, 50, 1);
    assert_eq!(h.deny.map(|k| k.dport), Some(443));
    assert_eq!(h.report.verdict, Reported::Deny);
    assert_eq!(h.report.matched_rule.as_deref(), Some("block"));
    assert!(h.line.contains("host=github.com verdict=deny rule=block"));
    // The name has run out: the rule no longer matches.
    let h = handle_event(&e, Some("/usr/bin/curl"), &cache, &rules, 100, 1);
    assert!(h.deny.is_none());
    assert_eq!(h.report.verdict, Reported::Allow);
}

#[test]
fn rules_see_the_destination_address() {
    let e = ev(6, 0, DOC_V6);
    let rules = [deny_rule(MatchField::DestIp, MatchOp::Exact, "2001:db8::1")];
    let h = handle_event(&e, None, &DnsCache::new(), &rules, 0, 0);
    assert!(h.deny.is_some());
    let h = handle_event(&ev(6, 0, [1; 16]), None, &DnsCache::new(), &rules, 0, 0);
    assert!(h.deny.is_none());
}

#[test]
fn lookup_host_respects_the_expiry() {
    let e = ev(4, 0x04030201, [0; 16]);
    let mut cache = DnsCache::new();
    assert!(lookup_host(&e, &cache, 0).is_none());
    cache.insert(IpAddr::V4(0x01020304), DnsEntry { hostname: "a.example".to_string(), expires_at: 10 });
    assert_eq!(lookup_host(&e, &cache, 9), Some("a.example"));
    assert_eq!(lookup_host(&e, &cache, 10), None);
    assert_eq!(lookup_host(&ev(4, 0, [0; 16]), &cache, 0), None);
}

#[test]
fn exe_is_looked_up_once() {
    let mut paths: HashMap<u32, Option<String>> = HashMap::new();
    assert!(!is_exe_known(7, &paths));
    assert_eq!(lookup_exe(7, &mut paths, Some("/usr/bin/curl".to_string())).as_deref(), Some("/usr/bin/curl"));
    assert!(is_exe_known(7, &paths));
    assert_eq!(lookup_exe(7, &mut paths, Some("/usr/bin/other".to_string())).as_deref(), Some("/usr/bin/curl"));
    assert_eq!(lookup_exe(8, &mut paths, None), None);
    assert_eq!(lookup_exe(8, &mut paths, Some("/late".to_string())), None);
    assert_eq!(paths.len(), 2);
}

#[test]
fn interfaces_that_are_up_or_unknown_are_watched() {
    assert!(interface_is_up("up\n"));
    assert!(interface_is_up(" unknown "));
    assert!(!interface_is_up("down\n"));
    assert!(!interface_is_up(""));
    assert!(!interface_is_up("u p"));
    let named = |n: &str, s: Option<&str>| Interface { name: n.to_string(), state: s.map(str::to_owned) };
    let up = list_up_interfaces(vec![
        named("lo", Some("unknown\n")),
        named("eth0", Some("up\n")),
        named("eth1", Some("down\n")),
        named("gone", None),
    ]);
    assert_eq!(up, vec!["lo".to_string(), "eth0".to_string()]);
}

#[test]
fn proc_entries_are_told_apart() {
    assert_eq!(pid_of_name("1"), Some(1));
    assert_eq!(pid_of_name("4294967295"), Some(u32::MAX));
    assert_eq!(pid_of_name("4294967296"), None);
    assert_eq!(pid_of_name("99999999999999"), None);
    assert_eq!(pid_of_name("007"), Some(7));
    assert_eq!(pid_of_name("+5"), Some(5));
    assert_eq!(pid_of_name("+"), None);
    assert_eq!(pid_of_name("-5"), None);
    assert_eq!(pid_of_name("self"), None);
    assert_eq!(pid_of_name("12a"), None);
    assert_eq!(pid_of_name(""), None);
    // As std parses.
    assert_eq!("+5".parse::<u32>().ok(), pid_of_name("+5"));
    assert_eq!("007".parse::<u32>().ok(), pid_of_name("007"));
}
