use dadophoros::app::{
    event_matches, format_addr, ip_string, short_path, texts_match, AggKey, App, InputAction, ModalState, MAX_EVENTS,
};
use dadophoros::input::{handle_input, handle_rules_input, rule_msg};
use dadophoros::proto::{ClientMessage, DenyRuleKind, EnrichedEvent, RuleAction, RuleInfo, ServerMessage, Stats, Verdict};
use dadophoros::term::{Event, KeyCode, KeyEvent, KeyEventKind, KeyModifiers};
use dadophoros::tui::{
    after_edit, after_input, check_hello, draw_status, editor_of, is_subscribed, note_edit, on_message, on_tick,
    on_write_failed, tab_index, tab_titles, EditOutcome, NextStep, SpanColor,
};
use dadophoros::views::View;

fn make_event(pid: u32, comm: &str, host: Option<&str>, port: u16, verdict: Verdict) -> EnrichedEvent {
    EnrichedEvent {
        ts_unix_ns: 0,
        pid,
        uid: 1000,
        comm: comm.to_string(),
        exe_path: Some(format!("/usr/bin/{comm}")),
        family: 4,
        daddr_v4: 0x01020304,
        daddr_v6: [0; 16],
        dport: port,
        hostname: host.map(str::to_owned),
        verdict,
        matched_rule: None,
    }
}

fn rule_info(id: &str, enabled: bool) -> RuleInfo {
    RuleInfo {
        id: id.to_string(),
        priority: 100,
        enabled,
        action: RuleAction::Deny,
        duration: "persistent".into(),
        matches: vec!["dest_host suffix .example.com".into()],
        path: format!("/etc/dadophoros/rules.d/{id}.toml"),
    }
}

fn key(code: KeyCode) -> Event {
    Event::Key(KeyEvent::new(code, KeyModifiers::none()))
}

fn three_rows() -> App {
    let mut app = App::new("test".into());
    app.push(make_event(1, "curl", Some("github.com"), 443, Verdict::Allow));
    app.push(make_event(2, "firefox", Some("example.com"), 443, Verdict::Allow));
    app.push(make_event(3, "wget", Some("api.github.com"), 80, Verdict::Allow));
    app
}

#[test]
fn push_appends_first_event() {
    let mut app = App::new("test".into());
    app.push(make_event(1, "curl", Some("github.com"), 443, Verdict::Allow));
    assert_eq!(app.events.len(), 1);
    assert_eq!(app.events[0].count, 1);
}

#[test]
fn push_dedupes_same_tuple() {
    let mut app = App::new("test".into());
    for _ in 0..5 {
        app.push(make_event(1, "curl", Some("github.com"), 443, Verdict::Allow));
    }
    assert_eq!(app.events.len(), 1);
    assert_eq!(app.events[0].count, 5);
}

#[test]
fn push_distinguishes_different_ports() {
    let mut app = App::new("test".into());
    app.push(make_event(1, "curl", Some("github.com"), 443, Verdict::Allow));
    app.push(make_event(1, "curl", Some("github.com"), 80, Verdict::Allow));
    assert_eq!(app.events.len(), 2);
}

#[test]
fn push_distinguishes_different_comm_threads() {
    let mut app = App::new("test".into());
    app.push(make_event(1, "DNS Res~er #112", Some("127.0.0.53"), 53, Verdict::Allow));
    app.push(make_event(1, "DNS Res~er #102", Some("127.0.0.53"), 53, Verdict::Allow));
    assert_eq!(app.events.len(), 2);
}

#[test]
fn push_updates_latest_verdict_on_dedup() {
    let mut app = App::new("test".into());
    app.push(make_event(1, "curl", Some("github.com"), 443, Verdict::Allow));
    app.push(make_event(1, "curl", Some("github.com"), 443, Verdict::Deny));
    assert_eq!(app.events[0].count, 2);
    assert_eq!(app.events[0].event.verdict, Verdict::Deny);
}

#[test]
fn a_full_table_drops_its_oldest_row() {
    let mut app = App::new("test".into());
    // Rows are pushed to the back directly, to keep this short.
    for pid in 0..MAX_EVENTS as u32 {
        app.events.push_back(dadophoros::app::Aggregate {
            event: make_event(pid, "c", None, 1, Verdict::Allow),
            count: 1,
            last_ts: 0,
        });
    }
    let mut again = make_event(5, "c", None, 1, Verdict::Allow);
    again.ts_unix_ns = 9;
    app.push(again);
    assert_eq!(app.events.len(), MAX_EVENTS);
    assert_eq!((app.events[5].count, app.events[5].last_ts), (2, 9));
    app.push(make_event(u32::MAX, "c", None, 1, Verdict::Allow));
    assert_eq!(app.events.len(), MAX_EVENTS);
    assert_eq!(app.events[0].event.pid, 1);
    assert_eq!(app.events[MAX_EVENTS - 1].event.pid, u32::MAX);
}

#[test]
fn agg_key_falls_back_to_ip_when_no_hostname() {
    let mut ev = make_event(1, "curl", None, 443, Verdict::Allow);
    ev.daddr_v4 = 0x04030201;
    let key = AggKey::of(&ev);
    assert_eq!(key.host_or_ip, "1.2.3.4");
}

#[test]
fn agg_key_uses_hostname_when_present() {
    let ev = make_event(1, "curl", Some("github.com"), 443, Verdict::Allow);
    let key = AggKey::of(&ev);
    assert_eq!(key.host_or_ip, "github.com");
}

#[test]
fn addresses_are_shown_and_sent() {
    let mut ev = make_event(1, "curl", None, 443, Verdict::Allow);
    ev.family = 6;
    ev.daddr_v6[15] = 1;
    assert_eq!(ip_string(&ev), "::1");
    assert_eq!(format_addr(&ev), "[::1]");
    assert_eq!(AggKey::of(&ev).host_or_ip, "[::1]");
    ev.exe_path = None;
    assert_eq!(AggKey::of(&ev).exe, "");
}

#[test]
fn short_path_basename_when_no_slash() {
    assert_eq!(short_path("foo"), "foo");
}

#[test]
fn short_path_two_segment_path() {
    assert_eq!(short_path("/usr/bin/curl"), ".../bin/curl");
}

#[test]
fn short_path_deep_path() {
    assert_eq!(
        short_path("/snap/firefox/7901/usr/lib/firefox/firefox"),
        ".../firefox/firefox"
    );
}

#[test]
fn short_path_edges() {
    assert_eq!(short_path(""), "");
    assert_eq!(short_path("/curl"), ".../" .to_string() + "/curl");
    assert_eq!(short_path("bin/"), ".../bin/");
    assert_eq!(short_path("/"), ".../" .to_string() + "/");
}

#[test]
fn event_matches_substring_case_insensitive() {
    let ev = make_event(1, "Firefox", Some("MAIL.GOOGLE.com"), 443, Verdict::Allow);
    assert!(event_matches(&ev, "google"));
    assert!(event_matches(&ev, "firefox"));
    assert!(!event_matches(&ev, "github"));
}

#[test]
fn needles_are_looked_for_in_all_texts() {
    assert!(texts_match("curl", Some("/usr/bin/curl"), Some("h.example"), "1.2.3.4", "curl /usr"));
    assert!(texts_match("curl", None, None, "1.2.3.4", "curl 1.2"));
    assert!(texts_match("curl", None, Some("h"), "1.2.3.4", "h 1"));
    assert!(!texts_match("curl", None, None, "1.2.3.4", "CURL"));
    assert!(texts_match("", None, None, "", ""));
    let ev = make_event(1, "ÄÖ", None, 1, Verdict::Allow);
    assert!(event_matches(&ev, "äö"));
    assert!(event_matches(&ev, "4.3.2.1"));
}

#[test]
fn optimistically_deny_marks_matching_rows_by_host() {
    let mut app = App::new("test".into());
    app.push(make_event(1, "curl", Some("github.com"), 443, Verdict::Allow));
    app.push(make_event(2, "firefox", Some("github.com"), 443, Verdict::Allow));
    app.push(make_event(3, "wget", Some("example.com"), 443, Verdict::Allow));
    let target = make_event(1, "curl", Some("github.com"), 443, Verdict::Allow);
    app.optimistically_deny(&target, DenyRuleKind::Host);
    let mut by_host: std::collections::HashMap<String, Verdict> = Default::default();
    for a in &app.events {
        let h = a.event.hostname.clone().unwrap_or_default();
        by_host.insert(h, a.event.verdict);
    }
    assert_eq!(by_host.get("github.com"), Some(&Verdict::Deny));
    assert_eq!(by_host.get("example.com"), Some(&Verdict::Allow));
}

#[test]
fn optimistically_deny_marks_matching_rows_by_ip() {
    let mut app = App::new("test".into());
    app.push(make_event(1, "curl", Some("github.com"), 443, Verdict::Allow));
    let target = make_event(1, "curl", Some("github.com"), 443, Verdict::Allow);
    app.optimistically_deny(&target, DenyRuleKind::Ip);
    assert_eq!(app.events[0].event.verdict, Verdict::Deny);
}

#[test]
fn marked_rows_wait_for_their_rule() {
    let mut app = three_rows();
    app.events[0].event.matched_rule = Some("old".into());
    let target = make_event(9, "curl", Some("github.com"), 1, Verdict::Allow);
    app.optimistically_deny(&target, DenyRuleKind::Both);
    assert_eq!(app.events[0].event.verdict, Verdict::Deny);
    assert_eq!(app.events[0].event.matched_rule.as_deref(), Some("old"));
    assert_eq!(app.events[1].event.verdict, Verdict::Allow);
    assert_eq!(app.events[1].event.matched_rule, None);
    let target = make_event(9, "wget", None, 1, Verdict::Allow);
    app.optimistically_deny(&target, DenyRuleKind::Process);
    assert_eq!(app.events[2].event.matched_rule.as_deref(), Some("(pending)"));
    assert_eq!(app.events.len(), 3);
}

#[test]
fn filter_narrows_visible_rows() {
    let mut app = App::new("test".into());
    app.push(make_event(1, "curl", Some("github.com"), 443, Verdict::Allow));
    app.push(make_event(2, "firefox", Some("example.com"), 443, Verdict::Allow));
    assert_eq!(app.filtered_indices().len(), 2);
    app.filter = "github".into();
    assert_eq!(app.filtered_indices().len(), 1);
}

#[test]
fn scrolling_stays_within_the_shown_rows() {
    let mut app = three_rows();
    app.scroll(-1);
    assert_eq!(app.state.selected(), Some(1));
    assert!(!app.follow);
    app.scroll(5);
    assert_eq!(app.state.selected(), Some(2));
    assert!(app.follow);
    app.scroll(-20);
    assert_eq!(app.state.selected(), Some(0));
    app.filter = "GitHub".into();
    assert_eq!(app.filtered_indices(), vec![0, 2]);
    app.scroll(1);
    assert_eq!(app.state.selected(), Some(2));
    app.state.select(Some(1));
    app.scroll(-1);
    assert_eq!(app.state.selected(), Some(0));
    app.jump_to_end();
    assert_eq!(app.state.selected(), Some(2));
    app.jump_to_start();
    assert_eq!((app.state.selected(), app.follow), (Some(0), false));
    app.filter = "nothing like it".into();
    app.jump_to_start();
    assert_eq!(app.state.selected(), Some(0));
    app.state.offset = 7;
    app.scroll(1);
    assert_eq!((app.state.selected(), app.state.offset), (None, 0));
    app.filter = String::new();
    app.scroll(isize::MAX);
    assert_eq!(app.state.selected(), Some(2));
    app.scroll(isize::MIN);
    assert_eq!(app.state.selected(), Some(0));
}

#[test]
fn rule_msg_picks_up_event_fields() {
    let ev = make_event(7, "curl", Some("github.com"), 443, Verdict::Allow);
    let msg = rule_msg(&ev, DenyRuleKind::Both);
    match msg {
        ClientMessage::CreateDenyRule { exe_path, hostname, dest_ip, dport, by } => {
            assert_eq!(exe_path.as_deref(), Some("/usr/bin/curl"));
            assert_eq!(hostname.as_deref(), Some("github.com"));
            assert!(dest_ip.is_some());
            assert_eq!(dport, 443);
            assert_eq!(by, DenyRuleKind::Both);
        }
        _ => panic!("expected CreateDenyRule"),
    }
}

#[test]
fn set_rules_clamps_selection() {
    let mut app = App::new("test".into());
    app.set_rules(vec![
        rule_info("a", true),
        rule_info("b", false),
        rule_info("c", true),
    ]);
    app.rules_state.select(Some(2));
    // Shrinking the list must not leave a dangling selection.
    app.set_rules(vec![rule_info("a", true)]);
    assert_eq!(app.rules_state.selected(), Some(0));
    app.set_rules(vec![]);
    assert_eq!(app.rules_state.selected(), None);
}

#[test]
fn rules_scroll_clamps_to_bounds() {
    let mut app = App::new("test".into());
    app.set_rules(vec![rule_info("a", true), rule_info("b", false)]);
    app.rules_state.select(Some(0));
    app.rules_scroll(-1);
    assert_eq!(app.rules_state.selected(), Some(0));
    app.rules_scroll(5);
    assert_eq!(app.rules_state.selected(), Some(1));
}

#[test]
fn switch_to_requests_view_data() {
    let mut app = App::new("test".into());
    assert!(matches!(
        app.switch_to(View::Rules),
        InputAction::Send(ClientMessage::ListRules)
    ));
    assert_eq!(app.view, View::Rules);
    assert!(matches!(
        app.switch_to(View::Stats),
        InputAction::Send(ClientMessage::GetStats)
    ));
    assert!(matches!(app.switch_to(View::Live), InputAction::Nothing));
}

#[test]
fn rules_toggle_sends_inverted_enabled() {
    let mut app = App::new("test".into());
    app.view = View::Rules;
    app.set_rules(vec![rule_info("block-dc", true)]);
    app.rules_state.select(Some(0));
    let key = KeyEvent::new(KeyCode::Char('t'), KeyModifiers::none());
    match handle_rules_input(key, &mut app) {
        InputAction::Send(ClientMessage::SetRuleEnabled { id, enabled }) => {
            assert_eq!(id, "block-dc");
            assert!(!enabled);
        }
        _ => panic!("expected SetRuleEnabled"),
    }
}

#[test]
fn rules_edit_returns_path() {
    let mut app = App::new("test".into());
    app.view = View::Rules;
    app.set_rules(vec![rule_info("block-dc", true)]);
    app.rules_state.select(Some(0));
    let key = KeyEvent::new(KeyCode::Char('e'), KeyModifiers::none());
    match handle_rules_input(key, &mut app) {
        InputAction::EditRule(p) => assert!(p.ends_with("block-dc.toml")),
        _ => panic!("expected EditRule"),
    }
}

#[test]
fn the_dialog_turns_a_row_into_a_rule() {
    let mut app = three_rows();
    app.state.select(Some(0));
    assert!(matches!(handle_input(key(KeyCode::Char('d')), &mut app), InputAction::Nothing));
    assert!(app.modal.is_some());
    // Other keys are caught by the dialog.
    assert!(matches!(handle_input(key(KeyCode::Char('q')), &mut app), InputAction::Nothing));
    match handle_input(key(KeyCode::Char('h')), &mut app) {
        InputAction::Send(ClientMessage::CreateDenyRule { hostname, by, .. }) => {
            assert_eq!(hostname.as_deref(), Some("github.com"));
            assert_eq!(by, DenyRuleKind::Host);
        }
        _ => panic!("expected CreateDenyRule"),
    }
    assert!(app.modal.is_none());
    assert_eq!(app.events[0].event.verdict, Verdict::Deny);
    assert_eq!(app.events[1].event.verdict, Verdict::Allow);
    // A host rule covers subdomains.
    assert_eq!(app.events[2].event.verdict, Verdict::Deny);
}

#[test]
fn a_marked_host_covers_its_subdomains() {
    let mut app = App::new("test".into());
    app.push(make_event(1, "curl", Some("api.github.com"), 443, Verdict::Allow));
    let target = make_event(1, "curl", Some("github.com"), 443, Verdict::Allow);
    app.optimistically_deny(&target, DenyRuleKind::Host);
    assert_eq!(app.events[0].event.verdict, Verdict::Deny);
    let mut app = App::new("test".into());
    app.push(make_event(1, "curl", Some("github.com"), 443, Verdict::Allow));
    app.push(make_event(2, "curl", None, 443, Verdict::Allow));
    let target = make_event(1, "curl", Some("api.github.com"), 443, Verdict::Allow);
    app.optimistically_deny(&target, DenyRuleKind::Host);
    app.optimistically_deny(&target, DenyRuleKind::Both);
    let target = make_event(1, "curl", None, 443, Verdict::Allow);
    app.optimistically_deny(&target, DenyRuleKind::Host);
    assert_eq!(app.events[0].event.verdict, Verdict::Allow);
    assert_eq!(app.events[1].event.verdict, Verdict::Allow);
}

#[test]
fn the_dialog_offers_only_what_the_row_has() {
    let mut app = App::new("test".into());
    let mut ev = make_event(1, "curl", None, 443, Verdict::Allow);
    ev.exe_path = None;
    app.modal = Some(ModalState { event: ev });
    for c in ['h', 'p', 'b', 'x'] {
        assert!(matches!(handle_input(key(KeyCode::Char(c)), &mut app), InputAction::Nothing));
        assert!(app.modal.is_some());
    }
    assert!(matches!(
        handle_input(key(KeyCode::Char('i')), &mut app),
        InputAction::Send(ClientMessage::CreateDenyRule { by: DenyRuleKind::Ip, .. })
    ));
    app.modal = Some(ModalState { event: make_event(1, "a", Some("b"), 1, Verdict::Allow) });
    assert!(matches!(handle_input(key(KeyCode::Esc), &mut app), InputAction::Nothing));
    assert!(app.modal.is_none());
}

#[test]
fn the_filter_prompt_takes_text() {
    let mut app = three_rows();
    app.filter = "old".into();
    handle_input(key(KeyCode::Char('/')), &mut app);
    assert!(app.filter_mode);
    assert_eq!(app.filter, "");
    for c in ['q', '1', 'x'] {
        assert!(matches!(handle_input(key(KeyCode::Char(c)), &mut app), InputAction::Nothing));
    }
    handle_input(key(KeyCode::Backspace), &mut app);
    assert_eq!(app.filter, "q1");
    handle_input(key(KeyCode::Enter), &mut app);
    assert!(!app.filter_mode);
    assert_eq!(app.filter, "q1");
    handle_input(key(KeyCode::Char('/')), &mut app);
    handle_input(key(KeyCode::Char('z')), &mut app);
    handle_input(key(KeyCode::Esc), &mut app);
    assert_eq!((app.filter.as_str(), app.filter_mode), ("", false));
}

#[test]
fn keys_move_between_tabs_and_quit() {
    let mut app = App::new("test".into());
    assert!(matches!(handle_input(key(KeyCode::Tab), &mut app), InputAction::Send(ClientMessage::ListRules)));
    assert!(matches!(handle_input(key(KeyCode::Tab), &mut app), InputAction::Send(ClientMessage::GetStats)));
    assert!(matches!(handle_input(key(KeyCode::Char('r')), &mut app), InputAction::Send(ClientMessage::GetStats)));
    assert!(matches!(handle_input(key(KeyCode::Tab), &mut app), InputAction::Nothing));
    assert_eq!(app.view, View::Live);
    assert!(matches!(handle_input(key(KeyCode::Char('2')), &mut app), InputAction::Send(ClientMessage::ListRules)));
    assert!(matches!(handle_input(key(KeyCode::Char('r')), &mut app), InputAction::Send(ClientMessage::ListRules)));
    assert!(matches!(handle_input(key(KeyCode::Char('t')), &mut app), InputAction::Nothing));
    assert!(matches!(handle_input(key(KeyCode::Char('q')), &mut app), InputAction::Quit));
    assert!(matches!(handle_input(Event::Other, &mut app), InputAction::Nothing));
    let mut released = KeyEvent::new(KeyCode::Char('q'), KeyModifiers::none());
    released.kind = KeyEventKind::Release;
    assert!(matches!(handle_input(Event::Key(released), &mut app), InputAction::Nothing));
    app.filter_mode = true;
    let ctrl_c = KeyEvent::new(KeyCode::Char('c'), KeyModifiers { control: true });
    assert!(matches!(handle_input(Event::Key(ctrl_c), &mut app), InputAction::Quit));
}

#[test]
fn live_keys_scroll() {
    let mut app = three_rows();
    handle_input(key(KeyCode::Home), &mut app);
    assert_eq!(app.state.selected(), Some(0));
    handle_input(key(KeyCode::Down), &mut app);
    assert_eq!(app.state.selected(), Some(1));
    handle_input(key(KeyCode::PageDown), &mut app);
    assert_eq!(app.state.selected(), Some(2));
    handle_input(key(KeyCode::PageUp), &mut app);
    assert_eq!(app.state.selected(), Some(0));
    handle_input(key(KeyCode::Char('G')), &mut app);
    assert_eq!(app.state.selected(), Some(2));
    handle_input(key(KeyCode::Up), &mut app);
    assert_eq!(app.state.selected(), Some(1));
    assert_eq!(app.selected_event().unwrap().pid, 2);
    handle_input(key(KeyCode::Other), &mut app);
    assert_eq!(app.state.selected(), Some(1));
}

#[test]
fn messages_update_the_client() {
    let mut app = App::new("0.1.0".into());
    let ev = make_event(1, "curl", Some("github.com"), 443, Verdict::Allow);
    assert!(matches!(on_message(&mut app, Some(ServerMessage::Event(ev))), NextStep::Continue));
    assert_eq!((app.events.len(), app.state.selected()), (1, Some(0)));
    app.follow = false;
    on_message(&mut app, Some(ServerMessage::Event(make_event(2, "w", None, 1, Verdict::Allow))));
    assert_eq!((app.events.len(), app.state.selected()), (2, Some(0)));
    on_message(&mut app, Some(ServerMessage::Rules(vec![rule_info("a", true)])));
    assert_eq!(app.rules_state.selected(), Some(0));
    on_message(&mut app, Some(ServerMessage::Stats(Stats::default())));
    assert!(app.stats.is_some());
    assert!(matches!(on_message(&mut app, Some(ServerMessage::Ack)), NextStep::Continue));
    assert_eq!(app.last_ack.as_deref(), Some("ok"));
    app.view = View::Rules;
    assert!(matches!(
        on_message(&mut app, Some(ServerMessage::Ack)),
        NextStep::Send(ClientMessage::ListRules)
    ));
    on_message(&mut app, Some(ServerMessage::Hello { daemon_version: "9".into() }));
    assert_eq!(app.daemon_version, "0.1.0");
    on_message(&mut app, Some(ServerMessage::Error("refused".into())));
    assert!(app.last_ack_is_error);
    let red = draw_status(&app).into_iter().find(|s| s.color == SpanColor::Red).unwrap();
    assert_eq!(red.text, "refused");
    assert!(matches!(on_message(&mut app, None), NextStep::Stop));
    assert!(!app.connected);
    app.connected = true;
    assert!(matches!(on_write_failed(&mut app), NextStep::Stop));
    assert!(!app.connected);
}

#[test]
fn stats_are_refreshed_every_tenth_tick() {
    let mut app = App::new("v".into());
    assert!(matches!(on_tick(&app, 9), (10, NextStep::Continue)));
    app.view = View::Stats;
    assert!(matches!(on_tick(&app, 9), (10, NextStep::Send(ClientMessage::GetStats))));
    assert!(matches!(on_tick(&app, 10), (11, NextStep::Continue)));
}

#[test]
fn the_handshake_is_checked() {
    assert_eq!(check_hello(ServerMessage::Hello { daemon_version: "1".into() }).unwrap(), "1");
    assert!(matches!(check_hello(ServerMessage::Ack), Err(ServerMessage::Ack)));
    assert!(is_subscribed(&ServerMessage::Ack));
    assert!(!is_subscribed(&ServerMessage::Error("no".into())));
}

#[test]
fn the_editor_is_chosen_and_its_end_noted() {
    assert_eq!(editor_of(Some("a".into()), Some("b".into())), "a");
    assert_eq!(editor_of(None, Some("b".into())), "b");
    assert_eq!(editor_of(None, None), "vi");
    let mut app = App::new("v".into());
    note_edit(&mut app, "vi", EditOutcome::Success);
    assert_eq!((app.last_ack.as_deref(), app.last_ack_is_error), (Some("edited; reloading rules"), false));
    note_edit(&mut app, "vi", EditOutcome::Failed("exit status: 1".into()));
    assert_eq!((app.last_ack.as_deref(), app.last_ack_is_error), (Some("vi exited with exit status: 1"), true));
    note_edit(&mut app, "vi", EditOutcome::NotLaunched("no such file".into()));
    assert_eq!(app.last_ack.as_deref(), Some("could not launch vi: no such file"));
}

#[test]
fn the_status_bar_tells_what_is_going_on() {
    let mut app = App::new("0.1.0".into());
    let texts = |app: &App| -> Vec<String> { draw_status(app).into_iter().map(|s| s.text).collect() };
    let help = "Tab views  ↑↓ scroll  / filter  d deny-rule  End follow  q quit";
    assert_eq!(texts(&app), vec!["daemon v0.1.0", "  ", "", "  ", help]);
    app.filter = "git".into();
    assert_eq!(texts(&app)[2], "filter: git");
    app.filter_mode = true;
    assert_eq!(texts(&app)[2], "/git");
    app.view = View::Stats;
    app.connected = false;
    app.last_ack = Some("ok".into());
    assert_eq!(texts(&app), vec!["disconnected", "  ", "", "  ", "ok", "  ", "Tab views  r refresh  q quit"]);
    assert_eq!(draw_status(&app)[4].color, SpanColor::Green);
    assert_eq!(tab_titles(), ["1 Live", "2 Rules", "3 Stats"]);
    assert_eq!(tab_index(View::Rules), 1);
}

#[test]
fn a_refused_rule_marks_no_row() {
    let mut app = App::new("test".into());
    app.push(make_event(1, "curl", Some("a.com"), 443, Verdict::Allow));
    app.push(make_event(2, "curl", Some(""), 443, Verdict::Allow));
    let mut bare = make_event(3, "wget", None, 443, Verdict::Allow);
    bare.exe_path = None;
    app.push(bare.clone());
    let mut empty = bare.clone();
    empty.pid = 4;
    empty.exe_path = Some(String::new());
    app.push(empty.clone());
    // The dialog on a flow whose host name is the empty text.
    app.modal = Some(ModalState { event: make_event(9, "curl", Some(""), 443, Verdict::Allow) });
    assert!(matches!(
        handle_input(key(KeyCode::Char('h')), &mut app),
        InputAction::Send(ClientMessage::CreateDenyRule { by: DenyRuleKind::Host, .. })
    ));
    app.optimistically_deny(&bare, DenyRuleKind::Process);
    app.optimistically_deny(&empty, DenyRuleKind::Process);
    app.optimistically_deny(&bare, DenyRuleKind::Host);
    app.optimistically_deny(&make_event(9, "curl", Some(""), 443, Verdict::Allow), DenyRuleKind::Both);
    let mut half = make_event(9, "curl", Some("a.com"), 443, Verdict::Allow);
    half.exe_path = None;
    app.optimistically_deny(&half, DenyRuleKind::Both);
    assert!(app.events.iter().all(|r| r.event.verdict == Verdict::Allow));
}

#[test]
fn letter_case_does_not_matter_to_a_filter() {
    let mut app = three_rows();
    let mut shown = |filter: &str| {
        app.filter = filter.to_string();
        app.filtered_indices()
    };
    assert_eq!(shown("GitHub.COM"), vec![0, 2]);
    assert_eq!(shown("github.com"), vec![0, 2]);
    // Lengthening a filter narrows.
    assert_eq!(shown("GIT"), vec![0, 2]);
    assert_eq!(shown("api.GIT"), vec![2]);
    assert_eq!(shown(""), vec![0, 1, 2]);
    let lower = make_event(1, "curl", Some("github.com"), 443, Verdict::Allow);
    let mut upper = make_event(1, "cURL", Some("GitHub.com"), 443, Verdict::Allow);
    upper.exe_path = Some("/USR/bin/CURL".into());
    for needle in ["curl", "usr/bin", "github", "GITHUB", "CURL", "4.3.2.1", ""] {
        assert_eq!(event_matches(&lower, needle), event_matches(&upper, needle));
    }
    assert!(event_matches(&upper, "/usr/bin/curl github.com "));
    assert!(!event_matches(&upper, "GitHub"));
}

#[test]
fn keys_and_the_editor_lead_to_the_next_step() {
    assert!(matches!(after_input(InputAction::Nothing), NextStep::Continue));
    assert!(matches!(after_input(InputAction::Quit), NextStep::Stop));
    assert!(matches!(
        after_input(InputAction::Send(ClientMessage::GetStats)),
        NextStep::Send(ClientMessage::GetStats)
    ));
    match after_input(InputAction::EditRule("/r/a.toml".into())) {
        NextStep::Edit(path) => assert_eq!(path, "/r/a.toml"),
        _ => panic!("expected Edit"),
    }
    assert!(matches!(after_edit(true), NextStep::Send(ClientMessage::ListRules)));
    assert!(matches!(after_edit(false), NextStep::Stop));
}
