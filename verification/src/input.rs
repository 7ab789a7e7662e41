//! What keys do.

use vstd::prelude::*;
use vstd::string::*;

use crate::addr;
use crate::app;
use crate::app::{App, InputAction, ModalState};
use crate::common::ConnectEvent;
use crate::daemon;
use crate::deny_rule;
use crate::dns;
use crate::proto::{ClientMessage, DenyRuleKind, EnrichedEvent};
use crate::rules;
use crate::rules::{Action, Facts, Rule};
use crate::term::{Event, KeyCode, KeyEvent, KeyEventKind};
use crate::text;
use crate::views;

verus! {

broadcast use vstd::std_specs::vecdeque::group_vec_dequeue_axioms;

/// `m` asks for a deny rule of a kind made from a flow.
pub open spec fn is_rule_msg(m: ClientMessage, ev: EnrichedEvent, by: DenyRuleKind) -> bool {
    match m {
        ClientMessage::CreateDenyRule { exe_path, hostname, dest_ip, dport, by: kind } => {
            &&& exe_path == ev.exe_path
            &&& hostname == ev.hostname
            &&& text::opt_text(dest_ip) == Some(app::ip_text(ev))
            &&& dport == ev.dport
            &&& kind == by
        },
        _ => false,
    }
}

/// Asks for a deny rule of a kind made from a flow.
pub fn rule_msg(ev: &EnrichedEvent, by: DenyRuleKind) -> (m: ClientMessage)
    ensures
        is_rule_msg(m, *ev, by),
{
    ClientMessage::CreateDenyRule {
        exe_path: ev.exe_path.clone(),
        hostname: ev.hostname.clone(),
        dest_ip: Some(app::ip_string(ev)),
        dport: ev.dport,
        by,
    }
}

/// What the deny dialog makes of a key: the kind of rule it stands for, where the flow has
/// what that kind needs.
pub open spec fn kind_for(code: KeyCode, ev: EnrichedEvent) -> Option<DenyRuleKind> {
    if code == KeyCode::Char('h') && ev.hostname is Some {
        Some(DenyRuleKind::Host)
    } else if code == KeyCode::Char('p') && ev.exe_path is Some {
        Some(DenyRuleKind::Process)
    } else if code == KeyCode::Char('i') {
        Some(DenyRuleKind::Ip)
    } else if code == KeyCode::Char('b') && ev.hostname is Some && ev.exe_path is Some {
        Some(DenyRuleKind::Both)
    } else {
        None
    }
}

/// What a key does in the deny dialog.
pub open spec fn is_modal_step(code: KeyCode, before: App, after: App, a: InputAction) -> bool {
    match before.modal {
        None => after == before && a is Nothing,
        Some(modal) => if code == KeyCode::Esc {
            after == (App { modal: None, ..before }) && a is Nothing
        } else {
            match kind_for(code, modal.event) {
                Some(by) => {
                    &&& after == (App { modal: None, events: after.events, ..before })
                    &&& app::are_marked(before.events@, after.events@, modal.event, by)
                    &&& a matches InputAction::Send(m)
                    &&& is_rule_msg(m, modal.event, by)
                },
                None => after == before && a is Nothing,
            }
        },
    }
}

/// What a key does in the filter prompt.
pub open spec fn is_filter_step(code: KeyCode, before: App, after: App) -> bool {
    &&& after == (App { filter: after.filter, filter_mode: after.filter_mode, ..before })
    &&& after.filter_mode == (before.filter_mode && code != KeyCode::Esc && code != KeyCode::Enter)
    &&& after.filter@ == match code {
        KeyCode::Esc => Seq::empty(),
        KeyCode::Backspace => if before.filter@.len() == 0 {
            before.filter@
        } else {
            before.filter@.drop_last()
        },
        KeyCode::Char(c) => before.filter@.push(c),
        _ => before.filter@,
    }
}

/// What a key does in the live tab.
pub open spec fn is_live_step(code: KeyCode, before: App, after: App) -> bool {
    match code {
        KeyCode::Up => app::is_scrolled(before, -1, after),
        KeyCode::Down => app::is_scrolled(before, 1, after),
        KeyCode::PageUp => app::is_scrolled(before, -20, after),
        KeyCode::PageDown => app::is_scrolled(before, 20, after),
        KeyCode::Home => app::is_at_start(before, after),
        KeyCode::End => app::is_at_end(before, after),
        KeyCode::Char('G') => app::is_at_end(before, after),
        KeyCode::Char('/') => after == (App { filter: after.filter, filter_mode: true, ..before })
            && after.filter@.len() == 0,
        KeyCode::Char('d') => after == (App {
            modal: match before.state.selected {
                Some(i) => if i < before.events@.len() {
                    Some(ModalState { event: before.events@[i as int].event })
                } else {
                    before.modal
                },
                None => before.modal,
            },
            ..before
        }),
        _ => after == before,
    }
}

/// What a key does in the rules tab.
pub open spec fn is_rules_step(code: KeyCode, before: App, after: App, a: InputAction) -> bool {
    match code {
        KeyCode::Up => app::is_rules_scrolled(before, -1, after) && a is Nothing,
        KeyCode::Down => app::is_rules_scrolled(before, 1, after) && a is Nothing,
        KeyCode::Char('r') => after == before && a == InputAction::Send(ClientMessage::ListRules),
        KeyCode::Char('t') | KeyCode::Char(' ') => after == before && match app::rule_in(before) {
            Some(rule) => a == InputAction::Send(
                ClientMessage::SetRuleEnabled { id: rule.id, enabled: !rule.enabled },
            ),
            None => a is Nothing,
        },
        KeyCode::Char('e') => after == before && match app::rule_in(before) {
            Some(rule) => a == InputAction::EditRule(rule.path),
            None => a is Nothing,
        },
        _ => after == before && a is Nothing,
    }
}

/// What a key does in the stats tab.
pub open spec fn is_stats_step(code: KeyCode, a: InputAction) -> bool {
    if code == KeyCode::Char('r') {
        a == InputAction::Send(ClientMessage::GetStats)
    } else {
        a is Nothing
    }
}

/// The tab that a key goes to.
pub open spec fn tab_for(code: KeyCode, view: views::View) -> Option<views::View> {
    match code {
        KeyCode::Tab => Some(views::tab_after(view)),
        KeyCode::Char('1') => Some(views::View::Live),
        KeyCode::Char('2') => Some(views::View::Rules),
        KeyCode::Char('3') => Some(views::View::Stats),
        _ => None,
    }
}

/// What a key does where neither a dialog nor a prompt is open.
pub open spec fn is_tab_step(code: KeyCode, before: App, after: App, a: InputAction) -> bool {
    match tab_for(code, before.view) {
        Some(view) => after == (App { view, ..before }) && app::asks_for(view, a),
        None => if code == KeyCode::Char('q') {
            after == before && a is Quit
        } else {
            match before.view {
                views::View::Live => is_live_step(code, before, after) && a is Nothing,
                views::View::Rules => is_rules_step(code, before, after, a),
                views::View::Stats => after == before && is_stats_step(code, a),
            }
        },
    }
}

/// What an event does. Only keys that are pressed count; Ctrl-C quits in any case, then an
/// open dialog takes the key, then an open prompt, then the tab.
pub open spec fn is_input_step(event: Event, before: App, after: App, a: InputAction) -> bool {
    match event {
        Event::Key(key) => if key.kind != KeyEventKind::Press {
            after == before && a is Nothing
        } else if key.code == KeyCode::Char('c') && key.modifiers.control {
            after == before && a is Quit
        } else if before.modal is Some {
            is_modal_step(key.code, before, after, a)
        } else if before.filter_mode {
            is_filter_step(key.code, before, after) && a is Nothing
        } else {
            is_tab_step(key.code, before, after, a)
        },
        Event::Other => after == before && a is Nothing,
    }
}

/// What a key does in the deny dialog.
pub fn handle_modal_input(key: KeyEvent, app: &mut App) -> (a: InputAction)
    ensures
        is_modal_step(key.code, *old(app), *final(app), a),
{
    let target = match &app.modal {
        Some(modal) => modal.event.clone(),
        None => {
            return InputAction::Nothing;
        },
    };
    if key.code == KeyCode::Esc {
        app.modal = None;
        return InputAction::Nothing;
    }
    let has_host: bool = target.hostname.is_some();
    let has_exe: bool = target.exe_path.is_some();
    let by = if key.code == KeyCode::Char('h') && has_host {
        DenyRuleKind::Host
    } else if key.code == KeyCode::Char('p') && has_exe {
        DenyRuleKind::Process
    } else if key.code == KeyCode::Char('i') {
        DenyRuleKind::Ip
    } else if key.code == KeyCode::Char('b') && has_host && has_exe {
        DenyRuleKind::Both
    } else {
        return InputAction::Nothing;
    };
    app.modal = None;
    app.optimistically_deny(&target, by);
    InputAction::Send(rule_msg(&target, by))
}

/// What a key does in the filter prompt.
pub fn handle_filter_input(key: KeyEvent, app: &mut App)
    ensures
        is_filter_step(key.code, *old(app), *final(app)),
{
    match key.code {
        KeyCode::Esc => {
            app.filter = String::new();
            app.filter_mode = false;
        },
        KeyCode::Enter => {
            app.filter_mode = false;
        },
        KeyCode::Backspace => {
            app.filter.pop();
        },
        KeyCode::Char(c) => {
            app.filter.push(c);
        },
        _ => {},
    }
}

/// What a key does in the live tab.
pub fn handle_live_input(key: KeyEvent, app: &mut App) -> (a: InputAction)
    ensures
        is_live_step(key.code, *old(app), *final(app)),
        a is Nothing,
{
    match key.code {
        KeyCode::Up => app.scroll(-1),
        KeyCode::Down => app.scroll(1),
        KeyCode::PageUp => app.scroll(-20),
        KeyCode::PageDown => app.scroll(20),
        KeyCode::Home => app.jump_to_start(),
        KeyCode::End | KeyCode::Char('G') => app.jump_to_end(),
        KeyCode::Char('/') => {
            app.filter = String::new();
            app.filter_mode = true;
        },
        KeyCode::Char('d') => {
            if let Some(event) = app.selected_event() {
                app.modal = Some(ModalState { event });
            }
        },
        _ => {},
    }
    InputAction::Nothing
}

/// What a key does in the rules tab.
pub fn handle_rules_input(key: KeyEvent, app: &mut App) -> (a: InputAction)
    ensures
        is_rules_step(key.code, *old(app), *final(app), a),
{
    match key.code {
        KeyCode::Up => app.rules_scroll(-1),
        KeyCode::Down => app.rules_scroll(1),
        KeyCode::Char('r') => {
            return InputAction::Send(ClientMessage::ListRules);
        },
        KeyCode::Char('t') | KeyCode::Char(' ') => {
            if let Some(r) = app.selected_rule() {
                return InputAction::Send(
                    ClientMessage::SetRuleEnabled { id: r.id.clone(), enabled: !r.enabled },
                );
            }
        },
        KeyCode::Char('e') => {
            if let Some(r) = app.selected_rule() {
                return InputAction::EditRule(r.path.clone());
            }
        },
        _ => {},
    }
    InputAction::Nothing
}

/// What a key does in the stats tab.
pub fn handle_stats_input(key: KeyEvent, app: &mut App) -> (a: InputAction)
    ensures
        *final(app) == *old(app),
        is_stats_step(key.code, a),
{
    if let KeyCode::Char('r') = key.code {
        return InputAction::Send(ClientMessage::GetStats);
    }
    InputAction::Nothing
}

/// What an event does.
pub fn handle_input(event: Event, app: &mut App) -> (a: InputAction)
    ensures
        is_input_step(event, *old(app), *final(app), a),
{
    let key = match event {
        Event::Key(key) => key,
        Event::Other => {
            return InputAction::Nothing;
        },
    };
    match key.kind {
        KeyEventKind::Press => {},
        _ => {
            return InputAction::Nothing;
        },
    }
    if key.code == KeyCode::Char('c') && key.modifiers.control {
        return InputAction::Quit;
    }
    if app.modal.is_some() {
        return handle_modal_input(key, app);
    }
    if app.filter_mode {
        handle_filter_input(key, app);
        return InputAction::Nothing;
    }
    match key.code {
        KeyCode::Tab => {
            let v = app.next_view();
            return app.switch_to(v);
        },
        KeyCode::Char('1') => {
            return app.switch_to(views::View::Live);
        },
        KeyCode::Char('2') => {
            return app.switch_to(views::View::Rules);
        },
        KeyCode::Char('3') => {
            return app.switch_to(views::View::Stats);
        },
        KeyCode::Char('q') => {
            return InputAction::Quit;
        },
        _ => {},
    }
    match app.view {
        views::View::Live => handle_live_input(key, app),
        views::View::Rules => handle_rules_input(key, app),
        views::View::Stats => handle_stats_input(key, app),
    }
}

/// What the rules see of a flow that a client was told of.
pub open spec fn told_facts(ev: EnrichedEvent) -> Facts {
    Facts {
        exe: text::opt_text(ev.exe_path),
        host: text::opt_text(ev.hostname),
        ip: Some(app::ip_text(ev)),
        port: ev.dport,
    }
}

/// What a message that asks for a rule tells of the flow.
pub open spec fn msg_row(ev: EnrichedEvent) -> deny_rule::Row {
    deny_rule::Row {
        exe: text::opt_text(ev.exe_path),
        host: text::opt_text(ev.hostname),
        ip: Some(app::ip_text(ev)),
    }
}

/// The address that a client writes for a flow is the one that the daemon's rules compare.
pub proof fn lemma_addresses_agree(
    r: EnrichedEvent,
    e: ConnectEvent,
    exe: Option<Seq<char>>,
    host: Option<Seq<char>>,
    verdict: Option<(Action, Seq<char>)>,
    ts_unix_ns: u64,
)
    requires
        daemon::is_report(r, e, exe, host, verdict, ts_unix_ns),
        dns::destination_text(e) is Some,
    ensures
        dns::destination_text(e) == Some(app::ip_text(r)),
        told_facts(r) == daemon::flow_facts(e, exe, host),
{
}

/// A request that the dialog makes is not refused, where the executable and the host name
/// that the flow has are not empty.
pub proof fn lemma_dialog_requests_are_granted(code: KeyCode, ev: EnrichedEvent, by: DenyRuleKind)
    requires
        kind_for(code, ev) == Some(by),
        ev.exe_path is Some ==> ev.exe_path->0@.len() > 0,
        ev.hostname is Some ==> ev.hostname->0@.len() > 0,
    ensures
        deny_rule::refusal(msg_row(ev), by) is None,
{
    addr::lemma_ipv6_text_not_empty(ev.daddr_v6@);
}

/// The rows that are shown as denied before the daemon says so are those that the rule that
/// was asked for matches, and no others; none, where the rule is refused.
pub proof fn lemma_marked_rows_are_denied(ev: EnrichedEvent, target: EnrichedEvent, by: DenyRuleKind, r: Rule)
    requires
        deny_rule::has_clauses(r, deny_rule::clauses(msg_row(target), by)),
    ensures
        app::looks_like(ev, target, by) <==> deny_rule::refusal(msg_row(target), by) is None && rules::rule_matches(
            r,
            told_facts(ev),
        ),
{
    if deny_rule::refusal(msg_row(target), by) is None {
        lemma_marked_rows_match(ev, target, by, r);
    } else {
        lemma_refused_rule_marks_nothing(ev, target, by);
    }
}

/// No row is shown as denied for a rule that the daemon refuses.
pub proof fn lemma_refused_rule_marks_nothing(ev: EnrichedEvent, target: EnrichedEvent, by: DenyRuleKind)
    requires
        deny_rule::refusal(msg_row(target), by) is Some,
    ensures
        !app::looks_like(ev, target, by),
{
    addr::lemma_ipv6_text_not_empty(target.daddr_v6@);
}

proof fn lemma_marked_rows_match(ev: EnrichedEvent, target: EnrichedEvent, by: DenyRuleKind, r: Rule)
    requires
        deny_rule::refusal(msg_row(target), by) is None,
        deny_rule::has_clauses(r, deny_rule::clauses(msg_row(target), by)),
    ensures
        app::looks_like(ev, target, by) <==> rules::rule_matches(r, told_facts(ev)),
{
    let cs = deny_rule::clauses(msg_row(target), by);
    assert(deny_rule::is_clause(r.matches@[0], cs[0]));
    if app::looks_like(ev, target, by) {
        assert forall|i: int| 0 <= i < r.matches@.len() implies #[trigger] rules::clause_matches(
            r.matches@[i],
            told_facts(ev),
        ) by {
            assert(deny_rule::is_clause(r.matches@[i], cs[i]));
        }
    } else if rules::rule_matches(r, told_facts(ev)) {
        assert(rules::clause_matches(r.matches@[0], told_facts(ev)));
        if by is Both {
            assert(deny_rule::is_clause(r.matches@[1], cs[1]));
            assert(rules::clause_matches(r.matches@[1], told_facts(ev)));
        }
    }
}

/// Ctrl-C quits and changes nothing, whatever is open.
pub proof fn lemma_ctrl_c_quits(key: KeyEvent, before: App, after: App, a: InputAction)
    requires
        key.code == KeyCode::Char('c'),
        key.modifiers.control,
        key.kind == KeyEventKind::Press,
        is_input_step(Event::Key(key), before, after, a),
    ensures
        a is Quit,
        after == before,
{
}

/// No key makes the client lose or add a row, and the client stays sound.
pub proof fn lemma_keys_keep_the_client_sound(event: Event, before: App, after: App, a: InputAction)
    requires
        is_input_step(event, before, after, a),
        app::is_sound(before),
    ensures
        app::is_sound(after),
        after.events@.len() == before.events@.len(),
{
    assert(before.events.len() == before.events@.len());
    app::lemma_shown_exists(before.events@, before.filter@);
    let shown = choose|shown: Seq<usize>| app::are_shown(shown, before.events@, before.filter@);
    assert(app::are_shown(shown, before.events@, before.filter@));
    if let Some(modal) = before.modal {
        if let Event::Key(key) = event {
            if let Some(by) = kind_for(key.code, modal.event) {
                if app::are_marked(before.events@, after.events@, modal.event, by) {
                    app::lemma_marking_keeps_table(before.events@, after.events@, modal.event, by);
                }
            }
        }
    }
}

/// Once the rule that a row was turned into is in force, and no rule before it matches, the
/// flow of that row is denied under the rule's name.
pub proof fn lemma_new_rule_denies_its_row(rule_set: Seq<Rule>, i: int, ev: EnrichedEvent, by: DenyRuleKind)
    requires
        0 <= i < rule_set.len(),
        rule_set[i].action == Action::Deny,
        deny_rule::refusal(msg_row(ev), by) is None,
        deny_rule::has_clauses(rule_set[i], deny_rule::clauses(msg_row(ev), by)),
        forall|j: int| 0 <= j < i ==> !rules::rule_matches(#[trigger] rule_set[j], told_facts(ev)),
    ensures
        rules::verdict_on(rule_set, told_facts(ev)) == Some((Action::Deny, rules::verdict_id(rule_set[i]))),
{
    deny_rule::lemma_rule_matches_its_row(msg_row(ev), by, rule_set[i], ev.dport);
    rules::lemma_first_match_wins(rule_set, told_facts(ev), i);
}

/// A key that is pressed, without a dialog or a prompt being open.
pub open spec fn is_plain_press(key: KeyEvent, before: App) -> bool {
    key.kind == KeyEventKind::Press && !key.modifiers.control && before.modal is None && !before.filter_mode
}

/// The keys that lead to tabs, and the one that quits, work in every tab.
pub proof fn lemma_tab_keys(key: KeyEvent, before: App, after: App, a: InputAction)
    requires
        is_plain_press(key, before),
        is_input_step(Event::Key(key), before, after, a),
    ensures
        key.code == KeyCode::Char('1') ==> after.view is Live && a is Nothing,
        key.code == KeyCode::Char('2') ==> after.view is Rules && a == InputAction::Send(ClientMessage::ListRules),
        key.code == KeyCode::Char('3') ==> after.view is Stats && a == InputAction::Send(ClientMessage::GetStats),
        key.code == KeyCode::Tab && before.view is Live ==> after.view is Rules && a == InputAction::Send(
            ClientMessage::ListRules,
        ),
        key.code == KeyCode::Tab && before.view is Rules ==> after.view is Stats && a == InputAction::Send(
            ClientMessage::GetStats,
        ),
        key.code == KeyCode::Tab && before.view is Stats ==> after.view is Live && a is Nothing,
        key.code == KeyCode::Char('q') ==> a is Quit,
        a is Quit ==> key.code == KeyCode::Char('q'),
{
}

/// In the live tab the arrows move by a row and the page keys by twenty; Home goes to the
/// start, End and `G` to the end.
pub proof fn lemma_live_keys_scroll(
    key: KeyEvent,
    before: App,
    after: App,
    a: InputAction,
    shown: Seq<usize>,
    k: int,
)
    requires
        is_plain_press(key, before),
        before.view is Live,
        is_input_step(Event::Key(key), before, after, a),
        app::are_shown(shown, before.events@, before.filter@),
        20 <= k < shown.len() - 20,
        before.state.selected == Some(shown[k]),
    ensures
        key.code == KeyCode::Up ==> after.state.selected == Some(shown[k - 1]),
        key.code == KeyCode::Down ==> after.state.selected == Some(shown[k + 1]),
        key.code == KeyCode::PageUp ==> after.state.selected == Some(shown[k - 20]),
        key.code == KeyCode::PageDown ==> after.state.selected == Some(shown[k + 20]),
        key.code == KeyCode::Home ==> after.state.selected == Some(shown[0]) && !after.follow,
        key.code == KeyCode::End || key.code == KeyCode::Char('G') ==> after.state.selected == Some(
            shown[shown.len() - 1],
        ) && after.follow,
{
    if key.code == KeyCode::Up {
        app::lemma_scrolling(before, -1, after, shown, k);
    } else if key.code == KeyCode::Down {
        app::lemma_scrolling(before, 1, after, shown, k);
    } else if key.code == KeyCode::PageUp {
        app::lemma_scrolling(before, -20, after, shown, k);
    } else if key.code == KeyCode::PageDown {
        app::lemma_scrolling(before, 20, after, shown, k);
    }
}

/// `/` opens the filter prompt with nothing in it, and `d` the dialog on the selected row.
pub proof fn lemma_live_keys_open(key: KeyEvent, before: App, after: App, a: InputAction, i: usize)
    requires
        is_plain_press(key, before),
        before.view is Live,
        is_input_step(Event::Key(key), before, after, a),
    ensures
        key.code == KeyCode::Char('/') ==> after.filter_mode && after.filter@.len() == 0 && after.events == before.events,
        key.code == KeyCode::Char('d') && before.state.selected == Some(i) && i < before.events@.len() ==> (
        after.modal matches Some(m) && m.event == before.events@[i as int].event),
        key.code == KeyCode::Char('d') && before.state.selected is None ==> after == before,
        a is Nothing || a is Quit || after.view != before.view || key.code == KeyCode::Char('2') || key.code
            == KeyCode::Char('3'),
{
}

/// In the filter prompt a character goes to the end of the filter, Backspace takes the last
/// one off, Enter keeps the filter and Esc drops it; nothing else of the client changes.
pub proof fn lemma_filter_keys(key: KeyEvent, before: App, after: App, a: InputAction, c: char)
    requires
        key.kind == KeyEventKind::Press,
        !key.modifiers.control,
        before.modal is None,
        before.filter_mode,
        is_input_step(Event::Key(key), before, after, a),
    ensures
        a is Nothing,
        key.code == KeyCode::Char(c) ==> after.filter@ == before.filter@ + seq![c] && after.filter_mode,
        key.code == KeyCode::Backspace && before.filter@.len() > 0 ==> after.filter@ == before.filter@.take(
            before.filter@.len() - 1,
        ) && after.filter_mode,
        key.code == KeyCode::Enter ==> after.filter@ == before.filter@ && !after.filter_mode,
        key.code == KeyCode::Esc ==> after.filter@.len() == 0 && !after.filter_mode,
        after.events == before.events && after.view == before.view && after.state == before.state && after.modal
            == before.modal,
{
    if key.code == KeyCode::Char(c) {
        assert(before.filter@.push(c) =~= before.filter@ + seq![c]);
    }
    if key.code == KeyCode::Backspace && before.filter@.len() > 0 {
        assert(before.filter@.take(before.filter@.len() - 1) =~= before.filter@.drop_last());
    }
}

/// Backspace undoes a character.
pub proof fn lemma_backspace_undoes(
    c: char,
    typed: KeyEvent,
    back: KeyEvent,
    before: App,
    mid: App,
    after: App,
    a: InputAction,
    b: InputAction,
)
    requires
        typed == (KeyEvent { code: KeyCode::Char(c), ..typed }),
        back == (KeyEvent { code: KeyCode::Backspace, ..back }),
        typed.kind == KeyEventKind::Press,
        back.kind == KeyEventKind::Press,
        !typed.modifiers.control,
        before.modal is None,
        before.filter_mode,
        is_input_step(Event::Key(typed), before, mid, a),
        is_input_step(Event::Key(back), mid, after, b),
    ensures
        after.filter@ == before.filter@,
{
    assert(before.filter@.push(c).drop_last() =~= before.filter@);
}

/// In the dialog `h`, `p`, `i` and `b` ask for a rule of their kind on the row that the dialog
/// is about, where the row has what the kind needs; the rows that look like it are marked, and
/// the dialog closes. Esc closes it and asks for nothing.
pub proof fn lemma_dialog_keys(key: KeyEvent, before: App, after: App, a: InputAction)
    requires
        key.kind == KeyEventKind::Press,
        !key.modifiers.control,
        before.modal is Some,
        is_input_step(Event::Key(key), before, after, a),
    ensures
        ({
            let ev = before.modal->0.event;
            &&& key.code == KeyCode::Esc ==> after.modal is None && a is Nothing && after.events == before.events
            &&& key.code == KeyCode::Char('h') && ev.hostname is Some ==> asks_for_rule(a, ev, DenyRuleKind::Host)
                && app::are_marked(before.events@, after.events@, ev, DenyRuleKind::Host) && after.modal is None
            &&& key.code == KeyCode::Char('p') && ev.exe_path is Some ==> asks_for_rule(a, ev, DenyRuleKind::Process)
                && app::are_marked(before.events@, after.events@, ev, DenyRuleKind::Process) && after.modal is None
            &&& key.code == KeyCode::Char('i') ==> asks_for_rule(a, ev, DenyRuleKind::Ip) && app::are_marked(
                before.events@,
                after.events@,
                ev,
                DenyRuleKind::Ip,
            ) && after.modal is None
            &&& key.code == KeyCode::Char('b') && ev.hostname is Some && ev.exe_path is Some ==> asks_for_rule(
                a,
                ev,
                DenyRuleKind::Both,
            ) && app::are_marked(before.events@, after.events@, ev, DenyRuleKind::Both) && after.modal is None
            &&& key.code == KeyCode::Char('h') && ev.hostname is None ==> after == before && a is Nothing
            &&& key.code == KeyCode::Char('p') && ev.exe_path is None ==> after == before && a is Nothing
            &&& key.code == KeyCode::Char('b') && (ev.hostname is None || ev.exe_path is None) ==> after == before
                && a is Nothing
            &&& key.code == KeyCode::Char('q') ==> after == before && a is Nothing
        }),
{
}

/// A request for a rule tells the daemon what the row tells.
pub open spec fn asks_for_rule(a: InputAction, ev: EnrichedEvent, by: DenyRuleKind) -> bool {
    match a {
        InputAction::Send(ClientMessage::CreateDenyRule { exe_path, hostname, dest_ip, dport, by: kind }) => {
            &&& exe_path == ev.exe_path
            &&& hostname == ev.hostname
            &&& dest_ip matches Some(ip)
            &&& ip@ == app::ip_text(ev)
            &&& dport == ev.dport
            &&& kind == by
        },
        _ => false,
    }
}

/// In the rules tab `t` and the blank switch the selected rule over, `e` opens its file, `r`
/// asks for the rules again, and the arrows move the selection.
pub proof fn lemma_rules_keys(key: KeyEvent, before: App, after: App, a: InputAction, i: usize)
    requires
        is_plain_press(key, before),
        before.view is Rules,
        before.rules_state.selected == Some(i),
        i < before.rules@.len() <= usize::MAX,
        is_input_step(Event::Key(key), before, after, a),
    ensures
        ({
            let rule = before.rules@[i as int];
            &&& key.code == KeyCode::Char('t') || key.code == KeyCode::Char(' ') ==> a == InputAction::Send(
                ClientMessage::SetRuleEnabled { id: rule.id, enabled: !rule.enabled },
            ) && after == before
            &&& key.code == KeyCode::Char('e') ==> a == InputAction::EditRule(rule.path) && after == before
            &&& key.code == KeyCode::Char('r') ==> a == InputAction::Send(ClientMessage::ListRules) && after == before
            &&& key.code == KeyCode::Down && i + 1 < before.rules@.len() ==> (after.rules_state.selected matches Some(n)
                && n == i + 1)
            &&& key.code == KeyCode::Up && i > 0 ==> (after.rules_state.selected matches Some(n) && n == i - 1)
        }),
{
}

/// In the stats tab `r` asks for the aggregates again, and no other key of the tab's does
/// anything.
pub proof fn lemma_stats_keys(key: KeyEvent, before: App, after: App, a: InputAction)
    requires
        is_plain_press(key, before),
        before.view is Stats,
        is_input_step(Event::Key(key), before, after, a),
    ensures
        key.code == KeyCode::Char('r') ==> a == InputAction::Send(ClientMessage::GetStats) && after == before,
        key.code == KeyCode::Up || key.code == KeyCode::Char('d') || key.code == KeyCode::Char('/') ==> after == before
            && a is Nothing,
{
}

/// A key that is let go, held, or nothing of the keyboard's, does nothing.
pub proof fn lemma_only_presses_count(event: Event, before: App, after: App, a: InputAction)
    requires
        is_input_step(event, before, after, a),
        event matches Event::Key(key) ==> key.kind != KeyEventKind::Press,
    ensures
        after == before,
        a is Nothing,
{
}

/// What the rules see of a flow, and what a request tells of it, is what the client was told.
pub proof fn lemma_told_facts(ev: EnrichedEvent)
    ensures
        ev.exe_path matches Some(p) ==> told_facts(ev).exe == Some(p@) && msg_row(ev).exe == Some(p@),
        ev.exe_path is None ==> told_facts(ev).exe is None && msg_row(ev).exe is None,
        ev.hostname matches Some(h) ==> told_facts(ev).host == Some(h@) && msg_row(ev).host == Some(h@),
        ev.hostname is None ==> told_facts(ev).host is None && msg_row(ev).host is None,
        told_facts(ev).ip == Some(app::ip_text(ev)) && msg_row(ev).ip == Some(app::ip_text(ev)),
        told_facts(ev).port == ev.dport,
{
}

} // verus!
