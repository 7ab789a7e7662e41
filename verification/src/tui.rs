//! What the terminal client does with messages, ticks and the editor, and what its bars
//! show.

use vstd::prelude::*;
use vstd::string::*;

use crate::app;
use crate::app::{App, InputAction};
use crate::proto::{ClientMessage, EnrichedEvent, RuleInfo, ServerMessage};
use crate::text;
use crate::views;

verus! {

broadcast use vstd::std_specs::vecdeque::group_vec_dequeue_axioms;

/// What comes next after a turn of the client.
#[derive(Debug)]
pub enum NextStep {
    Continue,
    /// Send a request, and go on if it could be sent.
    Send(ClientMessage),
    /// Open a rule file in the editor.
    Edit(String),
    Stop,
}

/// The version in the daemon's greeting; any other message is handed back.
pub fn check_hello(msg: ServerMessage) -> (r: Result<String, ServerMessage>)
    ensures
        match msg {
            ServerMessage::Hello { daemon_version } => r == Ok::<String, ServerMessage>(daemon_version),
            _ => r == Err::<String, ServerMessage>(msg),
        },
{
    match msg {
        ServerMessage::Hello { daemon_version } => Ok(daemon_version),
        other => Err(other),
    }
}

/// Whether the daemon took the subscription.
pub fn is_subscribed(ack: &ServerMessage) -> (r: bool)
    ensures
        r == (ack is Ack),
{
    match ack {
        ServerMessage::Ack => true,
        _ => false,
    }
}

/// What a message from the daemon does. A flow goes into the live table, and the selection
/// goes along if it follows. Where a request was carried out while rules are shown, the
/// list is asked for again. Without a message the daemon is gone.
pub open spec fn is_message_step(before: App, msg: Option<ServerMessage>, after: App, next: NextStep) -> bool {
    match msg {
        Some(ServerMessage::Event(ev)) => {
            &&& after.events@ == app::pushed(before.events@, ev)
            &&& after == (App {
                events: after.events,
                state: if before.follow {
                    before.state.with_selected(Some((after.events@.len() - 1) as usize))
                } else {
                    before.state
                },
                ..before
            })
            &&& next is Continue
        },
        Some(ServerMessage::Hello { .. }) => after == before && next is Continue,
        Some(ServerMessage::Rules(rules)) => after == (App {
            rules,
            rules_state: before.rules_state.with_selected(
                app::clamped(before.rules_state.selected, rules@.len()),
            ),
            ..before
        }) && next is Continue,
        Some(ServerMessage::Stats(stats)) => after == (App { stats: Some(stats), ..before }) && next is Continue,
        Some(ServerMessage::Ack) => {
            &&& after == (App { last_ack: after.last_ack, last_ack_is_error: false, ..before })
            &&& text::opt_text(after.last_ack) == Some("ok"@)
            &&& next == if before.view == views::View::Rules {
                NextStep::Send(ClientMessage::ListRules)
            } else {
                NextStep::Continue
            }
        },
        Some(ServerMessage::Error(why)) => after == (App { last_ack: Some(why), last_ack_is_error: true, ..before })
            && next is Continue,
        None => after == (App { connected: false, ..before }) && next is Stop,
    }
}

/// Takes in a message from the daemon, or its absence.
pub fn on_message(app: &mut App, msg: Option<ServerMessage>) -> (next: NextStep)
    requires
        msg matches Some(ServerMessage::Event(ev)) ==> app::has_room(old(app).events@, ev),
    ensures
        is_message_step(*old(app), msg, *final(app), next),
{
    match msg {
        Some(ServerMessage::Event(ev)) => {
            app.push(ev);
            proof {
                app::lemma_pushed_flow_has_a_row(old(app).events@, ev);
            }
            let n: usize = app.events.len();
            if app.follow && n > 0 {
                app.state.select(Some(n - 1));
            }
            NextStep::Continue
        },
        Some(ServerMessage::Hello { .. }) => NextStep::Continue,
        Some(ServerMessage::Rules(rules)) => {
            app.set_rules(rules);
            NextStep::Continue
        },
        Some(ServerMessage::Stats(stats)) => {
            app.stats = Some(stats);
            NextStep::Continue
        },
        Some(ServerMessage::Ack) => {
            app.last_ack = Some("ok".to_string());
            app.last_ack_is_error = false;
            if app.view == views::View::Rules {
                NextStep::Send(ClientMessage::ListRules)
            } else {
                NextStep::Continue
            }
        },
        Some(ServerMessage::Error(why)) => {
            app.last_ack = Some(why);
            app.last_ack_is_error = true;
            NextStep::Continue
        },
        None => {
            app.connected = false;
            NextStep::Stop
        },
    }
}

/// A request could not be sent: the daemon is gone.
pub fn on_write_failed(app: &mut App) -> (next: NextStep)
    ensures
        *final(app) == (App { connected: false, ..*old(app) }),
        next is Stop,
{
    app.connected = false;
    NextStep::Stop
}

/// A tick of the clock, ten of which make a second: every tenth asks for the aggregates
/// while they are shown. Gives the number of ticks so far.
pub fn on_tick(app: &App, ticks: u64) -> (r: (u64, NextStep))
    requires
        ticks < u64::MAX,
    ensures
        r.0 == ticks + 1,
        r.1 == if app.view == views::View::Stats && (ticks + 1) % 10 == 0 {
            NextStep::Send(ClientMessage::GetStats)
        } else {
            NextStep::Continue
        },
{
    let n: u64 = ticks + 1;
    if app.view == views::View::Stats && n % 10 == 0 {
        (n, NextStep::Send(ClientMessage::GetStats))
    } else {
        (n, NextStep::Continue)
    }
}

/// What comes next after a key.
pub fn after_input(a: InputAction) -> (next: NextStep)
    ensures
        next == match a {
            InputAction::Nothing => NextStep::Continue,
            InputAction::Quit => NextStep::Stop,
            InputAction::Send(m) => NextStep::Send(m),
            InputAction::EditRule(path) => NextStep::Edit(path),
        },
{
    match a {
        InputAction::Nothing => NextStep::Continue,
        InputAction::Quit => NextStep::Stop,
        InputAction::Send(m) => NextStep::Send(m),
        InputAction::EditRule(path) => NextStep::Edit(path),
    }
}

/// What comes next after the editor: the rules are asked for again. A terminal that could not
/// be restored is left alone.
pub fn after_edit(restored: bool) -> (next: NextStep)
    ensures
        next == if restored {
            NextStep::Send(ClientMessage::ListRules)
        } else {
            NextStep::Stop
        },
{
    if restored {
        NextStep::Send(ClientMessage::ListRules)
    } else {
        NextStep::Stop
    }
}

/// The editor to use: `VISUAL`, or else `EDITOR`, or else `vi`.
pub fn editor_of(visual: Option<String>, editor: Option<String>) -> (r: String)
    ensures
        r@ == match (visual, editor) {
            (Some(v), _) => v@,
            (None, Some(e)) => e@,
            (None, None) => "vi"@,
        },
{
    match (visual, editor) {
        (Some(v), _) => v,
        (None, Some(e)) => e,
        (None, None) => "vi".to_string(),
    }
}

/// How the editor ended.
#[derive(Debug)]
pub enum EditOutcome {
    Success,
    /// It exited with a status.
    Failed(String),
    /// It could not be started, and why.
    NotLaunched(String),
}

/// What is said of how the editor ended.
pub open spec fn edit_text(editor: Seq<char>, outcome: EditOutcome) -> Seq<char> {
    match outcome {
        EditOutcome::Success => "edited; reloading rules"@,
        EditOutcome::Failed(status) => editor + " exited with "@ + status@,
        EditOutcome::NotLaunched(why) => "could not launch "@ + editor + ": "@ + why@,
    }
}

/// Notes how the editor ended.
pub fn note_edit(app: &mut App, editor: &str, outcome: EditOutcome)
    ensures
        *final(app) == (App {
            last_ack: final(app).last_ack,
            last_ack_is_error: !(outcome is Success),
            ..*old(app)
        }),
        text::opt_text(final(app).last_ack) == Some(edit_text(editor@, outcome)),
{
    let mut out = String::new();
    match &outcome {
        EditOutcome::Success => out.append("edited; reloading rules"),
        EditOutcome::Failed(status) => {
            out.append(editor);
            out.append(" exited with ");
            out.append(status.as_str());
        },
        EditOutcome::NotLaunched(why) => {
            out.append("could not launch ");
            out.append(editor);
            out.append(": ");
            out.append(why.as_str());
        },
    }
    assert(out@ =~= edit_text(editor@, outcome));
    app.last_ack = Some(out);
    app.last_ack_is_error = match outcome {
        EditOutcome::Success => false,
        _ => true,
    };
}

/// The titles of the tabs.
pub fn tab_titles() -> (r: [&'static str; 3])
    ensures
        r@ == seq!["1 Live", "2 Rules", "3 Stats"],
{
    let r: [&'static str; 3] = ["1 Live", "2 Rules", "3 Stats"];
    assert(r@ =~= seq!["1 Live", "2 Rules", "3 Stats"]);
    r
}

/// The place of a tab's title.
pub fn tab_index(view: views::View) -> (r: usize)
    ensures
        r == match view {
            views::View::Live => 0int,
            views::View::Rules => 1,
            views::View::Stats => 2,
        },
{
    match view {
        views::View::Live => 0,
        views::View::Rules => 1,
        views::View::Stats => 2,
    }
}

#[derive(Debug, Clone, Copy, PartialEq, Eq, Structural)]
pub enum SpanColor {
    Plain,
    Green,
    Yellow,
    Red,
    DarkGray,
}

/// A piece of the status bar.
#[derive(Debug)]
pub struct StatusSpan {
    pub text: String,
    pub color: SpanColor,
}

impl StatusSpan {
    pub open spec fn view(self) -> (Seq<char>, SpanColor) {
        (self.text@, self.color)
    }
}

/// The pieces of the status bar as plain values.
pub open spec fn spans_view(spans: Seq<StatusSpan>) -> Seq<(Seq<char>, SpanColor)> {
    spans.map_values(|s: StatusSpan| s@)
}

/// What the status bar says of the connection.
pub open spec fn connection_text(app: App) -> Seq<char> {
    if app.connected {
        "daemon v"@ + app.daemon_version@
    } else {
        "disconnected"@
    }
}

/// What the status bar says of the filter, which only the live tab has.
pub open spec fn filter_text(app: App) -> Seq<char> {
    if app.view != views::View::Live {
        Seq::empty()
    } else if app.filter_mode {
        "/"@ + app.filter@
    } else if app.filter@.len() > 0 {
        "filter: "@ + app.filter@
    } else {
        Seq::empty()
    }
}

/// The keys of a tab.
pub open spec fn help_text(view: views::View) -> Seq<char> {
    match view {
        views::View::Live => "Tab views  ↑↓ scroll  / filter  d deny-rule  End follow  q quit"@,
        views::View::Rules => "Tab views  ↑↓ select  t toggle  e edit($EDITOR)  r refresh  q quit"@,
        views::View::Stats => "Tab views  r refresh  q quit"@,
    }
}

/// The last outcome, or the empty text.
pub open spec fn ack_text(app: App) -> Seq<char> {
    match app.last_ack {
        Some(s) => s@,
        None => Seq::empty(),
    }
}

/// The status bar: the connection, the filter, the last outcome if there is one, in red if
/// it is an error, and the keys.
pub open spec fn status_line(app: App) -> Seq<(Seq<char>, SpanColor)> {
    let gap = ("  "@, SpanColor::Plain);
    let head = seq![
        (connection_text(app), SpanColor::Green),
        gap,
        (filter_text(app), SpanColor::Yellow),
    ];
    let ack = if ack_text(app).len() == 0 {
        Seq::empty()
    } else {
        seq![
            gap,
            (
                ack_text(app),
                if app.last_ack_is_error {
                    SpanColor::Red
                } else {
                    SpanColor::Green
                },
            ),
        ]
    };
    head + ack + seq![gap, (help_text(app.view), SpanColor::DarkGray)]
}

fn connection(app: &App) -> (r: String)
    ensures
        r@ == connection_text(*app),
{
    if app.connected {
        let mut out = String::new();
        out.append("daemon v");
        out.append(app.daemon_version.as_str());
        assert(out@ =~= connection_text(*app));
        out
    } else {
        "disconnected".to_string()
    }
}

fn filter_shown(app: &App) -> (r: String)
    ensures
        r@ == filter_text(*app),
{
    let mut out = String::new();
    if app.view == views::View::Live {
        if app.filter_mode {
            out.append("/");
            out.append(app.filter.as_str());
        } else if !app.filter.as_str().is_empty() {
            out.append("filter: ");
            out.append(app.filter.as_str());
        }
    }
    assert(out@ =~= filter_text(*app));
    out
}

/// The status bar.
pub fn draw_status(app: &App) -> (r: Vec<StatusSpan>)
    ensures
        spans_view(r@) == status_line(*app),
{
    let mut out: Vec<StatusSpan> = Vec::new();
    out.push(StatusSpan { text: connection(app), color: SpanColor::Green });
    out.push(StatusSpan { text: "  ".to_string(), color: SpanColor::Plain });
    out.push(StatusSpan { text: filter_shown(app), color: SpanColor::Yellow });
    if let Some(ack) = &app.last_ack {
        if !ack.as_str().is_empty() {
            let color = if app.last_ack_is_error {
                SpanColor::Red
            } else {
                SpanColor::Green
            };
            out.push(StatusSpan { text: "  ".to_string(), color: SpanColor::Plain });
            out.push(StatusSpan { text: ack.clone(), color });
        }
    }
    let help: &str = match app.view {
        views::View::Live => "Tab views  ↑↓ scroll  / filter  d deny-rule  End follow  q quit",
        views::View::Rules => "Tab views  ↑↓ select  t toggle  e edit($EDITOR)  r refresh  q quit",
        views::View::Stats => "Tab views  r refresh  q quit",
    };
    out.push(StatusSpan { text: "  ".to_string(), color: SpanColor::Plain });
    out.push(StatusSpan { text: help.to_owned(), color: SpanColor::DarkGray });
    assert(spans_view(out@) =~= status_line(*app));
    out
}

/// No message from the daemon makes the client unsound.
pub proof fn lemma_messages_keep_the_client_sound(
    before: App,
    msg: Option<ServerMessage>,
    after: App,
    next: NextStep,
)
    requires
        is_message_step(before, msg, after, next),
        app::is_sound(before),
    ensures
        app::is_sound(after),
{
    assert(after.events.len() == after.events@.len());
    assert(after.rules.len() == after.rules@.len());
    if let Some(ServerMessage::Event(ev)) = msg {
        app::lemma_push_keeps_table(before.events@, ev);
        app::lemma_pushed_flow_has_a_row(before.events@, ev);
    }
}

/// What the daemon refuses is shown in red.
pub proof fn lemma_refusals_are_shown(before: App, why: String, after: App, next: NextStep)
    requires
        is_message_step(before, Some(ServerMessage::Error(why)), after, next),
        why@.len() > 0,
    ensures
        status_line(after).contains((why@, SpanColor::Red)),
{
    assert(status_line(after)[4] == (why@, SpanColor::Red));
}

/// A client that follows has the newest row of a new flow selected.
pub proof fn lemma_following_selects_new_rows(
    before: App,
    ev: EnrichedEvent,
    after: App,
    next: NextStep,
)
    requires
        is_message_step(before, Some(ServerMessage::Event(ev)), after, next),
        before.follow,
        app::place_of(before.events@, app::row_key(ev)) is None,
    ensures
        after.state.selected is Some,
        after.events@[after.state.selected->0 as int].event == ev,
{
    assert(after.events.len() == after.events@.len());
    assert(after.events@.last().event == ev);
}

/// What the messages of the daemon do: a flow is counted in the live table, a rule list and
/// aggregates take the place of the old ones, an acknowledgement and an error are noted, and
/// the end of the connection ends the client.
pub proof fn lemma_messages(before: App, msg: Option<ServerMessage>, after: App, next: NextStep)
    requires
        is_message_step(before, msg, after, next),
    ensures
        match msg {
            Some(ServerMessage::Event(ev)) => after.events@ == app::pushed(before.events@, ev) && after.filter
                == before.filter && after.modal == before.modal && next is Continue && (!before.follow ==> after.state
                == before.state),
            Some(ServerMessage::Rules(rules)) => after.rules == rules && after.events == before.events
                && next is Continue,
            Some(ServerMessage::Stats(stats)) => after.stats == Some(stats) && after.events == before.events
                && next is Continue,
            Some(ServerMessage::Ack) => !after.last_ack_is_error && after.events == before.events && (
            before.view is Rules ==> next == NextStep::Send(ClientMessage::ListRules)) && (!(before.view is Rules)
                ==> next is Continue),
            Some(ServerMessage::Error(why)) => after.last_ack_is_error && after.last_ack == Some(why) && after.events
                == before.events && next is Continue,
            Some(ServerMessage::Hello { .. }) => after == before && next is Continue,
            None => !after.connected && next is Stop,
        },
        msg is Some ==> after.connected == before.connected,
        msg is Some ==> after.view == before.view,
{
}

/// A selection that does not follow stays on its row when a flow of a row that is there comes
/// in.
pub proof fn lemma_selection_stays(before: App, ev: EnrichedEvent, after: App, next: NextStep, i: int)
    requires
        is_message_step(before, Some(ServerMessage::Event(ev)), after, next),
        !before.follow,
        0 <= i < before.events@.len(),
        app::row_key(before.events@[i].event) == app::row_key(ev),
        app::is_table(before.events@),
        before.events@[i].count < u32::MAX,
    ensures
        after.state == before.state,
        after.events@.len() == before.events@.len(),
        after.events@[i].count == before.events@[i].count + 1,
{
    app::lemma_known_flows_are_counted(before.events@, ev, i, i);
}

/// A selected rule stays selected in a list that is no shorter.
pub proof fn lemma_rule_selection_stays(before: App, rules: Vec<RuleInfo>, after: App, next: NextStep, i: usize)
    requires
        is_message_step(before, Some(ServerMessage::Rules(rules)), after, next),
        before.rules_state.selected == Some(i),
        i < rules@.len(),
    ensures
        after.rules_state.selected == Some(i),
        app::rule_in(after) == Some(rules@[i as int]),
{
}

/// The status bar begins with the connection and ends with the keys; the live tab's filter
/// and the last outcome stand between them.
pub proof fn lemma_status_bar(app: App)
    ensures
        ({
            let bar = status_line(app);
            &&& bar.len() >= 5
            &&& app.connected ==> bar[0].0 == "daemon v"@ + app.daemon_version@
            &&& !app.connected ==> bar[0].0 == "disconnected"@
            &&& app.view is Live && app.filter_mode ==> bar[2].0 == seq!['/'] + app.filter@
            &&& app.view is Live && !app.filter_mode && app.filter@.len() > 0 ==> bar[2].0 == "filter: "@ + app.filter@
            &&& app.view is Live && !app.filter_mode && app.filter@.len() == 0 ==> bar[2].0.len() == 0
            &&& !(app.view is Live) ==> bar[2].0.len() == 0
            &&& bar[bar.len() - 1] == (help_text(app.view), SpanColor::DarkGray)
            &&& (app.last_ack matches Some(s) && s@.len() > 0) ==> bar.len() == 7 && bar[4].0 == app.last_ack->0@
                && bar[4].1 == if app.last_ack_is_error {
                SpanColor::Red
            } else {
                SpanColor::Green
            }
            &&& !(app.last_ack matches Some(s) && s@.len() > 0) ==> bar.len() == 5
        }),
{
    reveal_strlit("/");
    assert("/"@ =~= seq!['/']);
}

/// What is said of how the editor ended names the editor where it failed.
pub proof fn lemma_editor_outcomes(editor: Seq<char>, why: String)
    ensures
        edit_text(editor, EditOutcome::Success) == "edited; reloading rules"@,
        editor.is_prefix_of(edit_text(editor, EditOutcome::Failed(why))),
        why@.is_suffix_of(edit_text(editor, EditOutcome::Failed(why))),
        why@.is_suffix_of(edit_text(editor, EditOutcome::NotLaunched(why))),
        text::has_substring(edit_text(editor, EditOutcome::NotLaunched(why)), editor),
{
    let f = edit_text(editor, EditOutcome::Failed(why));
    assert(f.take(editor.len() as int) =~= editor);
    assert(f.skip(f.len() - why@.len()) =~= why@);
    let n = edit_text(editor, EditOutcome::NotLaunched(why));
    assert(n.skip(n.len() - why@.len()) =~= why@);
    assert(n =~= "could not launch "@ + editor + (": "@ + why@));
    text::lemma_substring_is_a_part(n, "could not launch "@, editor, ": "@ + why@);
}

/// A piece of the status bar is its text in its color.
pub proof fn lemma_spans(spans: Seq<StatusSpan>, i: int)
    requires
        0 <= i < spans.len(),
    ensures
        spans_view(spans).len() == spans.len(),
        spans_view(spans)[i] == (spans[i].text@, spans[i].color),
{
}

/// The keys that a tab's help names.
pub proof fn lemma_help()
    ensures
        help_text(views::View::Live) == "Tab views  ↑↓ scroll  / filter  d deny-rule  End follow  q quit"@,
        help_text(views::View::Rules) == "Tab views  ↑↓ select  t toggle  e edit($EDITOR)  r refresh  q quit"@,
        help_text(views::View::Stats) == "Tab views  r refresh  q quit"@,
{
}

} // verus!
