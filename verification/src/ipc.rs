//! A client's session with the daemon: what is sent, done and shut at each turn.

use vstd::prelude::*;
use vstd::string::*;

use crate::deny_rule;
use crate::deny_rule::RuleDraft;
use crate::proto::{ClientMessage, DenyRuleKind, EnrichedEvent, EventFilter, ServerMessage, Stats};
use crate::rule_files;
use crate::rule_files::{RuleEdit, RuleFile};
use crate::text;

verus! {

/// The name of a message's kind.
pub open spec fn kind_name(m: ClientMessage) -> Seq<char> {
    match m {
        ClientMessage::Subscribe { .. } => "Subscribe"@,
        ClientMessage::Unsubscribe => "Unsubscribe"@,
        ClientMessage::CreateDenyRule { .. } => "CreateDenyRule"@,
        ClientMessage::ListRules => "ListRules"@,
        ClientMessage::SetRuleEnabled { .. } => "SetRuleEnabled"@,
        ClientMessage::GetStats => "GetStats"@,
    }
}

/// The name of a message's kind.
pub fn other_kind(m: &ClientMessage) -> (r: &'static str)
    ensures
        r@ == kind_name(*m),
{
    match m {
        ClientMessage::Subscribe { .. } => "Subscribe",
        ClientMessage::Unsubscribe => "Unsubscribe",
        ClientMessage::CreateDenyRule { .. } => "CreateDenyRule",
        ClientMessage::ListRules => "ListRules",
        ClientMessage::SetRuleEnabled { .. } => "SetRuleEnabled",
        ClientMessage::GetStats => "GetStats",
    }
}

/// The fact is known and holds the needle; without a needle every fact will do.
pub open spec fn fact_passes(needle: Option<String>, fact: Option<String>) -> bool {
    match needle {
        Some(n) => match fact {
            Some(f) => text::has_substring(f@, n@),
            None => false,
        },
        None => true,
    }
}

/// Whether a client with a filter is sent a message. Only events are held back.
pub open spec fn passes(msg: ServerMessage, filter: Option<EventFilter>) -> bool {
    match (msg, filter) {
        (ServerMessage::Event(e), Some(f)) => fact_passes(f.process_path_contains, e.exe_path) && fact_passes(
            f.host_contains,
            e.hostname,
        ),
        _ => true,
    }
}

/// The filter behind a reference.
pub open spec fn filter_of(filter: Option<&EventFilter>) -> Option<EventFilter> {
    match filter {
        Some(f) => Some(*f),
        None => None,
    }
}

fn fact_has(needle: &Option<String>, fact: &Option<String>) -> (r: bool)
    ensures
        r == fact_passes(*needle, *fact),
{
    match needle {
        Some(n) => match fact {
            Some(f) => text::str_contains(f.as_str(), n.as_str()),
            None => false,
        },
        None => true,
    }
}

/// Whether a client with a filter is sent a message.
pub fn matches_filter(msg: &ServerMessage, filter: Option<&EventFilter>) -> (r: bool)
    ensures
        r == passes(*msg, filter_of(filter)),
{
    let f = match filter {
        Some(f) => f,
        None => {
            return true;
        },
    };
    let ev = match msg {
        ServerMessage::Event(e) => e,
        _ => {
            return true;
        },
    };
    fact_has(&f.process_path_contains, &ev.exe_path) && fact_has(&f.host_contains, &ev.hostname)
}

/// Where a session stands.
#[derive(Debug)]
pub enum Session {
    /// The greeting is out; the client has to subscribe.
    Greeted,
    /// Events flow, and requests are taken.
    Open { filter: Option<EventFilter> },
    /// A rule file is being written.
    Writing { filter: Option<EventFilter> },
    /// The rules directory is being read, for a listing.
    Listing { filter: Option<EventFilter> },
    /// The rules directory is being read, for a switch.
    Toggling { filter: Option<EventFilter>, id: String, enabled: bool },
    /// The aggregates are being fetched.
    Counting { filter: Option<EventFilter> },
    Closed,
}

/// What happens to a session.
#[derive(Debug)]
pub enum SessionEvent {
    /// A message came in from the client.
    Received(ClientMessage),
    /// The client is gone, or sent what cannot be read.
    ReadFailed,
    /// A message to the client could not be written.
    WriteFailed,
    /// A message for all clients.
    Broadcast(ServerMessage),
    /// Messages for all clients were missed.
    Lagged,
    /// There will be no more messages for all clients.
    BroadcastClosed,
    /// The files of the rules directory.
    RuleFiles(Vec<RuleFile>),
    /// A rule file was written, or it was not and why.
    RuleWritten(Result<(), String>),
    /// The aggregates.
    StatsRead(Stats),
}

/// What a session asks for.
#[derive(Debug)]
pub enum SessionAction {
    /// Nothing.
    Wait,
    Send(ServerMessage),
    /// Send a last message and close.
    SendAndClose(ServerMessage),
    /// Write a new file in the rules directory.
    WriteRule(RuleDraft),
    /// Write an existing rule file anew.
    RewriteRule(RuleEdit),
    ReadRules,
    ReadStats,
    Close,
}

/// The greeting.
pub fn greeting(daemon_version: &str) -> (r: ServerMessage)
    ensures
        r matches ServerMessage::Hello { daemon_version: v } && v@ == daemon_version@,
{
    ServerMessage::Hello { daemon_version: daemon_version.to_owned() }
}

/// `m` is an error with the text `why`.
pub open spec fn is_error(m: ServerMessage, why: Seq<char>) -> bool {
    m matches ServerMessage::Error(e) && e@ == why
}

/// What the first message that is not a subscription is answered.
pub open spec fn not_subscribed(m: ClientMessage) -> Seq<char> {
    "expected Subscribe, got \""@ + kind_name(m) + "\""@
}

/// A session closes.
pub open spec fn closes(after: Session, a: SessionAction) -> bool {
    after is Closed && a is Close
}

/// What an open session does with a message from its client.
pub open spec fn is_request_step(
    filter: Option<EventFilter>,
    m: ClientMessage,
    ts_millis: u128,
    after: Session,
    a: SessionAction,
) -> bool {
    match m {
        ClientMessage::CreateDenyRule { exe_path, hostname, dest_ip, dport: _, by } => {
            let row = deny_rule::row(exe_path, hostname, dest_ip);
            match deny_rule::refusal(row, by) {
                Some(why) => after == (Session::Open { filter }) && (a matches SessionAction::Send(r)
                    && is_error(r, why)),
                None => after == (Session::Writing { filter }) && (a matches SessionAction::WriteRule(d)
                    && d.name@ == deny_rule::rule_id(row, by, ts_millis) + ".toml"@ && d.body@
                    == deny_rule::rule_body(row, by, ts_millis)),
            }
        },
        ClientMessage::ListRules => after == (Session::Listing { filter }) && a is ReadRules,
        ClientMessage::SetRuleEnabled { id, enabled } => after == (Session::Toggling { filter, id, enabled })
            && a is ReadRules,
        ClientMessage::GetStats => after == (Session::Counting { filter }) && a is ReadStats,
        ClientMessage::Unsubscribe => closes(after, a),
        ClientMessage::Subscribe { .. } => after == (Session::Open { filter }) && a is Wait,
    }
}

/// What a session does with what happens to it. What does not concern it is passed over.
pub open spec fn is_step(s: Session, e: SessionEvent, ts_millis: u128, after: Session, a: SessionAction) -> bool {
    match (s, e) {
        (Session::Closed, _) => closes(after, a),
        (_, SessionEvent::ReadFailed) => closes(after, a),
        (_, SessionEvent::WriteFailed) => closes(after, a),
        (Session::Greeted, SessionEvent::Received(ClientMessage::Subscribe { filter })) => after == (
        Session::Open { filter }) && a == SessionAction::Send(ServerMessage::Ack),
        (Session::Greeted, SessionEvent::Received(m)) => after is Closed && (
        a matches SessionAction::SendAndClose(r) && is_error(r, not_subscribed(m))),
        (Session::Open { filter }, SessionEvent::Received(m)) => is_request_step(filter, m, ts_millis, after, a),
        (Session::Open { filter }, SessionEvent::Broadcast(m)) => after == s && a == if passes(m, filter) {
            SessionAction::Send(m)
        } else {
            SessionAction::Wait
        },
        (Session::Open { .. }, SessionEvent::BroadcastClosed) => closes(after, a),
        (Session::Writing { filter }, SessionEvent::RuleWritten(done)) => after == (Session::Open { filter })
            && (a matches SessionAction::Send(r) && is_ack(r, done)),
        (Session::Listing { filter }, SessionEvent::RuleFiles(files)) => after == (Session::Open { filter })
            && (a matches SessionAction::Send(ServerMessage::Rules(infos)) && rule_files::are_infos(
            files@,
            infos@,
        )),
        (Session::Toggling { filter, id, enabled }, SessionEvent::RuleFiles(files)) => match a {
            SessionAction::RewriteRule(edit) => after == (Session::Writing { filter }) && rule_files::is_toggle(
                files@,
                id@,
                enabled,
                Ok(edit),
            ),
            SessionAction::Send(ServerMessage::Error(why)) => after == (Session::Open { filter })
                && rule_files::is_toggle(files@, id@, enabled, Err(why)),
            _ => false,
        },
        (Session::Counting { filter }, SessionEvent::StatsRead(stats)) => after == (Session::Open { filter })
            && a == SessionAction::Send(ServerMessage::Stats(stats)),
        _ => after == s && a is Wait,
    }
}

/// What a request that wrote a file is answered.
pub open spec fn is_ack(r: ServerMessage, done: Result<(), String>) -> bool {
    match done {
        Ok(_) => r is Ack,
        Err(why) => is_error(r, why@),
    }
}

/// A closed session stays closed, whatever happens.
pub proof fn lemma_closed_for_good(e: SessionEvent, ts_millis: u128, after: Session, a: SessionAction)
    requires
        is_step(Session::Closed, e, ts_millis, after, a),
    ensures
        after is Closed,
        a is Close,
{
}

/// No client is sent an event before it has subscribed, nor one that its filter holds back.
pub proof fn lemma_only_wanted_events_are_sent(
    s: Session,
    e: SessionEvent,
    ts_millis: u128,
    after: Session,
    a: SessionAction,
)
    requires
        is_step(s, e, ts_millis, after, a),
        a matches SessionAction::Send(ServerMessage::Event(_)),
    ensures
        e is Broadcast,
        s matches Session::Open { filter } && passes(e->Broadcast_0, filter),
        a->Send_0 == e->Broadcast_0,
{
}

/// A request that an open session takes is answered by one message when what it asked for
/// is there, and the session is then open again; a switch of a rule that is found is
/// answered once the file is written.
pub proof fn lemma_requests_are_answered(
    s: Session,
    e: SessionEvent,
    ts_millis: u128,
    after: Session,
    a: SessionAction,
)
    requires
        is_step(s, e, ts_millis, after, a),
        match s {
            Session::Writing { .. } => e is RuleWritten,
            Session::Listing { .. } => e is RuleFiles,
            Session::Toggling { .. } => e is RuleFiles,
            Session::Counting { .. } => e is StatsRead,
            _ => false,
        },
    ensures
        (after is Open && a is Send) || (s is Toggling && after is Writing && a is RewriteRule),
{
}

/// The filter that a client subscribed with holds until the session closes.
pub proof fn lemma_filter_is_kept(s: Session, e: SessionEvent, ts_millis: u128, after: Session, a: SessionAction)
    requires
        is_step(s, e, ts_millis, after, a),
        !(s is Greeted),
        !(after is Closed),
    ensures
        filter_in(after) == filter_in(s),
{
}

/// The filter of a session that is subscribed.
pub open spec fn filter_in(s: Session) -> Option<EventFilter> {
    match s {
        Session::Open { filter } => filter,
        Session::Writing { filter } => filter,
        Session::Listing { filter } => filter,
        Session::Toggling { filter, .. } => filter,
        Session::Counting { filter } => filter,
        _ => None,
    }
}

fn request_step(filter: Option<EventFilter>, m: ClientMessage, ts_millis: u128) -> (r: (Session, SessionAction))
    ensures
        is_request_step(filter, m, ts_millis, r.0, r.1),
{
    match m {
        ClientMessage::CreateDenyRule { exe_path, hostname, dest_ip, dport, by } => {
            match deny_rule::write_deny_rule(exe_path, hostname, dest_ip, dport, by, ts_millis) {
                Ok(draft) => (Session::Writing { filter }, SessionAction::WriteRule(draft)),
                Err(why) => (Session::Open { filter }, SessionAction::Send(ServerMessage::Error(why))),
            }
        },
        ClientMessage::ListRules => (Session::Listing { filter }, SessionAction::ReadRules),
        ClientMessage::SetRuleEnabled { id, enabled } => (
            Session::Toggling { filter, id, enabled },
            SessionAction::ReadRules,
        ),
        ClientMessage::GetStats => (Session::Counting { filter }, SessionAction::ReadStats),
        ClientMessage::Unsubscribe => (Session::Closed, SessionAction::Close),
        ClientMessage::Subscribe { .. } => (Session::Open { filter }, SessionAction::Wait),
    }
}

fn refuse(m: &ClientMessage) -> (r: SessionAction)
    ensures
        r matches SessionAction::SendAndClose(e) && is_error(e, not_subscribed(*m)),
{
    let mut why = String::new();
    why.append("expected Subscribe, got \"");
    why.append(other_kind(m));
    why.append("\"");
    assert(why@ =~= not_subscribed(*m));
    SessionAction::SendAndClose(ServerMessage::Error(why))
}

/// What a session does with what happens to it. The time names the rules that it makes.
pub fn handle_client(s: Session, e: SessionEvent, ts_millis: u128) -> (r: (Session, SessionAction))
    ensures
        is_step(s, e, ts_millis, r.0, r.1),
{
    match (s, e) {
        (Session::Closed, _) => (Session::Closed, SessionAction::Close),
        (_, SessionEvent::ReadFailed) => (Session::Closed, SessionAction::Close),
        (_, SessionEvent::WriteFailed) => (Session::Closed, SessionAction::Close),
        (Session::Greeted, SessionEvent::Received(m)) => match m {
            ClientMessage::Subscribe { filter } => (
                Session::Open { filter },
                SessionAction::Send(ServerMessage::Ack),
            ),
            other => (Session::Closed, refuse(&other)),
        },
        (Session::Open { filter }, SessionEvent::Received(m)) => request_step(filter, m, ts_millis),
        (Session::Open { filter }, SessionEvent::Broadcast(m)) => {
            let wanted: bool = matches_filter(&m, filter.as_ref());
            if wanted {
                (Session::Open { filter }, SessionAction::Send(m))
            } else {
                (Session::Open { filter }, SessionAction::Wait)
            }
        },
        (Session::Open { .. }, SessionEvent::BroadcastClosed) => (Session::Closed, SessionAction::Close),
        (Session::Writing { filter }, SessionEvent::RuleWritten(done)) => {
            let ack = match done {
                Ok(_) => ServerMessage::Ack,
                Err(why) => ServerMessage::Error(why),
            };
            (Session::Open { filter }, SessionAction::Send(ack))
        },
        (Session::Listing { filter }, SessionEvent::RuleFiles(files)) => (
            Session::Open { filter },
            SessionAction::Send(ServerMessage::Rules(rule_files::list_rule_infos(files))),
        ),
        (Session::Toggling { filter, id, enabled }, SessionEvent::RuleFiles(files)) => {
            match rule_files::set_enabled(files.as_slice(), id.as_str(), enabled) {
                Ok(edit) => (Session::Writing { filter }, SessionAction::RewriteRule(edit)),
                Err(why) => (Session::Open { filter }, SessionAction::Send(ServerMessage::Error(why))),
            }
        },
        (Session::Counting { filter }, SessionEvent::StatsRead(stats)) => (
            Session::Open { filter },
            SessionAction::Send(ServerMessage::Stats(stats)),
        ),
        (s, _) => (s, SessionAction::Wait),
    }
}

/// An event that passes a filter has an executable with the filter's executable text in it,
/// and a host with the filter's host text in it, as far as the filter asks for them.
pub proof fn lemma_filter_holds_back_others(e: EnrichedEvent, f: EventFilter)
    requires
        passes(ServerMessage::Event(e), Some(f)),
    ensures
        f.process_path_contains matches Some(n) ==> (e.exe_path matches Some(p) && exists|a: Seq<char>, b: Seq<char>|
            p@ == #[trigger] (a + n@ + b)),
        f.host_contains matches Some(n) ==> (e.hostname matches Some(h) && exists|a: Seq<char>, b: Seq<char>|
            h@ == #[trigger] (a + n@ + b)),
{
    if let Some(n) = f.process_path_contains {
        text::lemma_part_splits(e.exe_path->0@, n@);
    }
    if let Some(n) = f.host_contains {
        text::lemma_part_splits(e.hostname->0@, n@);
    }
}

/// An event whose executable and host have in them what a filter asks for passes it, wherever
/// in them that stands.
pub proof fn lemma_filter_lets_wanted_events_pass(
    e: EnrichedEvent,
    f: EventFilter,
    a: Seq<char>,
    b: Seq<char>,
    c: Seq<char>,
    d: Seq<char>,
)
    requires
        f.process_path_contains matches Some(n) ==> (e.exe_path matches Some(p) && p@ == a + n@ + b),
        f.host_contains matches Some(n) ==> (e.hostname matches Some(h) && h@ == c + n@ + d),
    ensures
        passes(ServerMessage::Event(e), Some(f)),
{
    if let Some(n) = f.process_path_contains {
        text::lemma_substring_is_a_part(e.exe_path->0@, a, n@, b);
    }
    if let Some(n) = f.host_contains {
        text::lemma_substring_is_a_part(e.hostname->0@, c, n@, d);
    }
}

/// Only events are held back, and none without a filter.
pub proof fn lemma_only_events_are_held_back(m: ServerMessage, f: Option<EventFilter>)
    ensures
        f is None ==> passes(m, f),
        !(m is Event) ==> passes(m, f),
{
}

/// The filter that is applied is the one that was handed in.
pub proof fn lemma_filter_of(f: &EventFilter)
    ensures
        filter_of(Some(f)) == Some(*f),
        filter_of(None) is None,
{
}

/// A client that subscribes is acknowledged, and from then on is sent the messages for all
/// that its own filter lets pass, and no others.
pub proof fn lemma_subscribers_are_sent_what_passes(
    filter: Option<EventFilter>,
    ts: u128,
    open: Session,
    a: SessionAction,
    m: ServerMessage,
    ts2: u128,
    after: Session,
    b: SessionAction,
)
    requires
        is_step(Session::Greeted, SessionEvent::Received(ClientMessage::Subscribe { filter }), ts, open, a),
        is_step(open, SessionEvent::Broadcast(m), ts2, after, b),
    ensures
        a == SessionAction::Send(ServerMessage::Ack),
        passes(m, filter) ==> b == SessionAction::Send(m),
        !passes(m, filter) ==> b is Wait,
        after == open,
{
}

/// A client that begins with anything but a subscription is told so and sent away.
pub proof fn lemma_strangers_are_sent_away(m: ClientMessage, ts: u128, after: Session, a: SessionAction)
    requires
        is_step(Session::Greeted, SessionEvent::Received(m), ts, after, a),
        !(m is Subscribe),
    ensures
        after is Closed,
        a matches SessionAction::SendAndClose(ServerMessage::Error(_)),
{
}

/// A client that asks for the rules is sent a list made from the files that are then read,
/// and its session goes on as before.
pub proof fn lemma_rules_are_listed(
    filter: Option<EventFilter>,
    ts: u128,
    reading: Session,
    a: SessionAction,
    files: Vec<RuleFile>,
    ts2: u128,
    after: Session,
    b: SessionAction,
)
    requires
        is_step(Session::Open { filter }, SessionEvent::Received(ClientMessage::ListRules), ts, reading, a),
        is_step(reading, SessionEvent::RuleFiles(files), ts2, after, b),
    ensures
        a is ReadRules,
        after == (Session::Open { filter }),
        b matches SessionAction::Send(ServerMessage::Rules(infos)) && rule_files::are_infos(files@, infos@),
{
}

/// A client that asks for the aggregates is sent those that are then fetched, and its session
/// goes on as before.
pub proof fn lemma_stats_are_sent(
    filter: Option<EventFilter>,
    ts: u128,
    counting: Session,
    a: SessionAction,
    stats: Stats,
    ts2: u128,
    after: Session,
    b: SessionAction,
)
    requires
        is_step(Session::Open { filter }, SessionEvent::Received(ClientMessage::GetStats), ts, counting, a),
        is_step(counting, SessionEvent::StatsRead(stats), ts2, after, b),
    ensures
        a is ReadStats,
        after == (Session::Open { filter }),
        b == SessionAction::Send(ServerMessage::Stats(stats)),
{
}

/// A client that switches a rule has the rule of that id switched the way it asked for, in
/// the files that are then read, and is told how the writing went; where no rule has the id
/// it is told so at once.
pub proof fn lemma_rules_are_switched(
    filter: Option<EventFilter>,
    id: String,
    enabled: bool,
    ts: u128,
    reading: Session,
    a: SessionAction,
    files: Vec<RuleFile>,
    ts2: u128,
    writing: Session,
    b: SessionAction,
    done: Result<(), String>,
    ts3: u128,
    after: Session,
    c: SessionAction,
)
    requires
        is_step(
            Session::Open { filter },
            SessionEvent::Received(ClientMessage::SetRuleEnabled { id, enabled }),
            ts,
            reading,
            a,
        ),
        is_step(reading, SessionEvent::RuleFiles(files), ts2, writing, b),
        is_step(writing, SessionEvent::RuleWritten(done), ts3, after, c),
    ensures
        a is ReadRules,
        match b {
            SessionAction::RewriteRule(edit) => {
                &&& rule_files::is_toggle(files@, id@, enabled, Ok(edit))
                &&& after == (Session::Open { filter })
                &&& done is Ok ==> c == SessionAction::Send(ServerMessage::Ack)
                &&& done matches Err(why) ==> (c matches SessionAction::Send(ServerMessage::Error(e)) && e@ == why@)
            },
            SessionAction::Send(ServerMessage::Error(why)) => {
                &&& rule_files::is_toggle(files@, id@, enabled, Err(why))
                &&& writing == (Session::Open { filter })
            },
            _ => false,
        },
{
}

/// A client that asks for a deny rule has it written, or is told what its row lacks; it is
/// told how the writing went, and its session goes on as before.
pub proof fn lemma_deny_rules_are_written(
    filter: Option<EventFilter>,
    exe_path: Option<String>,
    hostname: Option<String>,
    dest_ip: Option<String>,
    dport: u16,
    by: DenyRuleKind,
    ts: u128,
    writing: Session,
    a: SessionAction,
    done: Result<(), String>,
    ts2: u128,
    after: Session,
    b: SessionAction,
)
    requires
        is_step(
            Session::Open { filter },
            SessionEvent::Received(ClientMessage::CreateDenyRule { exe_path, hostname, dest_ip, dport, by }),
            ts,
            writing,
            a,
        ),
        is_step(writing, SessionEvent::RuleWritten(done), ts2, after, b),
    ensures
        ({
            let row = deny_rule::Row {
                exe: text::opt_text(exe_path),
                host: text::opt_text(hostname),
                ip: text::opt_text(dest_ip),
            };
            match deny_rule::refusal(row, by) {
                Some(why) => {
                    &&& a matches SessionAction::Send(ServerMessage::Error(e))
                    &&& e@ == why
                    &&& writing == (Session::Open { filter })
                },
                None => {
                    &&& a matches SessionAction::WriteRule(d)
                    &&& d.body@ == deny_rule::rule_body(row, by, ts)
                    &&& after == (Session::Open { filter })
                    &&& done is Ok ==> b == SessionAction::Send(ServerMessage::Ack)
                    &&& done matches Err(why) ==> (b matches SessionAction::Send(ServerMessage::Error(e)) && e@
                        == why@)
                },
            }
        }),
{
}

/// A session ends when its client leaves, cannot be read or cannot be written to, and when
/// there is nothing more to send; a second subscription changes nothing.
pub proof fn lemma_sessions_end(s: Session, e: SessionEvent, ts: u128, after: Session, a: SessionAction)
    requires
        is_step(s, e, ts, after, a),
    ensures
        e is ReadFailed || e is WriteFailed ==> after is Closed,
        s is Open && e is BroadcastClosed ==> after is Closed,
        s is Open && e == SessionEvent::Received(ClientMessage::Unsubscribe) ==> after is Closed,
        s is Open && (e matches SessionEvent::Received(ClientMessage::Subscribe { .. })) ==> after == s && a is Wait,
        s is Open && e is Lagged ==> after == s && a is Wait,
        s is Open && e is Broadcast ==> !(after is Closed),
{
}

/// While a request is being carried out nothing else is sent.
pub proof fn lemma_requests_are_taken_one_by_one(s: Session, m: ServerMessage, ts: u128, after: Session, a: SessionAction)
    requires
        is_step(s, SessionEvent::Broadcast(m), ts, after, a),
        !(s is Open),
        !(s is Closed),
    ensures
        after == s,
        a is Wait,
{
}

/// A refused client is told what was expected and what came.
pub proof fn lemma_refusal_names_the_message(m: ClientMessage)
    ensures
        text::has_substring(not_subscribed(m), kind_name(m)),
        m is ListRules ==> kind_name(m) == "ListRules"@,
        m is GetStats ==> kind_name(m) == "GetStats"@,
        m is Unsubscribe ==> kind_name(m) == "Unsubscribe"@,
        m is Subscribe ==> kind_name(m) == "Subscribe"@,
        m is CreateDenyRule ==> kind_name(m) == "CreateDenyRule"@,
        m is SetRuleEnabled ==> kind_name(m) == "SetRuleEnabled"@,
{
    text::lemma_substring_is_a_part(
        not_subscribed(m),
        "expected Subscribe, got \""@,
        kind_name(m),
        "\""@,
    );
}

/// What a client that does not subscribe first is told.
pub proof fn lemma_refusal_text(m: ClientMessage, ts: u128, after: Session, a: SessionAction)
    requires
        is_step(Session::Greeted, SessionEvent::Received(m), ts, after, a),
        !(m is Subscribe),
    ensures
        a matches SessionAction::SendAndClose(ServerMessage::Error(e)) && e@ == "expected Subscribe, got \""@
            + kind_name(m) + seq!['"'],
{
    reveal_strlit("\"");
    assert("\""@ =~= seq!['"']);
}

} // verus!
