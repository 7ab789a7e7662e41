//! What the daemon does with a flow that the hooks record: find its program and host, judge
//! it, show it, and remember a denial.

use std::collections::HashMap;
use vstd::prelude::*;
use vstd::slice::*;
use vstd::string::*;

use crate::addr;
use crate::common::{ConnectEvent, FlowKey};
use crate::dns;
use crate::dns::DnsCache;
use crate::kernel;
use crate::kernel::{HookOutcome, SockAddr4, SockAddr6, Task};
use crate::proto;
use crate::proto::EnrichedEvent;
use crate::rules;
use crate::rules::{Action, Facts, Rule, Verdict};
use crate::text;

verus! {

broadcast use vstd::std_specs::hash::group_hash_axioms;

/// How many bytes come before the first NUL.
pub open spec fn nul_len(b: Seq<u8>) -> int
    decreases b.len(),
{
    if b.len() == 0 || b[0] == 0 {
        0
    } else {
        1 + nul_len(b.skip(1))
    }
}

/// The text of a command name: what comes before the first NUL, or `?` where that is no
/// UTF-8.
pub open spec fn comm_text(b: Seq<u8>) -> Seq<char> {
    match text::utf8_text(b.take(nul_len(b))) {
        Some(t) => t,
        None => "?"@,
    }
}

proof fn lemma_nul_len(b: Seq<u8>, n: int)
    requires
        0 <= n <= b.len(),
        forall|j: int| 0 <= j < n ==> b[j] != 0,
        n == b.len() || b[n] == 0,
    ensures
        nul_len(b) == n,
    decreases n,
{
    if n > 0 {
        lemma_nul_len(b.skip(1), n - 1);
    }
}

/// The text of a command name.
pub fn comm_str(buf: &[u8; 16]) -> (r: &str)
    ensures
        r@ == comm_text(buf@),
{
    let mut end: usize = 0;
    while end < 16 && buf[end] != 0
        invariant
            end <= 16,
            forall|j: int| 0 <= j < end ==> buf@[j] != 0,
        decreases 16 - end,
    {
        end += 1;
    }
    proof {
        lemma_nul_len(buf@, end as int);
    }
    let name = slice_subrange(buf.as_slice(), 0, end);
    assert(name@ =~= buf@.take(end as int));
    match text::str_from_utf8(name) {
        Some(s) => s,
        None => "?",
    }
}

/// The key under which a denied flow is remembered.
pub open spec fn flow_key_of(e: ConnectEvent) -> FlowKey {
    FlowKey {
        pid: e.pid,
        _pad0: 0,
        start_ns: e.start_ns,
        daddr_v4: e.daddr_v4,
        daddr_v6: e.daddr_v6,
        dport: e.dport,
        family: e.family,
        _pad: 0,
    }
}

/// The key under which a denied flow is remembered.
pub fn common_flow_key(e: &ConnectEvent) -> (k: FlowKey)
    ensures
        k == flow_key_of(*e),
{
    FlowKey {
        pid: e.pid,
        _pad0: 0,
        start_ns: e.start_ns,
        daddr_v4: e.daddr_v4,
        daddr_v6: e.daddr_v6,
        dport: e.dport,
        family: e.family,
        _pad: 0,
    }
}

/// A flow that was denied is blocked without an event when the same task goes to the same
/// IPv4 address again: the key under which it is remembered is the one the hooks look up.
pub proof fn lemma_denied_flow_is_blocked_v4(
    e: ConnectEvent,
    k: FlowKey,
    a: SockAddr4,
    t: Task,
    is_sendmsg: bool,
    remembered: Set<FlowKey>,
    o: HookOutcome,
)
    requires
        kernel::is_event_v4(e, a, t),
        remembered.contains(flow_key_of(e)),
        kernel::is_flow_key_v4(k, a, t),
        kernel::is_outcome_v4(o, a, is_sendmsg, t, remembered.contains(k)),
    ensures
        k == flow_key_of(e),
        o.verdict == 0,
        o.event is None,
{
    assert(k.daddr_v6 =~= e.daddr_v6);
    assert(k == flow_key_of(e));
}

/// A flow that was denied is blocked without an event when the same task goes to the same
/// IPv6 address again: the key under which it is remembered is the one the hooks look up.
pub proof fn lemma_denied_flow_is_blocked_v6(
    e: ConnectEvent,
    k: FlowKey,
    a: SockAddr6,
    t: Task,
    is_sendmsg: bool,
    remembered: Set<FlowKey>,
    o: HookOutcome,
)
    requires
        kernel::is_event_v6(e, a, t),
        remembered.contains(flow_key_of(e)),
        kernel::is_flow_key_v6(k, a, t),
        kernel::is_outcome_v6(o, a, is_sendmsg, t, remembered.contains(k)),
    ensures
        k == flow_key_of(e),
        o.verdict == 0,
        o.event is None,
{
    assert(k.daddr_v6 =~= e.daddr_v6);
    assert(k == flow_key_of(e));
}

/// What the rules say of a flow, given what is known of it.
pub open spec fn flow_facts(e: ConnectEvent, exe: Option<Seq<char>>, host: Option<Seq<char>>) -> Facts {
    Facts { exe, host, ip: dns::destination_text(e), port: e.dport }
}

/// How a flow's verdict is reported: a flow that no rule matches is allowed.
pub open spec fn reported_verdict(v: Option<(Action, Seq<char>)>) -> proto::Verdict {
    match v {
        Some((Action::Deny, _)) => proto::Verdict::Deny,
        _ => proto::Verdict::Allow,
    }
}

/// `r` reports the flow `e` with what is known of it.
pub open spec fn is_report(
    r: EnrichedEvent,
    e: ConnectEvent,
    exe: Option<Seq<char>>,
    host: Option<Seq<char>>,
    verdict: Option<(Action, Seq<char>)>,
    ts_unix_ns: u64,
) -> bool {
    &&& r.ts_unix_ns == ts_unix_ns
    &&& r.pid == e.pid
    &&& r.uid == e.uid
    &&& r.comm@ == comm_text(e.comm@)
    &&& text::opt_text(r.exe_path) == exe
    &&& r.family == e.family
    &&& r.daddr_v4 == e.daddr_v4
    &&& r.daddr_v6 == e.daddr_v6
    &&& r.dport == e.dport
    &&& text::opt_text(r.hostname) == host
    &&& r.verdict == reported_verdict(verdict)
    &&& text::opt_text(r.matched_rule) == match verdict {
        Some((_, id)) => Some(id),
        None => None,
    }
}

/// A verdict as an action and the text of its rule id.
pub open spec fn verdict_ref_view(v: Option<&Verdict>) -> Option<(Action, Seq<char>)> {
    match v {
        Some(v) => Some((v.action, v.rule_id@)),
        None => None,
    }
}

fn owned(s: Option<&str>) -> (r: Option<String>)
    ensures
        text::opt_text(r) == text::opt_str_text(s),
{
    match s {
        Some(s) => Some(s.to_owned()),
        None => None,
    }
}

/// The report of a flow at a time.
pub fn enrich(
    e: &ConnectEvent,
    exe: Option<&str>,
    host: Option<&str>,
    verdict: Option<&Verdict>,
    ts_unix_ns: u64,
) -> (r: EnrichedEvent)
    ensures
        is_report(
            r,
            *e,
            text::opt_str_text(exe),
            text::opt_str_text(host),
            verdict_ref_view(verdict),
            ts_unix_ns,
        ),
{
    let (reported, matched_rule) = match verdict {
        Some(v) => (
            match v.action {
                Action::Allow => proto::Verdict::Allow,
                Action::Deny => proto::Verdict::Deny,
            },
            Some(v.rule_id.clone()),
        ),
        None => (proto::Verdict::Allow, None),
    };
    EnrichedEvent {
        ts_unix_ns,
        pid: e.pid,
        uid: e.uid,
        comm: comm_str(&e.comm).to_owned(),
        exe_path: owned(exe),
        family: e.family,
        daddr_v4: e.daddr_v4,
        daddr_v6: e.daddr_v6,
        dport: e.dport,
        hostname: owned(host),
        verdict: reported,
        matched_rule,
    }
}

/// An address as the event line shows it: an IPv6 address stands in brackets.
pub open spec fn line_addr(e: ConnectEvent) -> Seq<char> {
    if e.family == 4 {
        addr::ipv4_text(addr::v4_octets(e.daddr_v4))
    } else {
        "["@ + addr::ipv6_text(e.daddr_v6@) + "]"@
    }
}

/// A fact as the event line shows it.
pub open spec fn or_unknown(fact: Option<Seq<char>>) -> Seq<char> {
    match fact {
        Some(s) => s,
        None => "?"@,
    }
}

/// The word and the rule id that the event line shows for a verdict.
pub open spec fn line_verdict(v: Option<(Action, Seq<char>)>) -> (Seq<char>, Seq<char>) {
    match v {
        Some((action, id)) => (action.word(), id),
        None => ("allow"@, "-"@),
    }
}

/// The line that shows a flow.
pub open spec fn event_line(
    e: ConnectEvent,
    exe: Option<Seq<char>>,
    host: Option<Seq<char>>,
    verdict: Option<(Action, Seq<char>)>,
) -> Seq<char> {
    "pid="@ + text::decimal(e.pid as nat) + " uid="@ + text::decimal(e.uid as nat) + " comm="@ + comm_text(
        e.comm@,
    ) + " exe="@ + or_unknown(exe) + " host="@ + or_unknown(host) + " verdict="@ + line_verdict(verdict).0
        + " rule="@ + line_verdict(verdict).1 + " -> "@ + line_addr(e) + ":"@ + text::decimal(e.dport as nat)
}

fn append_addr(out: &mut String, e: &ConnectEvent)
    ensures
        final(out)@ == old(out)@ + line_addr(*e),
{
    if e.family == 4 {
        out.append(addr::ipv4_string(e.daddr_v4).as_str());
    } else {
        out.append("[");
        out.append(addr::ipv6_string(&e.daddr_v6).as_str());
        out.append("]");
    }
    assert(out@ =~= old(out)@ + line_addr(*e));
}

fn unknown_if_none(fact: Option<&str>) -> (r: &str)
    ensures
        r@ == or_unknown(text::opt_str_text(fact)),
{
    match fact {
        Some(s) => s,
        None => "?",
    }
}

/// The line that shows a flow.
pub fn print_event(
    e: &ConnectEvent,
    exe: Option<&str>,
    host: Option<&str>,
    verdict: Option<&Verdict>,
) -> (r: String)
    ensures
        r@ == event_line(*e, text::opt_str_text(exe), text::opt_str_text(host), verdict_ref_view(verdict)),
{
    let (word, rule): (&str, &str) = match verdict {
        Some(v) => (v.action.as_str(), v.rule_id.as_str()),
        None => ("allow", "-"),
    };
    let mut out = String::new();
    out.append("pid=");
    text::append_digits(&mut out, e.pid as u128, 10);
    out.append(" uid=");
    text::append_digits(&mut out, e.uid as u128, 10);
    out.append(" comm=");
    out.append(comm_str(&e.comm));
    out.append(" exe=");
    out.append(unknown_if_none(exe));
    out.append(" host=");
    out.append(unknown_if_none(host));
    out.append(" verdict=");
    out.append(word);
    out.append(" rule=");
    out.append(rule);
    out.append(" -> ");
    append_addr(&mut out, e);
    out.append(":");
    text::append_digits(&mut out, e.dport as u128, 10);
    assert(out@ =~= event_line(
        *e,
        text::opt_str_text(exe),
        text::opt_str_text(host),
        verdict_ref_view(verdict),
    ));
    out
}

/// The executables known by process id. One that could not be read is known as `None`.
pub open spec fn paths_view(paths: Map<u32, Option<String>>) -> Map<u32, Option<Seq<char>>> {
    paths.map_values(|p: Option<String>| text::opt_text(p))
}

/// Whether the executable of a process has been looked up before.
pub fn is_exe_known(pid: u32, paths: &HashMap<u32, Option<String>>) -> (r: bool)
    ensures
        r == paths@.contains_key(pid),
{
    paths.contains_key(&pid)
}

/// The executable of a process. `resolved`, what the system says, counts only where the
/// process was not looked up before, and is then remembered.
pub fn lookup_exe(
    pid: u32,
    paths: &mut HashMap<u32, Option<String>>,
    resolved: Option<String>,
) -> (r: Option<String>)
    ensures
        paths_view(final(paths)@) == if old(paths)@.contains_key(pid) {
            paths_view(old(paths)@)
        } else {
            paths_view(old(paths)@).insert(pid, text::opt_text(resolved))
        },
        text::opt_text(r) == paths_view(final(paths)@)[pid],
{
    if let Some(known) = paths.get(&pid) {
        return known.clone();
    }
    let r = resolved.clone();
    paths.insert(pid, resolved);
    assert(paths_view(paths@) =~= paths_view(old(paths)@).insert(pid, text::opt_text(resolved)));
    r
}

/// A recorded flow, judged.
#[derive(Debug)]
pub struct HandledEvent {
    /// The line that shows it.
    pub line: String,
    /// The key to remember, if the flow is denied.
    pub deny: Option<FlowKey>,
    /// What the clients are told.
    pub report: EnrichedEvent,
}

/// Judges a recorded flow at `now`, with the wall clock at `ts_unix_ns`.
pub fn handle_event(
    e: &ConnectEvent,
    exe: Option<&str>,
    cache: &DnsCache,
    rule_set: &[Rule],
    now: u64,
    ts_unix_ns: u64,
) -> (r: HandledEvent)
    ensures
        ({
            let exe = text::opt_str_text(exe);
            let host = dns::host_at(cache@, dns::destination(*e), now);
            let verdict = rules::verdict_on(rule_set@, flow_facts(*e, exe, host));
            &&& r.line@ == event_line(*e, exe, host, verdict)
            &&& r.deny == match verdict {
                Some((Action::Deny, _)) => Some(flow_key_of(*e)),
                _ => None,
            }
            &&& is_report(r.report, *e, exe, host, verdict, ts_unix_ns)
        }),
        r.deny is Some <==> r.report.verdict == proto::Verdict::Deny,
{
    let host = dns::lookup_host(e, cache, now);
    let ip = dns::event_ip_string(e);
    let ip_str: Option<&str> = match &ip {
        Some(s) => Some(s.as_str()),
        None => None,
    };
    let verdict = rules::evaluate(rule_set, exe, host, ip_str, e.dport);
    let verdict_ref: Option<&Verdict> = match &verdict {
        Some(v) => Some(v),
        None => None,
    };
    assert(rules::facts(exe, host, ip_str, e.dport) == flow_facts(
        *e,
        text::opt_str_text(exe),
        text::opt_str_text(host),
    ));
    let line = print_event(e, exe, host, verdict_ref);
    let deny = match verdict_ref {
        Some(v) => match v.action {
            Action::Deny => Some(common_flow_key(e)),
            Action::Allow => None,
        },
        None => None,
    };
    let report = enrich(e, exe, host, verdict_ref, ts_unix_ns);
    HandledEvent { line, deny, report }
}

/// The characters with the Unicode property `White_Space`.
pub open spec fn is_white_space(c: char) -> bool {
    let n = c as u32;
    0x9 <= n <= 0xd || n == 0x20 || n == 0x85 || n == 0xa0 || n == 0x1680 || 0x2000 <= n <= 0x200a || n == 0x2028
        || n == 0x2029 || n == 0x202f || n == 0x205f || n == 0x3000
}

fn white_space(c: char) -> (r: bool)
    ensures
        r == is_white_space(c),
{
    let n: u32 = c as u32;
    (0x9 <= n && n <= 0xd) || n == 0x20 || n == 0x85 || n == 0xa0 || n == 0x1680 || (0x2000 <= n && n <= 0x200a)
        || n == 0x2028 || n == 0x2029 || n == 0x202f || n == 0x205f || n == 0x3000
}

/// A text without the white space at its start.
pub open spec fn trim_start(s: Seq<char>) -> Seq<char>
    decreases s.len(),
{
    if s.len() > 0 && is_white_space(s[0]) {
        trim_start(s.skip(1))
    } else {
        s
    }
}

/// A text without the white space at its end.
pub open spec fn trim_end(s: Seq<char>) -> Seq<char>
    decreases s.len(),
{
    if s.len() > 0 && is_white_space(s.last()) {
        trim_end(s.drop_last())
    } else {
        s
    }
}

/// Whether a network interface in a state, as the system writes it, is watched.
pub open spec fn is_up(state: Seq<char>) -> bool {
    trim_end(trim_start(state)) == "up"@ || trim_end(trim_start(state)) == "unknown"@
}

/// Where a text begins behind the white space at its start.
fn start_of_text(v: &Vec<char>) -> (i: usize)
    ensures
        i <= v@.len(),
        trim_start(v@) == v@.skip(i as int),
{
    let mut i: usize = 0;
    assert(v@.skip(0) =~= v@);
    while i < v.len() && white_space(v[i])
        invariant
            i <= v@.len(),
            trim_start(v@) == trim_start(v@.skip(i as int)),
        decreases v@.len() - i,
    {
        assert(v@.skip(i as int).skip(1) =~= v@.skip(i + 1));
        i += 1;
    }
    i
}

/// Where a text that begins at `i` ends before the white space at its end.
fn end_of_text(v: &Vec<char>, i: usize) -> (j: usize)
    requires
        i <= v@.len(),
    ensures
        i <= j <= v@.len(),
        trim_end(v@.skip(i as int)) == v@.subrange(i as int, j as int),
{
    let mut j: usize = v.len();
    assert(v@.subrange(i as int, j as int) =~= v@.skip(i as int));
    while j > i && white_space(v[j - 1])
        invariant
            i <= j <= v@.len(),
            trim_end(v@.skip(i as int)) == trim_end(v@.subrange(i as int, j as int)),
        decreases j,
    {
        assert(v@.subrange(i as int, j as int).drop_last() =~= v@.subrange(i as int, j - 1));
        j -= 1;
    }
    j
}

/// Whether a network interface in a state, as the system writes it, is watched.
pub fn interface_is_up(state: &str) -> (r: bool)
    ensures
        r == is_up(state@),
{
    let v: Vec<char> = text::chars_of(state);
    let i: usize = start_of_text(&v);
    let j: usize = end_of_text(&v, i);
    let mut word = String::new();
    text::append_chars(&mut word, &v, i, j);
    assert(word@ =~= v@.subrange(i as int, j as int));
    text::str_eq(word.as_str(), "up") || text::str_eq(word.as_str(), "unknown")
}

/// A network interface: its name, and its state where that could be read.
#[derive(Debug, Clone)]
pub struct Interface {
    pub name: String,
    pub state: Option<String>,
}

/// The names of the interfaces to watch, in their order.
pub open spec fn up_names(interfaces: Seq<Interface>) -> Seq<Seq<char>>
    decreases interfaces.len(),
{
    if interfaces.len() == 0 {
        Seq::empty()
    } else {
        let names = up_names(interfaces.drop_last());
        match interfaces.last().state {
            Some(state) if is_up(state@) => names.push(interfaces.last().name@),
            _ => names,
        }
    }
}

/// The names of the interfaces to watch.
pub fn list_up_interfaces(interfaces: Vec<Interface>) -> (r: Vec<String>)
    ensures
        text::texts(r@) == up_names(interfaces@),
{
    let ghost all = interfaces@;
    let mut out: Vec<String> = Vec::new();
    assert(text::texts(out@) =~= up_names(all.take(0)));
    for entry in it: interfaces
        invariant
            it.seq() == all,
            text::texts(out@) == up_names(all.take(it.index() as int)),
    {
        let ghost before = out@;
        assert(all.take(it.index() + 1).drop_last() =~= all.take(it.index() as int));
        if let Some(state) = &entry.state {
            if interface_is_up(state.as_str()) {
                out.push(entry.name);
                assert(text::texts(out@) =~= text::texts(before).push(entry.name@));
            }
        }
    }
    assert(all.take(all.len() as int) =~= all);
    out
}

/// The number that decimal digits write.
pub open spec fn digits_value(s: Seq<char>) -> nat
    decreases s.len(),
{
    if s.len() == 0 {
        0
    } else {
        digits_value(s.drop_last()) * 10 + (s.last() as nat - 48) as nat
    }
}

/// All characters are decimal digits.
pub open spec fn all_digits(s: Seq<char>) -> bool {
    forall|i: int| 0 <= i < s.len() ==> '0' <= #[trigger] s[i] <= '9'
}

/// The process id that a directory name is: decimal digits, with a plus sign at most in
/// front, whose value fits.
pub open spec fn pid_of(name: Seq<char>) -> Option<u32> {
    let s = if name.len() > 0 && name[0] == '+' {
        name.skip(1)
    } else {
        name
    };
    if s.len() > 0 && all_digits(s) && digits_value(s) <= u32::MAX {
        Some(digits_value(s) as u32)
    } else {
        None
    }
}

proof fn lemma_digits_value_grows(s: Seq<char>, n: int)
    requires
        0 <= n <= s.len(),
    ensures
        digits_value(s.take(n)) <= digits_value(s),
    decreases s.len(),
{
    if n < s.len() {
        assert(s.drop_last().take(n) =~= s.take(n));
        lemma_digits_value_grows(s.drop_last(), n);
    } else {
        assert(s.take(n) =~= s);
    }
}

/// The process id that a directory name is.
pub fn pid_of_name(name: &str) -> (r: Option<u32>)
    ensures
        r == pid_of(name@),
{
    let v: Vec<char> = text::chars_of(name);
    let start: usize = if v.len() > 0 && v[0] == '+' {
        1
    } else {
        0
    };
    let ghost s = v@.skip(start as int);
    assert(start == 0 ==> s =~= v@);
    if start == v.len() {
        return None;
    }
    let mut n: u32 = 0;
    let mut i: usize = start;
    assert(s.take(0) =~= Seq::<char>::empty());
    while i < v.len()
        invariant
            start <= i <= v@.len(),
            s == v@.skip(start as int),
            s == (if v@.len() > 0 && v@[0] == '+' {
                v@.skip(1)
            } else {
                v@
            }),
            v@ == name@,
            all_digits(s.take(i - start)),
            n == digits_value(s.take(i - start)),
        decreases v@.len() - i,
    {
        let c: char = v[i];
        assert(s[i - start] == c);
        if c < '0' || c > '9' {
            return None;
        }
        let d: u32 = c as u32 - 48;
        proof {
            assert(s.take(i + 1 - start).drop_last() =~= s.take(i - start));
            lemma_digits_value_grows(s, i + 1 - start);
        }
        if n > 429_496_729 || (n == 429_496_729 && d > 5) {
            return None;
        }
        n = n * 10 + d;
        i += 1;
    }
    assert(s.take(v@.len() - start) =~= s);
    Some(n)
}

proof fn lemma_digits_read_back(n: nat)
    ensures
        text::digits(n, 10).len() > 0,
        all_digits(text::digits(n, 10)),
        digits_value(text::digits(n, 10)) == n,
    decreases n,
{
    reveal_with_fuel(digits_value, 2);
    if n < 10 {
        assert(text::digits(n, 10).drop_last() =~= Seq::empty());
    } else {
        lemma_digits_read_back(n / 10);
        assert(text::digits(n, 10).drop_last() =~= text::digits(n / 10, 10));
    }
}

/// Every process is found under its number.
pub proof fn lemma_every_pid_is_found(pid: u32)
    ensures
        pid_of(text::decimal(pid as nat)) == Some(pid),
{
    lemma_digits_read_back(pid as nat);
    assert(text::decimal(pid as nat)[0] != '+');
}

/// A command name ends at its first NUL.
pub proof fn lemma_comm_ends_at_nul(name: Seq<u8>, rest: Seq<u8>)
    requires
        forall|i: int| 0 <= i < name.len() ==> name[i] != 0,
    ensures
        comm_text(name + seq![0u8] + rest) == comm_text(name),
        text::utf8_text(name) matches Some(t) ==> comm_text(name) == t,
        text::utf8_text(name) is None ==> comm_text(name) == seq!['?'],
{
    reveal_strlit("?");
    assert("?"@ =~= seq!['?']);
    let b = name + seq![0u8] + rest;
    assert forall|j: int| 0 <= j < name.len() implies b[j] != 0 by {
        assert(b[j] == name[j]);
    }
    assert(b[name.len() as int] == 0);
    lemma_nul_len(b, name.len() as int);
    lemma_nul_len(name, name.len() as int);
    assert(b.take(name.len() as int) =~= name);
    assert(name.take(name.len() as int) =~= name);
}

/// The key of a denied flow is the flow's own: its process, address, port and family.
pub proof fn lemma_flow_key_is_the_flow(e: ConnectEvent)
    ensures
        flow_key_of(e).pid == e.pid,
        flow_key_of(e).daddr_v4 == e.daddr_v4,
        flow_key_of(e).daddr_v6 == e.daddr_v6,
        flow_key_of(e).dport == e.dport,
        flow_key_of(e).family == e.family,
        flow_key_of(e).start_ns == e.start_ns,
{
}

/// A flow is judged by its executable, its host, the text of its address and its port.
pub proof fn lemma_flow_facts(e: ConnectEvent, exe: Option<Seq<char>>, host: Option<Seq<char>>)
    ensures
        flow_facts(e, exe, host).exe == exe,
        flow_facts(e, exe, host).host == host,
        flow_facts(e, exe, host).port == e.dport,
        flow_facts(e, exe, host).ip == dns::destination_text(e),
{
}

/// A report says what the flow was, what is known of it, and how it was judged: a flow that a
/// deny rule decided is denied under that rule's name, one that an allow rule decided is
/// allowed under its name, and one that no rule matched is allowed under none.
pub proof fn lemma_report_tells_the_flow(
    r: EnrichedEvent,
    e: ConnectEvent,
    exe: Option<Seq<char>>,
    host: Option<Seq<char>>,
    id: Seq<char>,
    ts: u64,
)
    ensures
        is_report(r, e, exe, host, Some((Action::Deny, id)), ts) ==> r.verdict == proto::Verdict::Deny && text::opt_text(
            r.matched_rule,
        ) == Some(id),
        is_report(r, e, exe, host, Some((Action::Allow, id)), ts) ==> r.verdict == proto::Verdict::Allow
            && text::opt_text(r.matched_rule) == Some(id),
        is_report(r, e, exe, host, None, ts) ==> r.verdict == proto::Verdict::Allow && r.matched_rule is None,
        is_report(r, e, exe, host, None, ts) ==> {
            &&& r.pid == e.pid
            &&& r.uid == e.uid
            &&& r.family == e.family
            &&& r.daddr_v4 == e.daddr_v4
            &&& r.daddr_v6 == e.daddr_v6
            &&& r.dport == e.dport
            &&& r.ts_unix_ns == ts
            &&& r.comm@ == comm_text(e.comm@)
            &&& text::opt_text(r.exe_path) == exe
            &&& text::opt_text(r.hostname) == host
        },
        is_report(r, e, exe, host, Some((Action::Deny, id)), ts) ==> {
            &&& r.pid == e.pid
            &&& r.uid == e.uid
            &&& r.daddr_v4 == e.daddr_v4
            &&& r.daddr_v6 == e.daddr_v6
            &&& r.dport == e.dport
            &&& text::opt_text(r.exe_path) == exe
            &&& text::opt_text(r.hostname) == host
        },
{
}

/// The flow that the first rule which matches it denies is remembered, and reported under that
/// rule's name; what no rule matches is neither remembered nor reported as denied.
pub proof fn lemma_denied_flows_are_remembered(
    h: HandledEvent,
    e: ConnectEvent,
    exe: Option<Seq<char>>,
    host: Option<Seq<char>>,
    rule_set: Seq<Rule>,
    i: int,
    ts: u64,
)
    requires
        ({
            let verdict = rules::verdict_on(rule_set, flow_facts(e, exe, host));
            &&& h.deny == match verdict {
                Some((Action::Deny, _)) => Some(flow_key_of(e)),
                _ => None,
            }
            &&& is_report(h.report, e, exe, host, verdict, ts)
        }),
        0 <= i <= rule_set.len(),
        forall|j: int| 0 <= j < i ==> !rules::rule_matches(#[trigger] rule_set[j], flow_facts(e, exe, host)),
        i < rule_set.len() ==> rules::rule_matches(rule_set[i], flow_facts(e, exe, host)),
    ensures
        i < rule_set.len() && rule_set[i].action == Action::Deny ==> h.deny == Some(flow_key_of(e))
            && h.report.verdict == proto::Verdict::Deny && text::opt_text(h.report.matched_rule) == Some(
            rules::verdict_id(rule_set[i]),
        ),
        i < rule_set.len() && rule_set[i].action == Action::Allow ==> h.deny is None && h.report.verdict
            == proto::Verdict::Allow,
        i == rule_set.len() ==> h.deny is None && h.report.verdict == proto::Verdict::Allow
            && h.report.matched_rule is None,
{
    let f = flow_facts(e, exe, host);
    if i < rule_set.len() {
        rules::lemma_first_match_wins(rule_set, f, i);
    } else {
        rules::lemma_no_match_no_verdict(rule_set, f);
    }
}

/// What a line that shows a flow says, word by word.
pub proof fn lemma_line_tells_the_flow(
    e: ConnectEvent,
    exe: Seq<char>,
    host: Seq<char>,
    action: Action,
    id: Seq<char>,
)
    ensures
        ({
            let addr = if e.family == 4 {
                addr::ipv4_text(addr::v4_octets(e.daddr_v4))
            } else {
                seq!['['] + addr::ipv6_text(e.daddr_v6@) + seq![']']
            };
            let head = "pid="@ + text::decimal(e.pid as nat) + " uid="@ + text::decimal(e.uid as nat) + " comm="@
                + comm_text(e.comm@);
            let tail = " -> "@ + addr + seq![':'] + text::decimal(e.dport as nat);
            let known = " exe="@ + exe + " host="@ + host;
            let unknown = " exe="@ + seq!['?'] + " host="@ + seq!['?'];
            let judged = " verdict="@ + action.word() + " rule="@ + id;
            let not_judged = " verdict="@ + "allow"@ + " rule="@ + seq!['-'];
            &&& event_line(e, Some(exe), Some(host), Some((action, id))) == head + known + judged + tail
            &&& event_line(e, None, None, None) == head + unknown + not_judged + tail
        }),
{
    reveal_strlit("?");
    reveal_strlit("-");
    reveal_strlit("[");
    reveal_strlit("]");
    reveal_strlit(":");
    assert("?"@ =~= seq!['?']);
    assert("-"@ =~= seq!['-']);
    assert("["@ =~= seq!['[']);
    assert("]"@ =~= seq![']']);
    assert(":"@ =~= seq![':']);
    let c = comm_text(e.comm@);
    let (p, u, d) = (text::decimal(e.pid as nat), text::decimal(e.uid as nat), text::decimal(e.dport as nat));
    lemma_line_parts("pid="@, p, " uid="@, u, " comm="@, c, " exe="@, exe, " host="@, host, " verdict="@, action.word(),
        " rule="@, id, " -> "@, line_addr(e), ":"@, d);
    lemma_line_parts("pid="@, p, " uid="@, u, " comm="@, c, " exe="@, "?"@, " host="@, "?"@, " verdict="@, "allow"@,
        " rule="@, "-"@, " -> "@, line_addr(e), ":"@, d);
}

proof fn lemma_line_parts(
    a: Seq<char>,
    b: Seq<char>,
    c: Seq<char>,
    d: Seq<char>,
    e: Seq<char>,
    f: Seq<char>,
    g: Seq<char>,
    h: Seq<char>,
    i: Seq<char>,
    j: Seq<char>,
    k: Seq<char>,
    l: Seq<char>,
    m: Seq<char>,
    n: Seq<char>,
    o: Seq<char>,
    p: Seq<char>,
    q: Seq<char>,
    r: Seq<char>,
)
    ensures
        a + b + c + d + e + f + g + h + i + j + k + l + m + n + o + p + q + r == (a + b + c + d + e + f) + (g + h + i
            + j) + (k + l + m + n) + (o + p + q + r),
{
    let head = a + b + c + d + e + f;
    lemma_four(head, g, h, i, j);
    lemma_four(head + (g + h + i + j), k, l, m, n);
    lemma_four(head + (g + h + i + j) + (k + l + m + n), o, p, q, r);
}

proof fn lemma_four(x: Seq<char>, a: Seq<char>, b: Seq<char>, c: Seq<char>, d: Seq<char>)
    ensures
        x + a + b + c + d == x + (a + b + c + d),
{
    assert(x + a + b + c + d =~= x + (a + b + c + d));
}

/// What is known of a process is what was found out, or that nothing could be.
pub proof fn lemma_paths(paths: Map<u32, Option<String>>, pid: u32)
    ensures
        paths_view(paths).contains_key(pid) <==> paths.contains_key(pid),
        paths.contains_key(pid) ==> (paths[pid] matches Some(p) ==> paths_view(paths)[pid] == Some(p@)),
        paths.contains_key(pid) && paths[pid] is None ==> paths_view(paths)[pid] is None,
{
}

/// Blanks, tabs and line ends are white space; letters and digits are not.
pub proof fn lemma_white_space(c: char)
    ensures
        c == ' ' || c == '\t' || c == '\n' || c == '\r' ==> is_white_space(c),
        '!' <= c <= '~' ==> !is_white_space(c),
{
}

proof fn lemma_trim_start(a: Seq<char>, s: Seq<char>)
    requires
        forall|i: int| 0 <= i < a.len() ==> is_white_space(#[trigger] a[i]),
        s.len() > 0 ==> !is_white_space(s[0]),
    ensures
        trim_start(a + s) == s,
    decreases a.len(),
{
    if a.len() > 0 {
        assert((a + s)[0] == a[0]);
        assert forall|i: int| 0 <= i < a.skip(1).len() implies is_white_space(#[trigger] a.skip(1)[i]) by {
            assert(a.skip(1)[i] == a[i + 1]);
        }
        lemma_trim_start(a.skip(1), s);
        assert((a + s).skip(1) =~= a.skip(1) + s);
    } else {
        assert(a + s =~= s);
    }
}

proof fn lemma_trim_end(s: Seq<char>, b: Seq<char>)
    requires
        forall|i: int| 0 <= i < b.len() ==> is_white_space(#[trigger] b[i]),
        s.len() > 0 ==> !is_white_space(s.last()),
    ensures
        trim_end(s + b) == s,
    decreases b.len(),
{
    if b.len() > 0 {
        assert((s + b).last() == b[b.len() - 1]);
        assert forall|i: int| 0 <= i < b.drop_last().len() implies is_white_space(#[trigger] b.drop_last()[i]) by {
            assert(b.drop_last()[i] == b[i]);
        }
        lemma_trim_end(s, b.drop_last());
        assert((s + b).drop_last() =~= s + b.drop_last());
    } else {
        assert(s + b =~= s);
    }
}

/// An interface whose state is a word between white space is watched exactly if the word is
/// `up` or `unknown`.
pub proof fn lemma_states_that_are_watched(before: Seq<char>, word: Seq<char>, after: Seq<char>)
    requires
        forall|i: int| 0 <= i < before.len() ==> is_white_space(#[trigger] before[i]),
        forall|i: int| 0 <= i < after.len() ==> is_white_space(#[trigger] after[i]),
        word.len() > 0,
        forall|i: int| 0 <= i < word.len() ==> 'a' <= #[trigger] word[i] <= 'z',
    ensures
        is_up(before + word + after) <==> word == seq!['u', 'p'] || word == seq!['u', 'n', 'k', 'n', 'o', 'w', 'n'],
{
    reveal_strlit("up");
    reveal_strlit("unknown");
    assert("up"@ =~= seq!['u', 'p']);
    assert("unknown"@ =~= seq!['u', 'n', 'k', 'n', 'o', 'w', 'n']);
    lemma_trim_start(before, word + after);
    lemma_trim_end(word, after);
    assert(before + word + after =~= before + (word + after));
}

/// Every interface that is up is watched, no other is, and they keep their order.
pub proof fn lemma_watched_interfaces(before: Seq<Interface>, last: Interface)
    ensures
        up_names(Seq::empty()) == Seq::<Seq<char>>::empty(),
        (last.state matches Some(s) && is_up(s@)) ==> up_names(before.push(last)) == up_names(before).push(last.name@),
        !(last.state matches Some(s) && is_up(s@)) ==> up_names(before.push(last)) == up_names(before),
{
    assert(before.push(last).drop_last() =~= before);
}

/// A directory whose name is not a number is no process.
pub proof fn lemma_other_names_are_no_process(name: Seq<char>, i: int)
    requires
        0 <= i < name.len(),
        !('0' <= name[i] <= '9'),
        i > 0 || name[0] != '+',
    ensures
        pid_of(name) is None,
{
    if name[0] == '+' {
        assert(name.skip(1)[i - 1] == name[i]);
    }
}

/// A report tells what the flow was and what is known of it, however it was judged.
pub proof fn lemma_report_tells_what_is_known(
    r: EnrichedEvent,
    e: ConnectEvent,
    exe: Option<Seq<char>>,
    host: Option<Seq<char>>,
    verdict: Option<(Action, Seq<char>)>,
    ts: u64,
)
    requires
        is_report(r, e, exe, host, verdict, ts),
    ensures
        r.pid == e.pid,
        r.uid == e.uid,
        r.family == e.family,
        r.daddr_v4 == e.daddr_v4,
        r.daddr_v6 == e.daddr_v6,
        r.dport == e.dport,
        r.ts_unix_ns == ts,
        r.comm@ == comm_text(e.comm@),
        text::opt_text(r.exe_path) == exe,
        text::opt_text(r.hostname) == host,
        r.verdict == proto::Verdict::Deny <==> (verdict matches Some(v) && v.0 == Action::Deny),
        verdict matches Some(v) ==> text::opt_text(r.matched_rule) == Some(v.1),
        verdict is None ==> r.matched_rule is None,
{
}

/// A verdict behind a reference is the verdict.
pub proof fn lemma_verdict_ref_view(v: &Verdict)
    ensures
        verdict_ref_view(Some(v)) == Some((v.action, v.rule_id@)),
        verdict_ref_view(None) is None,
{
}

/// A number is a process if it fits, with or without a plus sign in front.
pub proof fn lemma_numbers_that_are_processes(n: nat)
    ensures
        n <= u32::MAX ==> pid_of(seq!['+'] + text::decimal(n)) == Some(n as u32),
        n <= u32::MAX ==> pid_of(text::decimal(n)) == Some(n as u32),
        n > u32::MAX ==> pid_of(text::decimal(n)) is None,
        pid_of(Seq::empty()) is None,
        pid_of(seq!['+']) is None,
{
    let d = text::decimal(n);
    lemma_digits_read_back(n);
    assert((seq!['+'] + d).skip(1) =~= d);
    assert((seq!['+'] + d)[0] == '+');
    assert(d[0] != '+');
    assert(seq!['+'].skip(1) =~= Seq::<char>::empty());
}

} // verus!
