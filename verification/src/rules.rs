//! Rules: what they match, and which of them decides.

use vstd::prelude::*;
use vstd::string::*;

use crate::text;

verus! {

#[derive(Debug, Clone)]
pub struct Rule {
    pub id: Option<String>,
    /// Lower is tried first.
    pub priority: u32,
    pub enabled: bool,
    pub action: Action,
    pub duration: Duration,
    /// All of them must match; none is a catch-all.
    pub matches: Vec<Match>,
}

/// A rule is enabled unless its file says otherwise.
pub fn default_true() -> (r: bool)
    ensures
        r,
{
    true
}

/// The priority of a rule whose file states none.
pub fn default_priority() -> (r: u32)
    ensures
        r == 100,
{
    100
}

#[derive(Debug, Clone, Copy, PartialEq, Eq, Structural)]
pub enum Action {
    Allow,
    Deny,
}

impl Action {
    /// The word for the action.
    pub open spec fn word(self) -> Seq<char> {
        match self {
            Action::Allow => "allow"@,
            Action::Deny => "deny"@,
        }
    }

    pub fn as_str(self) -> (r: &'static str)
        ensures
            r@ == self.word(),
    {
        match self {
            Action::Allow => "allow",
            Action::Deny => "deny",
        }
    }
}

#[derive(Debug, Clone, Copy, PartialEq, Eq, Structural)]
pub enum Duration {
    Once,
    Session,
    Persistent,
}

impl Default for Duration {
    fn default() -> (r: Self)
        ensures
            r == Duration::Persistent,
    {
        Duration::Persistent
    }
}

impl Duration {
    /// The word for the duration.
    pub open spec fn word(self) -> Seq<char> {
        match self {
            Duration::Once => "once"@,
            Duration::Session => "session"@,
            Duration::Persistent => "persistent"@,
        }
    }

    pub fn as_str(self) -> (r: &'static str)
        ensures
            r@ == self.word(),
    {
        match self {
            Duration::Once => "once",
            Duration::Session => "session",
            Duration::Persistent => "persistent",
        }
    }
}

#[derive(Debug, Clone)]
pub struct Match {
    pub field: MatchField,
    pub op: MatchOp,
    pub value: MatchValue,
}

#[derive(Debug, Clone, Copy, PartialEq, Eq, Structural)]
pub enum MatchField {
    ProcessPath,
    DestHost,
    DestIp,
    DestPort,
}

#[derive(Debug, Clone, Copy, PartialEq, Eq, Structural)]
pub enum MatchOp {
    Exact,
    Prefix,
    Suffix,
    Contains,
    In,
}

#[derive(Debug, Clone)]
pub enum MatchValue {
    Num(u16),
    Str(String),
    NumList(Vec<u16>),
    StrList(Vec<String>),
}

/// What the rules say of a flow.
#[derive(Debug, Clone)]
pub struct Verdict {
    pub action: Action,
    pub rule_id: String,
}

/// What is known of a flow.
pub struct Facts {
    pub exe: Option<Seq<char>>,
    pub host: Option<Seq<char>>,
    pub ip: Option<Seq<char>>,
    pub port: u16,
}

/// A fact that is not known counts as the empty text.
pub open spec fn known(fact: Option<Seq<char>>) -> Seq<char> {
    match fact {
        Some(s) => s,
        None => Seq::empty(),
    }
}

/// The text `s` meets a clause. Only `in` takes a list, and no text meets a number.
pub open spec fn string_matches(op: MatchOp, value: MatchValue, s: Seq<char>) -> bool {
    match (op, value) {
        (MatchOp::Exact, MatchValue::Str(v)) => s == v@,
        (MatchOp::Prefix, MatchValue::Str(v)) => v@.is_prefix_of(s),
        (MatchOp::Suffix, MatchValue::Str(v)) => v@.is_suffix_of(s),
        (MatchOp::Contains, MatchValue::Str(v)) => text::has_substring(s, v@),
        (MatchOp::In, MatchValue::StrList(vs)) => exists|i: int|
            0 <= i < vs@.len() && #[trigger] vs@[i]@ == s,
        _ => false,
    }
}

/// The port meets a clause. It is compared with a number or looked up in a list of them.
pub open spec fn port_matches(op: MatchOp, value: MatchValue, port: u16) -> bool {
    match (op, value) {
        (MatchOp::Exact, MatchValue::Num(v)) => port == v,
        (MatchOp::In, MatchValue::NumList(vs)) => vs@.contains(port),
        _ => false,
    }
}

/// The flow meets one clause.
pub open spec fn clause_matches(m: Match, f: Facts) -> bool {
    match m.field {
        MatchField::ProcessPath => string_matches(m.op, m.value, known(f.exe)),
        MatchField::DestHost => string_matches(m.op, m.value, known(f.host)),
        MatchField::DestIp => string_matches(m.op, m.value, known(f.ip)),
        MatchField::DestPort => port_matches(m.op, m.value, f.port),
    }
}

/// The flow meets every clause of a rule.
pub open spec fn rule_matches(r: Rule, f: Facts) -> bool {
    forall|i: int| 0 <= i < r.matches@.len() ==> #[trigger] clause_matches(r.matches@[i], f)
}

/// The name a rule goes by in a verdict.
pub open spec fn verdict_id(r: Rule) -> Seq<char> {
    match r.id {
        Some(s) => s@,
        None => "?"@,
    }
}

/// What a list of rules says of a flow: the first one that matches decides.
pub open spec fn verdict_on(rules: Seq<Rule>, f: Facts) -> Option<(Action, Seq<char>)>
    decreases rules.len(),
{
    if rules.len() == 0 {
        None
    } else if rule_matches(rules[0], f) {
        Some((rules[0].action, verdict_id(rules[0])))
    } else {
        verdict_on(rules.skip(1), f)
    }
}

/// A verdict as an action and the text of its rule id.
pub open spec fn verdict_view(v: Option<Verdict>) -> Option<(Action, Seq<char>)> {
    match v {
        Some(v) => Some((v.action, v.rule_id@)),
        None => None,
    }
}

/// The first rule that matches decides, whatever the rules after it say.
pub proof fn lemma_first_match_wins(rules: Seq<Rule>, f: Facts, i: int)
    requires
        0 <= i < rules.len(),
        rule_matches(rules[i], f),
        forall|j: int| 0 <= j < i ==> !rule_matches(#[trigger] rules[j], f),
    ensures
        verdict_on(rules, f) == Some((rules[i].action, verdict_id(rules[i]))),
    decreases i,
{
    if i > 0 {
        assert(!rule_matches(rules[0], f));
        assert forall|j: int| 0 <= j < i - 1 implies !rule_matches(#[trigger] rules.skip(1)[j], f) by {
            assert(rules.skip(1)[j] == rules[j + 1]);
        }
        lemma_first_match_wins(rules.skip(1), f, i - 1);
    }
}

/// A flow that no rule matches gets no verdict, and only such a flow.
pub proof fn lemma_no_match_no_verdict(rules: Seq<Rule>, f: Facts)
    ensures
        verdict_on(rules, f) is None <==> forall|i: int|
            0 <= i < rules.len() ==> !rule_matches(#[trigger] rules[i], f),
    decreases rules.len(),
{
    if rules.len() > 0 {
        lemma_no_match_no_verdict(rules.skip(1), f);
        if verdict_on(rules, f) is None {
            assert forall|i: int| 0 <= i < rules.len() implies !rule_matches(#[trigger] rules[i], f) by {
                if i > 0 {
                    assert(rules.skip(1)[i - 1] == rules[i]);
                }
            }
        } else if !rule_matches(rules[0], f) {
            let i = choose|i: int| 0 <= i < rules.skip(1).len() && rule_matches(#[trigger] rules.skip(1)[i], f);
            assert(rules.skip(1)[i] == rules[i + 1]);
        }
    }
}

/// A rule without clauses matches every flow.
pub proof fn lemma_empty_rule_catches_all(r: Rule, f: Facts)
    requires
        r.matches@.len() == 0,
    ensures
        rule_matches(r, f),
{
}

fn lists_text(vs: &Vec<String>, s: &str) -> (r: bool)
    ensures
        r == exists|i: int| 0 <= i < vs@.len() && #[trigger] vs@[i]@ == s@,
{
    let mut i: usize = 0;
    while i < vs.len()
        invariant
            i <= vs@.len(),
            forall|j: int| 0 <= j < i ==> #[trigger] vs@[j]@ != s@,
        decreases vs@.len() - i,
    {
        if text::str_eq(vs[i].as_str(), s) {
            assert(vs@[i as int]@ == s@);
            return true;
        }
        i += 1;
    }
    false
}

fn lists_port(vs: &Vec<u16>, port: u16) -> (r: bool)
    ensures
        r == vs@.contains(port),
{
    let mut i: usize = 0;
    while i < vs.len()
        invariant
            i <= vs@.len(),
            forall|j: int| 0 <= j < i ==> vs@[j] != port,
        decreases vs@.len() - i,
    {
        if vs[i] == port {
            return true;
        }
        i += 1;
    }
    false
}

/// Whether a text meets a clause.
pub fn match_string(op: MatchOp, value: &MatchValue, s: &str) -> (r: bool)
    ensures
        r == string_matches(op, *value, s@),
{
    match (op, value) {
        (MatchOp::Exact, MatchValue::Str(v)) => text::str_eq(s, v.as_str()),
        (MatchOp::Prefix, MatchValue::Str(v)) => text::str_starts_with(s, v.as_str()),
        (MatchOp::Suffix, MatchValue::Str(v)) => text::str_ends_with(s, v.as_str()),
        (MatchOp::Contains, MatchValue::Str(v)) => text::str_contains(s, v.as_str()),
        (MatchOp::In, MatchValue::StrList(vs)) => lists_text(vs, s),
        _ => false,
    }
}

/// Whether a port meets a clause.
pub fn match_port(op: MatchOp, value: &MatchValue, port: u16) -> (r: bool)
    ensures
        r == port_matches(op, *value, port),
{
    match (op, value) {
        (MatchOp::Exact, MatchValue::Num(v)) => port == *v,
        (MatchOp::In, MatchValue::NumList(vs)) => lists_port(vs, port),
        _ => false,
    }
}

fn or_empty(fact: Option<&str>) -> (r: &str)
    ensures
        r@ == known(text::opt_str_text(fact)),
{
    match fact {
        Some(s) => s,
        None => {
            proof {
                reveal_strlit("");
                assert(""@ =~= Seq::<char>::empty());
            }
            ""
        },
    }
}

/// The facts that the arguments of `evaluate` state.
pub open spec fn facts(exe: Option<&str>, host: Option<&str>, ip: Option<&str>, port: u16) -> Facts {
    Facts {
        exe: text::opt_str_text(exe),
        host: text::opt_str_text(host),
        ip: text::opt_str_text(ip),
        port,
    }
}

/// Whether a flow meets one clause.
pub fn matches_one(m: &Match, exe: Option<&str>, host: Option<&str>, ip: Option<&str>, dport: u16) -> (r: bool)
    ensures
        r == clause_matches(*m, facts(exe, host, ip, dport)),
{
    match m.field {
        MatchField::ProcessPath => match_string(m.op, &m.value, or_empty(exe)),
        MatchField::DestHost => match_string(m.op, &m.value, or_empty(host)),
        MatchField::DestIp => match_string(m.op, &m.value, or_empty(ip)),
        MatchField::DestPort => match_port(m.op, &m.value, dport),
    }
}

fn matches_all(rule: &Rule, exe: Option<&str>, host: Option<&str>, ip: Option<&str>, dport: u16) -> (r: bool)
    ensures
        r == rule_matches(*rule, facts(exe, host, ip, dport)),
{
    let mut i: usize = 0;
    while i < rule.matches.len()
        invariant
            i <= rule.matches@.len(),
            forall|j: int|
                0 <= j < i ==> #[trigger] clause_matches(
                    rule.matches@[j],
                    facts(exe, host, ip, dport),
                ),
        decreases rule.matches@.len() - i,
    {
        if !matches_one(&rule.matches[i], exe, host, ip, dport) {
            return false;
        }
        i += 1;
    }
    true
}

/// What the rules, taken in order, say of a flow.
pub fn evaluate(
    rules: &[Rule],
    exe: Option<&str>,
    host: Option<&str>,
    ip: Option<&str>,
    dport: u16,
) -> (r: Option<Verdict>)
    ensures
        verdict_view(r) == verdict_on(rules@, facts(exe, host, ip, dport)),
{
    let ghost f = facts(exe, host, ip, dport);
    let mut i: usize = 0;
    assert(rules@.skip(0) =~= rules@);
    while i < rules.len()
        invariant
            i <= rules@.len(),
            f == facts(exe, host, ip, dport),
            verdict_on(rules@, f) == verdict_on(rules@.skip(i as int), f),
        decreases rules@.len() - i,
    {
        let rule = &rules[i];
        assert(rules@.skip(i as int)[0] == *rule);
        if matches_all(rule, exe, host, ip, dport) {
            let rule_id = match &rule.id {
                Some(id) => id.clone(),
                None => "?".to_string(),
            };
            return Some(Verdict { action: rule.action, rule_id });
        }
        assert(rules@.skip(i as int).skip(1) =~= rules@.skip(i + 1));
        i += 1;
    }
    None
}

/// `exact` takes the text itself and no other.
pub proof fn lemma_exact_takes_the_text(v: String, s: Seq<char>)
    ensures
        string_matches(MatchOp::Exact, MatchValue::Str(v), v@),
        string_matches(MatchOp::Exact, MatchValue::Str(v), s) ==> s == v@,
{
}

/// `prefix` takes every text that begins with the value, and no other.
pub proof fn lemma_prefix_takes_beginnings(v: String, s: Seq<char>, rest: Seq<char>)
    ensures
        string_matches(MatchOp::Prefix, MatchValue::Str(v), v@ + rest),
        string_matches(MatchOp::Prefix, MatchValue::Str(v), s) ==> v@.len() <= s.len() && forall|i: int|
            0 <= i < v@.len() ==> #[trigger] s[i] == v@[i],
{
    assert((v@ + rest).take(v@.len() as int) =~= v@);
    if string_matches(MatchOp::Prefix, MatchValue::Str(v), s) {
        assert forall|i: int| 0 <= i < v@.len() implies #[trigger] s[i] == v@[i] by {
            assert(s.take(v@.len() as int)[i] == s[i]);
        }
    }
}

/// `suffix` takes every text that ends with the value, and no other.
pub proof fn lemma_suffix_takes_endings(v: String, s: Seq<char>, start: Seq<char>)
    ensures
        string_matches(MatchOp::Suffix, MatchValue::Str(v), start + v@),
        string_matches(MatchOp::Suffix, MatchValue::Str(v), s) ==> v@.len() <= s.len() && forall|i: int|
            0 <= i < v@.len() ==> s[s.len() - v@.len() + i] == #[trigger] v@[i],
{
    let whole = start + v@;
    assert(whole.skip(whole.len() - v@.len()) =~= v@);
    if string_matches(MatchOp::Suffix, MatchValue::Str(v), s) {
        assert forall|i: int| 0 <= i < v@.len() implies s[s.len() - v@.len() + i] == #[trigger] v@[i] by {
            assert(s.skip(s.len() - v@.len())[i] == s[s.len() - v@.len() + i]);
        }
    }
}

/// `contains` takes every text that has the value somewhere in it, and no other.
pub proof fn lemma_contains_takes_what_holds_it(v: String, s: Seq<char>, start: Seq<char>, rest: Seq<char>)
    ensures
        string_matches(MatchOp::Contains, MatchValue::Str(v), start + v@ + rest),
        string_matches(MatchOp::Contains, MatchValue::Str(v), s) ==> exists|a: Seq<char>, b: Seq<char>|
            s == #[trigger] (a + v@ + b),
{
    text::lemma_substring_is_a_part(start + v@ + rest, start, v@, rest);
    if string_matches(MatchOp::Contains, MatchValue::Str(v), s) {
        text::lemma_part_splits(s, v@);
    }
}

/// `in` takes every item of a list, wherever it stands, and no other text.
pub proof fn lemma_in_takes_every_item(vs: Vec<String>, i: int, s: Seq<char>)
    ensures
        0 <= i < vs@.len() ==> string_matches(MatchOp::In, MatchValue::StrList(vs), vs@[i]@),
        (forall|j: int| 0 <= j < vs@.len() ==> (#[trigger] vs@[j])@ != s) ==> !string_matches(
            MatchOp::In,
            MatchValue::StrList(vs),
            s,
        ),
{
    if 0 <= i < vs@.len() {
        let item = vs@[i]@;
        assert(exists|j: int| 0 <= j < vs@.len() && #[trigger] vs@[j]@ == item) by {
            assert(vs@[i]@ == item);
        }
    }
}

/// No text meets a number; a list goes with `in` alone, and `in` with a list alone.
pub proof fn lemma_texts_meet_only_texts(op: MatchOp, value: MatchValue, s: Seq<char>)
    requires
        string_matches(op, value, s),
    ensures
        value is Str || value is StrList,
        op is In <==> value is StrList,
{
}

/// A port meets its own number, and every list that has it; nothing else.
pub proof fn lemma_port_meets_its_number(op: MatchOp, value: MatchValue, port: u16)
    ensures
        port_matches(MatchOp::Exact, MatchValue::Num(port), port),
        port_matches(op, value, port) ==> (op is Exact && value == MatchValue::Num(port)) || (op is In && (
        value matches MatchValue::NumList(ns) && exists|i: int| 0 <= i < ns@.len() && #[trigger] ns@[i] == port)),
{
}

/// Every item of a list of ports is met.
pub proof fn lemma_port_meets_every_item(ns: Vec<u16>, i: int)
    requires
        0 <= i < ns@.len(),
    ensures
        port_matches(MatchOp::In, MatchValue::NumList(ns), ns@[i]),
{
    assert(ns@.contains(ns@[i]));
}

/// A clause looks at its own field: the executable, the host, the address or the port, and at
/// nothing else.
pub proof fn lemma_clause_looks_at_its_field(m: Match, f: Facts, s: Seq<char>)
    ensures
        m.field is ProcessPath ==> clause_matches(m, Facts { exe: Some(s), ..f }) == string_matches(
            m.op,
            m.value,
            s,
        ),
        m.field is DestHost ==> clause_matches(m, Facts { host: Some(s), ..f }) == string_matches(m.op, m.value, s),
        m.field is DestIp ==> clause_matches(m, Facts { ip: Some(s), ..f }) == string_matches(m.op, m.value, s),
        m.field is DestPort ==> clause_matches(m, f) == port_matches(m.op, m.value, f.port),
{
}

/// A fact that is not known is met only by what the empty text meets.
pub proof fn lemma_unknown_is_the_empty_text(m: Match, f: Facts)
    ensures
        m.field is ProcessPath && f.exe is None ==> clause_matches(m, f) == string_matches(
            m.op,
            m.value,
            Seq::empty(),
        ),
        m.field is DestHost && f.host is None ==> clause_matches(m, f) == string_matches(m.op, m.value, Seq::empty()),
        m.field is DestIp && f.ip is None ==> clause_matches(m, f) == string_matches(m.op, m.value, Seq::empty()),
{
}

/// One clause that is not met keeps a rule from matching; a rule whose clauses are all met
/// matches.
pub proof fn lemma_every_clause_counts(r: Rule, f: Facts, i: int)
    ensures
        0 <= i < r.matches@.len() && !clause_matches(r.matches@[i], f) ==> !rule_matches(r, f),
        (forall|j: int| 0 <= j < r.matches@.len() ==> clause_matches(#[trigger] r.matches@[j], f)) ==> rule_matches(
            r,
            f,
        ),
{
}

/// A verdict names its rule by the rule's id.
pub proof fn lemma_verdict_names_the_rule(r: Rule)
    ensures
        r.id matches Some(id) ==> verdict_id(r) == id@,
        r.id is None ==> verdict_id(r) == seq!['?'],
{
    reveal_strlit("?");
    assert("?"@ =~= seq!['?']);
}

/// A rule that matches decides over all rules behind it, and rules that do not match change
/// nothing.
pub proof fn lemma_rules_are_tried_in_order(first: Rule, rest: Seq<Rule>, f: Facts)
    ensures
        rule_matches(first, f) ==> (verdict_on(seq![first] + rest, f) matches Some(v) && v.0 == first.action),
        !rule_matches(first, f) ==> verdict_on(seq![first] + rest, f) == verdict_on(rest, f),
        verdict_on(Seq::empty(), f) is None,
{
    let all = seq![first] + rest;
    assert(all[0] == first);
    assert(all.skip(1) =~= rest);
}

/// What is judged is what was handed in.
pub proof fn lemma_facts_are_the_arguments(exe: &str, host: &str, ip: &str, port: u16)
    ensures
        facts(Some(exe), Some(host), Some(ip), port) == (Facts {
            exe: Some(exe@),
            host: Some(host@),
            ip: Some(ip@),
            port,
        }),
        facts(None, None, None, port) == (Facts { exe: None, host: None, ip: None, port }),
{
}

/// The words of actions and durations.
pub proof fn lemma_words_tell_apart()
    ensures
        Action::Allow.word() == seq!['a', 'l', 'l', 'o', 'w'],
        Action::Deny.word() == seq!['d', 'e', 'n', 'y'],
        Duration::Once.word() == seq!['o', 'n', 'c', 'e'],
        Duration::Session.word() == seq!['s', 'e', 's', 's', 'i', 'o', 'n'],
        Duration::Persistent.word() == seq!['p', 'e', 'r', 's', 'i', 's', 't', 'e', 'n', 't'],
{
    reveal_strlit("allow");
    reveal_strlit("deny");
    reveal_strlit("once");
    reveal_strlit("session");
    reveal_strlit("persistent");
    assert(Action::Allow.word() =~= seq!['a', 'l', 'l', 'o', 'w']);
    assert(Action::Deny.word() =~= seq!['d', 'e', 'n', 'y']);
    assert(Duration::Once.word() =~= seq!['o', 'n', 'c', 'e']);
    assert(Duration::Session.word() =~= seq!['s', 'e', 's', 's', 'i', 'o', 'n']);
    assert(Duration::Persistent.word() =~= seq!['p', 'e', 'r', 's', 'i', 's', 't', 'e', 'n', 't']);
}

/// A verdict is its action and the id of its rule.
pub proof fn lemma_verdict_view(v: Verdict)
    ensures
        verdict_view(Some(v)) == Some((v.action, v.rule_id@)),
        verdict_view(None) is None,
{
}

} // verus!
