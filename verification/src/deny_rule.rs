//! Deny rules made from a row that the user picked.

use vstd::prelude::*;
use vstd::string::*;

use crate::proto::DenyRuleKind;
use crate::rule_files;
use crate::rule_files::RuleFile;
use crate::rule_text;
use crate::rules;
use crate::rules::{Action, Duration, Facts, Match, MatchField, MatchOp, MatchValue, Rule};
use crate::text;
use crate::toml_text;

verus! {

/// A rule file to be written: its name within the rules directory, and what it holds.
#[derive(Debug, Clone)]
pub struct RuleDraft {
    pub name: String,
    pub body: String,
}

/// What the picked row tells of the flow.
pub struct Row {
    pub exe: Option<Seq<char>>,
    pub host: Option<Seq<char>>,
    pub ip: Option<Seq<char>>,
}

pub open spec fn needs_host(by: DenyRuleKind) -> bool {
    by == DenyRuleKind::Host || by == DenyRuleKind::Both
}

pub open spec fn needs_exe(by: DenyRuleKind) -> bool {
    by == DenyRuleKind::Process || by == DenyRuleKind::Both
}

pub open spec fn needs_ip(by: DenyRuleKind) -> bool {
    by == DenyRuleKind::Ip
}

/// The fact is there and not empty.
pub open spec fn is_given(fact: Option<Seq<char>>) -> bool {
    rules::known(fact).len() > 0
}

/// Why no rule of a kind can be made from a row: the first fact that it needs and the row
/// does not have.
pub open spec fn refusal(row: Row, by: DenyRuleKind) -> Option<Seq<char>> {
    if needs_host(by) && !is_given(row.host) {
        Some("requested deny-by-host but no hostname on the row"@)
    } else if needs_exe(by) && !is_given(row.exe) {
        Some("requested deny-by-process but no exe path on the row"@)
    } else if needs_ip(by) && !is_given(row.ip) {
        Some("requested deny-by-ip but no dest_ip on the row"@)
    } else {
        None
    }
}

/// A clause on a text.
pub struct Clause {
    pub field: MatchField,
    pub op: MatchOp,
    pub value: Seq<char>,
}

/// The clauses of the rule: the executable itself, the host and its subdomains, the address
/// itself, as far as the kind asks for them.
pub open spec fn clauses(row: Row, by: DenyRuleKind) -> Seq<Clause> {
    match by {
        DenyRuleKind::Host => seq![host_clause(row)],
        DenyRuleKind::Process => seq![exe_clause(row)],
        DenyRuleKind::Ip => seq![ip_clause(row)],
        DenyRuleKind::Both => seq![exe_clause(row), host_clause(row)],
    }
}

pub open spec fn exe_clause(row: Row) -> Clause {
    Clause { field: MatchField::ProcessPath, op: MatchOp::Exact, value: rules::known(row.exe) }
}

pub open spec fn host_clause(row: Row) -> Clause {
    Clause { field: MatchField::DestHost, op: MatchOp::Suffix, value: rules::known(row.host) }
}

pub open spec fn ip_clause(row: Row) -> Clause {
    Clause { field: MatchField::DestIp, op: MatchOp::Exact, value: rules::known(row.ip) }
}

/// A clause as it stands in a rule file.
pub open spec fn clause_text(c: Clause) -> Seq<char> {
    "[[match]]\ntype = \""@ + rule_files::field_word(c.field) + "\"\nop = \""@ + rule_files::op_word(c.op)
        + "\"\nvalue = \""@ + toml_text::escaped(c.value) + "\"\n"@
}

/// Clauses with an empty line between them.
pub open spec fn clauses_text(cs: Seq<Clause>) -> Seq<char>
    decreases cs.len(),
{
    if cs.len() == 0 {
        Seq::empty()
    } else if cs.len() == 1 {
        clause_text(cs[0])
    } else {
        clauses_text(cs.drop_last()) + "\n"@ + clause_text(cs.last())
    }
}

pub open spec fn is_name_char(c: char) -> bool {
    ('a' <= c && c <= 'z') || ('A' <= c && c <= 'Z') || ('0' <= c && c <= '9') || c == '-' || c == '_'
}

/// A text with everything but letters, digits, dashes and underscores of ASCII turned into
/// underscores.
pub open spec fn sanitized(s: Seq<char>) -> Seq<char> {
    s.map_values(
        |c: char|
            if is_name_char(c) {
                c
            } else {
                '_'
            },
    )
}

/// The last component of a path. Slashes and single dots at the end do not count; a path
/// that comes down to nothing, to a leading dot or to a step up has none.
pub open spec fn file_name(p: Seq<char>) -> Option<Seq<char>>
    decreases p.len(),
{
    if p.len() == 0 {
        None
    } else {
        let i = text::last_slash(p);
        let c = p.skip(i + 1);
        if c.len() == 0 {
            file_name(p.drop_last())
        } else if c == seq!['.', '.'] {
            None
        } else if c == seq!['.'] {
            if i < 0 {
                None
            } else {
                file_name(p.drop_last())
            }
        } else {
            Some(c)
        }
    }
}

/// A part of a rule's name; a fact that is not there is named `unknown`.
pub open spec fn name_part(fact: Option<Seq<char>>) -> Seq<char> {
    match fact {
        Some(s) => sanitized(s),
        None => "unknown"@,
    }
}

/// The executable's part of a rule's name.
pub open spec fn exe_part(exe: Option<Seq<char>>) -> Seq<char> {
    match exe {
        Some(p) => name_part(file_name(p)),
        None => "unknown"@,
    }
}

/// The middle of a rule's name, after what it denies.
pub open spec fn stem(row: Row, by: DenyRuleKind) -> Seq<char> {
    match by {
        DenyRuleKind::Host => name_part(row.host),
        DenyRuleKind::Process => exe_part(row.exe),
        DenyRuleKind::Ip => name_part(row.ip),
        DenyRuleKind::Both => exe_part(row.exe) + "-"@ + name_part(row.host),
    }
}

/// The id of the rule made from a row at a time.
pub open spec fn rule_id(row: Row, by: DenyRuleKind, ts_millis: u128) -> Seq<char> {
    "auto-deny-"@ + stem(row, by) + "-"@ + text::decimal(ts_millis as nat)
}

/// What the file of the rule holds.
pub open spec fn rule_body(row: Row, by: DenyRuleKind, ts_millis: u128) -> Seq<char> {
    "# Auto-generated by dadophoros TUI rule picker.\nid = \""@ + rule_id(row, by, ts_millis)
        + "\"\npriority = 100\naction = \"deny\"\n\n"@ + clauses_text(clauses(row, by))
}

/// The row that the arguments state.
pub open spec fn row(exe: Option<String>, host: Option<String>, ip: Option<String>) -> Row {
    Row { exe: text::opt_text(exe), host: text::opt_text(host), ip: text::opt_text(ip) }
}

/// `m` is the clause `c`.
pub open spec fn is_clause(m: Match, c: Clause) -> bool {
    &&& m.field == c.field
    &&& m.op == c.op
    &&& m.value matches MatchValue::Str(s)
    &&& s@ == c.value
}

/// `r` has the clauses `cs`.
pub open spec fn has_clauses(r: Rule, cs: Seq<Clause>) -> bool {
    r.matches@.len() == cs.len() && forall|i: int|
        0 <= i < cs.len() ==> is_clause(#[trigger] r.matches@[i], cs[i])
}

/// The rule made from a row matches the flow on that row.
pub proof fn lemma_rule_matches_its_row(row: Row, by: DenyRuleKind, r: Rule, port: u16)
    requires
        refusal(row, by) is None,
        has_clauses(r, clauses(row, by)),
    ensures
        rules::rule_matches(r, Facts { exe: row.exe, host: row.host, ip: row.ip, port }),
{
    let f = Facts { exe: row.exe, host: row.host, ip: row.ip, port };
    assert forall|i: int| 0 <= i < r.matches@.len() implies #[trigger] rules::clause_matches(r.matches@[i], f) by {
        assert(is_clause(r.matches@[i], clauses(row, by)[i]));
    }
}

/// The rule made from a row by its host matches a flow to a subdomain of it, whatever else
/// is known of that flow.
pub proof fn lemma_host_rule_covers_subdomains(row: Row, r: Rule, sub: Seq<char>, exe: Option<Seq<char>>, ip: Option<Seq<char>>, port: u16)
    requires
        refusal(row, DenyRuleKind::Host) is None,
        has_clauses(r, clauses(row, DenyRuleKind::Host)),
    ensures
        rules::rule_matches(r, Facts { exe, host: Some(sub + seq!['.'] + row.host->0), ip, port }),
{
    let f = Facts { exe, host: Some(sub + seq!['.'] + row.host->0), ip, port };
    let host = sub + seq!['.'] + row.host->0;
    assert(is_clause(r.matches@[0], clauses(row, DenyRuleKind::Host)[0]));
    assert(host.skip(host.len() - row.host->0.len()) =~= row.host->0);
    assert forall|i: int| 0 <= i < r.matches@.len() implies #[trigger] rules::clause_matches(r.matches@[i], f) by {
        assert(i == 0);
        assert(row.host->0.is_suffix_of(host));
    }
}

/// No character of a rule's name steps out of the rules directory or hides the file: every
/// one of them is a letter, a digit, a dash or an underscore of ASCII.
pub proof fn lemma_rule_id_is_a_plain_name(row: Row, by: DenyRuleKind, ts_millis: u128, i: int)
    requires
        0 <= i < rule_id(row, by, ts_millis).len(),
    ensures
        is_name_char(rule_id(row, by, ts_millis)[i]),
{
    reveal_strlit("auto-deny-");
    reveal_strlit("-");
    reveal_strlit("unknown");
    lemma_digits_plain(ts_millis as nat);
}

/// `r` is what the file of the rule made from a row at a time says.
pub open spec fn is_written_rule(r: Rule, row: Row, by: DenyRuleKind, ts_millis: u128) -> bool {
    &&& text::opt_text(r.id) == Some(rule_id(row, by, ts_millis))
    &&& r.priority == 100
    &&& r.enabled
    &&& r.action == Action::Deny
    &&& r.duration == Duration::Persistent
    &&& has_clauses(r, clauses(row, by))
}

/// A rule that was written is loaded once its file reads as it says: under its id, with its
/// priority, and with its clauses.
pub proof fn lemma_written_rule_is_loaded(
    files: Seq<RuleFile>,
    active: Seq<Rule>,
    loaded: Seq<Rule>,
    i: int,
    row: Row,
    by: DenyRuleKind,
    ts_millis: u128,
)
    requires
        rule_files::are_active_rules(files, active),
        rule_files::is_stable_sort(active, loaded),
        0 <= i < files.len(),
        rule_files::is_rule_name(files[i].name@),
        files[i].rule matches Some(r) && is_written_rule(r, row, by, ts_millis),
    ensures
        exists|r: Rule| #[trigger] loaded.contains(r) && is_written_rule(r, row, by, ts_millis),
{
    rule_files::lemma_active_file_is_loaded(files, active, loaded, i);
    let r = choose|r: Rule| #[trigger] loaded.contains(r) && rule_files::is_rule_of(r, files[i]);
    assert(is_written_rule(r, row, by, ts_millis));
}

proof fn lemma_same_after(head: Seq<char>, a: Seq<char>, b: Seq<char>)
    requires
        head + a == head + b,
    ensures
        a == b,
{
    let n = head.len() as int;
    assert((head + a).skip(n) =~= a);
    assert((head + b).skip(n) =~= b);
}

/// Two quoted values that stand at the same place of a text are the same value, and the same
/// text follows them.
proof fn lemma_same_value(a: Seq<char>, after_a: Seq<char>, b: Seq<char>, after_b: Seq<char>)
    requires
        toml_text::escaped(a) + seq!['"'] + after_a == toml_text::escaped(b) + seq!['"'] + after_b,
    ensures
        a == b,
        after_a == after_b,
{
    toml_text::lemma_quoted_value_reads_back(a, after_a);
    toml_text::lemma_quoted_value_reads_back(b, after_b);
    lemma_same_after(toml_text::escaped(a) + seq!['"'], after_a, after_b);
}

proof fn lemma_plain_is_not_escaped(s: Seq<char>)
    requires
        forall|i: int| 0 <= i < s.len() ==> is_name_char(#[trigger] s[i]),
    ensures
        toml_text::escaped(s) == s,
    decreases s.len(),
{
    if s.len() > 0 {
        let tail = s.skip(1);
        assert forall|i: int| 0 <= i < tail.len() implies is_name_char(#[trigger] tail[i]) by {
            assert(tail[i] == s[i + 1]);
        }
        lemma_plain_is_not_escaped(tail);
        assert(is_name_char(s[0]));
        assert(toml_text::escaped(s) =~= s);
    }
}

proof fn lemma_words(c: Clause)
    ensures
        toml_text::escaped(rule_files::field_word(c.field)) == rule_files::field_word(c.field),
        toml_text::escaped(rule_files::op_word(c.op)) == rule_files::op_word(c.op),
{
    reveal_strlit("process_path");
    reveal_strlit("dest_host");
    reveal_strlit("dest_ip");
    reveal_strlit("dest_port");
    reveal_strlit("exact");
    reveal_strlit("prefix");
    reveal_strlit("suffix");
    reveal_strlit("contains");
    reveal_strlit("in");
    lemma_plain_is_not_escaped(rule_files::field_word(c.field));
    lemma_plain_is_not_escaped(rule_files::op_word(c.op));
}

proof fn lemma_field_words_differ(a: MatchField, b: MatchField)
    requires
        rule_files::field_word(a) == rule_files::field_word(b),
    ensures
        a == b,
{
    reveal_strlit("process_path");
    reveal_strlit("dest_host");
    reveal_strlit("dest_ip");
    reveal_strlit("dest_port");
    let w = rule_files::field_word(a);
    let v = rule_files::field_word(b);
    assert(w.len() == v.len() && w[5] == v[5]);
}

proof fn lemma_op_words_differ(a: MatchOp, b: MatchOp)
    requires
        rule_files::op_word(a) == rule_files::op_word(b),
    ensures
        a == b,
{
    reveal_strlit("exact");
    reveal_strlit("prefix");
    reveal_strlit("suffix");
    reveal_strlit("contains");
    reveal_strlit("in");
    let w = rule_files::op_word(a);
    let v = rule_files::op_word(b);
    assert(w.len() == v.len() && w[0] == v[0]);
}

proof fn lemma_clause_parts(c: Clause, rest: Seq<char>)
    ensures
        clause_text(c) + rest == "[[match]]\ntype = \""@ + (rule_files::field_word(c.field) + seq!['"'] + (
        "\nop = \""@ + (rule_files::op_word(c.op) + seq!['"'] + ("\nvalue = \""@ + (toml_text::escaped(c.value)
            + seq!['"'] + ("\n"@ + rest)))))),
{
    reveal_strlit("\"\nop = \"");
    reveal_strlit("\nop = \"");
    reveal_strlit("\"\nvalue = \"");
    reveal_strlit("\nvalue = \"");
    reveal_strlit("\"\n");
    reveal_strlit("\n");
    assert("\"\nop = \""@ =~= seq!['"'] + "\nop = \""@);
    assert("\"\nvalue = \""@ =~= seq!['"'] + "\nvalue = \""@);
    assert("\"\n"@ =~= seq!['"'] + "\n"@);
    let head = "[[match]]\ntype = \""@;
    let field = rule_files::field_word(c.field);
    let op = rule_files::op_word(c.op);
    let value = toml_text::escaped(c.value);
    let q = seq!['"'];
    let o = "\nop = \""@;
    let v = "\nvalue = \""@;
    let n = "\n"@;
    assert(head + field + (q + o) + op + (q + v) + value + (q + n) + rest =~= head + (field + q + (o + (op + q + (v
        + (value + q + (n + rest)))))));
}

/// Two clauses that stand at the same place of a text are the same, and the same text follows
/// them.
proof fn lemma_same_clause(a: Clause, after_a: Seq<char>, b: Clause, after_b: Seq<char>)
    requires
        clause_text(a) + after_a == clause_text(b) + after_b,
    ensures
        a == b,
        after_a == after_b,
{
    let o = "\nop = \""@;
    let v = "\nvalue = \""@;
    let n = "\n"@;
    let q = seq!['"'];
    let value_a = v + (toml_text::escaped(a.value) + q + (n + after_a));
    let value_b = v + (toml_text::escaped(b.value) + q + (n + after_b));
    let op_a = o + (rule_files::op_word(a.op) + q + value_a);
    let op_b = o + (rule_files::op_word(b.op) + q + value_b);
    lemma_clause_parts(a, after_a);
    lemma_clause_parts(b, after_b);
    lemma_words(a);
    lemma_words(b);
    lemma_same_after(
        "[[match]]\ntype = \""@,
        rule_files::field_word(a.field) + q + op_a,
        rule_files::field_word(b.field) + q + op_b,
    );
    lemma_same_value(rule_files::field_word(a.field), op_a, rule_files::field_word(b.field), op_b);
    lemma_field_words_differ(a.field, b.field);
    lemma_same_after(o, rule_files::op_word(a.op) + q + value_a, rule_files::op_word(b.op) + q + value_b);
    lemma_same_value(rule_files::op_word(a.op), value_a, rule_files::op_word(b.op), value_b);
    lemma_op_words_differ(a.op, b.op);
    lemma_same_after(
        v,
        toml_text::escaped(a.value) + q + (n + after_a),
        toml_text::escaped(b.value) + q + (n + after_b),
    );
    lemma_same_value(a.value, n + after_a, b.value, n + after_b);
    lemma_same_after(n, after_a, after_b);
}

/// The clauses' text, the first clause apart.
proof fn lemma_first_clause(row: Row, by: DenyRuleKind)
    ensures
        clauses_text(clauses(row, by)) == clause_text(clauses(row, by)[0]) + if by == DenyRuleKind::Both {
            "\n"@ + (clause_text(host_clause(row)) + Seq::<char>::empty())
        } else {
            Seq::<char>::empty()
        },
{
    reveal_with_fuel(clauses_text, 2);
    let cs = clauses(row, by);
    if by == DenyRuleKind::Both {
        assert(cs.drop_last() =~= seq![exe_clause(row)]);
        assert(clauses_text(cs) == clause_text(cs[0]) + "\n"@ + clause_text(cs[1]));
        assert(clauses_text(cs) =~= clause_text(cs[0]) + ("\n"@ + (clause_text(cs[1]) + Seq::<char>::empty())));
    } else {
        assert(clauses_text(cs) =~= clause_text(cs[0]) + Seq::<char>::empty());
    }
}

/// A rule file tells its rule: files that hold the same text were written for the same id and
/// the same clauses.
pub proof fn lemma_body_tells_the_rule(
    row: Row,
    by: DenyRuleKind,
    ts_millis: u128,
    other: Row,
    other_by: DenyRuleKind,
    other_ts: u128,
)
    requires
        rule_body(row, by, ts_millis) == rule_body(other, other_by, other_ts),
    ensures
        rule_id(row, by, ts_millis) == rule_id(other, other_by, other_ts),
        clauses(row, by) == clauses(other, other_by),
{
    let head = "# Auto-generated by dadophoros TUI rule picker.\nid = \""@;
    let mid = "\"\npriority = 100\naction = \"deny\"\n\n"@;
    let q = seq!['"'];
    let id = rule_id(row, by, ts_millis);
    let other_id = rule_id(other, other_by, other_ts);
    let cs = clauses_text(clauses(row, by));
    let other_cs = clauses_text(clauses(other, other_by));
    reveal_strlit("\"\npriority = 100\naction = \"deny\"\n\n");
    let after = mid.skip(1);
    assert(mid =~= q + after);
    assert(rule_body(row, by, ts_millis) =~= head + (id + q + (after + cs)));
    assert(rule_body(other, other_by, other_ts) =~= head + (other_id + q + (after + other_cs)));
    assert forall|i: int| 0 <= i < id.len() implies is_name_char(#[trigger] id[i]) by {
        lemma_rule_id_is_a_plain_name(row, by, ts_millis, i);
    }
    assert forall|i: int| 0 <= i < other_id.len() implies is_name_char(#[trigger] other_id[i]) by {
        lemma_rule_id_is_a_plain_name(other, other_by, other_ts, i);
    }
    lemma_plain_is_not_escaped(id);
    lemma_plain_is_not_escaped(other_id);
    lemma_same_after(head, id + q + (after + cs), other_id + q + (after + other_cs));
    lemma_same_value(id, after + cs, other_id, after + other_cs);
    lemma_same_after(after, cs, other_cs);
    lemma_same_clauses(row, by, other, other_by);
}

proof fn lemma_same_clauses(row: Row, by: DenyRuleKind, other: Row, other_by: DenyRuleKind)
    requires
        clauses_text(clauses(row, by)) == clauses_text(clauses(other, other_by)),
    ensures
        clauses(row, by) == clauses(other, other_by),
{
    reveal_strlit("\n");
    lemma_first_clause(row, by);
    lemma_first_clause(other, other_by);
    let a = clauses(row, by);
    let b = clauses(other, other_by);
    let empty = Seq::<char>::empty();
    let after_a = if by == DenyRuleKind::Both {
        "\n"@ + (clause_text(host_clause(row)) + empty)
    } else {
        empty
    };
    let after_b = if other_by == DenyRuleKind::Both {
        "\n"@ + (clause_text(host_clause(other)) + empty)
    } else {
        empty
    };
    lemma_same_clause(a[0], after_a, b[0], after_b);
    assert(after_a.len() == 0 <==> by != DenyRuleKind::Both);
    assert(after_b.len() == 0 <==> other_by != DenyRuleKind::Both);
    if by == DenyRuleKind::Both {
        lemma_same_after("\n"@, clause_text(host_clause(row)) + empty, clause_text(host_clause(other)) + empty);
        lemma_same_clause(host_clause(row), empty, host_clause(other), empty);
    }
    assert(a =~= b);
}

proof fn lemma_digits_plain(n: nat)
    ensures
        forall|i: int| 0 <= i < text::digits(n, 10).len() ==> is_name_char(#[trigger] text::digits(n, 10)[i]),
    decreases n,
{
    if n >= 10 {
        lemma_digits_plain(n / 10);
        let d = text::digits(n / 10, 10);
        assert forall|i: int| 0 <= i < text::digits(n, 10).len() implies is_name_char(
            #[trigger] text::digits(n, 10)[i],
        ) by {
            if i < d.len() {
                assert(text::digits(n, 10)[i] == d[i]);
            }
        }
    }
}

/// Turns a text into a part of a file name.
pub fn sanitize(s: &str) -> (r: String)
    ensures
        r@ == sanitized(s@),
{
    let mut out = String::new();
    assert(sanitized(s@.take(0)) =~= Seq::<char>::empty());
    for c in it: s.chars()
        invariant
            it.seq() == s@,
            out@ == sanitized(s@.take(it.index() as int)),
    {
        let plain: bool = ('a' <= c && c <= 'z') || ('A' <= c && c <= 'Z') || ('0' <= c && c <= '9') || c == '-'
            || c == '_';
        let ghost before = out@;
        if plain {
            out.push(c);
        } else {
            out.push('_');
        }
        assert(out@ =~= sanitized(s@.take(it.index() + 1)));
    }
    assert(s@.take(s@.len() as int) =~= s@);
    out
}

/// The last component of a path.
pub fn path_file_name(p: &str) -> (r: Option<String>)
    ensures
        text::opt_text(r) == file_name(p@),
{
    let v: Vec<char> = text::chars_of(p);
    let mut n: usize = v.len();
    assert(v@.take(n as int) =~= v@);
    while n > 0
        invariant
            n <= v@.len(),
            file_name(v@) == file_name(v@.take(n as int)),
            v@ == p@,
        decreases n,
    {
        let ghost t = v@.take(n as int);
        let mut start: usize = n;
        while start > 0 && v[start - 1] != '/'
            invariant
                start <= n <= v@.len(),
                forall|k: int| start <= k < n ==> v@[k] != '/',
            decreases start,
        {
            start -= 1;
        }
        proof {
            text::lemma_last_slash_at(t, start - 1);
            assert(t.skip(start as int) =~= v@.subrange(start as int, n as int));
            assert(t.drop_last() =~= v@.take(n - 1));
        }
        let ghost c = v@.subrange(start as int, n as int);
        if start == n {
            n -= 1;
        } else if n - start == 2 && v[start] == '.' && v[start + 1] == '.' {
            assert(c =~= seq!['.', '.']);
            return None;
        } else if n - start == 1 && v[start] == '.' {
            assert(c =~= seq!['.']);
            if start == 0 {
                assert(c != seq!['.', '.']);
                return None;
            }
            assert(c.len() != seq!['.', '.'].len());
            n -= 1;
        } else {
            proof {
                if c == seq!['.', '.'] {
                    assert(c[0] == '.' && c[1] == '.');
                }
                if c == seq!['.'] {
                    assert(c[0] == '.');
                }
            }
            let mut out = String::new();
            text::append_chars(&mut out, &v, start, n);
            assert(out@ =~= c);
            return Some(out);
        }
    }
    None
}

fn part_of(fact: &Option<String>) -> (r: String)
    ensures
        r@ == name_part(text::opt_text(*fact)),
{
    match fact {
        Some(s) => sanitize(s.as_str()),
        None => "unknown".to_string(),
    }
}

fn exe_part_of(exe: &Option<String>) -> (r: String)
    ensures
        r@ == exe_part(text::opt_text(*exe)),
{
    match exe {
        Some(p) => {
            let name = path_file_name(p.as_str());
            part_of(&name)
        },
        None => "unknown".to_string(),
    }
}

/// The middle of a rule's name, after what it denies. The port plays no part in it.
pub fn naming_stem(
    exe: &Option<String>,
    host: &Option<String>,
    ip: &Option<String>,
    _dport: u16,
    by: DenyRuleKind,
) -> (r: String)
    ensures
        r@ == stem(row(*exe, *host, *ip), by),
{
    match by {
        DenyRuleKind::Host => part_of(host),
        DenyRuleKind::Process => exe_part_of(exe),
        DenyRuleKind::Ip => part_of(ip),
        DenyRuleKind::Both => {
            let mut out = exe_part_of(exe);
            out.append("-");
            out.append(part_of(host).as_str());
            out
        },
    }
}

fn given(fact: &Option<String>) -> (r: bool)
    ensures
        r == is_given(text::opt_text(*fact)),
{
    match fact {
        Some(s) => !s.as_str().is_empty(),
        None => false,
    }
}

fn append_clause(out: &mut String, field: MatchField, op: MatchOp, value: &Option<String>)
    ensures
        final(out)@ == old(out)@ + clause_text(
            (Clause { field, op, value: rules::known(text::opt_text(*value)) }),
        ),
{
    let ghost c = Clause { field, op, value: rules::known(text::opt_text(*value)) };
    out.append("[[match]]\ntype = \"");
    out.append(rule_files::field_str(field));
    out.append("\"\nop = \"");
    out.append(rule_files::op_str(op));
    out.append("\"\nvalue = \"");
    match value {
        Some(s) => out.append(toml_text::toml_escape(s.as_str()).as_str()),
        None => {},
    }
    assert(value is None ==> toml_text::escaped(c.value) =~= Seq::<char>::empty());
    out.append("\"\n");
    assert(out@ =~= old(out)@ + clause_text(c));
}

/// The file of a deny rule made from a row, or why there can be none. The rule is named
/// after what it denies and the time in milliseconds.
pub fn write_deny_rule(
    exe_path: Option<String>,
    hostname: Option<String>,
    dest_ip: Option<String>,
    dport: u16,
    by: DenyRuleKind,
    ts_millis: u128,
) -> (r: Result<RuleDraft, String>)
    ensures
        match refusal(row(exe_path, hostname, dest_ip), by) {
            Some(why) => r matches Err(e) && e@ == why,
            None => r matches Ok(draft) && draft.name@ == rule_id(
                row(exe_path, hostname, dest_ip),
                by,
                ts_millis,
            ) + ".toml"@ && draft.body@ == rule_body(row(exe_path, hostname, dest_ip), by, ts_millis),
        },
{
    let (need_host, need_exe, need_ip) = match by {
        DenyRuleKind::Host => (true, false, false),
        DenyRuleKind::Process => (false, true, false),
        DenyRuleKind::Ip => (false, false, true),
        DenyRuleKind::Both => (true, true, false),
    };
    if need_host && !given(&hostname) {
        return Err("requested deny-by-host but no hostname on the row".to_string());
    }
    if need_exe && !given(&exe_path) {
        return Err("requested deny-by-process but no exe path on the row".to_string());
    }
    if need_ip && !given(&dest_ip) {
        return Err("requested deny-by-ip but no dest_ip on the row".to_string());
    }
    let ghost row = row(exe_path, hostname, dest_ip);

    let mut id = String::new();
    id.append("auto-deny-");
    id.append(naming_stem(&exe_path, &hostname, &dest_ip, dport, by).as_str());
    id.append("-");
    text::append_digits(&mut id, ts_millis, 10);
    assert(id@ =~= rule_id(row, by, ts_millis));

    let mut body = String::new();
    body.append("# Auto-generated by dadophoros TUI rule picker.\nid = \"");
    body.append(id.as_str());
    body.append("\"\npriority = 100\naction = \"deny\"\n\n");
    let ghost head = body@;
    if need_exe {
        append_clause(&mut body, MatchField::ProcessPath, MatchOp::Exact, &exe_path);
    }
    if need_exe && need_host {
        body.append("\n");
    }
    if need_host {
        append_clause(&mut body, MatchField::DestHost, MatchOp::Suffix, &hostname);
    }
    if need_ip {
        append_clause(&mut body, MatchField::DestIp, MatchOp::Exact, &dest_ip);
    }
    proof {
        let cs = clauses(row, by);
        reveal_with_fuel(clauses_text, 2);
        if by == DenyRuleKind::Both {
            assert(cs.drop_last() =~= seq![exe_clause(row)]);
        }
        assert(body@ =~= head + clauses_text(cs));
        assert(body@ =~= rule_body(row, by, ts_millis));
    }

    let mut name = id;
    name.append(".toml");
    Ok(RuleDraft { name, body })
}

/// What a row tells has no line feed in it.
pub open spec fn is_plain_row(row: Row) -> bool {
    &&& row.exe matches Some(s) ==> rule_text::is_line(s)
    &&& row.host matches Some(s) ==> rule_text::is_line(s)
    &&& row.ip matches Some(s) ==> rule_text::is_line(s)
}

/// The lines of a clause.
spec fn clause_lines(c: Clause) -> Seq<Seq<char>> {
    seq![
        "[[match]]"@,
        "type"@ + " = "@ + rule_text::quoted(rule_files::field_word(c.field)),
        "op"@ + " = "@ + rule_text::quoted(rule_files::op_word(c.op)),
        "value"@ + " = "@ + rule_text::quoted(c.value),
    ]
}

/// The lines before the clauses.
spec fn top_lines(id: Seq<char>) -> Seq<Seq<char>> {
    seq![
        "# Auto-generated by dadophoros TUI rule picker."@,
        "id"@ + " = "@ + rule_text::quoted(id),
        "priority"@ + " = "@ + "100"@,
        "action"@ + " = "@ + rule_text::quoted("deny"@),
        Seq::empty(),
    ]
}

spec fn all_clause_lines(cs: Seq<Clause>) -> Seq<Seq<char>> {
    if cs.len() == 1 {
        clause_lines(cs[0])
    } else {
        clause_lines(cs[0]) + seq![Seq::<char>::empty()] + clause_lines(cs[1])
    }
}

proof fn lemma_unlines1(a: Seq<char>)
    ensures
        rule_text::unlines(seq![a]) == a + seq!['\n'],
{
    let none = Seq::<Seq<char>>::empty();
    assert(seq![a].skip(1) =~= none);
    assert(rule_text::unlines(none) =~= Seq::<char>::empty());
    assert(rule_text::unlines(seq![a]) =~= a + seq!['\n']);
}

proof fn lemma_unlines4(a: Seq<char>, b: Seq<char>, c: Seq<char>, d: Seq<char>)
    ensures
        rule_text::unlines(seq![a, b, c, d]) == a + seq!['\n'] + (b + seq!['\n'] + (c + seq!['\n'] + (d + seq![
            '\n',
        ]))),
{
    let all = seq![a, b, c, d];
    assert(all.skip(1) =~= seq![b, c, d]);
    assert(seq![b, c, d].skip(1) =~= seq![c, d]);
    assert(seq![c, d].skip(1) =~= seq![d]);
    assert(seq![d].skip(1) =~= Seq::<Seq<char>>::empty());
    let none = Seq::<Seq<char>>::empty();
    assert(rule_text::unlines(none) =~= Seq::<char>::empty());
    assert(rule_text::unlines(seq![d]) =~= d + seq!['\n']);
    assert(rule_text::unlines(seq![c, d]) == c + seq!['\n'] + (d + seq!['\n']));
    assert(rule_text::unlines(seq![b, c, d]) == b + seq!['\n'] + (c + seq!['\n'] + (d + seq!['\n'])));
}

proof fn lemma_clause_is_lines(c: Clause)
    ensures
        clause_text(c) == rule_text::unlines(clause_lines(c)),
{
    lemma_words(c);
    let f = rule_files::field_word(c.field);
    let o = rule_files::op_word(c.op);
    let v = toml_text::escaped(c.value);
    let q = seq!['"'];
    let n = seq!['\n'];
    let eq = " = "@;
    reveal_strlit("[[match]]\ntype = \"");
    reveal_strlit("\"\nop = \"");
    reveal_strlit("\"\nvalue = \"");
    reveal_strlit("\"\n");
    reveal_strlit("[[match]]");
    reveal_strlit("type");
    reveal_strlit("op");
    reveal_strlit("value");
    reveal_strlit(" = ");
    let (m, t, p, u) = ("[[match]]"@, "type"@, "op"@, "value"@);
    assert("[[match]]\ntype = \""@ =~= m + n + t + eq + q);
    assert("\"\nop = \""@ =~= q + n + p + eq + q);
    assert("\"\nvalue = \""@ =~= q + n + u + eq + q);
    assert("\"\n"@ =~= q + n);
    let l1 = t + eq + (q + f + q);
    let l2 = p + eq + (q + o + q);
    let l3 = u + eq + (q + v + q);
    lemma_unlines4(m, l1, l2, l3);
    assert(clause_lines(c) =~= seq![m, l1, l2, l3]);
    assert((m + n + t + eq + q) + f + (q + n + p + eq + q) + o + (q + n + u + eq + q) + v + (q + n) =~= m + n + (l1 + n
        + (l2 + n + (l3 + n))));
}

proof fn lemma_top_is_lines(id: Seq<char>)
    requires
        toml_text::escaped(id) == id,
    ensures
        "# Auto-generated by dadophoros TUI rule picker.\nid = \""@ + id + "\"\npriority = 100\naction = \"deny\"\n\n"@
            == rule_text::unlines(top_lines(id)),
{
    let h = "# Auto-generated by dadophoros TUI rule picker."@;
    let q = seq!['"'];
    let n = seq!['\n'];
    let eq = " = "@;
    reveal_strlit("# Auto-generated by dadophoros TUI rule picker.\nid = \"");
    reveal_strlit("# Auto-generated by dadophoros TUI rule picker.");
    reveal_strlit("\"\npriority = 100\naction = \"deny\"\n\n");
    reveal_strlit("id");
    reveal_strlit("priority");
    reveal_strlit("100");
    reveal_strlit("action");
    reveal_strlit("deny");
    reveal_strlit(" = ");
    assert forall|i: int| 0 <= i < "deny"@.len() implies is_name_char(#[trigger] "deny"@[i]) by {}
    lemma_plain_is_not_escaped("deny"@);
    let l1 = "id"@ + eq + (q + id + q);
    let l2 = "priority"@ + eq + "100"@;
    let l3 = "action"@ + eq + (q + "deny"@ + q);
    let none = Seq::<char>::empty();
    let first = seq![h];
    let rest = seq![l1, l2, l3, none];
    assert(top_lines(id) =~= first + rest);
    rule_text::lemma_unlines_joined(first, rest);
    lemma_unlines1(h);
    lemma_unlines4(l1, l2, l3, none);
    assert("# Auto-generated by dadophoros TUI rule picker.\nid = \""@ =~= h + n + "id"@ + eq + q);
    assert("\"\npriority = 100\naction = \"deny\"\n\n"@ =~= q + n + l2 + n + l3 + n + n);
    assert((h + n + "id"@ + eq + q) + id + (q + n + l2 + n + l3 + n + n) =~= (h + n) + (l1 + n + (l2 + n + (l3 + n + (
    none + n)))));
}

proof fn lemma_clauses_are_lines(row: Row, by: DenyRuleKind)
    ensures
        clauses_text(clauses(row, by)) == rule_text::unlines(all_clause_lines(clauses(row, by))),
{
    let cs = clauses(row, by);
    let n = seq!['\n'];
    let blank = seq![Seq::<char>::empty()];
    reveal_with_fuel(clauses_text, 2);
    reveal_strlit("\n");
    lemma_clause_is_lines(cs[0]);
    if by == DenyRuleKind::Both {
        lemma_clause_is_lines(cs[1]);
        assert(cs.drop_last() =~= seq![exe_clause(row)]);
        rule_text::lemma_unlines_joined(clause_lines(cs[0]) + blank, clause_lines(cs[1]));
        rule_text::lemma_unlines_joined(clause_lines(cs[0]), blank);
        lemma_unlines1(Seq::empty());
        assert(rule_text::unlines(blank) =~= n);
        assert("\n"@ =~= n);
    }
}

spec fn body_lines(row: Row, by: DenyRuleKind, ts_millis: u128) -> Seq<Seq<char>> {
    top_lines(rule_id(row, by, ts_millis)) + all_clause_lines(clauses(row, by))
}

proof fn lemma_body_is_lines(row: Row, by: DenyRuleKind, ts_millis: u128)
    ensures
        rule_body(row, by, ts_millis) == rule_text::unlines(body_lines(row, by, ts_millis)),
{
    let id = rule_id(row, by, ts_millis);
    assert forall|i: int| 0 <= i < id.len() implies is_name_char(#[trigger] id[i]) by {
        lemma_rule_id_is_a_plain_name(row, by, ts_millis, i);
    }
    lemma_plain_is_not_escaped(id);
    lemma_top_is_lines(id);
    lemma_clauses_are_lines(row, by);
    rule_text::lemma_unlines_joined(top_lines(id), all_clause_lines(clauses(row, by)));
}

proof fn lemma_escaped_is_a_line(s: Seq<char>)
    requires
        rule_text::is_line(s),
    ensures
        rule_text::is_line(toml_text::escaped(s)),
    decreases s.len(),
{
    if s.len() > 0 {
        let tail = s.skip(1);
        assert forall|i: int| 0 <= i < tail.len() implies tail[i] != '\n' by {
            assert(tail[i] == s[i + 1]);
        }
        lemma_escaped_is_a_line(tail);
        let c = toml_text::escaped_char(s[0]);
        let e = toml_text::escaped(tail);
        assert(s[0] != '\n');
        assert forall|i: int| 0 <= i < (c + e).len() implies (c + e)[i] != '\n' by {
            if i >= c.len() {
                assert((c + e)[i] == e[i - c.len()]);
            }
        }
    }
}

proof fn lemma_joined_is_a_line(a: Seq<char>, b: Seq<char>)
    requires
        rule_text::is_line(a),
        rule_text::is_line(b),
    ensures
        rule_text::is_line(a + b),
{
    assert forall|i: int| 0 <= i < (a + b).len() implies (a + b)[i] != '\n' by {
        if i >= a.len() {
            assert((a + b)[i] == b[i - a.len()]);
        }
    }
}

proof fn lemma_quoted_line(key: Seq<char>, value: Seq<char>)
    requires
        rule_text::is_line(key),
        rule_text::is_line(value),
    ensures
        rule_text::is_line(key + " = "@ + rule_text::quoted(value)),
{
    reveal_strlit(" = ");
    lemma_escaped_is_a_line(value);
    let q = seq!['"'];
    lemma_joined_is_a_line(q, toml_text::escaped(value));
    lemma_joined_is_a_line(q + toml_text::escaped(value), q);
    lemma_joined_is_a_line(key, " = "@);
    lemma_joined_is_a_line(key + " = "@, rule_text::quoted(value));
}

proof fn lemma_clause_lines_are_lines(c: Clause)
    requires
        rule_text::is_line(c.value),
    ensures
        rule_text::are_lines(clause_lines(c)),
        clause_lines(c)[0][0] == '[' && clause_lines(c)[0].len() > 0,
        clause_lines(c)[1][0] == 't' && clause_lines(c)[1].len() > 0,
        clause_lines(c)[2][0] == 'o' && clause_lines(c)[2].len() > 0,
        clause_lines(c)[3][0] == 'v' && clause_lines(c)[3].len() > 0,
{
    reveal_strlit("[[match]]");
    reveal_strlit("type");
    reveal_strlit("op");
    reveal_strlit("value");
    reveal_strlit("process_path");
    reveal_strlit("dest_host");
    reveal_strlit("dest_ip");
    reveal_strlit("dest_port");
    reveal_strlit("exact");
    reveal_strlit("prefix");
    reveal_strlit("suffix");
    reveal_strlit("contains");
    reveal_strlit("in");
    lemma_quoted_line("type"@, rule_files::field_word(c.field));
    lemma_quoted_line("op"@, rule_files::op_word(c.op));
    lemma_quoted_line("value"@, c.value);
    let ls = clause_lines(c);
    assert(ls[1][0] == "type"@[0] && ls[2][0] == "op"@[0] && ls[3][0] == "value"@[0]);
    assert forall|i: int| 0 <= i < ls.len() implies rule_text::is_line(#[trigger] ls[i]) by {
        assert(i == 0 || i == 1 || i == 2 || i == 3);
    }
}

proof fn lemma_top_lines_are_lines(id: Seq<char>)
    requires
        rule_text::is_line(id),
    ensures
        rule_text::are_lines(top_lines(id)),
        top_lines(id)[0][0] == '#' && top_lines(id)[0].len() > 0,
        top_lines(id)[1][0] == 'i' && top_lines(id)[1].len() > 0,
        top_lines(id)[2][0] == 'p' && top_lines(id)[2].len() > 0,
        top_lines(id)[3][0] == 'a' && top_lines(id)[3].len() > 0,
        top_lines(id)[4].len() == 0,
{
    reveal_strlit("# Auto-generated by dadophoros TUI rule picker.");
    reveal_strlit("id");
    reveal_strlit("priority");
    reveal_strlit("100");
    reveal_strlit("action");
    reveal_strlit("deny");
    reveal_strlit(" = ");
    lemma_quoted_line("id"@, id);
    lemma_quoted_line("action"@, "deny"@);
    let ls = top_lines(id);
    assert(ls[1][0] == "id"@[0] && ls[2][0] == "priority"@[0] && ls[3][0] == "action"@[0]);
    assert forall|i: int| 0 <= i < ls.len() implies rule_text::is_line(#[trigger] ls[i]) by {
        assert(i == 0 || i == 1 || i == 2 || i == 3 || i == 4);
    }
}

proof fn lemma_body_lines_are_lines(row: Row, by: DenyRuleKind, ts_millis: u128)
    requires
        is_plain_row(row),
    ensures
        rule_text::are_lines(body_lines(row, by, ts_millis)),
        forall|i: int|
            0 <= i < body_lines(row, by, ts_millis).len() && (#[trigger] body_lines(row, by, ts_millis)[i]).len() > 0
                ==> !toml_text::may_set_flag(body_lines(row, by, ts_millis)[i][0]),
{
    let id = rule_id(row, by, ts_millis);
    let cs = clauses(row, by);
    let top = top_lines(id);
    let all = all_clause_lines(cs);
    let ls = body_lines(row, by, ts_millis);
    assert forall|i: int| 0 <= i < id.len() implies id[i] != '\n' by {
        lemma_rule_id_is_a_plain_name(row, by, ts_millis, i);
    }
    lemma_top_lines_are_lines(id);
    assert(rule_text::is_line(Seq::<char>::empty()));
    assert(rule_text::is_line(cs[0].value));
    lemma_clause_lines_are_lines(cs[0]);
    if by == DenyRuleKind::Both {
        assert(rule_text::is_line(cs[1].value));
        lemma_clause_lines_are_lines(cs[1]);
    }
    assert forall|i: int| 0 <= i < ls.len() implies rule_text::is_line(#[trigger] ls[i]) && (ls[i].len() > 0
        ==> !toml_text::may_set_flag(ls[i][0])) by {
        if i < 5 {
            assert(ls[i] == top[i]);
            assert(rule_text::is_line(top[i]));
            assert(i == 0 || i == 1 || i == 2 || i == 3 || i == 4);
        } else if i < 9 {
            let k = i - 5;
            assert(ls[i] == clause_lines(cs[0])[k]);
            assert(rule_text::is_line(clause_lines(cs[0])[k]));
            assert(k == 0 || k == 1 || k == 2 || k == 3);
        } else if i > 9 {
            let k = i - 10;
            assert(ls[i] == clause_lines(cs[1])[k]);
            assert(rule_text::is_line(clause_lines(cs[1])[k]));
            assert(k == 0 || k == 1 || k == 2 || k == 3);
        } else {
            assert(ls[i].len() == 0);
        }
    }
}

/// The file of a rule does not set `enabled`: the rule is enabled until it is switched off,
/// and switching it puts a line in front.
pub proof fn lemma_written_file_sets_no_flag(row: Row, by: DenyRuleKind, ts_millis: u128, enabled: bool)
    requires
        is_plain_row(row),
    ensures
        toml_text::find_flag(rule_body(row, by, ts_millis)) is None,
        forall|i: int| !toml_text::is_setting(rule_body(row, by, ts_millis), i),
        toml_text::with_enabled(rule_body(row, by, ts_millis), enabled) == toml_text::flag_line(enabled) + rule_body(
            row,
            by,
            ts_millis,
        ),
{
    lemma_body_is_lines(row, by, ts_millis);
    lemma_body_lines_are_lines(row, by, ts_millis);
    rule_text::lemma_lines_set_no_flag(body_lines(row, by, ts_millis));
    toml_text::lemma_no_line_sets_the_flag(rule_body(row, by, ts_millis), enabled);
}

proof fn lemma_clause_reads(c: Clause, ls: Seq<Seq<char>>, m: Match)
    requires
        rule_text::is_line(c.value),
        ls.len() >= 3,
        ls[0] == clause_lines(c)[1],
        ls[1] == clause_lines(c)[2],
        ls[2] == clause_lines(c)[3],
        forall|i: int| 3 <= i < ls.len() ==> (#[trigger] ls[i]).len() == 0,
    ensures
        rule_text::states_clause(ls, m) <==> is_clause(m, c),
{
    lemma_clause_lines_are_lines(c);
    reveal_strlit("type");
    reveal_strlit("op");
    reveal_strlit("value");
    let f = rule_text::quoted(rule_files::field_word(c.field));
    let o = rule_text::quoted(rule_files::op_word(c.op));
    let v = rule_text::quoted(c.value);
    rule_text::lemma_line_of_key("type"@, f);
    rule_text::lemma_line_of_key("op"@, o);
    rule_text::lemma_line_of_key("value"@, v);
    if is_clause(m, c) {
        assert(ls[0] == "type"@ + " = "@ + f);
        assert(ls[1] == "op"@ + " = "@ + o);
        assert(ls[2] == "value"@ + " = "@ + v);
    }
    if rule_text::states_clause(ls, m) {
        let f2 = rule_text::quoted(rule_files::field_word(m.field));
        let o2 = rule_text::quoted(rule_files::op_word(m.op));
        let s = m.value->Str_0;
        let v2 = rule_text::quoted(s@);
        rule_text::lemma_line_of_key("type"@, f2);
        rule_text::lemma_line_of_key("op"@, o2);
        rule_text::lemma_line_of_key("value"@, v2);
        let i = choose|i: int| 0 <= i < ls.len() && #[trigger] ls[i] == "type"@ + " = "@ + f2;
        let j = choose|j: int| 0 <= j < ls.len() && #[trigger] ls[j] == "op"@ + " = "@ + o2;
        let k = choose|k: int| 0 <= k < ls.len() && #[trigger] ls[k] == "value"@ + " = "@ + v2;
        assert(i == 0 && j == 1 && k == 2);
        rule_text::lemma_quoted_tells_apart(rule_files::field_word(m.field), rule_files::field_word(c.field));
        rule_text::lemma_quoted_tells_apart(rule_files::op_word(m.op), rule_files::op_word(c.op));
        rule_text::lemma_quoted_tells_apart(s@, c.value);
        lemma_field_words_differ(m.field, c.field);
        lemma_op_words_differ(m.op, c.op);
    }
}

proof fn lemma_no_header(ls: Seq<Seq<char>>, n: int)
    requires
        0 <= n <= ls.len(),
        forall|i: int| 0 <= i < n ==> !rule_text::is_header(#[trigger] ls[i]),
        n < ls.len() ==> rule_text::is_header(ls[n]),
    ensures
        rule_text::header_at(ls) == n,
    decreases n,
{
    if n > 0 {
        assert(!rule_text::is_header(ls[0]));
        let rest = ls.skip(1);
        assert forall|i: int| 0 <= i < n - 1 implies !rule_text::is_header(#[trigger] rest[i]) by {
            assert(rest[i] == ls[i + 1]);
        }
        lemma_no_header(rest, n - 1);
    }
}

proof fn lemma_one_table(c: Clause)
    requires
        rule_text::is_line(c.value),
    ensures
        rule_text::tables(clause_lines(c)) == seq![clause_lines(c).skip(1)],
{
    lemma_clause_lines_are_lines(c);
    let ls = clause_lines(c);
    let body = ls.skip(1);
    assert forall|i: int| 0 <= i < 3 implies !rule_text::is_header(#[trigger] body[i]) by {
        assert(body[i] == ls[i + 1]);
        assert(i == 0 || i == 1 || i == 2);
    }
    lemma_no_header(body, 3);
    assert(body.take(3) =~= body);
    let none = Seq::<Seq<char>>::empty();
    assert(body.skip(3) =~= none);
    assert(rule_text::tables(none) =~= Seq::<Seq<Seq<char>>>::empty());
    assert(rule_text::tables(ls) =~= seq![body]);
}

proof fn lemma_two_tables(c: Clause, d: Clause)
    requires
        rule_text::is_line(c.value),
        rule_text::is_line(d.value),
    ensures
        ({
            let ls = clause_lines(c) + seq![Seq::<char>::empty()] + clause_lines(d);
            rule_text::tables(ls) == seq![
                clause_lines(c).skip(1) + seq![Seq::<char>::empty()],
                clause_lines(d).skip(1),
            ]
        }),
{
    lemma_clause_lines_are_lines(c);
    lemma_clause_lines_are_lines(d);
    lemma_one_table(d);
    let ls = clause_lines(c) + seq![Seq::<char>::empty()] + clause_lines(d);
    let body = ls.skip(1);
    let first = clause_lines(c).skip(1) + seq![Seq::<char>::empty()];
    assert forall|i: int| 0 <= i < 4 implies !rule_text::is_header(#[trigger] body[i]) by {
        assert(body[i] == ls[i + 1]);
        assert(i == 0 || i == 1 || i == 2 || i == 3);
        if i < 3 {
            assert(ls[i + 1] == clause_lines(c)[i + 1]);
        }
    }
    assert(body[4] == clause_lines(d)[0]);
    lemma_no_header(body, 4);
    assert(body.take(4) =~= first);
    assert(body.skip(4) =~= clause_lines(d));
    assert(rule_text::tables(ls) =~= seq![first, clause_lines(d).skip(1)]);
}

proof fn lemma_clauses_read(row: Row, by: DenyRuleKind, r: Rule)
    requires
        is_plain_row(row),
    ensures
        ({
            let ts = rule_text::tables(all_clause_lines(clauses(row, by)));
            (ts.len() == r.matches@.len() && forall|i: int|
                0 <= i < ts.len() ==> rule_text::states_clause(#[trigger] ts[i], r.matches@[i])) <==> has_clauses(
                r,
                clauses(row, by),
            )
        }),
{
    let cs = clauses(row, by);
    let ts = rule_text::tables(all_clause_lines(cs));
    assert(rule_text::is_line(Seq::<char>::empty()));
    assert(rule_text::is_line(cs[0].value));
    if by == DenyRuleKind::Both {
        assert(rule_text::is_line(cs[1].value));
        lemma_two_tables(cs[0], cs[1]);
        if r.matches@.len() == 2 {
            lemma_clause_reads(cs[0], ts[0], r.matches@[0]);
            lemma_clause_reads(cs[1], ts[1], r.matches@[1]);
        }
    } else {
        lemma_one_table(cs[0]);
        if r.matches@.len() == 1 {
            lemma_clause_reads(cs[0], ts[0], r.matches@[0]);
        }
    }
    if ts.len() == r.matches@.len() && forall|i: int|
        0 <= i < ts.len() ==> rule_text::states_clause(#[trigger] ts[i], r.matches@[i]) {
        assert forall|i: int| 0 <= i < cs.len() implies is_clause(#[trigger] r.matches@[i], cs[i]) by {
            assert(rule_text::states_clause(ts[i], r.matches@[i]));
            assert(i == 0 || i == 1);
        }
    }
    if has_clauses(r, cs) {
        assert forall|i: int| 0 <= i < ts.len() implies rule_text::states_clause(#[trigger] ts[i], r.matches@[i]) by {
            assert(is_clause(r.matches@[i], cs[i]));
            assert(i == 0 || i == 1);
        }
    }
}

spec fn is_written_top(r: Rule, id: Seq<char>) -> bool {
    &&& text::opt_text(r.id) == Some(id)
    &&& r.priority == 100
    &&& r.enabled
    &&& r.action == Action::Deny
    &&& r.duration == Duration::Persistent
}

spec fn states_top(top: Seq<Seq<char>>, r: Rule) -> bool {
    &&& match r.id {
        Some(id) => rule_text::says(top, "id"@, rule_text::quoted(id@)),
        None => rule_text::is_silent(top, "id"@),
    }
    &&& rule_text::says(top, "priority"@, text::decimal(r.priority as nat)) || (rule_text::is_silent(top, "priority"@)
        && r.priority == 100)
    &&& rule_text::says(
        top,
        "enabled"@,
        if r.enabled {
            "true"@
        } else {
            "false"@
        },
    ) || (rule_text::is_silent(top, "enabled"@) && r.enabled)
    &&& rule_text::says(top, "action"@, rule_text::quoted(r.action.word()))
    &&& rule_text::says(top, "duration"@, rule_text::quoted(r.duration.word())) || (rule_text::is_silent(
        top,
        "duration"@,
    ) && r.duration == Duration::Persistent)
}

proof fn lemma_not_said(top: Seq<Seq<char>>, key: Seq<char>, value: Seq<char>)
    requires
        key.len() > 0,
        forall|i: int| 0 <= i < top.len() && (#[trigger] top[i]).len() > 0 ==> top[i][0] != key[0],
    ensures
        !rule_text::says(top, key, value),
        rule_text::is_silent(top, key),
{
    rule_text::lemma_line_of_key(key, value);
    reveal_strlit(" = ");
    if rule_text::says(top, key, value) {
        let i = choose|i: int| 0 <= i < top.len() && #[trigger] top[i] == key + " = "@ + value;
        assert(top[i].len() > 0);
    }
    assert forall|i: int| 0 <= i < top.len() implies !(key + " = "@).is_prefix_of(#[trigger] top[i]) by {
        let k = key + " = "@;
        if k.is_prefix_of(top[i]) {
            assert(top[i].take(k.len() as int)[0] == top[i][0]);
            assert(k[0] == key[0]);
        }
    }
}

proof fn lemma_said_at(top: Seq<Seq<char>>, j: int, key: Seq<char>, stated: Seq<char>, value: Seq<char>)
    requires
        key.len() > 0,
        0 <= j < top.len(),
        top[j] == key + " = "@ + stated,
        forall|i: int| 0 <= i < top.len() && i != j && (#[trigger] top[i]).len() > 0 ==> top[i][0] != key[0],
    ensures
        rule_text::says(top, key, value) <==> value == stated,
        !rule_text::is_silent(top, key),
{
    rule_text::lemma_line_of_key(key, value);
    rule_text::lemma_line_of_key(key, stated);
    reveal_strlit(" = ");
    if rule_text::says(top, key, value) {
        let i = choose|i: int| 0 <= i < top.len() && #[trigger] top[i] == key + " = "@ + value;
        assert(top[i].len() > 0);
        assert(i == j);
    }
    if value == stated {
        assert(top[j] == key + " = "@ + value);
    }
    assert((key + " = "@).is_prefix_of(top[j]));
}

proof fn lemma_top_reads(id: Seq<char>, r: Rule)
    requires
        rule_text::is_line(id),
    ensures
        states_top(top_lines(id), r) <==> is_written_top(r, id),
{
    let top = top_lines(id);
    lemma_top_lines_are_lines(id);
    reveal_strlit("id");
    reveal_strlit("priority");
    reveal_strlit("enabled");
    reveal_strlit("action");
    reveal_strlit("duration");
    reveal_strlit("100");
    reveal_strlit("allow");
    reveal_strlit("deny");
    if let Some(own) = r.id {
        lemma_said_at(top, 1, "id"@, rule_text::quoted(id), rule_text::quoted(own@));
        if rule_text::quoted(own@) == rule_text::quoted(id) {
            rule_text::lemma_quoted_tells_apart(own@, id);
        }
    } else {
        lemma_said_at(top, 1, "id"@, rule_text::quoted(id), Seq::empty());
    }
    lemma_said_at(top, 2, "priority"@, "100"@, text::decimal(r.priority as nat));
    lemma_hundred(r.priority);
    lemma_not_said(
        top,
        "enabled"@,
        if r.enabled {
            "true"@
        } else {
            "false"@
        },
    );
    lemma_said_at(top, 3, "action"@, rule_text::quoted("deny"@), rule_text::quoted(r.action.word()));
    if rule_text::quoted(r.action.word()) == rule_text::quoted("deny"@) {
        rule_text::lemma_quoted_tells_apart(r.action.word(), "deny"@);
        assert(r.action.word().len() == 4);
    }
    lemma_not_said(top, "duration"@, rule_text::quoted(r.duration.word()));
}

proof fn lemma_hundred(p: u32)
    ensures
        text::decimal(p as nat) == "100"@ <==> p == 100,
{
    reveal_strlit("100");
    let h = "100"@;
    text::lemma_decimal_writes_the_number(p as nat);
    text::lemma_decimal_writes_the_number(100);
    reveal_with_fuel(text::number_of, 4);
    assert(h.drop_last() =~= seq!['1', '0']);
    assert(seq!['1', '0'].drop_last() =~= seq!['1']);
    assert(seq!['1'].drop_last() =~= Seq::<char>::empty());
    assert(text::number_of(h, 10) == 100);
    reveal_with_fuel(text::digits, 4);
    assert(text::decimal(100) =~= h);
}

/// The file of a rule says the rule and nothing else: its id, priority 100, deny, enabled
/// because it does not say otherwise, and for each clause its field, operator and value.
pub proof fn lemma_written_file_says_the_rule(row: Row, by: DenyRuleKind, ts_millis: u128, r: Rule)
    requires
        is_plain_row(row),
    ensures
        rule_text::states_rule(rule_body(row, by, ts_millis), r) <==> is_written_rule(r, row, by, ts_millis),
{
    let id = rule_id(row, by, ts_millis);
    let cs = clauses(row, by);
    let ls = body_lines(row, by, ts_millis);
    let top = top_lines(id);
    let all = all_clause_lines(cs);
    lemma_body_is_lines(row, by, ts_millis);
    lemma_body_lines_are_lines(row, by, ts_millis);
    rule_text::lemma_lines_read_back(ls);
    assert forall|i: int| 0 <= i < id.len() implies id[i] != '\n' by {
        lemma_rule_id_is_a_plain_name(row, by, ts_millis, i);
    }
    lemma_top_lines_are_lines(id);
    assert(rule_text::is_line(Seq::<char>::empty()));
    assert(rule_text::is_line(cs[0].value));
    lemma_clause_lines_are_lines(cs[0]);
    assert forall|i: int| 0 <= i < 5 implies !rule_text::is_header(#[trigger] ls[i]) by {
        assert(ls[i] == top[i]);
        assert(i == 0 || i == 1 || i == 2 || i == 3 || i == 4);
    }
    assert(ls[5] == clause_lines(cs[0])[0]);
    lemma_no_header(ls, 5);
    assert(ls.take(5) =~= top);
    assert(ls.skip(5) =~= all);
    lemma_top_reads(id, r);
    lemma_clauses_read(row, by, r);
    let ts = rule_text::tables(all);
    let stated = ts.len() == r.matches@.len() && forall|i: int|
        0 <= i < ts.len() ==> rule_text::states_clause(#[trigger] ts[i], r.matches@[i]);
    assert(rule_text::states_rule(rule_body(row, by, ts_millis), r) <==> states_top(top, r) && stated);
}

/// What a rule made from a row matches: by host every flow whose host ends with the row's, by
/// process every flow of its executable, by address every flow to it, by both only what both
/// match; nothing else.
pub proof fn lemma_rule_matches_its_kind(row: Row, by: DenyRuleKind, r: Rule, f: Facts)
    requires
        refusal(row, by) is None,
        has_clauses(r, clauses(row, by)),
    ensures
        ({
            let host = row.host->0;
            let ends = f.host matches Some(h) && h.len() >= host.len() && h.skip(h.len() - host.len()) == host;
            match by {
                DenyRuleKind::Host => rules::rule_matches(r, f) <==> ends,
                DenyRuleKind::Process => rules::rule_matches(r, f) <==> f.exe == row.exe,
                DenyRuleKind::Ip => rules::rule_matches(r, f) <==> f.ip == row.ip,
                DenyRuleKind::Both => rules::rule_matches(r, f) <==> ends && f.exe == row.exe,
            }
        }),
{
    let cs = clauses(row, by);
    assert(is_clause(r.matches@[0], cs[0]));
    if by == DenyRuleKind::Both {
        assert(is_clause(r.matches@[1], cs[1]));
    }
    if rules::rule_matches(r, f) {
        assert(rules::clause_matches(r.matches@[0], f));
        if by == DenyRuleKind::Both {
            assert(rules::clause_matches(r.matches@[1], f));
        }
    } else {
        let i = choose|i: int| 0 <= i < r.matches@.len() && !#[trigger] rules::clause_matches(r.matches@[i], f);
        assert(i == 0 || i == 1);
    }
}

/// A rule is refused exactly where the row does not have what its kind needs.
pub proof fn lemma_rules_need_their_facts(row: Row, by: DenyRuleKind)
    ensures
        ({
            let has_host = row.host matches Some(h) && h.len() > 0;
            let has_exe = row.exe matches Some(p) && p.len() > 0;
            let has_ip = row.ip matches Some(a) && a.len() > 0;
            match by {
                DenyRuleKind::Host => refusal(row, by) is None <==> has_host,
                DenyRuleKind::Process => refusal(row, by) is None <==> has_exe,
                DenyRuleKind::Ip => refusal(row, by) is None <==> has_ip,
                DenyRuleKind::Both => refusal(row, by) is None <==> has_host && has_exe,
            }
        }),
        refusal(row, DenyRuleKind::Host) matches Some(why) ==> why == "requested deny-by-host but no hostname on the row"@,
        refusal(row, DenyRuleKind::Process) matches Some(why) ==> why
            == "requested deny-by-process but no exe path on the row"@,
        refusal(row, DenyRuleKind::Ip) matches Some(why) ==> why == "requested deny-by-ip but no dest_ip on the row"@,
{
}

/// The last component of a path is what stands behind its last slash.
pub proof fn lemma_file_name(dir: Seq<char>, name: Seq<char>)
    requires
        name.len() > 0,
        name != seq!['.'],
        name != seq!['.', '.'],
        forall|i: int| 0 <= i < name.len() ==> name[i] != '/',
    ensures
        file_name(dir + seq!['/'] + name) == Some(name),
        file_name(name) == Some(name),
{
    text::lemma_last_slash_splits(dir, name);
    let p = dir + seq!['/'] + name;
    assert(p.skip(dir.len() as int + 1) =~= name);
    assert(name.skip(0) =~= name);
}

/// A part of a name is as long as what it is made from, has its plain characters, and an
/// underscore for each of the others.
pub proof fn lemma_sanitized(s: Seq<char>, i: int)
    requires
        0 <= i < s.len(),
    ensures
        sanitized(s).len() == s.len(),
        ('a' <= s[i] <= 'z') || ('A' <= s[i] <= 'Z') || ('0' <= s[i] <= '9') || s[i] == '-' || s[i] == '_'
            ==> sanitized(s)[i] == s[i],
        !(('a' <= s[i] <= 'z') || ('A' <= s[i] <= 'Z') || ('0' <= s[i] <= '9') || s[i] == '-' || s[i] == '_')
            ==> sanitized(s)[i] == '_',
{
}

/// The id of a rule says what it denies and when it was made.
pub proof fn lemma_rule_id(row: Row, ts_millis: u128, dir: Seq<char>, name: Seq<char>)
    requires
        name.len() > 0,
        name != seq!['.'],
        name != seq!['.', '.'],
        forall|i: int| 0 <= i < name.len() ==> name[i] != '/',
        row.exe == Some(dir + seq!['/'] + name),
        row.host is Some,
        row.ip is Some,
    ensures
        ({
            let head = "auto-deny-"@;
            let time = seq!['-'] + text::decimal(ts_millis as nat);
            let host = sanitized(row.host->0);
            let exe = sanitized(name);
            &&& rule_id(row, DenyRuleKind::Host, ts_millis) == head + host + time
            &&& rule_id(row, DenyRuleKind::Process, ts_millis) == head + exe + time
            &&& rule_id(row, DenyRuleKind::Ip, ts_millis) == head + sanitized(row.ip->0) + time
            &&& rule_id(row, DenyRuleKind::Both, ts_millis) == head + exe + seq!['-'] + host + time
        }),
{
    reveal_strlit("-");
    assert("-"@ =~= seq!['-']);
    lemma_file_name(dir, name);
    let head = "auto-deny-"@;
    let time = seq!['-'] + text::decimal(ts_millis as nat);
    let host = sanitized(row.host->0);
    let exe = sanitized(name);
    assert(rule_id(row, DenyRuleKind::Host, ts_millis) =~= head + host + time);
    assert(rule_id(row, DenyRuleKind::Process, ts_millis) =~= head + exe + time);
    assert(rule_id(row, DenyRuleKind::Ip, ts_millis) =~= head + sanitized(row.ip->0) + time);
    assert(rule_id(row, DenyRuleKind::Both, ts_millis) =~= head + exe + seq!['-'] + host + time);
}

/// What a request tells is taken as it stands.
pub proof fn lemma_row_is_the_request(exe: String, host: String, ip: String)
    ensures
        row(Some(exe), Some(host), Some(ip)) == (Row { exe: Some(exe@), host: Some(host@), ip: Some(ip@) }),
        row(None, None, None) == (Row { exe: None, host: None, ip: None }),
{
}

/// A rule on host and executable is refused for the host first.
pub proof fn lemma_both_is_refused_for_the_host_first(row: Row)
    ensures
        !(row.host matches Some(h) && h.len() > 0) ==> refusal(row, DenyRuleKind::Both) == Some(
            "requested deny-by-host but no hostname on the row"@,
        ),
        (row.host matches Some(h) && h.len() > 0) && !(row.exe matches Some(p) && p.len() > 0) ==> refusal(
            row,
            DenyRuleKind::Both,
        ) == Some("requested deny-by-process but no exe path on the row"@),
{
}

} // verus!
