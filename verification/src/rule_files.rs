//! The rules directory: which files hold rules, in which order the rules are tried, and how
//! a rule is switched on and off in its file.

use vstd::prelude::*;
use vstd::string::*;
use vstd::slice::*;

use crate::proto::{RuleAction, RuleInfo};
use crate::rules;
use crate::rules::{Action, Facts, Match, MatchField, MatchOp, MatchValue, Rule};
use crate::text;
use crate::toml_text;

verus! {

/// A file of the rules directory.
#[derive(Debug, Clone)]
pub struct RuleFile {
    /// The name within the directory, as the file system has it.
    pub name: Vec<u8>,
    pub path: String,
    /// What the file holds.
    pub contents: String,
    /// The rule it parses to, if it could be read and parsed.
    pub rule: Option<Rule>,
}

/// A rule with the id it goes by and the file it came from.
#[derive(Debug, Clone)]
pub struct LoadedRule {
    pub id: String,
    pub rule: Rule,
    pub path: String,
}

/// What is put in order by a priority, the lowest first.
pub trait Ranked: Sized {
    spec fn rank_of(self) -> u32;

    fn rank(&self) -> (r: u32)
        ensures
            r == self.rank_of(),
    ;
}

impl Ranked for Rule {
    open spec fn rank_of(self) -> u32 {
        self.priority
    }

    fn rank(&self) -> (r: u32) {
        self.priority
    }
}

impl Ranked for LoadedRule {
    open spec fn rank_of(self) -> u32 {
        self.rule.priority
    }

    fn rank(&self) -> (r: u32) {
        self.rule.priority
    }
}

/// The items of rank `p`, in their order.
pub open spec fn of_rank<T: Ranked>(s: Seq<T>, p: u32) -> Seq<T>
    decreases s.len(),
{
    if s.len() == 0 {
        Seq::empty()
    } else if s.last().rank_of() == p {
        of_rank(s.drop_last(), p).push(s.last())
    } else {
        of_rank(s.drop_last(), p)
    }
}

/// No item stands before one of lower rank.
pub open spec fn in_rank_order<T: Ranked>(s: Seq<T>) -> bool {
    forall|i: int, j: int|
        0 <= i < j < s.len() ==> (#[trigger] s[i]).rank_of() <= (#[trigger] s[j]).rank_of()
}

/// `out` is `input` put in rank order, items of equal rank keeping their order.
pub open spec fn is_stable_sort<T: Ranked>(input: Seq<T>, out: Seq<T>) -> bool {
    &&& in_rank_order(out)
    &&& forall|p: u32| #[trigger] of_rank(out, p) == of_rank(input, p)
}

proof fn lemma_of_rank_concat<T: Ranked>(a: Seq<T>, b: Seq<T>, p: u32)
    ensures
        of_rank(a + b, p) == of_rank(a, p) + of_rank(b, p),
    decreases b.len(),
{
    if b.len() == 0 {
        assert(a + b =~= a);
        assert(of_rank(a, p) + of_rank(b, p) =~= of_rank(a, p));
    } else {
        lemma_of_rank_concat(a, b.drop_last(), p);
        assert((a + b).drop_last() =~= a + b.drop_last());
        assert((a + b).last() == b.last());
        assert(of_rank(a + b, p) =~= of_rank(a, p) + of_rank(b, p));
    }
}

proof fn lemma_of_rank_none<T: Ranked>(s: Seq<T>, p: u32)
    requires
        forall|i: int| 0 <= i < s.len() ==> (#[trigger] s[i]).rank_of() != p,
    ensures
        of_rank(s, p).len() == 0,
    decreases s.len(),
{
    if s.len() > 0 {
        assert(s.last() == s[s.len() - 1]);
        assert forall|i: int| 0 <= i < s.drop_last().len() implies (#[trigger] s.drop_last()[i]).rank_of()
            != p by {
            assert(s.drop_last()[i] == s[i]);
        }
        lemma_of_rank_none(s.drop_last(), p);
    }
}

proof fn lemma_of_rank_member<T: Ranked>(s: Seq<T>, x: T)
    ensures
        s.contains(x) <==> of_rank(s, x.rank_of()).contains(x),
    decreases s.len(),
{
    let p = x.rank_of();
    if s.len() > 0 {
        let d = s.drop_last();
        lemma_of_rank_member(d, x);
        if s.contains(x) {
            let i = choose|i: int| 0 <= i < s.len() && s[i] == x;
            if i < d.len() {
                assert(d[i] == x);
                let k = choose|k: int| 0 <= k < of_rank(d, p).len() && of_rank(d, p)[k] == x;
                assert(of_rank(s, p)[k] == x);
            } else {
                assert(of_rank(s, p).last() == x);
            }
        }
        if of_rank(s, p).contains(x) {
            let k = choose|k: int| 0 <= k < of_rank(s, p).len() && of_rank(s, p)[k] == x;
            if k < of_rank(d, p).len() {
                assert(of_rank(d, p)[k] == x);
                let i = choose|i: int| 0 <= i < d.len() && d[i] == x;
                assert(s[i] == x);
            } else {
                assert(s.last() == x);
            }
        }
    }
}

/// Sorting keeps every item and adds none.
pub proof fn lemma_sort_keeps_items<T: Ranked>(input: Seq<T>, out: Seq<T>, x: T)
    requires
        is_stable_sort(input, out),
    ensures
        input.contains(x) <==> out.contains(x),
{
    lemma_of_rank_member(input, x);
    lemma_of_rank_member(out, x);
    assert(of_rank(out, x.rank_of()) == of_rank(input, x.rank_of()));
}

fn insert_ranked<T: Ranked>(v: &mut Vec<T>, x: T)
    requires
        in_rank_order(old(v)@),
    ensures
        is_stable_sort(old(v)@.push(x), final(v)@),
{
    let mut k: usize = v.len();
    while k > 0 && v[k - 1].rank() > x.rank()
        invariant
            k <= v@.len(),
            v@ == old(v)@,
            forall|i: int| k <= i < v@.len() ==> (#[trigger] v@[i]).rank_of() > x.rank_of(),
        decreases k,
    {
        k -= 1;
    }
    let ghost a = v@.take(k as int);
    let ghost b = v@.skip(k as int);
    v.insert(k, x);
    proof {
        let s = old(v)@;
        assert(s =~= a + b);
        assert(v@ =~= a.push(x) + b);
        assert(k > 0 ==> s[k - 1].rank_of() <= x.rank_of());
        assert forall|i: int, j: int| 0 <= i < j < v@.len() implies (#[trigger] v@[i]).rank_of() <= (
        #[trigger] v@[j]).rank_of() by {
            if i < k && k < j {
                assert(v@[i] == s[i] && v@[j] == s[j - 1]);
            } else if i < k && j == k {
                assert(v@[i] == s[i]);
                if i < k - 1 {
                    assert(s[i].rank_of() <= s[k - 1].rank_of());
                }
            } else if i < k {
                assert(v@[i] == s[i] && v@[j] == s[j]);
            } else if i == k {
                assert(v@[j] == s[j - 1]);
            } else {
                assert(v@[i] == s[i - 1] && v@[j] == s[j - 1]);
            }
        }
        assert forall|p: u32| #[trigger] of_rank(v@, p) == of_rank(s.push(x), p) by {
            let one = seq![x];
            assert(v@ =~= a + one + b);
            assert(s.push(x) =~= a + b + one);
            lemma_of_rank_concat(a + one, b, p);
            lemma_of_rank_concat(a, one, p);
            lemma_of_rank_concat(a + b, one, p);
            lemma_of_rank_concat(a, b, p);
            if p == x.rank_of() {
                assert forall|i: int| 0 <= i < b.len() implies (#[trigger] b[i]).rank_of() != p by {
                    assert(b[i] == s[k + i]);
                }
                lemma_of_rank_none(b, p);
            } else {
                lemma_of_rank_none(one, p);
            }
            assert(of_rank(v@, p) =~= of_rank(s.push(x), p));
        }
    }
}

proof fn lemma_stable_sort_push<T: Ranked>(input: Seq<T>, mid: Seq<T>, out: Seq<T>, x: T)
    requires
        is_stable_sort(input, mid),
        is_stable_sort(mid.push(x), out),
    ensures
        is_stable_sort(input.push(x), out),
{
    assert forall|p: u32| #[trigger] of_rank(out, p) == of_rank(input.push(x), p) by {
        assert(of_rank(mid, p) == of_rank(input, p));
        assert(mid.push(x).drop_last() =~= mid);
        assert(input.push(x).drop_last() =~= input);
    }
}

/// A file holds a rule if its extension is `toml`: a non-empty stem, then `.toml`.
pub open spec fn is_rule_name(name: Seq<u8>) -> bool {
    name.len() > 5 && name.skip(name.len() - 5) == seq![46u8, 116, 111, 109, 108]
}

/// The name without its extension, if it is UTF-8.
pub open spec fn stem_text(name: Seq<u8>) -> Option<Seq<char>> {
    text::utf8_text(name.take(name.len() - 5))
}

/// The id a file's rule goes by: its own, or else the file's stem.
pub open spec fn effective_id(f: RuleFile) -> Option<Seq<char>> {
    match f.rule {
        Some(r) => match r.id {
            Some(id) => Some(id@),
            None => stem_text(f.name@),
        },
        None => None,
    }
}

/// The file holds a rule that could be read.
pub open spec fn is_rule_file(f: RuleFile) -> bool {
    is_rule_name(f.name@) && f.rule is Some
}

/// The file holds a rule that is in force.
pub open spec fn is_active(f: RuleFile) -> bool {
    is_rule_file(f) && f.rule->0.enabled
}

/// `r` is the rule of `f` under its effective id.
pub open spec fn is_rule_of(r: Rule, f: RuleFile) -> bool {
    let own = f.rule->0;
    &&& text::opt_text(r.id) == effective_id(f)
    &&& r.priority == own.priority
    &&& r.enabled == own.enabled
    &&& r.action == own.action
    &&& r.duration == own.duration
    &&& r.matches == own.matches
}

/// `rules` are the active rules of `files`, in the order of the files.
pub open spec fn are_active_rules(files: Seq<RuleFile>, rules: Seq<Rule>) -> bool
    decreases files.len(),
{
    if files.len() == 0 {
        rules.len() == 0
    } else if is_active(files.last()) {
        rules.len() > 0 && is_rule_of(rules.last(), files.last()) && are_active_rules(
            files.drop_last(),
            rules.drop_last(),
        )
    } else {
        are_active_rules(files.drop_last(), rules)
    }
}

/// The id that a file's rule is listed under; one that goes by no name is listed as `?`.
pub open spec fn listed_id(f: RuleFile) -> Seq<char> {
    match effective_id(f) {
        Some(id) => id,
        None => "?"@,
    }
}

/// `l` lists the rule of `f`.
pub open spec fn is_listing_of(l: LoadedRule, f: RuleFile) -> bool {
    &&& l.rule == f.rule->0
    &&& l.path@ == f.path@
    &&& l.id@ == listed_id(f)
}

/// `listed` are the rules of `files`, disabled ones included, in the order of the files.
pub open spec fn are_listings(files: Seq<RuleFile>, listed: Seq<LoadedRule>) -> bool
    decreases files.len(),
{
    if files.len() == 0 {
        listed.len() == 0
    } else if is_rule_file(files.last()) {
        listed.len() > 0 && is_listing_of(listed.last(), files.last()) && are_listings(
            files.drop_last(),
            listed.drop_last(),
        )
    } else {
        are_listings(files.drop_last(), listed)
    }
}

fn has_rule_name(name: &[u8]) -> (r: bool)
    ensures
        r == is_rule_name(name@),
{
    let n: usize = name.len();
    if n <= 5 {
        return false;
    }
    let r: bool = name[n - 5] == 46 && name[n - 4] == 116 && name[n - 3] == 111 && name[n - 2] == 109
        && name[n - 1] == 108;
    proof {
        let e = name@.skip(n - 5);
        let want = seq![46u8, 116, 111, 109, 108];
        if r {
            assert(e =~= want);
        } else if e == want {
            assert(e[0] == 46 && e[1] == 116 && e[2] == 111 && e[3] == 109 && e[4] == 108);
        }
    }
    r
}

fn stem_of(name: &[u8]) -> (r: Option<String>)
    requires
        is_rule_name(name@),
    ensures
        text::opt_text(r) == stem_text(name@),
{
    let stem = slice_subrange(name, 0, name.len() - 5);
    assert(stem@ =~= name@.take(name@.len() - 5));
    match text::str_from_utf8(stem) {
        Some(s) => Some(s.to_owned()),
        None => None,
    }
}

/// The rules in force, in the order in which they are tried: those of the rule files that
/// parse and are enabled, by priority, and where priorities are equal in the order of the
/// files. A rule without an id goes by its file's stem.
pub fn load_dir(files: Vec<RuleFile>) -> (out: Vec<Rule>)
    ensures
        exists|active: Seq<Rule>|
            are_active_rules(files@, active) && is_stable_sort(active, out@),
{
    let mut out: Vec<Rule> = Vec::new();
    let ghost all = files@;
    let ghost mut active: Seq<Rule> = Seq::empty();
    assert(all.take(0) =~= Seq::<RuleFile>::empty());
    for f in it: files
        invariant
            it.seq() == all,
            are_active_rules(all.take(it.index() as int), active),
            is_stable_sort(active, out@),
    {
        proof {
            let done = it.index() as int;
            assert(all.take(done + 1).drop_last() =~= all.take(done));
            assert(all.take(done + 1).last() == f);
        }
        if has_rule_name(f.name.as_slice()) {
            if let Some(rule) = f.rule {
                if rule.enabled {
                    let mut rule = rule;
                    if rule.id.is_none() {
                        rule.id = stem_of(f.name.as_slice());
                    }
                    let ghost mid = out@;
                    let ghost kept = rule;
                    insert_ranked(&mut out, rule);
                    proof {
                        lemma_stable_sort_push(active, mid, out@, kept);
                        let before = active;
                        active = active.push(kept);
                        assert(active.drop_last() =~= before);
                    }
                }
            }
        }
    }
    assert(all.take(all.len() as int) =~= all);
    out
}

fn shown_id(rule: &Rule, name: &[u8]) -> (id: String)
    requires
        is_rule_name(name@),
    ensures
        id@ == match rule.id {
            Some(own) => own@,
            None => match stem_text(name@) {
                Some(stem) => stem,
                None => "?"@,
            },
        },
{
    match &rule.id {
        Some(own) => own.clone(),
        None => match stem_of(name) {
            Some(stem) => stem,
            None => "?".to_string(),
        },
    }
}

/// All rules of a directory, disabled ones included, in priority order.
pub fn list_all(files: Vec<RuleFile>) -> (out: Vec<LoadedRule>)
    ensures
        exists|listed: Seq<LoadedRule>|
            are_listings(files@, listed) && is_stable_sort(listed, out@),
{
    let mut out: Vec<LoadedRule> = Vec::new();
    let ghost all = files@;
    let ghost mut listed: Seq<LoadedRule> = Seq::empty();
    assert(all.take(0) =~= Seq::<RuleFile>::empty());
    for f in it: files
        invariant
            it.seq() == all,
            are_listings(all.take(it.index() as int), listed),
            is_stable_sort(listed, out@),
    {
        proof {
            let done = it.index() as int;
            assert(all.take(done + 1).drop_last() =~= all.take(done));
            assert(all.take(done + 1).last() == f);
        }
        if has_rule_name(f.name.as_slice()) {
            if let Some(rule) = f.rule {
                let id = shown_id(&rule, f.name.as_slice());
                let l = LoadedRule { id, rule, path: f.path };
                let ghost mid = out@;
                insert_ranked(&mut out, l);
                proof {
                    lemma_stable_sort_push(listed, mid, out@, l);
                    let before = listed;
                    listed = listed.push(l);
                    assert(listed.drop_last() =~= before);
                }
            }
        }
    }
    assert(all.take(all.len() as int) =~= all);
    out
}

proof fn lemma_active_place(files: Seq<RuleFile>, active: Seq<Rule>, i: int) -> (k: int)
    requires
        are_active_rules(files, active),
        0 <= i < files.len(),
        is_active(files[i]),
    ensures
        0 <= k < active.len(),
        is_rule_of(active[k], files[i]),
    decreases files.len(),
{
    if i == files.len() - 1 {
        active.len() - 1
    } else {
        let shorter = files.drop_last();
        assert(shorter[i] == files[i]);
        if is_active(files.last()) {
            let k = lemma_active_place(shorter, active.drop_last(), i);
            assert(active.drop_last()[k] == active[k]);
            k
        } else {
            lemma_active_place(shorter, active, i)
        }
    }
}

proof fn lemma_file_place(files: Seq<RuleFile>, active: Seq<Rule>, k: int) -> (i: int)
    requires
        are_active_rules(files, active),
        0 <= k < active.len(),
    ensures
        0 <= i < files.len(),
        is_active(files[i]),
        is_rule_of(active[k], files[i]),
    decreases files.len(),
{
    let shorter = files.drop_last();
    if is_active(files.last()) {
        if k == active.len() - 1 {
            files.len() - 1
        } else {
            assert(active.drop_last()[k] == active[k]);
            let i = lemma_file_place(shorter, active.drop_last(), k);
            assert(shorter[i] == files[i]);
            i
        }
    } else {
        let i = lemma_file_place(shorter, active, k);
        assert(shorter[i] == files[i]);
        i
    }
}

/// The rule of every file that is in force is loaded, under its effective id.
pub proof fn lemma_active_file_is_loaded(files: Seq<RuleFile>, active: Seq<Rule>, rules: Seq<Rule>, i: int)
    requires
        are_active_rules(files, active),
        is_stable_sort(active, rules),
        0 <= i < files.len(),
        is_active(files[i]),
    ensures
        exists|r: Rule| #[trigger] rules.contains(r) && is_rule_of(r, files[i]),
{
    let k = lemma_active_place(files, active, i);
    assert(active.contains(active[k]));
    lemma_sort_keeps_items(active, rules, active[k]);
    assert(rules.contains(active[k]));
}

/// Every rule that is loaded is that of a file that is in force.
pub proof fn lemma_loaded_rule_has_a_file(files: Seq<RuleFile>, active: Seq<Rule>, rules: Seq<Rule>, r: Rule)
    requires
        are_active_rules(files, active),
        is_stable_sort(active, rules),
        rules.contains(r),
    ensures
        exists|i: int| 0 <= i < files.len() && is_active(#[trigger] files[i]) && is_rule_of(r, files[i]),
{
    lemma_sort_keeps_items(active, rules, r);
    let k = choose|k: int| 0 <= k < active.len() && active[k] == r;
    let i = lemma_file_place(files, active, k);
    assert(is_active(files[i]));
}

/// The rule that decides has the lowest priority number of all rules that match.
pub proof fn lemma_lowest_priority_wins(active: Seq<Rule>, rules: Seq<Rule>, f: Facts, r: Rule)
    requires
        is_stable_sort(active, rules),
        active.contains(r),
        rules::rule_matches(r, f),
    ensures
        exists|w: Rule| #[trigger]
            active.contains(w) && rules::rule_matches(w, f) && w.priority <= r.priority
                && rules::verdict_on(rules, f) == Some((w.action, rules::verdict_id(w))),
{
    lemma_sort_keeps_items(active, rules, r);
    let j = choose|j: int| 0 <= j < rules.len() && rules[j] == r;
    let i = first_match(rules, f, j);
    rules::lemma_first_match_wins(rules, f, i);
    let w = rules[i];
    assert(rules.contains(w));
    lemma_sort_keeps_items(active, rules, w);
    assert(i < j ==> rules[i].rank_of() <= rules[j].rank_of());
}

proof fn first_match(rules: Seq<Rule>, f: Facts, j: int) -> (i: int)
    requires
        0 <= j < rules.len(),
        rules::rule_matches(rules[j], f),
    ensures
        0 <= i <= j,
        rules::rule_matches(rules[i], f),
        forall|k: int| 0 <= k < i ==> !rules::rule_matches(#[trigger] rules[k], f),
    decreases j,
{
    if exists|k: int| 0 <= k < j && rules::rule_matches(#[trigger] rules[k], f) {
        let k = choose|k: int| 0 <= k < j && rules::rule_matches(#[trigger] rules[k], f);
        first_match(rules, f, k)
    } else {
        j
    }
}

/// The word for a match field in a rule file.
pub open spec fn field_word(f: MatchField) -> Seq<char> {
    match f {
        MatchField::ProcessPath => "process_path"@,
        MatchField::DestHost => "dest_host"@,
        MatchField::DestIp => "dest_ip"@,
        MatchField::DestPort => "dest_port"@,
    }
}

/// The word for a match operator in a rule file.
pub open spec fn op_word(o: MatchOp) -> Seq<char> {
    match o {
        MatchOp::Exact => "exact"@,
        MatchOp::Prefix => "prefix"@,
        MatchOp::Suffix => "suffix"@,
        MatchOp::Contains => "contains"@,
        MatchOp::In => "in"@,
    }
}

/// Texts with commas between them.
pub open spec fn comma_list(items: Seq<Seq<char>>) -> Seq<char>
    decreases items.len(),
{
    if items.len() == 0 {
        Seq::empty()
    } else if items.len() == 1 {
        items[0]
    } else {
        comma_list(items.drop_last()) + ", "@ + items.last()
    }
}

/// The value of a clause as it is shown: a list in brackets, anything else bare.
pub open spec fn value_text(v: MatchValue) -> Seq<char> {
    match v {
        MatchValue::Num(n) => text::decimal(n as nat),
        MatchValue::Str(s) => s@,
        MatchValue::NumList(ns) => "["@ + comma_list(ns@.map_values(|n: u16| text::decimal(n as nat))) + "]"@,
        MatchValue::StrList(ss) => "["@ + comma_list(ss@.map_values(|s: String| s@)) + "]"@,
    }
}

/// A clause in words: field, operator and value.
pub open spec fn summary_text(m: Match) -> Seq<char> {
    field_word(m.field) + " "@ + op_word(m.op) + " "@ + value_text(m.value)
}

pub fn field_str(f: MatchField) -> (r: &'static str)
    ensures
        r@ == field_word(f),
{
    match f {
        MatchField::ProcessPath => "process_path",
        MatchField::DestHost => "dest_host",
        MatchField::DestIp => "dest_ip",
        MatchField::DestPort => "dest_port",
    }
}

pub fn op_str(o: MatchOp) -> (r: &'static str)
    ensures
        r@ == op_word(o),
{
    match o {
        MatchOp::Exact => "exact",
        MatchOp::Prefix => "prefix",
        MatchOp::Suffix => "suffix",
        MatchOp::Contains => "contains",
        MatchOp::In => "in",
    }
}

fn comma_join(items: &Vec<String>) -> (r: String)
    ensures
        r@ == comma_list(items@.map_values(|s: String| s@)),
{
    let ghost all = items@.map_values(|s: String| s@);
    let mut out = String::new();
    let mut i: usize = 0;
    assert(all.take(0) =~= Seq::<Seq<char>>::empty());
    while i < items.len()
        invariant
            i <= items@.len(),
            all == items@.map_values(|s: String| s@),
            out@ == comma_list(all.take(i as int)),
        decreases items@.len() - i,
    {
        if i > 0 {
            out.append(", ");
        }
        out.append(items[i].as_str());
        proof {
            let next = all.take(i + 1);
            assert(next.drop_last() =~= all.take(i as int));
            assert(next.last() == items@[i as int]@);
            assert(out@ =~= comma_list(next));
        }
        i += 1;
    }
    assert(all.take(all.len() as int) =~= all);
    out
}

fn decimals(ns: &Vec<u16>) -> (r: Vec<String>)
    ensures
        r@.map_values(|s: String| s@) == ns@.map_values(|n: u16| text::decimal(n as nat)),
{
    let mut out: Vec<String> = Vec::new();
    let mut i: usize = 0;
    while i < ns.len()
        invariant
            i <= ns@.len(),
            out@.len() == i,
            forall|j: int| 0 <= j < i ==> (#[trigger] out@[j])@ == text::decimal(ns@[j] as nat),
        decreases ns@.len() - i,
    {
        out.push(text::decimal_string(ns[i] as u128));
        i += 1;
    }
    assert(out@.map_values(|s: String| s@) =~= ns@.map_values(|n: u16| text::decimal(n as nat)));
    out
}

impl Match {
    /// The clause in words, as in `dest_host suffix .doubleclick.net`.
    pub fn summary(&self) -> (r: String)
        ensures
            r@ == summary_text(*self),
    {
        let mut out = String::new();
        out.append(field_str(self.field));
        out.append(" ");
        out.append(op_str(self.op));
        out.append(" ");
        match &self.value {
            MatchValue::Num(n) => text::append_digits(&mut out, *n as u128, 10),
            MatchValue::Str(s) => out.append(s.as_str()),
            MatchValue::NumList(ns) => {
                out.append("[");
                let items = decimals(ns);
                out.append(comma_join(&items).as_str());
                out.append("]");
            },
            MatchValue::StrList(ss) => {
                out.append("[");
                out.append(comma_join(ss).as_str());
                out.append("]");
            },
        }
        assert(out@ =~= summary_text(*self));
        out
    }
}

/// `info` shows the listed rule `l`.
pub open spec fn shows(info: RuleInfo, l: LoadedRule) -> bool {
    &&& info.id == l.id
    &&& info.priority == l.rule.priority
    &&& info.enabled == l.rule.enabled
    &&& info.action == match l.rule.action {
        Action::Allow => RuleAction::Allow,
        Action::Deny => RuleAction::Deny,
    }
    &&& info.duration@ == l.rule.duration.word()
    &&& info.matches@.len() == l.rule.matches@.len()
    &&& forall|i: int|
        0 <= i < info.matches@.len() ==> (#[trigger] info.matches@[i])@ == summary_text(
            l.rule.matches@[i],
        )
    &&& info.path == l.path
}

fn rule_info(l: LoadedRule) -> (info: RuleInfo)
    ensures
        shows(info, l),
{
    let mut matches: Vec<String> = Vec::new();
    let mut i: usize = 0;
    while i < l.rule.matches.len()
        invariant
            i <= l.rule.matches@.len(),
            matches@.len() == i,
            forall|j: int| 0 <= j < i ==> (#[trigger] matches@[j])@ == summary_text(l.rule.matches@[j]),
        decreases l.rule.matches@.len() - i,
    {
        matches.push(l.rule.matches[i].summary());
        i += 1;
    }
    RuleInfo {
        id: l.id,
        priority: l.rule.priority,
        enabled: l.rule.enabled,
        action: match l.rule.action {
            Action::Allow => RuleAction::Allow,
            Action::Deny => RuleAction::Deny,
        },
        duration: l.rule.duration.as_str().to_string(),
        matches,
        path: l.path,
    }
}

/// `infos` tell of the rules of `files`: all of them, in priority order.
pub open spec fn are_infos(files: Seq<RuleFile>, infos: Seq<RuleInfo>) -> bool {
    exists|listed: Seq<LoadedRule>, sorted: Seq<LoadedRule>| #[trigger]
        are_listings(files, listed) && #[trigger] is_stable_sort(listed, sorted) && sorted.len() == infos.len()
            && forall|i: int| 0 <= i < infos.len() ==> shows(#[trigger] infos[i], sorted[i])
}

/// The rules of a directory as a client is told of them.
pub fn list_rule_infos(files: Vec<RuleFile>) -> (out: Vec<RuleInfo>)
    ensures
        are_infos(files@, out@),
{
    let all = list_all(files);
    let ghost sorted = all@;
    let mut out: Vec<RuleInfo> = Vec::new();
    for l in it: all
        invariant
            it.seq() == sorted,
            out@.len() == it.index(),
            forall|i: int| 0 <= i < out@.len() ==> shows(#[trigger] out@[i], sorted[i]),
    {
        out.push(rule_info(l));
    }
    out
}

/// A file to be written anew.
#[derive(Debug, Clone)]
pub struct RuleEdit {
    pub path: String,
    pub contents: String,
}

/// `files[i]` is the first file whose rule is listed under `id`.
pub open spec fn is_first_listed(files: Seq<RuleFile>, id: Seq<char>, i: int) -> bool {
    &&& 0 <= i < files.len()
    &&& is_rule_file(files[i])
    &&& listed_id(files[i]) == id
    &&& forall|j: int| 0 <= j < i ==> !(is_rule_file(#[trigger] files[j]) && listed_id(files[j]) == id)
}

/// `r` switches the rule listed under `id` on or off in the first file that has it. Where
/// no rule is listed under it, `r` says so.
pub open spec fn is_toggle(files: Seq<RuleFile>, id: Seq<char>, enabled: bool, r: Result<RuleEdit, String>) -> bool {
    match r {
        Ok(edit) => exists|i: int| #[trigger]
            is_first_listed(files, id, i) && edit.path == files[i].path && edit.contents@
                == toml_text::with_enabled(files[i].contents@, enabled),
        Err(e) => e@ == "no rule with id "@ + id && forall|i: int|
            0 <= i < files.len() ==> !(is_rule_file(#[trigger] files[i]) && listed_id(files[i]) == id),
    }
}

/// What to write where in order to switch the rule listed under `id` on or off.
pub fn set_enabled(files: &[RuleFile], id: &str, enabled: bool) -> (r: Result<RuleEdit, String>)
    ensures
        is_toggle(files@, id@, enabled, r),
{
    let mut i: usize = 0;
    while i < files.len()
        invariant
            i <= files@.len(),
            forall|j: int|
                0 <= j < i ==> !(is_rule_file(#[trigger] files@[j]) && listed_id(files@[j]) == id@),
        decreases files@.len() - i,
    {
        let f = &files[i];
        if has_rule_name(f.name.as_slice()) {
            if let Some(rule) = &f.rule {
                let shown = shown_id(rule, f.name.as_slice());
                if text::str_eq(shown.as_str(), id) {
                    let edit = RuleEdit {
                        path: f.path.clone(),
                        contents: toml_text::set_flag(f.contents.as_str(), enabled),
                    };
                    assert(is_first_listed(files@, id@, i as int));
                    return Ok(edit);
                }
            }
        }
        i += 1;
    }
    let mut e = String::new();
    e.append("no rule with id ");
    e.append(id);
    assert(e@ =~= "no rule with id "@ + id@);
    Err(e)
}

/// Items of a rank keep their order when they are sorted: picking them out gives the same
/// items in the same order before and after.
pub proof fn lemma_equal_ranks_keep_their_order<T: Ranked>(input: Seq<T>, out: Seq<T>, p: u32)
    requires
        is_stable_sort(input, out),
    ensures
        out.filter(|x: T| x.rank_of() == p) == input.filter(|x: T| x.rank_of() == p),
{
    lemma_of_rank_is_filter(input, p);
    lemma_of_rank_is_filter(out, p);
    assert(of_rank(out, p) == of_rank(input, p));
}

proof fn lemma_of_rank_is_filter<T: Ranked>(s: Seq<T>, p: u32)
    ensures
        of_rank(s, p) == s.filter(|x: T| x.rank_of() == p),
    decreases s.len(),
{
    reveal(Seq::filter);
    if s.len() > 0 {
        lemma_of_rank_is_filter(s.drop_last(), p);
    }
}

/// Rules are tried in the order of their priority numbers, the lowest first.
pub proof fn lemma_rules_are_in_priority_order(active: Seq<Rule>, loaded: Seq<Rule>, i: int, j: int)
    requires
        is_stable_sort(active, loaded),
        0 <= i < j < loaded.len(),
    ensures
        loaded[i].priority <= loaded[j].priority,
{
    assert(loaded[i].rank_of() <= loaded[j].rank_of());
}

/// Of two rules the one with the lower priority number comes first, and of two with the same
/// the one whose file comes first.
pub proof fn lemma_two_rules(a: Rule, b: Rule, loaded: Seq<Rule>)
    requires
        is_stable_sort(seq![a, b], loaded),
    ensures
        a.priority <= b.priority ==> loaded == seq![a, b],
        a.priority > b.priority ==> loaded == seq![b, a],
{
    let s = seq![a, b];
    reveal_with_fuel(of_rank, 3);
    assert(s.drop_last() =~= seq![a]);
    assert(seq![a].drop_last() =~= Seq::<Rule>::empty());
    assert forall|i: int| 0 <= i < loaded.len() implies #[trigger] loaded[i] == a || loaded[i] == b by {
        assert(loaded.contains(loaded[i]));
        lemma_sort_keeps_items(s, loaded, loaded[i]);
        let k = choose|k: int| 0 <= k < s.len() && s[k] == loaded[i];
        assert(k == 0 || k == 1);
    }
    let p = a.priority;
    let q = b.priority;
    assert(of_rank(loaded, p) == of_rank(s, p));
    assert(of_rank(loaded, q) == of_rank(s, q));
    if p == q {
        assert forall|i: int| 0 <= i < loaded.len() implies (#[trigger] loaded[i]).rank_of() == p by {}
        lemma_all_of_rank(loaded, p);
        assert(of_rank(s, p) =~= s);
    } else {
        lemma_two_ranks(loaded, if p < q {
            p
        } else {
            q
        }, if p < q {
            q
        } else {
            p
        });
        assert(of_rank(s, p) =~= seq![a]);
        assert(of_rank(s, q) =~= seq![b]);
        assert(seq![a] + seq![b] =~= seq![a, b]);
        assert(seq![b] + seq![a] =~= seq![b, a]);
    }
}

proof fn lemma_all_of_rank(s: Seq<Rule>, p: u32)
    requires
        forall|i: int| 0 <= i < s.len() ==> (#[trigger] s[i]).rank_of() == p,
    ensures
        of_rank(s, p) == s,
    decreases s.len(),
{
    if s.len() > 0 {
        let d = s.drop_last();
        assert(s[s.len() - 1].rank_of() == p);
        assert forall|i: int| 0 <= i < d.len() implies (#[trigger] d[i]).rank_of() == p by {
            assert(d[i] == s[i]);
        }
        lemma_all_of_rank(d, p);
        assert(d.push(s.last()) =~= s);
    } else {
        assert(of_rank(s, p) =~= s);
    }
}

proof fn lemma_two_ranks(s: Seq<Rule>, p: u32, q: u32)
    requires
        p < q,
        in_rank_order(s),
        forall|i: int| 0 <= i < s.len() ==> (#[trigger] s[i]).rank_of() == p || s[i].rank_of() == q,
    ensures
        s == of_rank(s, p) + of_rank(s, q),
    decreases s.len(),
{
    if s.len() > 0 {
        let d = s.drop_last();
        assert forall|i: int| 0 <= i < d.len() implies (#[trigger] d[i]).rank_of() == p || d[i].rank_of() == q by {
            assert(d[i] == s[i]);
        }
        assert forall|i: int, j: int| 0 <= i < j < d.len() implies (#[trigger] d[i]).rank_of() <= (#[trigger] d[j]).rank_of() by {
            assert(d[i] == s[i] && d[j] == s[j]);
        }
        lemma_two_ranks(d, p, q);
        let last = s[s.len() - 1];
        assert(last.rank_of() == p || last.rank_of() == q);
        if last.rank_of() == p {
            assert forall|i: int| 0 <= i < d.len() implies (#[trigger] d[i]).rank_of() != q by {
                assert(d[i] == s[i]);
                assert(s[i].rank_of() <= last.rank_of());
            }
            lemma_of_rank_none(d, q);
            assert(of_rank(s, q) =~= Seq::<Rule>::empty());
            assert(d =~= of_rank(d, p));
            assert(of_rank(s, p) == d.push(last));
            assert(s =~= of_rank(s, p) + of_rank(s, q));
        } else {
            let (a, b) = (of_rank(d, p), of_rank(d, q));
            assert(of_rank(s, p) == a);
            assert(of_rank(s, q) == b.push(last));
            assert(s =~= d.push(last));
            assert((a + b).push(last) =~= a + b.push(last));
        }
    } else {
        assert(s =~= of_rank(s, p) + of_rank(s, q));
    }
}

/// A rule that is loaded is enabled, and it is one of a file that ends in `.toml`, with that
/// file's priority, action and clauses, under its own id or else the file's stem.
pub proof fn lemma_loaded_rules_are_the_files(files: Seq<RuleFile>, active: Seq<Rule>, loaded: Seq<Rule>, r: Rule)
    requires
        are_active_rules(files, active),
        is_stable_sort(active, loaded),
        loaded.contains(r),
    ensures
        r.enabled,
        exists|i: int|
            0 <= i < files.len() && is_rule_name((#[trigger] files[i]).name@) && (files[i].rule matches Some(own)
                && own.enabled && r.priority == own.priority && r.action == own.action && r.duration == own.duration
                && r.matches == own.matches && (own.id matches Some(id) ==> text::opt_text(r.id) == Some(id@)) && (
            own.id is None ==> text::opt_text(r.id) == text::utf8_text(
                files[i].name@.take(files[i].name@.len() - 5),
            ))),
{
    lemma_loaded_rule_has_a_file(files, active, loaded, r);
    let i = choose|i: int| 0 <= i < files.len() && is_active(#[trigger] files[i]) && is_rule_of(r, files[i]);
    assert(is_rule_name(files[i].name@));
}

/// Every enabled rule of a file that ends in `.toml` is loaded as it stands there.
pub proof fn lemma_enabled_rules_are_loaded(files: Seq<RuleFile>, active: Seq<Rule>, loaded: Seq<Rule>, i: int)
    requires
        are_active_rules(files, active),
        is_stable_sort(active, loaded),
        0 <= i < files.len(),
        is_rule_name(files[i].name@),
        files[i].rule matches Some(own) && own.enabled,
    ensures
        exists|r: Rule| #[trigger]
            loaded.contains(r) && r.priority == files[i].rule->0.priority && r.action == files[i].rule->0.action
                && r.matches == files[i].rule->0.matches && (files[i].rule->0.id matches Some(id) ==> text::opt_text(
                r.id,
            ) == Some(id@)),
{
    lemma_active_file_is_loaded(files, active, loaded, i);
    let r = choose|r: Rule| #[trigger] loaded.contains(r) && is_rule_of(r, files[i]);
    assert(loaded.contains(r));
}

/// As many rules are loaded as files have an enabled rule: none comes twice.
pub proof fn lemma_a_file_more(files: Seq<RuleFile>, active: Seq<Rule>, f: RuleFile, r: Rule)
    requires
        are_active_rules(files, active),
        is_rule_name(f.name@),
        f.rule is Some,
    ensures
        f.rule->0.enabled && is_rule_of(r, f) ==> are_active_rules(files.push(f), active.push(r)),
        !f.rule->0.enabled ==> are_active_rules(files.push(f), active),
{
    assert(files.push(f).drop_last() =~= files);
    assert(active.push(r).drop_last() =~= active);
}

/// A rule file's name is a stem and `.toml`.
pub proof fn lemma_rule_names(stem: Seq<u8>, name: Seq<u8>)
    ensures
        stem.len() > 0 ==> is_rule_name(stem + seq![46u8, 116, 111, 109, 108]),
        stem_text(stem + seq![46u8, 116, 111, 109, 108]) == text::utf8_text(stem),
        is_rule_name(name) ==> name.len() > 5 && name[name.len() - 5] == 46 && name[name.len() - 4] == 116
            && name[name.len() - 3] == 111 && name[name.len() - 2] == 109 && name[name.len() - 1] == 108,
{
    let whole = stem + seq![46u8, 116, 111, 109, 108];
    assert(whole.skip(whole.len() - 5) =~= seq![46u8, 116, 111, 109, 108]);
    assert(whole.take(whole.len() - 5) =~= stem);
    if is_rule_name(name) {
        let end = name.skip(name.len() - 5);
        assert(end[0] == 46 && end[1] == 116 && end[2] == 111 && end[3] == 109 && end[4] == 108);
    }
}

/// A rule goes by its own id, or else by its file's stem, or else by a question mark.
pub proof fn lemma_rules_go_by_their_ids(f: RuleFile)
    requires
        f.rule is Some,
    ensures
        f.rule->0.id matches Some(id) ==> effective_id(f) == Some(id@) && listed_id(f) == id@,
        f.rule->0.id is None ==> effective_id(f) == text::utf8_text(f.name@.take(f.name@.len() - 5)),
        effective_id(f) is None ==> listed_id(f) == seq!['?'],
        effective_id(f) matches Some(id) ==> listed_id(f) == id,
{
    reveal_strlit("?");
    assert("?"@ =~= seq!['?']);
}

proof fn lemma_listing_place(files: Seq<RuleFile>, listed: Seq<LoadedRule>, i: int) -> (k: int)
    requires
        are_listings(files, listed),
        0 <= i < files.len(),
        is_rule_file(files[i]),
    ensures
        0 <= k < listed.len(),
        is_listing_of(listed[k], files[i]),
    decreases files.len(),
{
    if i == files.len() - 1 {
        listed.len() - 1
    } else {
        let shorter = files.drop_last();
        assert(shorter[i] == files[i]);
        if is_rule_file(files.last()) {
            let k = lemma_listing_place(shorter, listed.drop_last(), i);
            assert(listed.drop_last()[k] == listed[k]);
            k
        } else {
            lemma_listing_place(shorter, listed, i)
        }
    }
}

/// Every rule is listed, a disabled one too, with its id, priority, action, file and whether
/// it is enabled, and a line for each of its clauses.
pub proof fn lemma_every_rule_is_listed(files: Seq<RuleFile>, infos: Seq<RuleInfo>, i: int)
    requires
        are_infos(files, infos),
        0 <= i < files.len(),
        is_rule_name(files[i].name@),
        files[i].rule is Some,
    ensures
        exists|k: int|
            0 <= k < infos.len() && (#[trigger] infos[k]).id@ == listed_id(files[i]) && infos[k].priority
                == files[i].rule->0.priority && infos[k].enabled == files[i].rule->0.enabled && infos[k].path@
                == files[i].path@ && (infos[k].action is Deny <==> files[i].rule->0.action is Deny)
                && infos[k].duration@ == files[i].rule->0.duration.word() && infos[k].matches@.len()
                == files[i].rule->0.matches@.len(),
{
    let (listed, sorted) = choose|listed: Seq<LoadedRule>, sorted: Seq<LoadedRule>| #[trigger]
        are_listings(files, listed) && #[trigger] is_stable_sort(listed, sorted) && sorted.len() == infos.len()
            && forall|i: int| 0 <= i < infos.len() ==> shows(#[trigger] infos[i], sorted[i]);
    let k = lemma_listing_place(files, listed, i);
    assert(listed.contains(listed[k]));
    lemma_sort_keeps_items(listed, sorted, listed[k]);
    let j = choose|j: int| 0 <= j < sorted.len() && sorted[j] == listed[k];
    assert(shows(infos[j], sorted[j]));
}

/// Rules are listed in the order in which they are tried.
pub proof fn lemma_listing_is_in_priority_order(files: Seq<RuleFile>, infos: Seq<RuleInfo>, i: int, j: int)
    requires
        are_infos(files, infos),
        0 <= i < j < infos.len(),
    ensures
        infos[i].priority <= infos[j].priority,
{
    let (listed, sorted) = choose|listed: Seq<LoadedRule>, sorted: Seq<LoadedRule>| #[trigger]
        are_listings(files, listed) && #[trigger] is_stable_sort(listed, sorted) && sorted.len() == infos.len()
            && forall|i: int| 0 <= i < infos.len() ==> shows(#[trigger] infos[i], sorted[i]);
    assert(sorted[i].rank_of() <= sorted[j].rank_of());
    assert(shows(infos[i], sorted[i]));
    assert(shows(infos[j], sorted[j]));
}

/// Switching a rule writes its own file anew, with the flag set as asked for; the rule is the
/// first that is listed under the id.
pub proof fn lemma_switching_writes_the_rules_file(files: Seq<RuleFile>, id: Seq<char>, enabled: bool, edit: RuleEdit)
    requires
        is_toggle(files, id, enabled, Ok(edit)),
    ensures
        exists|i: int|
            0 <= i < files.len() && is_rule_name((#[trigger] files[i]).name@) && files[i].rule is Some && listed_id(
                files[i],
            ) == id && edit.path@ == files[i].path@ && edit.contents@ == toml_text::with_enabled(
                files[i].contents@,
                enabled,
            ) && forall|j: int|
                0 <= j < i ==> !(is_rule_name((#[trigger] files[j]).name@) && files[j].rule is Some && listed_id(
                    files[j],
                ) == id),
        toml_text::find_flag(edit.contents@) matches Some(v) && toml_text::word_at(edit.contents@, v) == if enabled {
            seq!['t', 'r', 'u', 'e']
        } else {
            seq!['f', 'a', 'l', 's', 'e']
        },
{
    reveal_strlit("true");
    reveal_strlit("false");
    assert("true"@ =~= seq!['t', 'r', 'u', 'e']);
    assert("false"@ =~= seq!['f', 'a', 'l', 's', 'e']);
    let i = choose|i: int| #[trigger]
        is_first_listed(files, id, i) && edit.path == files[i].path && edit.contents@ == toml_text::with_enabled(
            files[i].contents@,
            enabled,
        );
    assert(is_rule_name(files[i].name@));
    assert forall|j: int| 0 <= j < i implies !(is_rule_name((#[trigger] files[j]).name@) && files[j].rule is Some
        && listed_id(files[j]) == id) by {
        assert(!(is_rule_file(files[j]) && listed_id(files[j]) == id));
    }
    toml_text::lemma_set_flag_reads_back(files[i].contents@, enabled);
}

/// A rule that is listed is switched, and one that is not is refused by its id.
pub proof fn lemma_listed_rules_can_be_switched(
    files: Seq<RuleFile>,
    id: Seq<char>,
    enabled: bool,
    r: Result<RuleEdit, String>,
    i: int,
)
    requires
        is_toggle(files, id, enabled, r),
    ensures
        0 <= i < files.len() && is_rule_name(files[i].name@) && files[i].rule is Some && listed_id(files[i]) == id
            ==> r is Ok,
        r matches Err(e) ==> e@ == "no rule with id "@ + id,
{
    if 0 <= i < files.len() && r is Err {
        assert(!(is_rule_file(files[i]) && listed_id(files[i]) == id));
    }
}

/// A clause in words is its field, its operator and its value, with a blank between them; a
/// list stands in brackets, with a comma and a blank between its items.
pub proof fn lemma_clause_in_words(m: Match, s: String, n: u16, items: Seq<Seq<char>>, last: Seq<char>)
    ensures
        summary_text(m) == field_word(m.field) + seq![' '] + op_word(m.op) + seq![' '] + value_text(m.value),
        value_text(MatchValue::Str(s)) == s@,
        value_text(MatchValue::Num(n)) == text::decimal(n as nat),
        comma_list(seq![last]) == last,
        items.len() > 0 ==> comma_list(items.push(last)) == comma_list(items) + seq![',', ' '] + last,
{
    reveal_strlit(" ");
    reveal_strlit(", ");
    assert(" "@ =~= seq![' ']);
    assert(", "@ =~= seq![',', ' ']);
    assert(items.push(last).drop_last() =~= items);
}

/// A list of texts is shown item by item.
pub proof fn lemma_lists_in_words(ss: Vec<String>, ns: Vec<u16>)
    ensures
        value_text(MatchValue::StrList(ss)) == seq!['['] + comma_list(text::texts(ss@)) + seq![']'],
        value_text(MatchValue::NumList(ns)) == seq!['['] + comma_list(
            Seq::new(ns@.len(), |i: int| text::decimal(ns@[i] as nat)),
        ) + seq![']'],
{
    reveal_strlit("[");
    reveal_strlit("]");
    assert("["@ =~= seq!['[']);
    assert("]"@ =~= seq![']']);
    assert(text::texts(ss@) =~= ss@.map_values(|s: String| s@));
    assert(ns@.map_values(|n: u16| text::decimal(n as nat)) =~= Seq::new(
        ns@.len(),
        |i: int| text::decimal(ns@[i] as nat),
    ));
}

/// The words of fields and operators.
pub proof fn lemma_words_of_clauses()
    ensures
        field_word(MatchField::ProcessPath) == "process_path"@,
        field_word(MatchField::DestHost) == "dest_host"@,
        field_word(MatchField::DestIp) == "dest_ip"@,
        field_word(MatchField::DestPort) == "dest_port"@,
        op_word(MatchOp::Exact) == "exact"@,
        op_word(MatchOp::Prefix) == "prefix"@,
        op_word(MatchOp::Suffix) == "suffix"@,
        op_word(MatchOp::Contains) == "contains"@,
        op_word(MatchOp::In) == "in"@,
{
}

/// The rules in force before they are sorted are those of the files that end in `.toml` and
/// have an enabled rule: one for each, in the order of the files.
pub proof fn lemma_active_rules_are_those_of_the_files(files: Seq<RuleFile>, active: Seq<Rule>, k: int)
    requires
        are_active_rules(files, active),
    ensures
        ({
            let picked = files.filter(
                |f: RuleFile| is_rule_name(f.name@) && f.rule is Some && f.rule->0.enabled,
            );
            &&& active.len() == picked.len()
            &&& 0 <= k < active.len() ==> active[k].priority == picked[k].rule->0.priority && active[k].action
                == picked[k].rule->0.action && active[k].matches == picked[k].rule->0.matches && text::opt_text(
                active[k].id,
            ) == effective_id(picked[k])
        }),
    decreases files.len(),
{
    reveal(Seq::filter);
    let pred = |f: RuleFile| is_rule_name(f.name@) && f.rule is Some && f.rule->0.enabled;
    if files.len() > 0 {
        let shorter = files.drop_last();
        assert(is_active(files.last()) <==> pred(files.last()));
        if is_active(files.last()) {
            lemma_active_rules_are_those_of_the_files(shorter, active.drop_last(), k);
            if 0 <= k < active.len() - 1 {
                assert(active.drop_last()[k] == active[k]);
            }
        } else {
            lemma_active_rules_are_those_of_the_files(shorter, active, k);
        }
    }
}

/// The rules that are listed before they are sorted are those of the files that end in
/// `.toml` and have one: one for each, in the order of the files.
pub proof fn lemma_listings_are_those_of_the_files(files: Seq<RuleFile>, listed: Seq<LoadedRule>, k: int)
    requires
        are_listings(files, listed),
    ensures
        ({
            let picked = files.filter(|f: RuleFile| is_rule_name(f.name@) && f.rule is Some);
            &&& listed.len() == picked.len()
            &&& 0 <= k < listed.len() ==> listed[k].rule == picked[k].rule->0 && listed[k].path@ == picked[k].path@
                && listed[k].id@ == listed_id(picked[k])
        }),
    decreases files.len(),
{
    reveal(Seq::filter);
    let pred = |f: RuleFile| is_rule_name(f.name@) && f.rule is Some;
    if files.len() > 0 {
        let shorter = files.drop_last();
        assert(is_rule_file(files.last()) <==> pred(files.last()));
        if is_rule_file(files.last()) {
            lemma_listings_are_those_of_the_files(shorter, listed.drop_last(), k);
            if 0 <= k < listed.len() - 1 {
                assert(listed.drop_last()[k] == listed[k]);
            }
        } else {
            lemma_listings_are_those_of_the_files(shorter, listed, k);
        }
    }
}

/// A listed rule is shown with each of its clauses in words.
pub proof fn lemma_listing_shows_the_clauses(info: RuleInfo, l: LoadedRule, i: int)
    requires
        shows(info, l),
    ensures
        info.id == l.id,
        info.path == l.path,
        info.priority == l.rule.priority,
        info.enabled == l.rule.enabled,
        info.matches@.len() == l.rule.matches@.len(),
        0 <= i < l.rule.matches@.len() ==> info.matches@[i]@ == field_word(l.rule.matches@[i].field) + seq![' ']
            + op_word(l.rule.matches@[i].op) + seq![' '] + value_text(l.rule.matches@[i].value),
{
    if 0 <= i < l.rule.matches@.len() {
        let m = l.rule.matches@[i];
        assert(info.matches@[i]@ == summary_text(m));
        reveal_strlit(" ");
        assert(" "@ =~= seq![' ']);
    }
}

} // verus!
