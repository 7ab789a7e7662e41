//! Session-wide counters: totals, the busiest processes and hosts, and the activity of the
//! last two minutes.

use std::collections::VecDeque;
use vstd::hash_map::StringHashMap;
use vstd::prelude::*;
use vstd::string::*;

use crate::addr;
use crate::proto::{EnrichedEvent, LabeledCount, Stats, Verdict};
use crate::text;

verus! {

/// How many seconds of activity are kept.
pub const ACTIVITY_BUCKETS: usize = 120;

/// How many processes and hosts a snapshot names.
pub const TOP_N: usize = 10;

/// The first text comes before the second: by the first character in which they differ, a
/// text before any that it begins.
pub open spec fn text_before(a: Seq<char>, b: Seq<char>) -> bool
    decreases a.len(),
{
    if b.len() == 0 {
        false
    } else if a.len() == 0 {
        true
    } else if a[0] != b[0] {
        a[0] < b[0]
    } else {
        text_before(a.skip(1), b.skip(1))
    }
}

/// An entry ranks above a label with its count: by the count, and where counts are equal by
/// the label.
pub open spec fn ranks_above(a: LabeledCount, label: Seq<char>, count: u64) -> bool {
    a.count > count || (a.count == count && text_before(a.label@, label))
}

/// The first entry ranks before the second.
pub open spec fn ranks_before(a: LabeledCount, b: LabeledCount) -> bool {
    ranks_above(a, b.label@, b.count)
}

proof fn lemma_text_order_irreflexive(a: Seq<char>)
    ensures
        !text_before(a, a),
    decreases a.len(),
{
    if a.len() > 0 {
        lemma_text_order_irreflexive(a.skip(1));
    }
}

proof fn lemma_text_order_total(a: Seq<char>, b: Seq<char>)
    ensures
        text_before(a, b) || text_before(b, a) || a == b,
    decreases a.len(),
{
    if a.len() > 0 && b.len() > 0 && a[0] == b[0] {
        lemma_text_order_total(a.skip(1), b.skip(1));
        if a.skip(1) == b.skip(1) {
            assert(a =~= seq![a[0]] + a.skip(1));
            assert(b =~= seq![b[0]] + b.skip(1));
        }
    } else if a.len() == 0 && b.len() == 0 {
        assert(a =~= b);
    }
}

proof fn lemma_text_order_transitive(a: Seq<char>, b: Seq<char>, c: Seq<char>)
    requires
        text_before(a, b),
        text_before(b, c),
    ensures
        text_before(a, c),
    decreases a.len(),
{
    if a.len() > 0 && a[0] == b[0] && b[0] == c[0] {
        lemma_text_order_transitive(a.skip(1), b.skip(1), c.skip(1));
    }
}

proof fn lemma_rank_transitive(a: LabeledCount, b: LabeledCount, c: LabeledCount)
    requires
        ranks_before(a, b),
        ranks_before(b, c),
    ensures
        ranks_before(a, c),
{
    if a.count == b.count && b.count == c.count {
        lemma_text_order_transitive(a.label@, b.label@, c.label@);
    }
}

fn is_text_before(a: &str, b: &str) -> (r: bool)
    ensures
        r == text_before(a@, b@),
{
    let v: Vec<char> = text::chars_of(a);
    let w: Vec<char> = text::chars_of(b);
    let mut i: usize = 0;
    assert(v@.skip(0) =~= v@);
    assert(w@.skip(0) =~= w@);
    while i < v.len() && i < w.len()
        invariant
            i <= v@.len(),
            i <= w@.len(),
            v@ == a@,
            w@ == b@,
            text_before(a@, b@) == text_before(v@.skip(i as int), w@.skip(i as int)),
        decreases v@.len() - i,
    {
        if v[i] != w[i] {
            return v[i] < w[i];
        }
        assert(v@.skip(i as int).skip(1) =~= v@.skip(i + 1));
        assert(w@.skip(i as int).skip(1) =~= w@.skip(i + 1));
        i += 1;
    }
    i < w.len()
}

fn is_ranked_before(a: &LabeledCount, b: &LabeledCount) -> (r: bool)
    ensures
        r == ranks_before(*a, *b),
{
    a.count > b.count || (a.count == b.count && is_text_before(a.label.as_str(), b.label.as_str()))
}

/// A count by label.
pub struct CountTable {
    entries: Vec<LabeledCount>,
    /// Where the entry of a label stands.
    places: StringHashMap<usize>,
}

impl View for CountTable {
    type V = Map<Seq<char>, u64>;

    closed spec fn view(&self) -> Map<Seq<char>, u64> {
        self.places@.map_values(|i: usize| self.entries@[i as int].count)
    }
}

impl CountTable {
    /// Every label has one entry.
    pub closed spec fn wf(self) -> bool {
        &&& forall|i: int|
            0 <= i < self.entries@.len() ==> self.places@.contains_key((#[trigger] self.entries@[i]).label@)
                && self.places@[self.entries@[i].label@] == i
        &&& forall|k: Seq<char>| #[trigger]
            self.places@.contains_key(k) ==> self.places@[k] < self.entries@.len()
                && self.entries@[self.places@[k] as int].label@ == k
    }

    /// Only so many labels are counted.
    pub proof fn lemma_finite(self)
        requires
            self.wf(),
        ensures
            self@.dom().finite(),
    {
        let labels = self.entries@.map_values(|e: LabeledCount| e.label@);
        assert forall|k: Seq<char>| self@.dom().contains(k) implies labels.to_set().contains(k) by {
            assert(self.places@.contains_key(k));
            let i = self.places@[k] as int;
            assert(labels[i] == k);
        }
        vstd::seq_lib::seq_to_set_is_finite(labels);
        vstd::set_lib::lemma_len_subset(self@.dom(), labels.to_set());
    }

    pub fn new() -> (t: CountTable)
        ensures
            t.wf(),
            t@ == Map::<Seq<char>, u64>::empty(),
    {
        let t = CountTable { entries: Vec::new(), places: StringHashMap::new() };
        assert(t@ =~= Map::<Seq<char>, u64>::empty());
        t
    }

    /// Counts a label once more.
    pub fn bump(&mut self, label: String)
        requires
            old(self).wf(),
            count_of(old(self)@, label@) < u64::MAX,
        ensures
            final(self).wf(),
            final(self)@ == bumped(old(self)@, label@),
    {
        let place: Option<usize> = match self.places.get(label.as_str()) {
            Some(i) => Some(*i),
            None => None,
        };
        match place {
            Some(i) => {
                let entry = LabeledCount { label, count: self.entries[i].count + 1 };
                self.entries.set(i, entry);
            },
            None => {
                let n: usize = self.entries.len();
                self.entries.push(LabeledCount { label: label.clone(), count: 1 });
                self.places.insert(label, n);
            },
        }
        assert(self@ =~= bumped(old(self)@, label@));
    }
}

/// How often a label was counted.
pub open spec fn count_of(m: Map<Seq<char>, u64>, label: Seq<char>) -> u64 {
    if m.contains_key(label) {
        m[label]
    } else {
        0
    }
}

/// The counts with a label counted once more.
pub open spec fn bumped(m: Map<Seq<char>, u64>, label: Seq<char>) -> Map<Seq<char>, u64> {
    m.insert(label, (count_of(m, label) + 1) as u64)
}

/// `top` names the `n` entries of `m` that rank first, in their rank; all of them, if there
/// are no more.
pub open spec fn is_top(top: Seq<LabeledCount>, m: Map<Seq<char>, u64>, n: nat) -> bool {
    &&& top.len() <= n
    &&& forall|i: int| 0 <= i < top.len() ==> m.contains_key((#[trigger] top[i]).label@) && m[top[i].label@]
        == top[i].count
    &&& forall|i: int, j: int| 0 <= i < j < top.len() ==> ranks_before(#[trigger] top[i], #[trigger] top[j])
    &&& forall|k: Seq<char>| #[trigger]
        m.contains_key(k) ==> names(top, k) || (top.len() == n && outranked(top, k, m[k]))
}

/// An entry of `top` has the label.
pub open spec fn names(top: Seq<LabeledCount>, label: Seq<char>) -> bool {
    exists|i: int| 0 <= i < top.len() && (#[trigger] top[i]).label@ == label
}

/// Every entry of `top` ranks above a label with its count.
pub open spec fn outranked(top: Seq<LabeledCount>, label: Seq<char>, count: u64) -> bool {
    forall|i: int| 0 <= i < top.len() ==> ranks_above(#[trigger] top[i], label, count)
}

/// The entries that rank first among `done`.
spec fn is_top_of(top: Seq<LabeledCount>, done: Seq<LabeledCount>, n: nat) -> bool {
    &&& top.len() <= n
    &&& forall|i: int| 0 <= i < top.len() ==> done.contains(#[trigger] top[i])
    &&& forall|i: int, j: int| 0 <= i < j < top.len() ==> ranks_before(#[trigger] top[i], #[trigger] top[j])
    &&& forall|k: int|
        0 <= k < done.len() ==> top.contains(#[trigger] done[k]) || (top.len() == n && outranked(
            top,
            done[k].label@,
            done[k].count,
        ))
}

spec fn distinct_labels(s: Seq<LabeledCount>) -> bool {
    forall|i: int, j: int| 0 <= i < j < s.len() ==> (#[trigger] s[i]).label@ != (#[trigger] s[j]).label@
}

fn insert_top(top: &mut Vec<LabeledCount>, e: &LabeledCount, n: usize, Ghost(done): Ghost<Seq<LabeledCount>>)
    requires
        is_top_of(old(top)@, done, n as nat),
        distinct_labels(done.push(*e)),
        n < usize::MAX,
    ensures
        is_top_of(final(top)@, done.push(*e), n as nat),
{
    let mut p: usize = top.len();
    while p > 0 && is_ranked_before(e, &top[p - 1])
        invariant
            p <= top@.len(),
            top@ == old(top)@,
            forall|i: int| p <= i < top@.len() ==> ranks_before(*e, #[trigger] top@[i]),
        decreases p,
    {
        p -= 1;
    }
    let ghost before = top@;
    let ghost all = done.push(*e);
    proof {
        assert forall|i: int| 0 <= i < p implies ranks_before(#[trigger] before[i], *e) by {
            let k = choose|k: int| 0 <= k < done.len() && done[k] == before[p - 1];
            assert(all[k].label@ != all[done.len() as int].label@);
            lemma_text_order_total(before[p - 1].label@, e.label@);
            if i < p - 1 {
                lemma_rank_transitive(before[i], before[p - 1], *e);
            }
        }
    }
    top.insert(p, LabeledCount { label: e.label.clone(), count: e.count });
    let ghost mid = top@;
    assert(mid == before.insert(p as int, *e));
    proof {
        assert forall|i: int, j: int| 0 <= i < j < mid.len() implies ranks_before(#[trigger] mid[i], #[trigger] mid[j]) by {
            let bi = if i < p { i } else { i - 1 };
            let bj = if j < p { j } else { j - 1 };
            if i != p && j != p {
                assert(mid[i] == before[bi] && mid[j] == before[bj]);
            }
        }
        assert forall|i: int| 0 <= i < mid.len() implies all.contains(#[trigger] mid[i]) by {
            if i == p {
                assert(all[done.len() as int] == *e);
            } else {
                let b = if i < p { i } else { i - 1 };
                let k = choose|k: int| 0 <= k < done.len() && done[k] == before[b];
                assert(all[k] == mid[i]);
            }
        }
        assert forall|i: int| 0 <= i < before.len() implies mid.contains(#[trigger] before[i]) by {
            let m = if i < p { i } else { i + 1 };
            assert(mid[m] == before[i]);
        }
    }
    if top.len() > n {
        top.pop();
        proof {
            let last = mid.last();
            assert(before.len() == n);
            assert(top@ =~= mid.drop_last());
            assert forall|k: int| 0 <= k < all.len() implies top@.contains(#[trigger] all[k]) || (top@.len() == n
                && outranked(top@, all[k].label@, all[k].count)) by {
                let x = all[k];
                if mid.contains(x) {
                    let i = choose|i: int| 0 <= i < mid.len() && mid[i] == x;
                    if i < n {
                        assert(top@[i] == x);
                    } else {
                        assert forall|j: int| 0 <= j < top@.len() implies ranks_before(#[trigger] top@[j], x) by {
                            assert(top@[j] == mid[j]);
                        }
                    }
                } else {
                    if k == done.len() {
                        assert(mid[p as int] == x);
                    }
                    assert(done[k] == x);
                    if before.contains(x) {
                        let i = choose|i: int| 0 <= i < before.len() && before[i] == x;
                        assert(mid.contains(before[i]));
                    }
                    assert(outranked(before, x.label@, x.count));
                    assert forall|j: int| 0 <= j < top@.len() implies ranks_before(#[trigger] top@[j], x) by {
                        assert(top@[j] == mid[j]);
                        if j == p {
                            let y = before[p as int];
                            lemma_rank_transitive(*e, y, x);
                        } else {
                            let b = if j < p { j } else { j - 1 };
                            assert(mid[j] == before[b]);
                        }
                    }
                }
            }
        }
    } else {
        proof {
            assert forall|k: int| 0 <= k < all.len() implies top@.contains(#[trigger] all[k]) by {
                if k == done.len() {
                    assert(mid[p as int] == all[k]);
                } else {
                    assert(done[k] == all[k]);
                    assert(before.contains(done[k]));
                    let i = choose|i: int| 0 <= i < before.len() && before[i] == done[k];
                    assert(mid.contains(before[i]));
                }
            }
        }
    }
}

/// The entries that rank first.
pub fn top_n(table: &CountTable) -> (out: Vec<LabeledCount>)
    requires
        table.wf(),
    ensures
        is_top(out@, table@, TOP_N as nat),
        table@.dom().finite(),
        out@.len() == if table@.dom().len() < TOP_N {
            table@.dom().len()
        } else {
            TOP_N as nat
        },
{
    let mut out: Vec<LabeledCount> = Vec::new();
    let ghost all = table.entries@;
    let mut i: usize = 0;
    assert(all.take(0) =~= Seq::<LabeledCount>::empty());
    while i < table.entries.len()
        invariant
            i <= all.len(),
            all == table.entries@,
            table.wf(),
            is_top_of(out@, all.take(i as int), TOP_N as nat),
        decreases all.len() - i,
    {
        proof {
            let more = all.take(i + 1);
            assert(more =~= all.take(i as int).push(all[i as int]));
            assert forall|a: int, b: int| 0 <= a < b < more.len() implies (#[trigger] more[a]).label@ != (#[trigger] more[b]).label@ by {
                assert(more[a] == all[a] && more[b] == all[b]);
            }
        }
        insert_top(&mut out, &table.entries[i], TOP_N, Ghost(all.take(i as int)));
        i += 1;
    }
    proof {
        assert(all.take(all.len() as int) =~= all);
        assert forall|k: int| 0 <= k < out@.len() implies table@.contains_key((#[trigger] out@[k]).label@)
            && table@[out@[k].label@] == out@[k].count by {
            let j = choose|j: int| 0 <= j < all.len() && all[j] == out@[k];
            assert(table.places@[all[j].label@] == j);
        }
        assert forall|k: Seq<char>| #[trigger] table@.contains_key(k) implies names(out@, k) || (out@.len() == TOP_N
            && outranked(out@, k, table@[k])) by {
            let x = all[table.places@[k] as int];
            assert(x.label@ == k && x.count == table@[k]);
            if out@.contains(x) {
                let i = choose|i: int| 0 <= i < out@.len() && out@[i] == x;
                assert(out@[i].label@ == k);
            } else {
                assert(outranked(out@, x.label@, x.count));
            }
        }
        table.lemma_finite();
        lemma_top_length(out@, table@, TOP_N as nat);
    }
    out
}

/// The label of a flow's process: its executable, or its command name where that is not
/// known.
pub open spec fn process_label(ev: EnrichedEvent) -> Seq<char> {
    match ev.exe_path {
        Some(p) => if p@.len() > 0 {
            p@
        } else {
            ev.comm@
        },
        None => ev.comm@,
    }
}

/// The label of a flow's destination: its host name, or the bare address where that is not
/// known.
pub open spec fn host_label(ev: EnrichedEvent) -> Seq<char> {
    if ev.hostname is Some && ev.hostname->0@.len() > 0 {
        ev.hostname->0@
    } else if ev.family == 4 {
        addr::ipv4_text(addr::v4_octets(ev.daddr_v4))
    } else {
        addr::ipv6_text(ev.daddr_v6@)
    }
}

/// The label of a flow's destination.
pub fn host_or_ip(ev: &EnrichedEvent) -> (r: String)
    ensures
        r@ == host_label(*ev),
{
    if let Some(h) = &ev.hostname {
        if !h.as_str().is_empty() {
            return h.clone();
        }
    }
    if ev.family == 4 {
        addr::ipv4_string(ev.daddr_v4)
    } else {
        addr::ipv6_string(&ev.daddr_v6)
    }
}

fn process_of(ev: &EnrichedEvent) -> (r: String)
    ensures
        r@ == process_label(*ev),
{
    if let Some(p) = &ev.exe_path {
        if !p.as_str().is_empty() {
            return p.clone();
        }
    }
    ev.comm.clone()
}

/// What is counted.
pub struct Counts {
    pub events: nat,
    pub allowed: nat,
    pub denied: nat,
    pub per_process: Map<Seq<char>, u64>,
    pub per_host: Map<Seq<char>, u64>,
    /// Per second, the current one last.
    pub activity: Seq<u64>,
}

/// The counters of a session.
pub struct Accumulator {
    total_events: u64,
    total_allowed: u64,
    total_denied: u64,
    per_process: CountTable,
    per_host: CountTable,
    activity: VecDeque<u64>,
}

impl View for Accumulator {
    type V = Counts;

    closed spec fn view(&self) -> Counts {
        Counts {
            events: self.total_events as nat,
            allowed: self.total_allowed as nat,
            denied: self.total_denied as nat,
            per_process: self.per_process@,
            per_host: self.per_host@,
            activity: self.activity@,
        }
    }
}

/// The sum of the counts of all labels.
pub open spec fn total(m: Map<Seq<char>, u64>) -> nat
    decreases m.dom().len(),
    when m.dom().finite()
{
    if m.dom().len() == 0 {
        0
    } else {
        let k = m.dom().choose();
        m[k] as nat + total(m.remove(k))
    }
}

/// The sum of numbers.
pub open spec fn sum(s: Seq<u64>) -> nat
    decreases s.len(),
{
    if s.len() == 0 {
        0
    } else {
        sum(s.drop_last()) + s.last() as nat
    }
}

/// What holds of the counts at any time: every event was allowed or denied, was counted for
/// one process and for one host, and for at most one of the seconds that are kept.
pub open spec fn is_consistent(c: Counts) -> bool {
    &&& c.events == c.allowed + c.denied
    &&& c.per_process.dom().finite()
    &&& total(c.per_process) == c.events
    &&& c.per_host.dom().finite()
    &&& total(c.per_host) == c.events
    &&& c.activity.len() == ACTIVITY_BUCKETS
    &&& sum(c.activity) <= c.events
}

proof fn lemma_total_remove(m: Map<Seq<char>, u64>, k: Seq<char>)
    requires
        m.dom().finite(),
        m.contains_key(k),
    ensures
        total(m) == m[k] + total(m.remove(k)),
    decreases m.dom().len(),
{
    let c = m.dom().choose();
    assert(m.dom().contains(k));
    assert(m.dom().len() > 0);
    if c != k {
        lemma_total_remove(m.remove(c), k);
        lemma_total_remove(m.remove(k), c);
        assert(m.remove(c).remove(k) =~= m.remove(k).remove(c));
    }
}

proof fn lemma_total_bumped(m: Map<Seq<char>, u64>, label: Seq<char>)
    requires
        m.dom().finite(),
        count_of(m, label) < u64::MAX,
    ensures
        bumped(m, label).dom().finite(),
        total(bumped(m, label)) == total(m) + 1,
{
    let b = bumped(m, label);
    assert(b.dom() =~= m.dom().insert(label));
    lemma_total_remove(b, label);
    if m.contains_key(label) {
        lemma_total_remove(m, label);
        assert(b.remove(label) =~= m.remove(label));
    } else {
        assert(b.remove(label) =~= m);
    }
}

proof fn lemma_count_within_total(m: Map<Seq<char>, u64>, label: Seq<char>)
    requires
        m.dom().finite(),
    ensures
        count_of(m, label) <= total(m),
{
    if m.contains_key(label) {
        lemma_total_remove(m, label);
    }
}

proof fn lemma_sum_skip(s: Seq<u64>)
    requires
        s.len() > 0,
    ensures
        sum(s) == s[0] + sum(s.skip(1)),
    decreases s.len(),
{
    if s.len() == 1 {
        assert(s.drop_last() =~= Seq::<u64>::empty());
        assert(s.skip(1) =~= Seq::<u64>::empty());
    } else {
        lemma_sum_skip(s.drop_last());
        assert(s.drop_last().skip(1) =~= s.skip(1).drop_last());
    }
}

proof fn lemma_sum_zeros(n: nat)
    ensures
        sum(Seq::new(n, |i: int| 0u64)) == 0,
    decreases n,
{
    if n > 0 {
        lemma_sum_zeros((n - 1) as nat);
        assert(Seq::new(n, |i: int| 0u64).drop_last() =~= Seq::new((n - 1) as nat, |i: int| 0u64));
    }
}

/// The counts of a session that has seen nothing.
pub open spec fn no_counts() -> Counts {
    Counts {
        events: 0,
        allowed: 0,
        denied: 0,
        per_process: Map::empty(),
        per_host: Map::empty(),
        activity: Seq::new(ACTIVITY_BUCKETS as nat, |i: int| 0u64),
    }
}

/// The counts with one more event.
pub open spec fn after_event(c: Counts, ev: EnrichedEvent) -> Counts {
    Counts {
        events: c.events + 1,
        allowed: if ev.verdict == Verdict::Allow {
            c.allowed + 1
        } else {
            c.allowed
        },
        denied: if ev.verdict == Verdict::Deny {
            c.denied + 1
        } else {
            c.denied
        },
        per_process: bumped(c.per_process, process_label(ev)),
        per_host: bumped(c.per_host, host_label(ev)),
        activity: c.activity.drop_last().push((c.activity.last() + 1) as u64),
    }
}

/// The counts a second later: the oldest second is gone, and a new one begins.
pub open spec fn after_tick(c: Counts) -> Counts {
    Counts { activity: c.activity.skip(1).push(0), ..c }
}

/// `s` shows the counts `c`.
pub open spec fn shows_counts(s: Stats, c: Counts) -> bool {
    &&& s.total_events == c.events
    &&& s.total_allowed == c.allowed
    &&& s.total_denied == c.denied
    &&& is_top(s.top_processes@, c.per_process, TOP_N as nat)
    &&& is_top(s.top_hosts@, c.per_host, TOP_N as nat)
    &&& s.activity@ == c.activity
}

/// Counting an event keeps the counts consistent.
pub proof fn lemma_event_keeps_consistency(c: Counts, ev: EnrichedEvent)
    requires
        is_consistent(c),
        c.events < u64::MAX,
    ensures
        is_consistent(after_event(c, ev)),
{
    lemma_count_within_total(c.per_process, process_label(ev));
    lemma_count_within_total(c.per_host, host_label(ev));
    lemma_total_bumped(c.per_process, process_label(ev));
    lemma_total_bumped(c.per_host, host_label(ev));
    let grown = after_event(c, ev).activity;
    assert(grown.drop_last() =~= c.activity.drop_last());
    assert(sum(c.activity) == sum(c.activity.drop_last()) + c.activity.last());
}

/// A tick keeps the counts consistent.
pub proof fn lemma_tick_keeps_consistency(c: Counts)
    requires
        is_consistent(c),
    ensures
        is_consistent(after_tick(c)),
{
    lemma_sum_skip(c.activity);
    assert(after_tick(c).activity.drop_last() =~= c.activity.skip(1));
}

/// A session that has seen nothing has consistent counts.
pub proof fn lemma_no_counts_are_consistent()
    ensures
        is_consistent(no_counts()),
{
    lemma_sum_zeros(ACTIVITY_BUCKETS as nat);
}

/// An event that was counted is gone from the activity after as many seconds as it spans,
/// and not before: until then it slides one place a second.
pub proof fn lemma_activity_slides(c: Counts, i: int)
    requires
        is_consistent(c),
        0 < i < ACTIVITY_BUCKETS,
    ensures
        after_tick(c).activity[i - 1] == c.activity[i],
        after_tick(c).activity.last() == 0,
        after_tick(c).activity.len() == ACTIVITY_BUCKETS,
{
}

/// The busiest entry of a list of the busiest is busier than or as busy as any label that was
/// counted.
pub proof fn lemma_first_is_busiest(top: Seq<LabeledCount>, m: Map<Seq<char>, u64>, n: nat, label: Seq<char>)
    requires
        is_top(top, m, n),
        n > 0,
        m.contains_key(label),
    ensures
        top.len() > 0,
        top[0].count >= m[label],
{
    if names(top, label) {
        let i = choose|i: int| 0 <= i < top.len() && (#[trigger] top[i]).label@ == label;
        assert(m[top[i].label@] == top[i].count);
        if i > 0 {
            assert(ranks_before(top[0], top[i]));
        }
    } else {
        assert(outranked(top, label, m[label]));
        assert(ranks_above(top[0], label, m[label]));
    }
}

/// The sum of the counts of entries.
pub open spec fn counts_sum(s: Seq<LabeledCount>) -> nat
    decreases s.len(),
{
    if s.len() == 0 {
        0
    } else {
        counts_sum(s.drop_last()) + s.last().count as nat
    }
}

/// The counts that entries name are a part of all counts; the rest is what is left of the
/// labels.
proof fn lemma_part_of_total(s: Seq<LabeledCount>, m: Map<Seq<char>, u64>) -> (rest: Map<Seq<char>, u64>)
    requires
        m.dom().finite(),
        distinct_labels(s),
        forall|i: int| 0 <= i < s.len() ==> m.contains_key((#[trigger] s[i]).label@) && m[s[i].label@] == s[i].count,
    ensures
        rest.dom().finite(),
        total(m) == counts_sum(s) + total(rest),
        rest.dom().len() + s.len() == m.dom().len(),
        forall|k: Seq<char>| #[trigger] rest.contains_key(k) ==> m.contains_key(k) && !names(s, k),
    decreases s.len(),
{
    if s.len() == 0 {
        m
    } else {
        let e = s.last();
        let shorter = s.drop_last();
        let smaller = m.remove(e.label@);
        assert forall|i: int| 0 <= i < shorter.len() implies smaller.contains_key((#[trigger] shorter[i]).label@)
            && smaller[shorter[i].label@] == shorter[i].count by {
            assert(shorter[i] == s[i]);
            assert(s[i].label@ != s[s.len() - 1].label@);
        }
        lemma_total_remove(m, e.label@);
        assert(m.dom().contains(e.label@));
        let rest = lemma_part_of_total(shorter, smaller);
        assert forall|k: Seq<char>| #[trigger] rest.contains_key(k) implies m.contains_key(k) && !names(s, k) by {
            assert(smaller.contains_key(k));
            if names(s, k) {
                let i = choose|i: int| 0 <= i < s.len() && (#[trigger] s[i]).label@ == k;
                if i < shorter.len() {
                    assert(shorter[i].label@ == k);
                }
            }
        }
        rest
    }
}

/// A list of the busiest names every label, or as many as it has room for.
pub proof fn lemma_top_length(top: Seq<LabeledCount>, m: Map<Seq<char>, u64>, n: nat)
    requires
        is_top(top, m, n),
        m.dom().finite(),
    ensures
        top.len() == if m.dom().len() < n {
            m.dom().len()
        } else {
            n
        },
{
    lemma_top_labels_differ(top, m, n);
    let rest = lemma_part_of_total(top, m);
    if top.len() < n {
        assert forall|k: Seq<char>| !rest.dom().contains(k) by {
            if rest.contains_key(k) {
                assert(m.contains_key(k));
            }
        }
        assert(rest.dom() =~= Set::empty());
    }
}

proof fn lemma_top_labels_differ(top: Seq<LabeledCount>, m: Map<Seq<char>, u64>, n: nat)
    requires
        is_top(top, m, n),
    ensures
        distinct_labels(top),
{
    assert forall|i: int, j: int| 0 <= i < j < top.len() implies (#[trigger] top[i]).label@ != (#[trigger] top[j]).label@ by {
        assert(ranks_before(top[i], top[j]));
        lemma_text_order_irreflexive(top[i].label@);
    }
}

/// The counts of the busiest add up to no more than all counts, and to all of them where
/// there are no more labels than the list has room for.
pub proof fn lemma_top_within_total(top: Seq<LabeledCount>, m: Map<Seq<char>, u64>, n: nat)
    requires
        is_top(top, m, n),
        m.dom().finite(),
    ensures
        counts_sum(top) <= total(m),
        m.dom().len() <= n ==> counts_sum(top) == total(m),
{
    lemma_top_labels_differ(top, m, n);
    lemma_top_length(top, m, n);
    let rest = lemma_part_of_total(top, m);
}

/// What a session goes through.
pub enum Step {
    Record(EnrichedEvent),
    Tick,
}

/// The counts of a session that went through these steps.
pub open spec fn counts_after(steps: Seq<Step>) -> Counts
    decreases steps.len(),
{
    if steps.len() == 0 {
        no_counts()
    } else {
        let before = counts_after(steps.drop_last());
        match steps.last() {
            Step::Record(ev) => after_event(before, ev),
            Step::Tick => after_tick(before),
        }
    }
}

/// How many of the steps are ticks.
pub open spec fn ticks(steps: Seq<Step>) -> nat
    decreases steps.len(),
{
    if steps.len() == 0 {
        0
    } else {
        ticks(steps.drop_last()) + if steps.last() is Tick {
            1nat
        } else {
            0nat
        }
    }
}

/// Whatever a session goes through, its counts are consistent, and it has counted as many
/// events as it was given. While fewer seconds have passed than are kept, the activity holds
/// every one of them.
pub proof fn lemma_session_counts(steps: Seq<Step>)
    requires
        steps.len() <= u64::MAX,
    ensures
        is_consistent(counts_after(steps)),
        counts_after(steps).events + ticks(steps) == steps.len(),
        ticks(steps) < ACTIVITY_BUCKETS ==> sum(counts_after(steps).activity) == counts_after(steps).events,
        forall|i: int|
            0 <= i < ACTIVITY_BUCKETS - 1 - ticks(steps) ==> #[trigger] counts_after(steps).activity[i] == 0,
    decreases steps.len(),
{
    if steps.len() == 0 {
        lemma_no_counts_are_consistent();
    } else {
        let earlier = steps.drop_last();
        lemma_session_counts(earlier);
        let before = counts_after(earlier);
        let after = counts_after(steps);
        match steps.last() {
            Step::Record(ev) => {
                lemma_event_keeps_consistency(before, ev);
                assert(after.activity.drop_last() =~= before.activity.drop_last());
            },
            Step::Tick => {
                lemma_tick_keeps_consistency(before);
                lemma_sum_skip(before.activity);
                assert(after.activity.drop_last() =~= before.activity.skip(1));
                assert(ticks(steps) < ACTIVITY_BUCKETS ==> before.activity[0] == 0);
                assert forall|i: int| 0 <= i < ACTIVITY_BUCKETS - 1 - ticks(steps) implies #[trigger] after.activity[i]
                    == 0 by {
                    assert(before.activity[i + 1] == 0);
                }
            },
        }
    }
}

/// The numbers of a snapshot add up: events are allowed or denied, neither list of the busiest
/// names more events than there were, and it names all of them where it names every label;
/// the activity spans the seconds that are kept and holds no more events than there were.
pub proof fn lemma_snapshot_adds_up(s: Stats, c: Counts)
    requires
        shows_counts(s, c),
        is_consistent(c),
    ensures
        s.total_events == s.total_allowed + s.total_denied,
        counts_sum(s.top_processes@) <= s.total_events,
        c.per_process.dom().len() <= TOP_N ==> counts_sum(s.top_processes@) == s.total_events,
        counts_sum(s.top_hosts@) <= s.total_events,
        c.per_host.dom().len() <= TOP_N ==> counts_sum(s.top_hosts@) == s.total_events,
        s.activity@.len() == ACTIVITY_BUCKETS,
        sum(s.activity@) <= s.total_events,
{
    lemma_top_within_total(s.top_processes@, c.per_process, TOP_N as nat);
    lemma_top_within_total(s.top_hosts@, c.per_host, TOP_N as nat);
}

/// A snapshot of a session counts every event that it was given, and while fewer seconds have
/// passed than are kept, its activity adds up to them.
pub proof fn lemma_snapshot_of_a_session(s: Stats, steps: Seq<Step>)
    requires
        steps.len() <= u64::MAX,
        shows_counts(s, counts_after(steps)),
    ensures
        s.total_events + ticks(steps) == steps.len(),
        s.total_events == s.total_allowed + s.total_denied,
        s.activity@.len() == ACTIVITY_BUCKETS,
        sum(s.activity@) <= s.total_events,
        ticks(steps) < ACTIVITY_BUCKETS ==> sum(s.activity@) == s.total_events,
{
    lemma_session_counts(steps);
}

impl Default for Accumulator {
    fn default() -> (a: Self)
        ensures
            a.wf(),
            a@ == no_counts(),
    {
        Accumulator::new()
    }
}

impl Accumulator {
    pub closed spec fn wf(self) -> bool {
        self.per_process.wf() && self.per_host.wf() && is_consistent(self@)
    }

    pub proof fn lemma_wf(self)
        requires
            self.wf(),
        ensures
            is_consistent(self@),
            self@.events <= u64::MAX,
    {
    }

    pub fn new() -> (a: Accumulator)
        ensures
            a.wf(),
            a@ == no_counts(),
    {
        broadcast use vstd::std_specs::vecdeque::group_vec_dequeue_axioms;

        let mut activity: VecDeque<u64> = VecDeque::with_capacity(ACTIVITY_BUCKETS);
        activity.resize(ACTIVITY_BUCKETS, 0);
        let a = Accumulator {
            total_events: 0,
            total_allowed: 0,
            total_denied: 0,
            per_process: CountTable::new(),
            per_host: CountTable::new(),
            activity,
        };
        proof {
            assert(a.activity@ =~= no_counts().activity);
            lemma_no_counts_are_consistent();
        }
        a
    }

    /// Counts an event.
    pub fn record(&mut self, ev: &EnrichedEvent)
        requires
            old(self).wf(),
            old(self)@.events < u64::MAX,
        ensures
            final(self).wf(),
            final(self)@ == after_event(old(self)@, *ev),
    {
        proof {
            let c = self@;
            lemma_event_keeps_consistency(c, *ev);
            lemma_count_within_total(c.per_process, process_label(*ev));
            lemma_count_within_total(c.per_host, host_label(*ev));
            assert(c.activity.last() <= sum(c.activity));
        }
        self.total_events += 1;
        match ev.verdict {
            Verdict::Allow => {
                self.total_allowed += 1;
            },
            Verdict::Deny => {
                self.total_denied += 1;
            },
        }
        self.per_process.bump(process_of(ev));
        self.per_host.bump(host_or_ip(ev));
        let ghost before = self.activity@;
        if let Some(last) = self.activity.pop_back() {
            self.activity.push_back(last + 1);
        }
        assert(self.activity@ =~= before.drop_last().push((before.last() + 1) as u64));
    }

    /// Begins a new second.
    pub fn tick(&mut self)
        requires
            old(self).wf(),
        ensures
            final(self).wf(),
            final(self)@ == after_tick(old(self)@),
    {
        broadcast use vstd::std_specs::vecdeque::group_vec_dequeue_axioms;

        proof {
            lemma_tick_keeps_consistency(self@);
        }
        self.activity.push_back(0);
        if self.activity.len() > ACTIVITY_BUCKETS {
            self.activity.pop_front();
        }
        assert(self.activity@ =~= old(self)@.activity.skip(1).push(0));
    }

    /// The counts as a client is told of them.
    pub fn snapshot(&self) -> (s: Stats)
        requires
            self.wf(),
        ensures
            shows_counts(s, self@),
    {
        broadcast use vstd::std_specs::vecdeque::group_vec_dequeue_axioms;

        let mut activity: Vec<u64> = Vec::new();
        let mut i: usize = 0;
        while i < self.activity.len()
            invariant
                i <= self.activity@.len(),
                activity@ == self.activity@.take(i as int),
            decreases self.activity@.len() - i,
        {
            activity.push(self.activity[i]);
            assert(activity@ =~= self.activity@.take(i + 1));
            i += 1;
        }
        assert(self.activity@.take(i as int) =~= self.activity@);
        Stats {
            total_events: self.total_events,
            total_allowed: self.total_allowed,
            total_denied: self.total_denied,
            top_processes: top_n(&self.per_process),
            top_hosts: top_n(&self.per_host),
            activity,
        }
    }
}

/// A flow counts for its executable, or for its command where the executable is not known.
pub proof fn lemma_process_label(ev: EnrichedEvent)
    ensures
        ev.exe_path matches Some(p) && p@.len() > 0 ==> process_label(ev) == ev.exe_path->0@,
        ev.exe_path is None ==> process_label(ev) == ev.comm@,
        ev.exe_path matches Some(p) && p@.len() == 0 ==> process_label(ev) == ev.comm@,
{
}

/// A flow counts for its host, or for its address where the host is not known.
pub proof fn lemma_host_label(ev: EnrichedEvent)
    ensures
        ev.hostname matches Some(h) && h@.len() > 0 ==> host_label(ev) == ev.hostname->0@,
        !(ev.hostname matches Some(h) && h@.len() > 0) && ev.family == 4 ==> host_label(ev) == addr::ipv4_text(
            addr::v4_octets(ev.daddr_v4),
        ),
        !(ev.hostname matches Some(h) && h@.len() > 0) && ev.family != 4 ==> host_label(ev) == addr::ipv6_text(
            ev.daddr_v6@,
        ),
{
}

/// An event is counted once: in the total, as allowed or as denied, for its process, for its
/// host and in the current second. Nothing else changes.
pub proof fn lemma_an_event_is_counted_once(c: Counts, ev: EnrichedEvent, label: Seq<char>, i: int)
    requires
        is_consistent(c),
        c.events < u64::MAX,
    ensures
        ({
            let d = after_event(c, ev);
            &&& d.events == c.events + 1
            &&& ev.verdict == Verdict::Allow ==> d.allowed == c.allowed + 1 && d.denied == c.denied
            &&& ev.verdict == Verdict::Deny ==> d.denied == c.denied + 1 && d.allowed == c.allowed
            &&& count_of(d.per_process, process_label(ev)) == count_of(c.per_process, process_label(ev)) + 1
            &&& label != process_label(ev) ==> count_of(d.per_process, label) == count_of(c.per_process, label)
            &&& count_of(d.per_host, host_label(ev)) == count_of(c.per_host, host_label(ev)) + 1
            &&& label != host_label(ev) ==> count_of(d.per_host, label) == count_of(c.per_host, label)
            &&& d.activity.len() == 120
            &&& d.activity[119] == c.activity[119] + 1
            &&& 0 <= i < 119 ==> d.activity[i] == c.activity[i]
        }),
{
    lemma_count_within_total(c.per_process, process_label(ev));
    lemma_count_within_total(c.per_host, host_label(ev));
    assert(c.activity.last() <= sum(c.activity));
}

/// A label that was never counted has the count zero, and one that was has its own.
pub proof fn lemma_count_of(m: Map<Seq<char>, u64>, label: Seq<char>, n: u64)
    ensures
        count_of(Map::empty(), label) == 0,
        count_of(m.insert(label, n), label) == n,
{
}

/// A second that passes drops the oldest of the seconds that are kept, begins a new one, and
/// changes no count.
pub proof fn lemma_a_tick_begins_a_second(c: Counts, i: int)
    requires
        is_consistent(c),
    ensures
        ({
            let d = after_tick(c);
            &&& d.activity.len() == 120
            &&& d.activity[119] == 0
            &&& 0 <= i < 119 ==> d.activity[i] == c.activity[i + 1]
            &&& d.events == c.events && d.allowed == c.allowed && d.denied == c.denied
            &&& d.per_process == c.per_process && d.per_host == c.per_host
        }),
{
}

/// A session begins with nothing counted.
pub proof fn lemma_nothing_is_counted_at_first(i: int)
    ensures
        no_counts().events == 0,
        no_counts().allowed == 0,
        no_counts().denied == 0,
        no_counts().activity.len() == 120,
        0 <= i < 120 ==> no_counts().activity[i] == 0,
        no_counts().per_process.dom().len() == 0,
        no_counts().per_host.dom().len() == 0,
{
}

/// Texts are in order by the first character in which they differ; a text comes before every
/// longer one that begins with it.
pub proof fn lemma_text_order(common: Seq<char>, a: Seq<char>, b: Seq<char>)
    ensures
        a.len() > 0 && b.len() > 0 && a[0] < b[0] ==> text_before(common + a, common + b) && !text_before(
            common + b,
            common + a,
        ),
        b.len() > 0 ==> text_before(common, common + b),
    decreases common.len(),
{
    if common.len() > 0 {
        let rest = common.skip(1);
        lemma_text_order(rest, a, b);
        assert((common + a).skip(1) =~= rest + a);
        assert((common + b).skip(1) =~= rest + b);
        assert((common + a)[0] == common[0] && (common + b)[0] == common[0]);
    } else {
        assert(common + a =~= a);
        assert(common + b =~= b);
    }
}

/// In a list of the busiest every entry has its own count, the counts do not grow, entries
/// with the same count are in the order of their labels, and no label that is left out was
/// counted more often than the last.
pub proof fn lemma_top_is_ranked(
    top: Seq<LabeledCount>,
    m: Map<Seq<char>, u64>,
    n: nat,
    i: int,
    j: int,
    label: Seq<char>,
)
    requires
        is_top(top, m, n),
        0 <= i < top.len(),
    ensures
        m.contains_key(top[i].label@) && m[top[i].label@] == top[i].count,
        i < j < top.len() ==> top[i].count >= top[j].count,
        i < j < top.len() && top[i].count == top[j].count ==> text_before(top[i].label@, top[j].label@),
        m.contains_key(label) && (forall|k: int| 0 <= k < top.len() ==> (#[trigger] top[k]).label@ != label)
            ==> m[label] <= top[i].count,
{
    if i < j < top.len() {
        assert(ranks_before(top[i], top[j]));
    }
    if m.contains_key(label) && !names(top, label) {
        assert(outranked(top, label, m[label]));
        assert(ranks_above(top[i], label, m[label]));
    }
}

/// A snapshot shows the counts as they are.
pub proof fn lemma_snapshot_shows_the_counts(s: Stats, c: Counts)
    requires
        shows_counts(s, c),
    ensures
        s.total_events == c.events,
        s.total_allowed == c.allowed,
        s.total_denied == c.denied,
        s.activity@ == c.activity,
        is_top(s.top_processes@, c.per_process, 10),
        is_top(s.top_hosts@, c.per_host, 10),
{
}

} // verus!
