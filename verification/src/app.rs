//! The state of the terminal client, and what keys do to it.

use std::collections::VecDeque;
use vstd::prelude::*;
use vstd::string::*;

use crate::addr;
use crate::proto::{ClientMessage, DenyRuleKind, EnrichedEvent, RuleInfo, Stats, Verdict};
use crate::term::TableState;
use crate::text;
use crate::views;

verus! {

broadcast use vstd::std_specs::vecdeque::group_vec_dequeue_axioms;

pub const MAX_EVENTS: usize = 10_000;

/// A row of the live table: the latest of the flows that look alike, how many there were,
/// and when the latest was.
#[derive(Debug)]
pub struct Aggregate {
    pub event: EnrichedEvent,
    pub count: u32,
    pub last_ts: u64,
}

/// The flow that the deny dialog is about, as it was when the dialog opened.
#[derive(Debug, Clone)]
pub struct ModalState {
    pub event: EnrichedEvent,
}

/// What rows are told apart by.
#[derive(Default, PartialEq, Eq, Clone, Debug)]
pub struct AggKey {
    pub pid: u32,
    pub comm: String,
    pub exe: String,
    pub host_or_ip: String,
    pub port: u16,
}

/// What rows are told apart by: process, command, executable, destination and port. An
/// executable that is not known counts as the empty text, and a destination without a host
/// name goes by its address.
pub struct RowKey {
    pub pid: u32,
    pub comm: Seq<char>,
    pub exe: Seq<char>,
    pub host_or_ip: Seq<char>,
    pub port: u16,
}

/// The bare address of a flow's destination.
pub open spec fn ip_text(ev: EnrichedEvent) -> Seq<char> {
    if ev.family == 4 {
        addr::ipv4_text(addr::v4_octets(ev.daddr_v4))
    } else {
        addr::ipv6_text(ev.daddr_v6@)
    }
}

/// The address of a flow's destination as it is shown: an IPv6 address stands in brackets.
pub open spec fn shown_addr(ev: EnrichedEvent) -> Seq<char> {
    if ev.family == 4 {
        ip_text(ev)
    } else {
        "["@ + ip_text(ev) + "]"@
    }
}

/// What tells the row of a flow apart.
pub open spec fn row_key(ev: EnrichedEvent) -> RowKey {
    RowKey {
        pid: ev.pid,
        comm: ev.comm@,
        exe: match ev.exe_path {
            Some(p) => p@,
            None => Seq::empty(),
        },
        host_or_ip: match ev.hostname {
            Some(h) => h@,
            None => shown_addr(ev),
        },
        port: ev.dport,
    }
}

/// The bare address of a flow's destination, as rules compare it.
pub fn ip_string(ev: &EnrichedEvent) -> (r: String)
    ensures
        r@ == ip_text(*ev),
{
    if ev.family == 4 {
        addr::ipv4_string(ev.daddr_v4)
    } else {
        addr::ipv6_string(&ev.daddr_v6)
    }
}

/// The address of a flow's destination as it is shown.
pub fn format_addr(ev: &EnrichedEvent) -> (r: String)
    ensures
        r@ == shown_addr(*ev),
{
    if ev.family == 4 {
        return ip_string(ev);
    }
    let mut out = String::new();
    out.append("[");
    out.append(ip_string(ev).as_str());
    out.append("]");
    assert(out@ =~= shown_addr(*ev));
    out
}

impl AggKey {
    pub open spec fn view(self) -> RowKey {
        RowKey {
            pid: self.pid,
            comm: self.comm@,
            exe: self.exe@,
            host_or_ip: self.host_or_ip@,
            port: self.port,
        }
    }

    /// What tells the row of a flow apart.
    pub fn of(ev: &EnrichedEvent) -> (k: AggKey)
        ensures
            k@ == row_key(*ev),
    {
        let exe: String = match &ev.exe_path {
            Some(p) => p.clone(),
            None => String::new(),
        };
        let host_or_ip: String = match &ev.hostname {
            Some(h) => h.clone(),
            None => format_addr(ev),
        };
        let k = AggKey { pid: ev.pid, comm: ev.comm.clone(), exe, host_or_ip, port: ev.dport };
        assert(ev.exe_path is None ==> k.exe@ =~= Seq::<char>::empty());
        k
    }

    fn same(&self, other: &AggKey) -> (r: bool)
        ensures
            r == (self@ == other@),
    {
        self.pid == other.pid && self.port == other.port && text::str_eq(self.comm.as_str(), other.comm.as_str())
            && text::str_eq(self.exe.as_str(), other.exe.as_str()) && text::str_eq(
            self.host_or_ip.as_str(),
            other.host_or_ip.as_str(),
        )
    }
}

/// Where the first row with a key stands.
pub open spec fn place_of(rows: Seq<Aggregate>, key: RowKey) -> Option<int>
    decreases rows.len(),
{
    if rows.len() == 0 {
        None
    } else if row_key(rows[0].event) == key {
        Some(0)
    } else {
        match place_of(rows.skip(1), key) {
            Some(i) => Some(i + 1),
            None => None,
        }
    }
}

/// The rows after one more flow: it is counted in the row of its key, or gets a row of its
/// own at the end, for which the oldest row makes way when the table is full.
pub open spec fn pushed(rows: Seq<Aggregate>, ev: EnrichedEvent) -> Seq<Aggregate> {
    match place_of(rows, row_key(ev)) {
        Some(i) => rows.update(
            i,
            Aggregate { event: ev, count: (rows[i].count + 1) as u32, last_ts: ev.ts_unix_ns },
        ),
        None => (if rows.len() == MAX_EVENTS {
            rows.skip(1)
        } else {
            rows
        }).push(Aggregate { event: ev, count: 1, last_ts: ev.ts_unix_ns }),
    }
}

/// The row of a flow, if there is one, can be counted once more.
pub open spec fn has_room(rows: Seq<Aggregate>, ev: EnrichedEvent) -> bool {
    place_of(rows, row_key(ev)) matches Some(i) ==> rows[i].count < u32::MAX
}

proof fn lemma_place(rows: Seq<Aggregate>, key: RowKey)
    ensures
        match place_of(rows, key) {
            Some(i) => 0 <= i < rows.len() && row_key(rows[i].event) == key && forall|j: int|
                0 <= j < i ==> row_key((#[trigger] rows[j]).event) != key,
            None => forall|j: int| 0 <= j < rows.len() ==> row_key((#[trigger] rows[j]).event) != key,
        },
    decreases rows.len(),
{
    if rows.len() > 0 && row_key(rows[0].event) != key {
        let rest = rows.skip(1);
        lemma_place(rest, key);
        match place_of(rest, key) {
            Some(i) => {
                assert forall|j: int| 0 <= j < i + 1 implies row_key((#[trigger] rows[j]).event) != key by {
                    if j > 0 {
                        assert(rest[j - 1] == rows[j]);
                    }
                }
            },
            None => {
                assert forall|j: int| 0 <= j < rows.len() implies row_key((#[trigger] rows[j]).event) != key by {
                    if j > 0 {
                        assert(rest[j - 1] == rows[j]);
                    }
                }
            },
        }
    }
}

/// The table is not over full, and no two rows have the same key.
pub open spec fn is_table(rows: Seq<Aggregate>) -> bool {
    &&& rows.len() <= MAX_EVENTS
    &&& forall|i: int, j: int|
        0 <= i < j < rows.len() ==> row_key((#[trigger] rows[i]).event) != row_key((#[trigger] rows[j]).event)
}

/// Pushing a flow keeps the table's bound and its keys apart.
pub proof fn lemma_push_keeps_table(rows: Seq<Aggregate>, ev: EnrichedEvent)
    requires
        is_table(rows),
    ensures
        is_table(pushed(rows, ev)),
{
    lemma_place(rows, row_key(ev));
    let after = pushed(rows, ev);
    match place_of(rows, row_key(ev)) {
        Some(p) => {
            assert forall|i: int, j: int| 0 <= i < j < after.len() implies row_key((#[trigger] after[i]).event)
                != row_key((#[trigger] after[j]).event) by {
                assert(row_key(after[i].event) == row_key(rows[i].event));
                assert(row_key(after[j].event) == row_key(rows[j].event));
            }
        },
        None => {
            let d: int = if rows.len() == MAX_EVENTS {
                1
            } else {
                0
            };
            assert forall|i: int, j: int| 0 <= i < j < after.len() implies row_key((#[trigger] after[i]).event)
                != row_key((#[trigger] after[j]).event) by {
                assert(after[i] == rows[i + d]);
                if j < after.len() - 1 {
                    assert(after[j] == rows[j + d]);
                }
            }
        },
    }
}

/// A flow that was pushed is found in the table as the latest of its row, counted once more
/// than before.
pub proof fn lemma_pushed_flow_is_shown(rows: Seq<Aggregate>, ev: EnrichedEvent)
    requires
        has_room(rows, ev),
    ensures
        exists|i: int|
            0 <= i < pushed(rows, ev).len() && (#[trigger] pushed(rows, ev)[i]).event == ev && pushed(
                rows,
                ev,
            )[i].count == 1 + match place_of(rows, row_key(ev)) {
                Some(p) => rows[p].count as int,
                None => 0,
            },
{
    lemma_place(rows, row_key(ev));
    let after = pushed(rows, ev);
    match place_of(rows, row_key(ev)) {
        Some(p) => {
            assert(after[p].event == ev);
        },
        None => {
            assert(after[after.len() - 1].event == ev);
        },
    }
}

/// A table that a flow was pushed to has a row, and no fewer rows than before.
pub proof fn lemma_pushed_flow_has_a_row(rows: Seq<Aggregate>, ev: EnrichedEvent)
    ensures
        pushed(rows, ev).len() > 0,
        pushed(rows, ev).len() >= rows.len(),
{
    lemma_place(rows, row_key(ev));
}

fn find_row(rows: &VecDeque<Aggregate>, key: &AggKey) -> (r: Option<usize>)
    ensures
        match place_of(rows@, key@) {
            Some(i) => r is Some && r->0 == i && i < rows@.len(),
            None => r is None,
        },
{
    let mut i: usize = 0;
    assert(rows@.skip(0) =~= rows@);
    while i < rows.len()
        invariant
            i <= rows@.len(),
            place_of(rows@, key@) == match place_of(rows@.skip(i as int), key@) {
                Some(p) => Some(p + i),
                None => None,
            },
        decreases rows@.len() - i,
    {
        let row = &rows[i];
        assert(rows@.skip(i as int)[0] == *row);
        let found: bool = AggKey::of(&row.event).same(key);
        if found {
            return Some(i);
        }
        assert(rows@.skip(i as int).skip(1) =~= rows@.skip(i + 1));
        i += 1;
    }
    None
}

/// The text that a filter looks in: command, executable and host in lower case, then the
/// address.
pub open spec fn haystack(
    comm: Seq<char>,
    exe: Option<Seq<char>>,
    host: Option<Seq<char>>,
    address: Seq<char>,
) -> Seq<char> {
    comm + seq![' '] + (match exe {
        Some(p) => p + seq![' '],
        None => Seq::empty(),
    }) + (match host {
        Some(h) => h + seq![' '],
        None => Seq::empty(),
    }) + address
}

/// A text in lower case, if there is one.
pub open spec fn opt_lowercase(s: Option<String>) -> Option<Seq<char>> {
    match s {
        Some(s) => Some(text::lowered(s@)),
        None => None,
    }
}

/// Whether a flow has the needle, which is in lower case, in its texts.
pub open spec fn has_needle(ev: EnrichedEvent, needle: Seq<char>) -> bool {
    text::has_substring(
        haystack(
            text::lowered(ev.comm@),
            opt_lowercase(ev.exe_path),
            opt_lowercase(ev.hostname),
            shown_addr(ev),
        ),
        needle,
    )
}

/// Every flow has the empty needle, and one that has a needle has every part of it.
pub proof fn lemma_part_of_a_needle(ev: EnrichedEvent, part: Seq<char>, needle: Seq<char>)
    requires
        text::has_substring(needle, part),
    ensures
        has_needle(ev, Seq::empty()),
        has_needle(ev, needle) ==> has_needle(ev, part),
{
    let hay = haystack(
        text::lowered(ev.comm@),
        opt_lowercase(ev.exe_path),
        opt_lowercase(ev.hostname),
        shown_addr(ev),
    );
    let none = Seq::<char>::empty();
    assert(hay.subrange(0, 0int + none.len()) =~= none);
    if has_needle(ev, needle) {
        text::lemma_substring_transitive(hay, needle, part);
    }
}

/// Two flows tell of the same things to a filter, but for the case of ASCII letters.
pub open spec fn same_but_for_case(a: EnrichedEvent, b: EnrichedEvent) -> bool {
    &&& text::same_but_for_case(a.comm@, b.comm@)
    &&& match (a.exe_path, b.exe_path) {
        (Some(p), Some(q)) => text::same_but_for_case(p@, q@),
        (None, None) => true,
        _ => false,
    }
    &&& match (a.hostname, b.hostname) {
        (Some(h), Some(k)) => text::same_but_for_case(h@, k@),
        (None, None) => true,
        _ => false,
    }
    &&& shown_addr(a) == shown_addr(b)
}

/// The case of the letters in a flow's command, executable and host does not matter to a
/// filter.
pub proof fn lemma_letter_case_of_a_flow(a: EnrichedEvent, b: EnrichedEvent, needle: Seq<char>)
    requires
        same_but_for_case(a, b),
    ensures
        has_needle(a, needle) == has_needle(b, needle),
{
    text::lemma_lowered_alike(a.comm@, b.comm@);
    if let (Some(p), Some(q)) = (a.exe_path, b.exe_path) {
        text::lemma_lowered_alike(p@, q@);
    }
    if let (Some(h), Some(k)) = (a.hostname, b.hostname) {
        text::lemma_lowered_alike(h@, k@);
    }
}

/// Whether texts, with their case set, have a needle in them.
pub fn texts_match(comm: &str, exe: Option<&str>, host: Option<&str>, address: &str, needle: &str) -> (r: bool)
    ensures
        r == text::has_substring(
            haystack(comm@, text::opt_str_text(exe), text::opt_str_text(host), address@),
            needle@,
        ),
{
    let mut hay = String::new();
    hay.append(comm);
    hay.push(' ');
    if let Some(p) = exe {
        hay.append(p);
        hay.push(' ');
    }
    if let Some(h) = host {
        hay.append(h);
        hay.push(' ');
    }
    hay.append(address);
    assert(hay@ =~= haystack(comm@, text::opt_str_text(exe), text::opt_str_text(host), address@));
    text::str_contains(hay.as_str(), needle)
}

/// Whether a flow has the needle, which is in lower case, in its texts.
pub fn event_matches(ev: &EnrichedEvent, needle_lower: &str) -> (r: bool)
    ensures
        r == has_needle(*ev, needle_lower@),
{
    let comm = text::str_to_lowercase(ev.comm.as_str());
    let exe: Option<String> = match &ev.exe_path {
        Some(p) => Some(text::str_to_lowercase(p.as_str())),
        None => None,
    };
    let host: Option<String> = match &ev.hostname {
        Some(h) => Some(text::str_to_lowercase(h.as_str())),
        None => None,
    };
    let exe_str: Option<&str> = match &exe {
        Some(p) => Some(p.as_str()),
        None => None,
    };
    let host_str: Option<&str> = match &host {
        Some(h) => Some(h.as_str()),
        None => None,
    };
    texts_match(comm.as_str(), exe_str, host_str, format_addr(ev).as_str(), needle_lower)
}

/// Whether a row is shown under a filter. The empty filter shows all.
pub open spec fn is_shown(row: Aggregate, filter: Seq<char>) -> bool {
    filter.len() == 0 || has_needle(row.event, text::lowered(filter))
}

/// `indices` are the places of the rows that are shown under a filter, in their order.
pub open spec fn are_shown(indices: Seq<usize>, rows: Seq<Aggregate>, filter: Seq<char>) -> bool {
    &&& forall|a: int, b: int| 0 <= a < b < indices.len() ==> #[trigger] indices[a] < #[trigger] indices[b]
    &&& forall|a: int| 0 <= a < indices.len() ==> #[trigger] indices[a] < rows.len() && is_shown(
        rows[indices[a] as int],
        filter,
    )
    &&& forall|i: usize| i < rows.len() && is_shown(rows[i as int], filter) ==> #[trigger] indices.contains(i)
}

/// The case of the letters of a filter does not matter: it shows the same rows.
pub proof fn lemma_letter_case_of_a_filter(
    rows: Seq<Aggregate>,
    f: Seq<char>,
    g: Seq<char>,
    under_f: Seq<usize>,
    under_g: Seq<usize>,
)
    requires
        text::same_but_for_case(f, g),
        are_shown(under_f, rows, f),
        are_shown(under_g, rows, g),
    ensures
        under_f == under_g,
{
    text::lemma_lowered_alike(f, g);
    assert forall|row: Aggregate| is_shown(row, f) == is_shown(row, g) by {}
    lemma_shown_within(rows, f, g, under_f, under_g);
    lemma_shown_within(rows, g, f, under_g, under_f);
    lemma_same_ascending(under_f, under_g);
}

/// Lengthening a filter shows no new row: the rows shown under a filter are, in their order,
/// among those shown under any part of it.
pub proof fn lemma_longer_filter_narrows(
    rows: Seq<Aggregate>,
    f: Seq<char>,
    g: Seq<char>,
    under_f: Seq<usize>,
    under_g: Seq<usize>,
)
    requires
        text::is_ascii(g),
        text::has_substring(g, f),
        are_shown(under_f, rows, f),
        are_shown(under_g, rows, g),
    ensures
        forall|a: int| 0 <= a < under_g.len() ==> under_f.contains(#[trigger] under_g[a]),
        forall|a: int, b: int| 0 <= a < b < under_g.len() ==> #[trigger] under_g[a] < #[trigger] under_g[b],
        forall|a: int, b: int| 0 <= a < b < under_f.len() ==> #[trigger] under_f[a] < #[trigger] under_f[b],
{
    text::lemma_lowered_part(g, f);
    assert forall|row: Aggregate| is_shown(row, g) implies is_shown(row, f) by {
        if f.len() > 0 {
            lemma_part_of_a_needle(row.event, text::lowered(f), text::lowered(g));
        }
    }
    lemma_shown_within(rows, g, f, under_g, under_f);
}

proof fn lemma_shown_within(
    rows: Seq<Aggregate>,
    g: Seq<char>,
    f: Seq<char>,
    under_g: Seq<usize>,
    under_f: Seq<usize>,
)
    requires
        are_shown(under_g, rows, g),
        are_shown(under_f, rows, f),
        forall|row: Aggregate| is_shown(row, g) ==> #[trigger] is_shown(row, f),
    ensures
        forall|a: int| 0 <= a < under_g.len() ==> under_f.contains(#[trigger] under_g[a]),
{
    assert forall|a: int| 0 <= a < under_g.len() implies under_f.contains(#[trigger] under_g[a]) by {
        let i = under_g[a];
        assert(is_shown(rows[i as int], f));
        assert(under_f.contains(i));
    }
}

/// Two ascending lists with the same items are the same list.
proof fn lemma_same_ascending(a: Seq<usize>, b: Seq<usize>)
    requires
        forall|i: int, j: int| 0 <= i < j < a.len() ==> #[trigger] a[i] < #[trigger] a[j],
        forall|i: int, j: int| 0 <= i < j < b.len() ==> #[trigger] b[i] < #[trigger] b[j],
        forall|i: int| 0 <= i < a.len() ==> b.contains(#[trigger] a[i]),
        forall|i: int| 0 <= i < b.len() ==> a.contains(#[trigger] b[i]),
    ensures
        a == b,
    decreases a.len(),
{
    if a.len() == 0 {
        if b.len() > 0 {
            assert(a.contains(b[0]));
        }
        assert(a =~= b);
    } else {
        assert(b.contains(a[0]));
        let n = a.len() - 1;
        let m = b.len() - 1;
        let x = choose|x: int| 0 <= x < b.len() && b[x] == a[n];
        assert(b.contains(a[n]));
        assert(a.contains(b[m]));
        let y = choose|y: int| 0 <= y < a.len() && a[y] == b[m];
        assert(a[n] == b[m]);
        let c = a.drop_last();
        let d = b.drop_last();
        assert forall|i: int| 0 <= i < c.len() implies d.contains(#[trigger] c[i]) by {
            assert(b.contains(a[i]));
            let k = choose|k: int| 0 <= k < b.len() && b[k] == a[i];
            assert(a[i] < a[n]);
            assert(d[k] == c[i]);
        }
        assert forall|i: int| 0 <= i < d.len() implies c.contains(#[trigger] d[i]) by {
            assert(a.contains(b[i]));
            let k = choose|k: int| 0 <= k < a.len() && a[k] == b[i];
            assert(b[i] < b[m]);
            assert(c[k] == d[i]);
        }
        lemma_same_ascending(c, d);
        assert(a =~= c.push(a[n]));
        assert(b =~= d.push(b[m]));
    }
}

/// There is a list of the rows that are shown.
pub proof fn lemma_shown_exists(rows: Seq<Aggregate>, filter: Seq<char>)
    requires
        rows.len() <= usize::MAX,
    ensures
        exists|indices: Seq<usize>| are_shown(indices, rows, filter),
    decreases rows.len(),
{
    if rows.len() == 0 {
        assert(are_shown(Seq::<usize>::empty(), rows, filter));
    } else {
        let rest = rows.drop_last();
        lemma_shown_exists(rest, filter);
        let some = choose|indices: Seq<usize>| are_shown(indices, rest, filter);
        let last = (rows.len() - 1) as usize;
        let all = if is_shown(rows.last(), filter) {
            some.push(last)
        } else {
            some
        };
        assert forall|i: usize| i < rows.len() && is_shown(rows[i as int], filter) implies #[trigger] all.contains(i) by {
            if i < last {
                assert(rest[i as int] == rows[i as int]);
                assert(some.contains(i));
                let k = choose|k: int| 0 <= k < some.len() && some[k] == i;
                assert(all[k] == i);
            } else {
                assert(all.last() == last);
            }
        }
        assert forall|a: int| 0 <= a < all.len() implies #[trigger] all[a] < rows.len() && is_shown(
            rows[all[a] as int],
            filter,
        ) by {
            if a < some.len() {
                assert(some[a] == all[a]);
                assert(rest[some[a] as int] == rows[some[a] as int]);
            }
        }
        assert forall|a: int, b: int| 0 <= a < b < all.len() implies #[trigger] all[a] < #[trigger] all[b] by {
            assert(some[a] == all[a]);
            if b < some.len() {
                assert(some[b] == all[b]);
            }
        }
        assert(are_shown(all, rows, filter));
    }
}

/// There is one list of the rows that are shown.
pub proof fn lemma_shown_is_unique(a: Seq<usize>, b: Seq<usize>, rows: Seq<Aggregate>, filter: Seq<char>)
    requires
        are_shown(a, rows, filter),
        are_shown(b, rows, filter),
    ensures
        a == b,
{
    lemma_increasing_unique(a, b);
}

proof fn lemma_increasing_unique(a: Seq<usize>, b: Seq<usize>)
    requires
        forall|i: int, j: int| 0 <= i < j < a.len() ==> #[trigger] a[i] < #[trigger] a[j],
        forall|i: int, j: int| 0 <= i < j < b.len() ==> #[trigger] b[i] < #[trigger] b[j],
        forall|i: int| 0 <= i < a.len() ==> b.contains(#[trigger] a[i]),
        forall|i: int| 0 <= i < b.len() ==> a.contains(#[trigger] b[i]),
    ensures
        a == b,
    decreases a.len(),
{
    if a.len() == 0 {
        if b.len() > 0 {
            assert(a.contains(b[0]));
        }
        assert(a =~= b);
    } else {
        assert(b.contains(a[0]));
        assert(b.len() > 0);
        let x = a.last();
        let y = b.last();
        assert(b.contains(a[a.len() - 1]));
        assert(a.contains(b[b.len() - 1]));
        let i = choose|i: int| 0 <= i < b.len() && b[i] == x;
        let j = choose|j: int| 0 <= j < a.len() && a[j] == y;
        assert(x == y) by {
            if i < b.len() - 1 {
                assert(b[i] < b[b.len() - 1]);
            }
            if j < a.len() - 1 {
                assert(a[j] < a[a.len() - 1]);
            }
        }
        let c = a.drop_last();
        let d = b.drop_last();
        assert forall|k: int| 0 <= k < c.len() implies d.contains(#[trigger] c[k]) by {
            assert(c[k] == a[k] && a[k] < a[a.len() - 1]);
            let m = choose|m: int| 0 <= m < b.len() && b[m] == a[k];
            assert(d[m] == c[k]);
        }
        assert forall|k: int| 0 <= k < d.len() implies c.contains(#[trigger] d[k]) by {
            assert(d[k] == b[k] && b[k] < b[b.len() - 1]);
            let m = choose|m: int| 0 <= m < a.len() && a[m] == b[k];
            assert(c[m] == d[k]);
        }
        lemma_increasing_unique(c, d);
        assert(a =~= c.push(x));
        assert(b =~= d.push(y));
    }
}

/// The places of the rows that have a needle, which is in lower case.
pub fn rows_with(rows: &VecDeque<Aggregate>, needle_lower: &str) -> (r: Vec<usize>)
    ensures
        forall|a: int, b: int| 0 <= a < b < r@.len() ==> #[trigger] r@[a] < #[trigger] r@[b],
        forall|a: int| 0 <= a < r@.len() ==> #[trigger] r@[a] < rows@.len() && has_needle(
            rows@[r@[a] as int].event,
            needle_lower@,
        ),
        forall|i: usize|
            i < rows@.len() && has_needle(rows@[i as int].event, needle_lower@) ==> #[trigger] r@.contains(i),
{
    let mut out: Vec<usize> = Vec::new();
    let mut i: usize = 0;
    while i < rows.len()
        invariant
            i <= rows@.len(),
            forall|a: int, b: int| 0 <= a < b < out@.len() ==> #[trigger] out@[a] < #[trigger] out@[b],
            forall|a: int| 0 <= a < out@.len() ==> #[trigger] out@[a] < i && has_needle(
                rows@[out@[a] as int].event,
                needle_lower@,
            ),
            forall|k: usize|
                k < i && has_needle(rows@[k as int].event, needle_lower@) ==> #[trigger] out@.contains(k),
        decreases rows@.len() - i,
    {
        let ghost before = out@;
        let found: bool = event_matches(&rows[i].event, needle_lower);
        if found {
            out.push(i);
            assert(out@[before.len() as int] == i);
        }
        assert forall|k: usize| k < i + 1 && has_needle(rows@[k as int].event, needle_lower@) implies #[trigger] out@.contains(k) by {
            if k < i {
                assert(before.contains(k));
                let m = choose|m: int| 0 <= m < before.len() && before[m] == k;
                assert(out@[m] == k);
            }
        }
        i += 1;
    }
    out
}

/// What the terminal client holds.
#[derive(Debug)]
pub struct App {
    pub view: views::View,

    /// The live table, the oldest row first.
    pub events: VecDeque<Aggregate>,
    pub state: TableState,
    /// The selection keeps to the last row.
    pub follow: bool,
    pub filter: String,
    pub filter_mode: bool,
    pub modal: Option<ModalState>,

    pub rules: Vec<RuleInfo>,
    pub rules_state: TableState,

    pub stats: Option<Stats>,

    /// The last outcome of a request or of the editor.
    pub last_ack: Option<String>,
    pub last_ack_is_error: bool,
    pub daemon_version: String,
    pub connected: bool,
}

/// What a key asks for.
#[derive(Debug)]
pub enum InputAction {
    Nothing,
    Quit,
    Send(ClientMessage),
    /// Open a rule file in the editor.
    EditRule(String),
}

/// `after` is `before` with the live selection moved by `delta` rows of those shown, which
/// stops at the first and at the last. A selection that is not shown counts as the last.
/// The selection follows new rows if it ends on the last one.
pub open spec fn is_scrolled(before: App, delta: int, after: App) -> bool {
    forall|indices: Seq<usize>| #[trigger]
        are_shown(indices, before.events@, before.filter@) ==> {
            if indices.len() == 0 {
                after == (App { state: before.state.with_selected(None), ..before })
            } else {
                let p = moved(shown_place(indices, before.state.selected), delta, indices.len() as int);
                after == (App {
                    state: before.state.with_selected(Some(indices[p])),
                    follow: p == indices.len() - 1,
                    ..before
                })
            }
        }
}

/// The place of a selection among those shown, or the last place.
pub open spec fn shown_place(indices: Seq<usize>, selected: Option<usize>) -> int {
    match selected {
        Some(s) => if indices.contains(s) {
            indices.index_of(s)
        } else {
            indices.len() - 1
        },
        None => indices.len() - 1,
    }
}

/// A place moved by `delta` within `0..len`.
pub open spec fn moved(place: int, delta: int, len: int) -> int {
    if place + delta < 0 {
        0
    } else if place + delta > len - 1 {
        len - 1
    } else {
        place + delta
    }
}

/// `after` is `before` with the last shown row selected and followed.
pub open spec fn is_at_end(before: App, after: App) -> bool {
    forall|indices: Seq<usize>| #[trigger]
        are_shown(indices, before.events@, before.filter@) ==> after == (App {
            state: if indices.len() == 0 {
                before.state
            } else {
                before.state.with_selected(Some(indices.last()))
            },
            follow: true,
            ..before
        })
}

/// `after` is `before` with the first shown row selected and no row followed.
pub open spec fn is_at_start(before: App, after: App) -> bool {
    forall|indices: Seq<usize>| #[trigger]
        are_shown(indices, before.events@, before.filter@) ==> after == (App {
            state: if indices.len() == 0 {
                before.state
            } else {
                before.state.with_selected(Some(indices[0]))
            },
            follow: false,
            ..before
        })
}

/// A host name ends as the target's does: it is that name, or that of a subdomain. A target
/// without a name covers none.
pub open spec fn is_covered_host(host: Option<String>, target: Option<String>) -> bool {
    match (host, target) {
        (Some(h), Some(t)) => t@.len() > 0 && t@.is_suffix_of(h@),
        _ => false,
    }
}

/// An executable is the target's. A target without one is like none.
pub open spec fn is_same_exe(exe: Option<String>, target: Option<String>) -> bool {
    match (exe, target) {
        (Some(e), Some(t)) => t@.len() > 0 && e@ == t@,
        _ => false,
    }
}

/// A flow looks like the target to a rule of a kind made from it. Where the target lacks what
/// that kind needs there is no such rule, and no flow looks like it.
pub open spec fn looks_like(ev: EnrichedEvent, target: EnrichedEvent, by: DenyRuleKind) -> bool {
    let covered_host = is_covered_host(ev.hostname, target.hostname);
    let same_exe = is_same_exe(ev.exe_path, target.exe_path);
    match by {
        DenyRuleKind::Host => covered_host,
        DenyRuleKind::Process => same_exe,
        DenyRuleKind::Ip => ip_text(ev) == ip_text(target),
        DenyRuleKind::Both => covered_host && same_exe,
    }
}

fn covers_host(host: &Option<String>, target: &Option<String>) -> (r: bool)
    ensures
        r == is_covered_host(*host, *target),
{
    match (host, target) {
        (Some(h), Some(t)) => !t.as_str().is_empty() && text::str_ends_with(h.as_str(), t.as_str()),
        _ => false,
    }
}

fn same_exe(exe: &Option<String>, target: &Option<String>) -> (r: bool)
    ensures
        r == is_same_exe(*exe, *target),
{
    match (exe, target) {
        (Some(e), Some(t)) => !t.as_str().is_empty() && text::str_eq(e.as_str(), t.as_str()),
        _ => false,
    }
}

/// `after` is the row `before`, shown as denied; one that no rule had matched waits for the
/// name of its rule.
pub open spec fn is_marked(before: Aggregate, after: Aggregate) -> bool {
    &&& after == (Aggregate {
        event: EnrichedEvent {
            verdict: Verdict::Deny,
            matched_rule: after.event.matched_rule,
            ..before.event
        },
        ..before
    })
    &&& match before.event.matched_rule {
        Some(rule) => after.event.matched_rule == Some(rule),
        None => text::opt_text(after.event.matched_rule) == Some("(pending)"@),
    }
}

/// `after` are the rows `before` with those that look like the target shown as denied.
pub open spec fn are_marked(
    before: Seq<Aggregate>,
    after: Seq<Aggregate>,
    target: EnrichedEvent,
    by: DenyRuleKind,
) -> bool {
    after.len() == before.len() && forall|i: int|
        0 <= i < before.len() ==> if looks_like(before[i].event, target, by) {
            is_marked(before[i], #[trigger] after[i])
        } else {
            after[i] == before[i]
        }
}

/// What a tab asks for in order to fill itself.
pub open spec fn asks_for(view: views::View, a: InputAction) -> bool {
    match view {
        views::View::Live => a is Nothing,
        views::View::Rules => a == InputAction::Send(ClientMessage::ListRules),
        views::View::Stats => a == InputAction::Send(ClientMessage::GetStats),
    }
}

/// The selection of a rule list after it changed: kept, but within the list.
pub open spec fn clamped(selected: Option<usize>, len: nat) -> Option<usize> {
    if len == 0 {
        None
    } else {
        match selected {
            Some(s) => if s < len {
                Some(s)
            } else {
                Some((len - 1) as usize)
            },
            None => Some(0),
        }
    }
}

/// What holds of the client at any time: the live table has one row for each key and is not
/// over full, and no selection is dangling.
pub open spec fn is_sound(app: App) -> bool {
    &&& is_table(app.events@)
    &&& app.state.selected matches Some(i) ==> i < app.events@.len()
    &&& app.rules_state.selected matches Some(i) ==> i < app.rules@.len()
}

/// Showing rows as denied keeps the table's keys apart.
pub proof fn lemma_marking_keeps_table(
    before: Seq<Aggregate>,
    after: Seq<Aggregate>,
    target: EnrichedEvent,
    by: DenyRuleKind,
)
    requires
        are_marked(before, after, target, by),
        is_table(before),
    ensures
        is_table(after),
{
    assert forall|i: int| 0 <= i < after.len() implies row_key((#[trigger] after[i]).event) == row_key(before[i].event) by {
        if looks_like(before[i].event, target, by) {
            assert(is_marked(before[i], after[i]));
        }
    }
    assert forall|i: int, j: int| 0 <= i < j < after.len() implies row_key((#[trigger] after[i]).event) != row_key(
        (#[trigger] after[j]).event,
    ) by {
        assert(row_key(before[i].event) != row_key(before[j].event));
    }
}

impl App {
    pub fn new(daemon_version: String) -> (a: App)
        ensures
            is_sound(a),
            a.view == views::View::Live,
            a.events@.len() == 0,
            a.state == (TableState { offset: 0, selected: None }),
            a.follow,
            a.filter@.len() == 0,
            !a.filter_mode,
            a.modal is None,
            a.rules@.len() == 0,
            a.rules_state == (TableState { offset: 0, selected: None }),
            a.stats is None,
            a.last_ack is None,
            !a.last_ack_is_error,
            a.daemon_version == daemon_version,
            a.connected,
    {
        App {
            view: views::View::Live,
            events: VecDeque::new(),
            state: TableState::default(),
            follow: true,
            filter: String::new(),
            filter_mode: false,
            modal: None,
            rules: Vec::new(),
            rules_state: TableState::default(),
            stats: None,
            last_ack: None,
            last_ack_is_error: false,
            daemon_version,
            connected: true,
        }
    }

    /// Whether a flow can be counted.
    pub fn can_push(&self, ev: &EnrichedEvent) -> (r: bool)
        ensures
            r == has_room(self.events@, *ev),
    {
        let key = AggKey::of(ev);
        match find_row(&self.events, &key) {
            Some(i) => self.events[i].count < u32::MAX,
            None => true,
        }
    }

    /// Takes in a flow.
    pub fn push(&mut self, ev: EnrichedEvent)
        requires
            has_room(old(self).events@, ev),
        ensures
            final(self).events@ == pushed(old(self).events@, ev),
            *final(self) == (App { events: final(self).events, ..*old(self) }),
    {
        let key = AggKey::of(&ev);
        let ts: u64 = ev.ts_unix_ns;
        let place: Option<usize> = find_row(&self.events, &key);
        if let Some(i) = place {
            if let Some(row) = self.events.remove(i) {
                self.events.insert(i, Aggregate { event: ev, count: row.count + 1, last_ts: ts });
            }
            assert(self.events@ =~= pushed(old(self).events@, ev));
            return;
        }
        if self.events.len() == MAX_EVENTS {
            self.events.pop_front();
        }
        self.events.push_back(Aggregate { event: ev, count: 1, last_ts: ts });
        assert(self.events@ =~= pushed(old(self).events@, ev));
    }

    /// The places of the rows that are shown.
    pub fn filtered_indices(&self) -> (r: Vec<usize>)
        ensures
            are_shown(r@, self.events@, self.filter@),
    {
        if self.filter.as_str().is_empty() {
            let mut out: Vec<usize> = Vec::new();
            let mut i: usize = 0;
            while i < self.events.len()
                invariant
                    i <= self.events@.len(),
                    out@.len() == i,
                    forall|a: int| 0 <= a < i ==> #[trigger] out@[a] == a,
                decreases self.events@.len() - i,
            {
                out.push(i);
                i += 1;
            }
            assert forall|k: usize| k < self.events@.len() implies #[trigger] out@.contains(k) by {
                assert(out@[k as int] == k);
            }
            out
        } else {
            let needle = text::str_to_lowercase(self.filter.as_str());
            rows_with(&self.events, needle.as_str())
        }
    }

    /// The flow of the selected row.
    pub fn selected_event(&self) -> (r: Option<EnrichedEvent>)
        ensures
            r == match self.state.selected {
                Some(i) => if i < self.events@.len() {
                    Some(self.events@[i as int].event)
                } else {
                    None
                },
                None => None,
            },
    {
        match self.state.selected() {
            Some(i) => if i < self.events.len() {
                Some(self.events[i].event.clone())
            } else {
                None
            },
            None => None,
        }
    }

    /// Moves the live selection.
    pub fn scroll(&mut self, delta: isize)
        ensures
            is_scrolled(*old(self), delta as int, *final(self)),
    {
        let indices: Vec<usize> = self.filtered_indices();
        let ghost shown = indices@;
        assert forall|other: Seq<usize>| #[trigger] are_shown(other, self.events@, self.filter@) implies other == shown by {
            lemma_shown_is_unique(other, shown, self.events@, self.filter@);
        }
        if indices.len() == 0 {
            self.state.select(None);
            return;
        }
        let current: usize = match self.state.selected() {
            Some(s) => place_or_last(&indices, s),
            None => indices.len() - 1,
        };
        let place: usize = move_within(current, delta, indices.len());
        self.state.select(Some(indices[place]));
        self.follow = place == indices.len() - 1;
    }

    /// Goes to the last row that is shown, and follows.
    pub fn jump_to_end(&mut self)
        ensures
            is_at_end(*old(self), *final(self)),
    {
        let indices: Vec<usize> = self.filtered_indices();
        let ghost shown = indices@;
        assert forall|other: Seq<usize>| #[trigger] are_shown(other, self.events@, self.filter@) implies other == shown by {
            lemma_shown_is_unique(other, shown, self.events@, self.filter@);
        }
        if indices.len() > 0 {
            self.state.select(Some(indices[indices.len() - 1]));
        }
        self.follow = true;
    }

    /// Goes to the first row that is shown, and no longer follows.
    pub fn jump_to_start(&mut self)
        ensures
            is_at_start(*old(self), *final(self)),
    {
        let indices: Vec<usize> = self.filtered_indices();
        let ghost shown = indices@;
        assert forall|other: Seq<usize>| #[trigger] are_shown(other, self.events@, self.filter@) implies other == shown by {
            lemma_shown_is_unique(other, shown, self.events@, self.filter@);
        }
        if indices.len() > 0 {
            self.state.select(Some(indices[0]));
        }
        self.follow = false;
    }

    /// Shows the rows that a rule of a kind made from the target would match as denied,
    /// before the daemon says so.
    pub fn optimistically_deny(&mut self, target: &EnrichedEvent, by: DenyRuleKind)
        ensures
            are_marked(old(self).events@, final(self).events@, *target, by),
            *final(self) == (App { events: final(self).events, ..*old(self) }),
    {
        let target_ip = ip_string(target);
        let ghost rows = self.events@;
        let ghost app = *self;
        let n: usize = self.events.len();
        let mut i: usize = 0;
        let ghost mut done: Seq<Aggregate> = Seq::empty();
        assert(self.events@ =~= rows.skip(0) + done);
        while i < n
            invariant
                i <= n,
                n == rows.len(),
                rows == app.events@,
                *self == (App { events: self.events, ..app }),
                target_ip@ == ip_text(*target),
                done.len() == i,
                self.events@ == rows.skip(i as int) + done,
                are_marked(rows.take(i as int), done, *target, by),
            decreases n - i,
        {
            let ghost queue = self.events@;
            if let Some(mut row) = self.events.pop_front() {
                let ghost before = row;
                assert(row == rows[i as int]);
                let alike: bool = match by {
                    DenyRuleKind::Host => covers_host(&row.event.hostname, &target.hostname),
                    DenyRuleKind::Process => same_exe(&row.event.exe_path, &target.exe_path),
                    DenyRuleKind::Ip => text::str_eq(ip_string(&row.event).as_str(), target_ip.as_str()),
                    DenyRuleKind::Both => covers_host(&row.event.hostname, &target.hostname)
                        && same_exe(&row.event.exe_path, &target.exe_path),
                };
                if alike {
                    row.event.verdict = Verdict::Deny;
                    if row.event.matched_rule.is_none() {
                        row.event.matched_rule = Some("(pending)".to_string());
                    }
                }
                let ghost after = row;
                self.events.push_back(row);
                proof {
                    let more = done.push(after);
                    assert(self.events@ =~= rows.skip(i + 1) + more);
                    assert forall|k: int| 0 <= k < i + 1 implies if looks_like(rows.take(i + 1)[k].event, *target, by) {
                        is_marked(rows.take(i + 1)[k], #[trigger] more[k])
                    } else {
                        more[k] == rows.take(i + 1)[k]
                    } by {
                        if k < i {
                            assert(rows.take(i as int)[k] == rows.take(i + 1)[k]);
                            assert(done[k] == more[k]);
                        }
                    }
                    done = more;
                }
            }
            i += 1;
        }
        assert(rows.take(n as int) =~= rows);
        assert(self.events@ =~= done);
    }

    /// Takes in a rule list.
    pub fn set_rules(&mut self, rules: Vec<RuleInfo>)
        ensures
            *final(self) == (App {
                rules,
                rules_state: old(self).rules_state.with_selected(
                    clamped(old(self).rules_state.selected, rules@.len()),
                ),
                ..*old(self)
            }),
    {
        let n: usize = rules.len();
        self.rules = rules;
        if n == 0 {
            self.rules_state.select(None);
        } else {
            let mut s: usize = match self.rules_state.selected() {
                Some(s) => s,
                None => 0,
            };
            if s > n - 1 {
                s = n - 1;
            }
            self.rules_state.select(Some(s));
        }
    }

    /// Moves the selection in the rule list.
    pub fn rules_scroll(&mut self, delta: isize)
        ensures
            is_rules_scrolled(*old(self), delta as int, *final(self)),
    {
        let n: usize = self.rules.len();
        if n == 0 {
            self.rules_state.select(None);
            return;
        }
        let current: usize = match self.rules_state.selected() {
            Some(s) => s,
            None => 0,
        };
        let place: usize = move_within(current, delta, n);
        self.rules_state.select(Some(place));
    }

    /// The selected rule.
    pub fn selected_rule(&self) -> (r: Option<&RuleInfo>)
        ensures
            match r {
                Some(info) => rule_in(*self) == Some(*info),
                None => rule_in(*self) is None,
            },
    {
        match self.rules_state.selected() {
            Some(i) => if i < self.rules.len() {
                Some(&self.rules[i])
            } else {
                None
            },
            None => None,
        }
    }

    /// The next tab.
    pub fn next_view(&self) -> (v: views::View)
        ensures
            v == views::tab_after(self.view),
    {
        match self.view {
            views::View::Live => views::View::Rules,
            views::View::Rules => views::View::Stats,
            views::View::Stats => views::View::Live,
        }
    }

    /// Goes to a tab, and asks for what it needs.
    pub fn switch_to(&mut self, view: views::View) -> (a: InputAction)
        ensures
            *final(self) == (App { view, ..*old(self) }),
            asks_for(view, a),
    {
        self.view = view;
        match view {
            views::View::Live => InputAction::Nothing,
            views::View::Rules => InputAction::Send(ClientMessage::ListRules),
            views::View::Stats => InputAction::Send(ClientMessage::GetStats),
        }
    }
}

/// The rule that is selected.
pub open spec fn rule_in(app: App) -> Option<RuleInfo> {
    match app.rules_state.selected {
        Some(i) => if i < app.rules@.len() {
            Some(app.rules@[i as int])
        } else {
            None
        },
        None => None,
    }
}

/// `after` is `before` with the selection in the rule list moved by `delta`, which stops at
/// the first rule and at the last. No selection counts as the first.
pub open spec fn is_rules_scrolled(before: App, delta: int, after: App) -> bool {
    after == (App {
        rules_state: before.rules_state.with_selected(
            if before.rules@.len() == 0 {
                None
            } else {
                Some(
                    moved(
                        match before.rules_state.selected {
                            Some(s) => s as int,
                            None => 0,
                        },
                        delta,
                        before.rules@.len() as int,
                    ) as usize,
                )
            },
        ),
        ..before
    })
}

/// A path cut down to its last two parts; one without a slash is left whole.
pub open spec fn shortened(p: Seq<char>) -> Seq<char> {
    let i = text::last_slash(p);
    if i < 0 {
        p
    } else {
        ".../"@ + p.subrange(text::last_slash(p.take(i)) + 1, i) + "/"@ + p.skip(i + 1)
    }
}

fn slash_before(v: &Vec<char>, end: usize) -> (r: usize)
    requires
        end <= v@.len(),
    ensures
        r == text::last_slash(v@.take(end as int)) + 1,
        r <= end,
{
    let mut i: usize = end;
    while i > 0 && v[i - 1] != '/'
        invariant
            i <= end <= v@.len(),
            forall|k: int| i <= k < end ==> v@[k] != '/',
        decreases i,
    {
        i -= 1;
    }
    proof {
        text::lemma_last_slash_at(v@.take(end as int), i - 1);
    }
    i
}

/// A path cut down to its last two parts.
pub fn short_path(p: &str) -> (r: String)
    ensures
        r@ == shortened(p@),
{
    let v: Vec<char> = text::chars_of(p);
    assert(v@.take(v@.len() as int) =~= v@);
    let last: usize = slash_before(&v, v.len());
    if last == 0 {
        return p.to_owned();
    }
    let parent: usize = slash_before(&v, last - 1);
    let mut out = String::new();
    out.append(".../");
    text::append_chars(&mut out, &v, parent, last - 1);
    out.append("/");
    text::append_chars(&mut out, &v, last, v.len());
    assert(out@ =~= shortened(p@));
    out
}

fn place_or_last(indices: &Vec<usize>, s: usize) -> (p: usize)
    requires
        indices@.len() > 0,
        forall|a: int, b: int| 0 <= a < b < indices@.len() ==> #[trigger] indices@[a] < #[trigger] indices@[b],
    ensures
        p == shown_place(indices@, Some(s)),
        p < indices@.len(),
{
    let mut i: usize = 0;
    while i < indices.len()
        invariant
            i <= indices@.len(),
            forall|a: int, b: int| 0 <= a < b < indices@.len() ==> #[trigger] indices@[a] < #[trigger] indices@[b],
            forall|j: int| 0 <= j < i ==> indices@[j] != s,
        decreases indices@.len() - i,
    {
        if indices[i] == s {
            proof {
                assert(indices@.contains(s));
                let k = indices@.index_of(s);
                assert(indices@[k] == s && 0 <= k < indices@.len());
                if k < i {
                    assert(indices@[k] < indices@[i as int]);
                } else if k > i {
                    assert(indices@[i as int] < indices@[k]);
                }
            }
            return i;
        }
        i += 1;
    }
    indices.len() - 1
}

fn move_within(place: usize, delta: isize, len: usize) -> (r: usize)
    requires
        len > 0,
    ensures
        r == moved(place as int, delta as int, len as int),
        r < len,
{
    if delta < 0 {
        let up: usize = (-(delta + 1)) as usize + 1;
        if up >= place {
            0
        } else if place - up > len - 1 {
            len - 1
        } else {
            place - up
        }
    } else {
        let down: usize = delta as usize;
        if place > len - 1 || down > len - 1 - place {
            len - 1
        } else {
            place + down
        }
    }
}

/// Two flows share a row exactly if they are of the same process, command and executable and
/// go to the same host, or address where no host is known, and port.
pub proof fn lemma_rows_tell_flows_apart(a: EnrichedEvent, b: EnrichedEvent)
    ensures
        ({
            let exe_a = match a.exe_path {
                Some(p) => p@,
                None => Seq::empty(),
            };
            let exe_b = match b.exe_path {
                Some(p) => p@,
                None => Seq::empty(),
            };
            let to_a = match a.hostname {
                Some(h) => h@,
                None => shown_addr(a),
            };
            let to_b = match b.hostname {
                Some(h) => h@,
                None => shown_addr(b),
            };
            row_key(a) == row_key(b) <==> a.pid == b.pid && a.comm@ == b.comm@ && exe_a == exe_b && to_a == to_b
                && a.dport == b.dport
        }),
{
}

/// How the address of a flow is shown, and how rules compare it.
pub proof fn lemma_addresses_are_shown(ev: EnrichedEvent)
    ensures
        ev.family == 4 ==> ip_text(ev) == addr::ipv4_text(addr::v4_octets(ev.daddr_v4)) && shown_addr(ev) == ip_text(ev),
        ev.family != 4 ==> ip_text(ev) == addr::ipv6_text(ev.daddr_v6@) && shown_addr(ev) == seq!['['] + ip_text(ev)
            + seq![']'],
{
    reveal_strlit("[");
    reveal_strlit("]");
    assert("["@ =~= seq!['[']);
    assert("]"@ =~= seq![']']);
}

/// A flow that has no row yet gets one at the end; when there are as many rows as there may
/// be, the oldest makes way, and all others stay.
pub proof fn lemma_new_flows_get_a_row(rows: Seq<Aggregate>, ev: EnrichedEvent)
    requires
        forall|i: int| 0 <= i < rows.len() ==> row_key((#[trigger] rows[i]).event) != row_key(ev),
        rows.len() <= 10_000,
    ensures
        ({
            let row = Aggregate { event: ev, count: 1, last_ts: ev.ts_unix_ns };
            &&& rows.len() < 10_000 ==> pushed(rows, ev) == rows + seq![row]
            &&& rows.len() == 10_000 ==> pushed(rows, ev) == rows.skip(1) + seq![row]
        }),
{
    lemma_place(rows, row_key(ev));
    let row = Aggregate { event: ev, count: 1, last_ts: ev.ts_unix_ns };
    assert(rows.push(row) =~= rows + seq![row]);
    assert(rows.skip(1).push(row) =~= rows.skip(1) + seq![row]);
}

/// A flow that has a row is counted in it once more and shown as its latest; no other row
/// changes, and none moves.
pub proof fn lemma_known_flows_are_counted(rows: Seq<Aggregate>, ev: EnrichedEvent, i: int, j: int)
    requires
        0 <= i < rows.len(),
        row_key(rows[i].event) == row_key(ev),
        is_table(rows),
        rows[i].count < u32::MAX,
    ensures
        pushed(rows, ev).len() == rows.len(),
        pushed(rows, ev)[i].event == ev,
        pushed(rows, ev)[i].count == rows[i].count + 1,
        pushed(rows, ev)[i].last_ts == ev.ts_unix_ns,
        0 <= j < rows.len() && j != i ==> pushed(rows, ev)[j] == rows[j],
{
    lemma_place(rows, row_key(ev));
    let p = place_of(rows, row_key(ev))->0;
    if p < i {
        assert(row_key(rows[p].event) != row_key(rows[i].event));
    }
}

/// A needle is found in the command, the executable, the host and the address, without regard
/// to case.
pub proof fn lemma_needles_are_found(ev: EnrichedEvent, a: Seq<char>, needle: Seq<char>, b: Seq<char>)
    ensures
        text::lowered(ev.comm@) == a + needle + b ==> has_needle(ev, needle),
        (ev.exe_path matches Some(p) && text::lowered(p@) == a + needle + b) ==> has_needle(ev, needle),
        (ev.hostname matches Some(h) && text::lowered(h@) == a + needle + b) ==> has_needle(ev, needle),
        shown_addr(ev) == a + needle + b ==> has_needle(ev, needle),
{
    let comm = text::lowered(ev.comm@);
    let exe = match opt_lowercase(ev.exe_path) {
        Some(p) => p + seq![' '],
        None => Seq::empty(),
    };
    let host = match opt_lowercase(ev.hostname) {
        Some(h) => h + seq![' '],
        None => Seq::empty(),
    };
    let at = shown_addr(ev);
    let hay = comm + seq![' '] + exe + host + at;
    let none = Seq::<char>::empty();
    if comm == a + needle + b {
        assert(hay =~= none + comm + (seq![' '] + exe + host + at));
        lemma_part_of_a_part(none, a, needle, b, seq![' '] + exe + host + at);
    }
    if let Some(p) = ev.exe_path {
        let low = text::lowered(p@);
        if low == a + needle + b {
            assert(hay =~= (comm + seq![' ']) + low + (seq![' '] + host + at));
            lemma_part_of_a_part(comm + seq![' '], a, needle, b, seq![' '] + host + at);
        }
    }
    if let Some(h) = ev.hostname {
        let low = text::lowered(h@);
        if low == a + needle + b {
            assert(hay =~= (comm + seq![' '] + exe) + low + (seq![' '] + at));
            lemma_part_of_a_part(comm + seq![' '] + exe, a, needle, b, seq![' '] + at);
        }
    }
    if at == a + needle + b {
        assert(hay =~= (comm + seq![' '] + exe + host) + at + none);
        lemma_part_of_a_part(comm + seq![' '] + exe + host, a, needle, b, none);
    }
}

proof fn lemma_part_of_a_part(x: Seq<char>, a: Seq<char>, needle: Seq<char>, b: Seq<char>, y: Seq<char>)
    ensures
        text::has_substring(x + (a + needle + b) + y, needle),
{
    let hay = x + (a + needle + b) + y;
    assert(hay =~= (x + a) + needle + (b + y));
    text::lemma_substring_is_a_part(hay, x + a, needle, b + y);
}

proof fn lemma_needle_on_one_side(x: Seq<char>, y: Seq<char>, needle: Seq<char>)
    requires
        forall|i: int| 0 <= i < needle.len() ==> needle[i] != ' ',
        needle.len() > 0,
        text::has_substring(x + seq![' '] + y, needle),
    ensures
        text::has_substring(x, needle) || text::has_substring(y, needle),
{
    let hay = x + seq![' '] + y;
    let i = choose|i: int| 0 <= i && i + needle.len() <= hay.len() && #[trigger] hay.subrange(i, i + needle.len())
        == needle;
    let sub = hay.subrange(i, i + needle.len());
    let n = x.len() as int;
    if i + needle.len() <= n {
        assert(x.subrange(i, i + needle.len()) =~= needle) by {
            assert forall|k: int| 0 <= k < needle.len() implies x[i + k] == needle[k] by {
                assert(sub[k] == hay[i + k]);
            }
        }
    } else if i > n {
        let j = i - n - 1;
        assert(y.subrange(j, j + needle.len()) =~= needle) by {
            assert forall|k: int| 0 <= k < needle.len() implies y[j + k] == needle[k] by {
                assert(sub[k] == hay[i + k]);
            }
        }
    } else {
        assert(sub[n - i] == hay[n]);
        assert(needle[n - i] == ' ');
    }
}

/// A needle without blanks is found nowhere else.
pub proof fn lemma_needles_are_found_nowhere_else(ev: EnrichedEvent, needle: Seq<char>)
    requires
        forall|i: int| 0 <= i < needle.len() ==> needle[i] != ' ',
        needle.len() > 0,
        has_needle(ev, needle),
    ensures
        text::has_substring(text::lowered(ev.comm@), needle) || (ev.exe_path matches Some(p) && text::has_substring(
            text::lowered(p@),
            needle,
        )) || (ev.hostname matches Some(h) && text::has_substring(text::lowered(h@), needle)) || text::has_substring(
            shown_addr(ev),
            needle,
        ),
{
    let comm = text::lowered(ev.comm@);
    let exe = match opt_lowercase(ev.exe_path) {
        Some(p) => p + seq![' '],
        None => Seq::empty(),
    };
    let host = match opt_lowercase(ev.hostname) {
        Some(h) => h + seq![' '],
        None => Seq::empty(),
    };
    let at = shown_addr(ev);
    let hay = comm + seq![' '] + exe + host + at;
    assert(hay =~= comm + seq![' '] + (exe + host + at));
    lemma_needle_on_one_side(comm, exe + host + at, needle);
    if !text::has_substring(comm, needle) {
        if let Some(p) = ev.exe_path {
            let low = text::lowered(p@);
            assert(exe + host + at =~= low + seq![' '] + (host + at));
            lemma_needle_on_one_side(low, host + at, needle);
        } else {
            assert(exe + host + at =~= host + at);
        }
        if text::has_substring(host + at, needle) {
            if let Some(h) = ev.hostname {
                let low = text::lowered(h@);
                assert(host + at =~= low + seq![' '] + at);
                lemma_needle_on_one_side(low, at, needle);
            } else {
                assert(host + at =~= at);
            }
        }
    }
}

/// The empty filter shows all rows; any other shows those that have it, in lower case, in
/// their texts.
pub proof fn lemma_rows_shown(row: Aggregate, filter: Seq<char>)
    ensures
        filter.len() == 0 ==> is_shown(row, filter),
        filter.len() > 0 ==> (is_shown(row, filter) <==> has_needle(row.event, text::lowered(filter))),
{
}

/// The rows that are shown are listed in their order, each once, and all of them.
pub proof fn lemma_shown_rows_are_listed(indices: Seq<usize>, rows: Seq<Aggregate>, filter: Seq<char>, i: usize, a: int, b: int)
    requires
        are_shown(indices, rows, filter),
    ensures
        i < rows.len() && is_shown(rows[i as int], filter) ==> exists|k: int|
            0 <= k < indices.len() && #[trigger] indices[k] == i,
        0 <= a < b < indices.len() ==> indices[a] < indices[b],
        0 <= a < indices.len() ==> indices[a] < rows.len() && is_shown(rows[indices[a] as int], filter),
{
    if i < rows.len() && is_shown(rows[i as int], filter) {
        assert(indices.contains(i));
    }
}

/// Scrolling moves the selection among the rows that are shown, and stops at both ends; it
/// follows new rows exactly at the last.
pub proof fn lemma_scrolling(before: App, delta: int, after: App, indices: Seq<usize>, k: int)
    requires
        is_scrolled(before, delta, after),
        are_shown(indices, before.events@, before.filter@),
        0 <= k < indices.len(),
        before.state.selected == Some(indices[k]),
    ensures
        0 <= k + delta < indices.len() ==> after.state.selected == Some(indices[k + delta]),
        k + delta < 0 ==> after.state.selected == Some(indices[0]),
        k + delta >= indices.len() ==> after.state.selected == Some(indices[indices.len() - 1]),
        after.follow <==> k + delta >= indices.len() - 1 || indices.len() == 1,
        after.events == before.events && after.filter == before.filter && after.view == before.view,
{
    assert(indices.contains(indices[k]));
    let p = indices.index_of(indices[k]);
    assert(0 <= p < indices.len() && indices[p] == indices[k]);
    if p < k {
        assert(indices[p] < indices[k]);
    } else if p > k {
        assert(indices[k] < indices[p]);
    }
}

/// Where nothing is selected, scrolling begins at the last row that is shown.
pub proof fn lemma_scrolling_from_nowhere(before: App, delta: int, after: App, indices: Seq<usize>)
    requires
        is_scrolled(before, delta, after),
        are_shown(indices, before.events@, before.filter@),
        before.state.selected is None,
        -1 <= delta <= 1,
    ensures
        indices.len() == 0 ==> after.state.selected is None,
        indices.len() > 0 && delta >= 0 ==> after.state.selected == Some(indices[indices.len() - 1]) && after.follow,
        indices.len() > 1 && delta == -1 ==> after.state.selected == Some(indices[indices.len() - 2])
            && !after.follow,
{
}

/// Going to the end selects the last row that is shown and follows; going to the start
/// selects the first and does not.
pub proof fn lemma_jumping(before: App, to_end: App, to_start: App, indices: Seq<usize>)
    requires
        is_at_end(before, to_end),
        is_at_start(before, to_start),
        are_shown(indices, before.events@, before.filter@),
    ensures
        to_end.follow,
        !to_start.follow,
        indices.len() > 0 ==> to_end.state.selected == Some(indices[indices.len() - 1]),
        indices.len() > 0 ==> to_start.state.selected == Some(indices[0]),
        to_end.events == before.events && to_start.events == before.events,
{
}

/// A row is marked by what a rule of the kind would compare: the end of its host, its
/// executable, its address, or host and executable.
pub proof fn lemma_rows_that_look_alike(ev: EnrichedEvent, target: EnrichedEvent, by: DenyRuleKind)
    ensures
        ({
            let host = ev.hostname matches Some(h) && (target.hostname matches Some(t) && 0 < t@.len() <= h@.len()
                && h@.skip(h@.len() - t@.len()) == t@);
            let exe = ev.exe_path matches Some(e) && (target.exe_path matches Some(t) && t@.len() > 0 && e@ == t@);
            match by {
                DenyRuleKind::Host => looks_like(ev, target, by) <==> host,
                DenyRuleKind::Process => looks_like(ev, target, by) <==> exe,
                DenyRuleKind::Ip => looks_like(ev, target, by) <==> ip_text(ev) == ip_text(target),
                DenyRuleKind::Both => looks_like(ev, target, by) <==> host && exe,
            }
        }),
{
}

/// Marking shows the rows that look alike as denied, gives those that no rule had matched a
/// place holder, and leaves everything else of them and all other rows as they are.
pub proof fn lemma_marking(before: Seq<Aggregate>, after: Seq<Aggregate>, target: EnrichedEvent, by: DenyRuleKind, i: int)
    requires
        are_marked(before, after, target, by),
        0 <= i < before.len(),
    ensures
        after.len() == before.len(),
        looks_like(before[i].event, target, by) ==> {
            &&& after[i].event.verdict == Verdict::Deny
            &&& after[i].count == before[i].count
            &&& after[i].last_ts == before[i].last_ts
            &&& after[i].event.hostname == before[i].event.hostname
            &&& after[i].event.exe_path == before[i].event.exe_path
            &&& after[i].event.pid == before[i].event.pid
            &&& before[i].event.matched_rule is Some ==> after[i].event.matched_rule == before[i].event.matched_rule
            &&& before[i].event.matched_rule is None ==> (after[i].event.matched_rule matches Some(p) && p@
                == "(pending)"@)
        },
        !looks_like(before[i].event, target, by) ==> after[i] == before[i],
{
    if looks_like(before[i].event, target, by) {
        assert(is_marked(before[i], after[i]));
    }
}

/// What each tab asks for when it is opened.
pub proof fn lemma_tabs_ask_for_their_data(a: InputAction)
    ensures
        asks_for(views::View::Live, a) <==> a is Nothing,
        asks_for(views::View::Rules, a) <==> a == InputAction::Send(ClientMessage::ListRules),
        asks_for(views::View::Stats, a) <==> a == InputAction::Send(ClientMessage::GetStats),
{
}

/// A selection in a list that changed stays where it is, as far as the list goes.
pub proof fn lemma_selection_is_clamped(selected: Option<usize>, len: nat)
    ensures
        len == 0 ==> clamped(selected, len) is None,
        selected matches Some(s) && s < len ==> clamped(selected, len) == selected,
        (selected matches Some(s) && s >= len) && 0 < len <= usize::MAX ==> (clamped(selected, len) matches Some(n) && n
            == len - 1),
        selected is None && len > 0 ==> clamped(selected, len) == Some(0usize),
{
}

/// Scrolling the rule list moves its selection by as many rules, and stops at both ends.
pub proof fn lemma_scrolling_rules(before: App, delta: int, after: App, s: usize)
    requires
        is_rules_scrolled(before, delta, after),
        before.rules_state.selected == Some(s),
        s < before.rules@.len() <= usize::MAX,
    ensures
        0 <= s + delta < before.rules@.len() ==> (after.rules_state.selected matches Some(n) && n == s + delta),
        s + delta < 0 ==> after.rules_state.selected == Some(0usize),
        s + delta >= before.rules@.len() ==> (after.rules_state.selected matches Some(n) && n == before.rules@.len()
            - 1),
        after.rules == before.rules && after.events == before.events,
{
}

/// The selected rule is the one at the selection.
pub proof fn lemma_selected_rule(app: App, i: usize)
    ensures
        app.rules_state.selected == Some(i) && i < app.rules@.len() ==> rule_in(app) == Some(app.rules@[i as int]),
        app.rules_state.selected is None ==> rule_in(app) is None,
        app.rules_state.selected == Some(i) && i >= app.rules@.len() ==> rule_in(app) is None,
{
}

/// A path is shown by its last two parts; a bare name as it is.
pub proof fn lemma_paths_are_shortened(a: Seq<char>, b: Seq<char>, c: Seq<char>)
    requires
        forall|i: int| 0 <= i < b.len() ==> b[i] != '/',
        forall|i: int| 0 <= i < c.len() ==> c[i] != '/',
    ensures
        shortened(a + seq!['/'] + b + seq!['/'] + c) == seq!['.', '.', '.', '/'] + b + seq!['/'] + c,
        shortened(b + seq!['/'] + c) == seq!['.', '.', '.', '/'] + b + seq!['/'] + c,
        shortened(c) == c,
{
    reveal_strlit(".../");
    reveal_strlit("/");
    assert(".../"@ =~= seq!['.', '.', '.', '/']);
    assert("/"@ =~= seq!['/']);
    let head = a + seq!['/'] + b;
    let p = head + seq!['/'] + c;
    text::lemma_last_slash_splits(head, c);
    text::lemma_last_slash_splits(a, b);
    assert(p.take(head.len() as int) =~= head);
    assert(p.subrange(a.len() as int + 1, head.len() as int) =~= b);
    assert(p.skip(head.len() as int + 1) =~= c);
    let q = b + seq!['/'] + c;
    text::lemma_last_slash_splits(b, c);
    assert(q.take(b.len() as int) =~= b);
    assert(q.subrange(0, b.len() as int) =~= b);
    assert(q.skip(b.len() as int + 1) =~= c);
}

/// A flow can be counted unless its row is full.
pub proof fn lemma_room(rows: Seq<Aggregate>, ev: EnrichedEvent, i: int)
    requires
        is_table(rows),
    ensures
        0 <= i < rows.len() && row_key(rows[i].event) == row_key(ev) ==> (has_room(rows, ev) <==> rows[i].count
            < u32::MAX),
        (forall|j: int| 0 <= j < rows.len() ==> row_key((#[trigger] rows[j]).event) != row_key(ev)) ==> has_room(
            rows,
            ev,
        ),
{
    lemma_place(rows, row_key(ev));
    if 0 <= i < rows.len() && row_key(rows[i].event) == row_key(ev) {
        let p = place_of(rows, row_key(ev))->0;
        if p < i {
            assert(row_key(rows[p].event) != row_key(rows[i].event));
        }
    }
}

/// A selection that is not shown counts as the last row that is.
pub proof fn lemma_scrolling_from_a_hidden_row(before: App, after: App, indices: Seq<usize>, s: usize)
    requires
        is_scrolled(before, -1, after),
        are_shown(indices, before.events@, before.filter@),
        before.state.selected == Some(s),
        forall|k: int| 0 <= k < indices.len() ==> #[trigger] indices[k] != s,
        indices.len() > 1,
    ensures
        after.state.selected == Some(indices[indices.len() - 2]),
        !after.follow,
{
    assert(!indices.contains(s));
}

} // verus!
