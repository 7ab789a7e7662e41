//! Host names by address: what DNS answers teach, for as long as they hold.

use hickory_proto::serialize::binary::BinDecodable;
use std::collections::HashMap;
use std::hash::Hash;
use vstd::prelude::*;
use vstd::slice::*;
use vstd::string::*;

use crate::addr;
use crate::addr::IpAddr;
use crate::bytes;
use crate::common::{ConnectEvent, DnsEvent, DNS_EVENT_SIZE, DNS_PAYLOAD_MAX};
use crate::kernel;
use crate::text;

verus! {

broadcast use vstd::std_specs::hash::group_hash_axioms;

/// A host name and the time until which it holds, in nanoseconds.
#[derive(Debug, Clone)]
pub struct DnsEntry {
    pub hostname: String,
    pub expires_at: u64,
}

/// A record of a DNS answer: the owner's name, how many seconds it holds, and the address,
/// for the record types that carry one.
#[derive(Debug, Clone)]
pub struct DnsAnswer {
    pub name: String,
    pub ttl: u32,
    pub addr: Option<IpAddr>,
}

impl DnsAnswer {
    pub open spec fn view(self) -> (Seq<char>, u32, Option<IpAddr>) {
        (self.name@, self.ttl, self.addr)
    }
}

/// Parsed answers as plain values.
pub open spec fn answers_view(answers: Seq<DnsAnswer>) -> Seq<(Seq<char>, u32, Option<IpAddr>)> {
    answers.map_values(|a: DnsAnswer| a@)
}

/// The answer records of the DNS message that `packet` holds, or `None` where it holds
/// none, as `hickory_proto` decodes it.
pub uninterp spec fn dns_answers(packet: Seq<u8>) -> Option<Seq<(Seq<char>, u32, Option<IpAddr>)>>;

/// `hickory_proto`'s `Message::from_bytes`, and of each record of `Message::answers` the
/// name by `Name::to_utf8`, the `ttl`, and the address of an `A` or `AAAA` record. What it
/// returns depends on the bytes alone; which bytes make up a message is left unsaid.
#[verifier::external_body]
fn parse_answers(packet: &[u8]) -> (r: Option<Vec<DnsAnswer>>)
    ensures
        match r {
            Some(v) => dns_answers(packet@) == Some(answers_view(v@)),
            None => dns_answers(packet@) is None,
        },
{
    let msg = hickory_proto::op::Message::from_bytes(packet).ok()?;
    let answer = |r: &hickory_proto::rr::Record| DnsAnswer {
        name: r.name().to_utf8(),
        ttl: r.ttl(),
        addr: match r.data() {
            Some(hickory_proto::rr::RData::A(a)) => Some(IpAddr::V4(u32::from(a.0))),
            Some(hickory_proto::rr::RData::AAAA(a)) => Some(IpAddr::V6(u128::from(a.0))),
            _ => None,
        },
    };
    Some(msg.answers().iter().map(answer).collect())
}

/// The host name and the expiry known for each address.
#[derive(Debug)]
pub struct DnsCache {
    v4: HashMap<u32, DnsEntry>,
    v6: HashMap<u128, DnsEntry>,
}

impl View for DnsCache {
    type V = Map<IpAddr, (Seq<char>, u64)>;

    closed spec fn view(&self) -> Map<IpAddr, (Seq<char>, u64)> {
        Map::new(
            |a: IpAddr|
                match a {
                    IpAddr::V4(n) => self.v4@.contains_key(n),
                    IpAddr::V6(n) => self.v6@.contains_key(n),
                },
            |a: IpAddr|
                match a {
                    IpAddr::V4(n) => (self.v4@[n].hostname@, self.v4@[n].expires_at),
                    IpAddr::V6(n) => (self.v6@[n].hostname@, self.v6@[n].expires_at),
                },
        )
    }
}

/// The entries that still hold at `now`.
pub open spec fn fresh(m: Map<IpAddr, (Seq<char>, u64)>, now: u64) -> Map<IpAddr, (Seq<char>, u64)> {
    Map::new(|a: IpAddr| m.contains_key(a) && m[a].1 > now, |a: IpAddr| m[a])
}

/// A name without the dots at its end.
pub open spec fn trim_dots(s: Seq<char>) -> Seq<char>
    decreases s.len(),
{
    if s.len() > 0 && s.last() == '.' {
        trim_dots(s.drop_last())
    } else {
        s
    }
}

/// For how long a record holds, in nanoseconds: its `ttl`, but at least a second.
pub open spec fn lifetime(ttl: u32) -> int {
    (if ttl == 0 {
        1int
    } else {
        ttl as int
    }) * 1_000_000_000
}

/// What is known after one more answer at time `now`. A record without an address, or of
/// the root, teaches nothing.
pub open spec fn after_answer(
    m: Map<IpAddr, (Seq<char>, u64)>,
    a: (Seq<char>, u32, Option<IpAddr>),
    now: u64,
) -> Map<IpAddr, (Seq<char>, u64)> {
    match a.2 {
        Some(ip) => if trim_dots(a.0).len() == 0 {
            m
        } else {
            m.insert(ip, (trim_dots(a.0), (now + lifetime(a.1)) as u64))
        },
        None => m,
    }
}

/// What is known after answers in their order.
pub open spec fn after_answers(
    m: Map<IpAddr, (Seq<char>, u64)>,
    answers: Seq<(Seq<char>, u32, Option<IpAddr>)>,
    now: u64,
) -> Map<IpAddr, (Seq<char>, u64)>
    decreases answers.len(),
{
    if answers.len() == 0 {
        m
    } else {
        after_answer(after_answers(m, answers.drop_last(), now), answers.last(), now)
    }
}

/// What is known after `len` bytes of a captured payload. No bytes, or more than a record
/// holds, are passed over, and so are bytes that hold no DNS message.
pub open spec fn after_payload(
    m: Map<IpAddr, (Seq<char>, u64)>,
    len: int,
    data: Seq<u8>,
    now: u64,
) -> Map<IpAddr, (Seq<char>, u64)> {
    if len == 0 || len > DNS_PAYLOAD_MAX {
        m
    } else {
        match dns_answers(data.take(len)) {
            Some(answers) => after_answers(m, answers, now),
            None => m,
        }
    }
}

/// What is known after an item off the ring buffer. One that is too short for a record is
/// passed over.
pub open spec fn after_item(
    m: Map<IpAddr, (Seq<char>, u64)>,
    item: Seq<u8>,
    now: u64,
) -> Map<IpAddr, (Seq<char>, u64)> {
    if item.len() < DNS_EVENT_SIZE {
        m
    } else {
        after_payload(m, bytes::le_nat(item.subrange(0, 2)) as int, item.subrange(8, 520), now)
    }
}

/// The latest time at which an answer of any lifetime may come in for its expiry to be
/// counted.
pub const LATEST_NS: u64 = 14_151_776_778_709_551_615;

/// The host name known for an address at `now`.
pub open spec fn host_at(m: Map<IpAddr, (Seq<char>, u64)>, a: Option<IpAddr>, now: u64) -> Option<Seq<char>> {
    match a {
        Some(ip) => if m.contains_key(ip) && m[ip].1 > now {
            Some(m[ip].0)
        } else {
            None
        },
        None => None,
    }
}

/// A name is known from the moment an answer gives it until its lifetime is over.
pub proof fn lemma_answer_holds_for_its_lifetime(
    m: Map<IpAddr, (Seq<char>, u64)>,
    name: Seq<char>,
    ttl: u32,
    ip: IpAddr,
    now: u64,
    later: u64,
)
    requires
        trim_dots(name).len() > 0,
        now <= LATEST_NS,
    ensures
        later < now + lifetime(ttl) ==> host_at(after_answer(m, (name, ttl, Some(ip)), now), Some(ip), later)
            == Some(trim_dots(name)),
        later >= now + lifetime(ttl) ==> host_at(
            after_answer(m, (name, ttl, Some(ip)), now),
            Some(ip),
            later,
        ) is None,
{
}

/// An answer changes nothing for other addresses.
pub proof fn lemma_answer_keeps_others(
    m: Map<IpAddr, (Seq<char>, u64)>,
    answer: (Seq<char>, u32, Option<IpAddr>),
    other: IpAddr,
    now: u64,
    later: u64,
)
    requires
        answer.2 != Some(other),
    ensures
        host_at(after_answer(m, answer, now), Some(other), later) == host_at(m, Some(other), later),
{
}

/// What a hook captures of a packet is parsed whole, not passed over for its length.
pub proof fn lemma_captured_payload_is_parsed(
    m: Map<IpAddr, (Seq<char>, u64)>,
    packet: Seq<u8>,
    e: DnsEvent,
    now: u64,
)
    requires
        kernel::dns_payload(packet) is Some,
        kernel::carries(e, kernel::dns_payload(packet)->0),
    ensures
        after_payload(m, e.len as int, e.data@, now) == match dns_answers(kernel::dns_payload(packet)->0) {
            Some(answers) => after_answers(m, answers, now),
            None => m,
        },
{
    kernel::lemma_dns_payload_len(packet);
    assert(e.data@.take(e.len as int) =~= kernel::dns_payload(packet)->0);
}

/// Dropping what no longer holds changes no answer from then on.
pub proof fn lemma_eviction_is_invisible(
    m: Map<IpAddr, (Seq<char>, u64)>,
    a: Option<IpAddr>,
    now: u64,
    later: u64,
)
    requires
        now <= later,
    ensures
        host_at(fresh(m, now), a, later) == host_at(m, a, later),
{
}

fn host_name(name: &str) -> (r: String)
    ensures
        r@ == trim_dots(name@),
{
    let v: Vec<char> = text::chars_of(name);
    let mut n: usize = v.len();
    assert(v@.take(n as int) =~= v@);
    while n > 0 && v[n - 1] == '.'
        invariant
            n <= v@.len(),
            trim_dots(v@) == trim_dots(v@.take(n as int)),
        decreases n,
    {
        assert(v@.take(n as int).drop_last() =~= v@.take(n - 1));
        n -= 1;
    }
    let mut out = String::new();
    text::append_chars(&mut out, &v, 0, n);
    assert(out@ =~= v@.take(n as int));
    out
}

fn drop_stale<K: Copy + Eq + Hash>(m: &mut HashMap<K, DnsEntry>, now: u64)
    requires
        vstd::std_specs::hash::obeys_key_model::<K>(),
    ensures
        forall|k: K| #[trigger]
            final(m)@.contains_key(k) <==> old(m)@.contains_key(k) && old(m)@[k].expires_at > now,
        forall|k: K| #[trigger] final(m)@.contains_key(k) ==> final(m)@[k] == old(m)@[k],
{
    let mut stale: Vec<K> = Vec::new();
    let ghost all = m@;
    for (k, e) in it: m.iter()
        invariant
            all == m@,
            vstd::std_specs::hash::obeys_key_model::<K>(),
            it.seq() == vstd::std_specs::iter::IteratorSpec::remaining(&vstd::std_specs::hash::spec_hash_map_iter(m)),
            forall|i: int| 0 <= i < stale@.len() ==> all.contains_key(#[trigger] stale@[i]) && all[stale@[i]].expires_at <= now,
            forall|i: int|
                0 <= i < it.index() ==> (*(#[trigger] it.seq()[i]).1).expires_at > now || stale@.contains(*it.seq()[i].0),
    {
        let ghost before = stale@;
        if e.expires_at <= now {
            stale.push(*k);
            assert(stale@.last() == *k);
        }
        assert forall|i: int| 0 <= i < it.index() + 1 implies (*(#[trigger] it.seq()[i]).1).expires_at > now
            || stale@.contains(*it.seq()[i].0) by {
            if i < it.index() && before.contains(*it.seq()[i].0) {
                let j = choose|j: int| 0 <= j < before.len() && before[j] == *it.seq()[i].0;
                assert(stale@[j] == before[j]);
            }
        }
    }
    assert forall|k: K| #[trigger] all.contains_key(k) && all[k].expires_at <= now implies stale@.contains(k) by {
        let v = vstd::std_specs::iter::IteratorSpec::remaining(&vstd::std_specs::hash::spec_hash_map_iter(m));
        assert(v.contains((&k, &all[k])));
    }
    let mut i: usize = 0;
    while i < stale.len()
        invariant
            i <= stale@.len(),
            vstd::std_specs::hash::obeys_key_model::<K>(),
            forall|j: int| 0 <= j < stale@.len() ==> all.contains_key(#[trigger] stale@[j]) && all[stale@[j]].expires_at <= now,
            forall|k: K| #[trigger] m@.contains_key(k) ==> all.contains_key(k) && m@[k] == all[k],
            forall|k: K| #[trigger] all.contains_key(k) && !m@.contains_key(k) ==> all[k].expires_at <= now,
            forall|j: int| 0 <= j < i ==> !m@.contains_key(#[trigger] stale@[j]),
        decreases stale@.len() - i,
    {
        m.remove(&stale[i]);
        i += 1;
    }
}

impl DnsCache {
    /// A cache that knows nothing.
    pub fn new() -> (c: DnsCache)
        ensures
            c@ == Map::<IpAddr, (Seq<char>, u64)>::empty(),
    {
        let c = DnsCache { v4: HashMap::new(), v6: HashMap::new() };
        assert(c@ =~= Map::<IpAddr, (Seq<char>, u64)>::empty());
        c
    }

    /// Notes the host name of an address, in place of what was known of it.
    pub fn insert(&mut self, ip: IpAddr, entry: DnsEntry)
        ensures
            final(self)@ == old(self)@.insert(ip, (entry.hostname@, entry.expires_at)),
    {
        match ip {
            IpAddr::V4(n) => {
                self.v4.insert(n, entry);
            },
            IpAddr::V6(n) => {
                self.v6.insert(n, entry);
            },
        }
        assert(self@ =~= old(self)@.insert(ip, (entry.hostname@, entry.expires_at)));
    }

    /// What is known of an address, whether it still holds or not.
    pub fn get(&self, ip: IpAddr) -> (r: Option<&DnsEntry>)
        ensures
            match r {
                Some(e) => self@.contains_key(ip) && self@[ip] == (e.hostname@, e.expires_at),
                None => !self@.contains_key(ip),
            },
    {
        match ip {
            IpAddr::V4(n) => self.v4.get(&n),
            IpAddr::V6(n) => self.v6.get(&n),
        }
    }

    /// Drops what no longer holds at `now`.
    pub fn evict(&mut self, now: u64)
        ensures
            final(self)@ == fresh(old(self)@, now),
    {
        drop_stale(&mut self.v4, now);
        drop_stale(&mut self.v6, now);
        assert(self@ =~= fresh(old(self)@, now));
    }
}

/// Notes what answers say, in their order.
pub fn ingest_answers(answers: Vec<DnsAnswer>, cache: &mut DnsCache, now: u64)
    requires
        now <= LATEST_NS,
    ensures
        final(cache)@ == after_answers(old(cache)@, answers_view(answers@), now),
{
    let ghost all = answers_view(answers@);
    let ghost start = cache@;
    assert(all.take(0) =~= Seq::<(Seq<char>, u32, Option<IpAddr>)>::empty());
    for a in it: answers
        invariant
            now <= LATEST_NS,
            all == answers_view(it.seq()),
            cache@ == after_answers(start, all.take(it.index() as int), now),
    {
        proof {
            let i = it.index() as int;
            assert(all.take(i + 1).drop_last() =~= all.take(i));
            assert(all.take(i + 1).last() == a@);
        }
        let hostname = host_name(a.name.as_str());
        if !hostname.as_str().is_empty() {
            let seconds: u64 = if a.ttl == 0 {
                1
            } else {
                a.ttl as u64
            };
            let expires_at: u64 = now + seconds * 1_000_000_000;
            if let Some(ip) = a.addr {
                cache.insert(ip, DnsEntry { hostname, expires_at });
            }
        }
    }
    assert(all.take(all.len() as int) =~= all);
}

/// Notes what a captured DNS payload says.
pub fn ingest_dns(event: &DnsEvent, cache: &mut DnsCache, now: u64)
    requires
        now <= LATEST_NS,
    ensures
        final(cache)@ == after_payload(old(cache)@, event.len as int, event.data@, now),
{
    let len: usize = event.len as usize;
    if len == 0 || len > DNS_PAYLOAD_MAX {
        return;
    }
    let packet = slice_subrange(event.data.as_slice(), 0, len);
    assert(packet@ =~= event.data@.take(event.len as int));
    if let Some(answers) = parse_answers(packet) {
        ingest_answers(answers, cache, now);
    }
}

/// Notes what an item off the DNS ring buffer says.
pub fn ingest_item(item: &[u8], cache: &mut DnsCache, now: u64)
    requires
        now <= LATEST_NS,
    ensures
        final(cache)@ == after_item(old(cache)@, item@, now),
{
    if let Some(event) = DnsEvent::from_bytes(item) {
        ingest_dns(&event, cache, now);
    }
}

/// The destination of a flow: none where the family is unknown or an IPv4 address is zero.
pub open spec fn destination(e: ConnectEvent) -> Option<IpAddr> {
    if e.family == 4 {
        if e.daddr_v4 == 0 {
            None
        } else {
            Some(IpAddr::V4(bytes::be_nat(addr::v4_octets(e.daddr_v4)) as u32))
        }
    } else if e.family == 6 {
        Some(IpAddr::V6(bytes::be_nat(e.daddr_v6@) as u128))
    } else {
        None
    }
}

/// The destination of a flow.
pub fn connect_event_ip(e: &ConnectEvent) -> (r: Option<IpAddr>)
    ensures
        r == destination(*e),
{
    if e.family == 4 {
        if e.daddr_v4 == 0 {
            return None;
        }
        Some(IpAddr::V4(addr::ipv4_number(e.daddr_v4)))
    } else if e.family == 6 {
        Some(IpAddr::V6(addr::ipv6_number(&e.daddr_v6)))
    } else {
        None
    }
}

/// The host name known at `now` for a flow's destination.
pub fn lookup_host<'a>(e: &ConnectEvent, cache: &'a DnsCache, now: u64) -> (r: Option<&'a str>)
    ensures
        text::opt_str_text(r) == host_at(cache@, destination(*e), now),
{
    match connect_event_ip(e) {
        Some(ip) => match cache.get(ip) {
            Some(entry) => if entry.expires_at > now {
                Some(entry.hostname.as_str())
            } else {
                None
            },
            None => None,
        },
        None => None,
    }
}

/// The text of a flow's destination.
pub open spec fn destination_text(e: ConnectEvent) -> Option<Seq<char>> {
    if e.family == 4 {
        if e.daddr_v4 == 0 {
            None
        } else {
            Some(addr::ipv4_text(addr::v4_octets(e.daddr_v4)))
        }
    } else if e.family == 6 {
        Some(addr::ipv6_text(e.daddr_v6@))
    } else {
        None
    }
}

/// The text of a flow's destination, as a rule on addresses compares it.
pub fn event_ip_string(e: &ConnectEvent) -> (r: Option<String>)
    ensures
        text::opt_text(r) == destination_text(*e),
{
    if e.family == 4 {
        if e.daddr_v4 == 0 {
            return None;
        }
        Some(addr::ipv4_string(e.daddr_v4))
    } else if e.family == 6 {
        Some(addr::ipv6_string(&e.daddr_v6))
    } else {
        None
    }
}

/// Dots at the end of a name do not belong to it, and nothing else is taken off.
pub proof fn lemma_trailing_dots(name: Seq<char>, dots: nat)
    requires
        name.len() > 0 ==> name.last() != '.',
    ensures
        trim_dots(name + Seq::new(dots, |i: int| '.')) == name,
    decreases dots,
{
    let s = name + Seq::new(dots, |i: int| '.');
    if dots > 0 {
        lemma_trailing_dots(name, (dots - 1) as nat);
        assert(s.drop_last() =~= name + Seq::new((dots - 1) as nat, |i: int| '.'));
    } else {
        assert(s =~= name);
    }
}

/// An address record gives its owner's name to its address for as many seconds as it states,
/// and no longer; one that states none holds for a second.
pub proof fn lemma_record_names_its_address(
    m: Map<IpAddr, (Seq<char>, u64)>,
    host: Seq<char>,
    dots: nat,
    ttl: u32,
    ip: IpAddr,
    now: u64,
    later: u64,
)
    requires
        host.len() > 0,
        host.last() != '.',
        now <= 14_151_776_778_709_551_615,
    ensures
        ({
            let after = after_answer(m, (host + Seq::new(dots, |i: int| '.'), ttl, Some(ip)), now);
            let end = now + 1_000_000_000 * (if ttl == 0 {
                1int
            } else {
                ttl as int
            });
            &&& later < end ==> host_at(after, Some(ip), later) == Some(host)
            &&& later >= end ==> host_at(after, Some(ip), later) is None
        }),
{
    lemma_trailing_dots(host, dots);
}

/// A record without an address, or of the root, teaches nothing.
pub proof fn lemma_empty_records_teach_nothing(
    m: Map<IpAddr, (Seq<char>, u64)>,
    name: Seq<char>,
    dots: nat,
    ttl: u32,
    ip: IpAddr,
    now: u64,
)
    ensures
        after_answer(m, (name, ttl, None), now) == m,
        after_answer(m, (Seq::new(dots, |i: int| '.'), ttl, Some(ip)), now) == m,
{
    lemma_trailing_dots(Seq::empty(), dots);
    assert(Seq::<char>::empty() + Seq::new(dots, |i: int| '.') =~= Seq::new(dots, |i: int| '.'));
}

/// Answers are noted in their order: the last one on an address is what is known of it.
pub proof fn lemma_last_answer_counts(
    m: Map<IpAddr, (Seq<char>, u64)>,
    before: Seq<(Seq<char>, u32, Option<IpAddr>)>,
    last: (Seq<char>, u32, Option<IpAddr>),
    now: u64,
)
    ensures
        after_answers(m, Seq::empty(), now) == m,
        after_answers(m, before.push(last), now) == after_answer(after_answers(m, before, now), last, now),
{
    assert(before.push(last).drop_last() =~= before);
}

/// What is known of an address that no answer speaks of stays as it was.
pub proof fn lemma_answers_keep_others(
    m: Map<IpAddr, (Seq<char>, u64)>,
    answers: Seq<(Seq<char>, u32, Option<IpAddr>)>,
    other: IpAddr,
    now: u64,
    later: u64,
)
    requires
        forall|i: int| 0 <= i < answers.len() ==> (#[trigger] answers[i]).2 != Some(other),
    ensures
        host_at(after_answers(m, answers, now), Some(other), later) == host_at(m, Some(other), later),
    decreases answers.len(),
{
    if answers.len() > 0 {
        let before = answers.drop_last();
        assert forall|i: int| 0 <= i < before.len() implies (#[trigger] before[i]).2 != Some(other) by {
            assert(before[i] == answers[i]);
        }
        lemma_answers_keep_others(m, before, other, now, later);
        lemma_answer_keeps_others(after_answers(m, before, now), answers[answers.len() - 1], other, now, later);
    }
}

/// Every address record of a message is noted, unless a later record of the message is on the
/// same address.
pub proof fn lemma_every_record_is_noted(
    m: Map<IpAddr, (Seq<char>, u64)>,
    answers: Seq<(Seq<char>, u32, Option<IpAddr>)>,
    i: int,
    host: Seq<char>,
    dots: nat,
    ip: IpAddr,
    now: u64,
    later: u64,
)
    requires
        0 <= i < answers.len(),
        answers[i].0 == host + Seq::new(dots, |k: int| '.'),
        answers[i].2 == Some(ip),
        forall|j: int| i < j < answers.len() ==> (#[trigger] answers[j]).2 != Some(ip),
        host.len() > 0,
        host.last() != '.',
        now <= 14_151_776_778_709_551_615,
        answers[i].1 > 0,
    ensures
        later < now + 1_000_000_000 * answers[i].1 ==> host_at(after_answers(m, answers, now), Some(ip), later)
            == Some(host),
        later >= now + 1_000_000_000 * answers[i].1 ==> host_at(
            after_answers(m, answers, now),
            Some(ip),
            later,
        ) is None,
    decreases answers.len(),
{
    let before = answers.drop_last();
    let known = after_answers(m, before, now);
    if i == answers.len() - 1 {
        lemma_record_names_its_address(known, host, dots, answers[i].1, ip, now, later);
        assert(answers.last() == (answers[i].0, answers[i].1, answers[i].2));
    } else {
        assert(before[i] == answers[i]);
        assert forall|j: int| i < j < before.len() implies (#[trigger] before[j]).2 != Some(ip) by {
            assert(before[j] == answers[j]);
        }
        lemma_every_record_is_noted(m, before, i, host, dots, ip, now, later);
        lemma_answer_keeps_others(known, answers[answers.len() - 1], ip, now, later);
    }
}

/// An item off the ring buffer states its length in two bytes, the less significant first,
/// and holds its payload behind eight; that much of it is parsed, and nothing else.
pub proof fn lemma_items_are_parsed_as_stated(
    m: Map<IpAddr, (Seq<char>, u64)>,
    payload: Seq<u8>,
    header: Seq<u8>,
    rest: Seq<u8>,
    now: u64,
)
    requires
        header.len() == 8,
        header[0] + 256 * header[1] == payload.len(),
        0 < payload.len() <= 512,
        8 + payload.len() + rest.len() >= 520,
    ensures
        after_item(m, header + payload + rest, now) == match dns_answers(payload) {
            Some(answers) => after_answers(m, answers, now),
            None => m,
        },
{
    let item = header + payload + rest;
    let head = item.subrange(0, 2);
    assert(head[0] == header[0] && head[1] == header[1]);
    bytes::lemma_le_weights(head);
    assert(item.subrange(8, 520).take(payload.len() as int) =~= payload);
}

/// An item that is too short, or that states no length or too much, teaches nothing.
pub proof fn lemma_broken_items_teach_nothing(m: Map<IpAddr, (Seq<char>, u64)>, item: Seq<u8>, now: u64)
    requires
        item.len() < 520 || item[0] + 256 * item[1] == 0 || item[0] + 256 * item[1] > 512,
    ensures
        after_item(m, item, now) == m,
{
    if item.len() >= 520 {
        bytes::lemma_le_weights(item.subrange(0, 2));
    }
}

/// The host that is looked up for a flow is the one that answers gave to the address it goes
/// to, byte for byte.
pub proof fn lemma_destination_by_octets(e: ConnectEvent, a: u8, b: u8, c: u8, d: u8)
    requires
        e.family == 4,
        e.daddr_v4 == a + 0x100 * b + 0x1_0000 * c + 0x100_0000 * d,
        e.daddr_v4 != 0,
    ensures
        destination(e) == Some(IpAddr::V4((0x100_0000 * a + 0x1_0000 * b + 0x100 * c + d) as u32)),
        destination_text(e) == Some(
            text::decimal(a as nat) + seq!['.'] + text::decimal(b as nat) + seq!['.'] + text::decimal(c as nat)
                + seq!['.'] + text::decimal(d as nat),
        ),
{
    addr::lemma_ipv4_by_octets(a, b, c, d, e.daddr_v4);
}

/// Two IPv6 flows go to the same destination exactly if their addresses are the same byte for
/// byte, and an IPv6 address is never an IPv4 address.
pub proof fn lemma_destinations_tell_apart(e: ConnectEvent, f: ConnectEvent)
    requires
        e.family == 6,
    ensures
        destination(e) is Some,
        f.family == 6 ==> (destination(e) == destination(f) <==> e.daddr_v6@ == f.daddr_v6@),
        f.family == 4 ==> destination(e) != destination(f),
        destination(e) matches Some(IpAddr::V6(n)) && n as nat == 256 * bytes::be_nat(e.daddr_v6@.take(15))
            + e.daddr_v6@[15],
        destination_text(e) == Some(addr::ipv6_text(e.daddr_v6@)),
{
    bytes::lemma_be_nat_bound(e.daddr_v6@);
    bytes::lemma_be_nat_bound(f.daddr_v6@);
    bytes::lemma_pow256_small();
    bytes::lemma_be_weights(e.daddr_v6@);
    if bytes::be_nat(e.daddr_v6@) == bytes::be_nat(f.daddr_v6@) {
        bytes::lemma_be_tells_apart(e.daddr_v6@, f.daddr_v6@);
    }
}

/// A flow of no known family, or to the IPv4 address zero, has no destination to look up.
pub proof fn lemma_no_destination(e: ConnectEvent)
    ensures
        (e.family == 4 && e.daddr_v4 == 0) || (e.family != 4 && e.family != 6) <==> destination(e) is None,
        destination(e) is None <==> destination_text(e) is None,
{
}

/// Evicting drops exactly what no longer holds.
pub proof fn lemma_eviction_drops_the_stale(m: Map<IpAddr, (Seq<char>, u64)>, ip: IpAddr, now: u64)
    ensures
        fresh(m, now).contains_key(ip) <==> m.contains_key(ip) && now < m[ip].1,
        fresh(m, now).contains_key(ip) ==> fresh(m, now)[ip] == m[ip],
{
}

/// A record is its name, how long it holds, and its address.
pub proof fn lemma_answers_view(answers: Seq<DnsAnswer>, i: int)
    ensures
        answers_view(answers).len() == answers.len(),
        0 <= i < answers.len() ==> answers_view(answers)[i] == (answers[i].name@, answers[i].ttl, answers[i].addr),
{
}

/// What a packet teaches that is captured over IPv6: each address record of the DNS message
/// behind its headers, unless a later one is on the same address.
pub proof fn lemma_captured_answers_are_learned(
    m: Map<IpAddr, (Seq<char>, u64)>,
    eth: Seq<u8>,
    ip: Seq<u8>,
    udp: Seq<u8>,
    payload: Seq<u8>,
    rest: Seq<u8>,
    e: DnsEvent,
    answers: Seq<(Seq<char>, u32, Option<IpAddr>)>,
    now: u64,
)
    requires
        eth.len() == 14,
        eth[12] == 0x86,
        eth[13] == 0xdd,
        ip.len() == 40,
        ip[6] == 17,
        udp.len() == 8,
        (udp[0] == 0 && udp[1] == 53) || (udp[2] == 0 && udp[3] == 53),
        udp[4] * 256 + udp[5] == 8 + payload.len(),
        12 <= payload.len() <= 512,
        kernel::dns_payload(eth + ip + udp + payload + rest) matches Some(p) && kernel::carries(e, p),
        dns_answers(payload) == Some(answers),
    ensures
        after_payload(m, e.len as int, e.data@, now) == after_answers(m, answers, now),
{
    kernel::lemma_dns_over_ipv6_is_captured(eth, ip, udp, payload, rest);
    lemma_captured_payload_is_parsed(m, eth + ip + udp + payload + rest, e, now);
}

} // verus!
