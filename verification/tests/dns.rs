use dadophoros::addr::IpAddr;
use dadophoros::common::{DnsEvent, DNS_EVENT_SIZE, DNS_PAYLOAD_MAX};
use dadophoros::dns::{ingest_answers, ingest_dns, ingest_item, DnsAnswer, DnsCache, DnsEntry};
use dadophoros::kernel::{capture_dns, dns_egress, dns_ingress};
use hickory_proto::op::Message;
use hickory_proto::rr::rdata::{A, AAAA, CNAME};
use hickory_proto::rr::{Name, RData, Record};

const SECOND: u64 = 1_000_000_000;

fn event(packet: &[u8]) -> DnsEvent {
    let mut data = [0u8; DNS_PAYLOAD_MAX];
    data[..packet.len()].copy_from_slice(packet);
    DnsEvent { len: packet.len() as u16, _pad: [0; 6], data }
}

fn record(name: &str, ttl: u32, data: RData) -> Record {
    Record::from_rdata(Name::from_ascii(name).unwrap(), ttl, data)
}

fn response(records: Vec<Record>) -> Vec<u8> {
    let mut msg = Message::new();
    for r in records {
        msg.add_answer(r);
    }
    msg.to_vec().unwrap()
}

fn host(cache: &DnsCache, ip: IpAddr) -> Option<(String, u64)> {
    cache.get(ip).map(|e| (e.hostname.clone(), e.expires_at))
}

#[test]
fn answers_teach_names_for_their_ttl() {
    let packet = response(vec![
        record("github.com.", 60, RData::A(A::new(140, 82, 121, 4))),
        record("alias.example.", 60, RData::CNAME(CNAME(Name::from_ascii("github.com.").unwrap()))),
        record("v6.example.", 0, RData::AAAA(AAAA::new(0x2001, 0xdb8, 0, 0, 0, 0, 0, 1))),
    ]);
    let mut cache = DnsCache::new();
    ingest_dns(&event(&packet), &mut cache, 5);
    assert_eq!(
        host(&cache, IpAddr::V4(0x8c52_7904)),
        Some(("github.com".to_string(), 5 + 60 * SECOND))
    );
    assert_eq!(
        host(&cache, IpAddr::V6(0x2001_0db8_0000_0000_0000_0000_0000_0001)),
        Some(("v6.example".to_string(), 5 + SECOND))
    );
    assert_eq!(host(&cache, IpAddr::V4(0)), None);
}

#[test]
fn a_later_answer_takes_the_place_of_an_earlier_one() {
    let a = |name: &str, ttl: u32| DnsAnswer { name: name.to_string(), ttl, addr: Some(IpAddr::V4(1)) };
    let mut cache = DnsCache::new();
    ingest_answers(vec![a("old.example.", 9), a("new.example", 3)], &mut cache, 0);
    assert_eq!(host(&cache, IpAddr::V4(1)), Some(("new.example".to_string(), 3 * SECOND)));
}

#[test]
fn the_root_and_records_without_address_teach_nothing() {
    let mut cache = DnsCache::new();
    ingest_answers(
        vec![
            DnsAnswer { name: "...".to_string(), ttl: 9, addr: Some(IpAddr::V4(1)) },
            DnsAnswer { name: "".to_string(), ttl: 9, addr: Some(IpAddr::V4(2)) },
            DnsAnswer { name: "cname.example".to_string(), ttl: 9, addr: None },
        ],
        &mut cache,
        0,
    );
    assert_eq!(host(&cache, IpAddr::V4(1)), None);
    assert_eq!(host(&cache, IpAddr::V4(2)), None);
}

#[test]
fn broken_payloads_are_passed_over() {
    let mut cache = DnsCache::new();
    cache.insert(IpAddr::V4(1), DnsEntry { hostname: "kept".to_string(), expires_at: 1 });
    ingest_dns(&event(&[]), &mut cache, 0);
    ingest_dns(&event(&[0xff; 12]), &mut cache, 0);
    let mut long = event(&[1, 2, 3]);
    long.len = 513;
    ingest_dns(&long, &mut cache, 0);
    assert_eq!(host(&cache, IpAddr::V4(1)), Some(("kept".to_string(), 1)));
    assert_eq!(host(&cache, IpAddr::V4(0)), None);
}

#[test]
fn ring_buffer_items_are_ingested() {
    let packet = response(vec![record("ring.example.", 1, RData::A(A::new(1, 2, 3, 4)))]);
    let item = event(&packet).to_bytes();
    assert_eq!(item.len(), DNS_EVENT_SIZE);
    let mut cache = DnsCache::new();
    ingest_item(&item[..DNS_EVENT_SIZE - 1], &mut cache, 0);
    assert_eq!(host(&cache, IpAddr::V4(0x01020304)), None);
    ingest_item(&item, &mut cache, 0);
    assert_eq!(host(&cache, IpAddr::V4(0x01020304)), Some(("ring.example".to_string(), SECOND)));
}

#[test]
fn eviction_drops_what_no_longer_holds() {
    let mut cache = DnsCache::new();
    let entry = |h: &str, t: u64| DnsEntry { hostname: h.to_string(), expires_at: t };
    cache.insert(IpAddr::V4(1), entry("a", 10));
    cache.insert(IpAddr::V4(2), entry("b", 11));
    cache.insert(IpAddr::V6(1), entry("c", 10));
    cache.insert(IpAddr::V6(2), entry("d", 12));
    cache.evict(10);
    assert_eq!(host(&cache, IpAddr::V4(1)), None);
    assert_eq!(host(&cache, IpAddr::V4(2)), Some(("b".to_string(), 11)));
    assert_eq!(host(&cache, IpAddr::V6(1)), None);
    assert_eq!(host(&cache, IpAddr::V6(2)), Some(("d".to_string(), 12)));
}

fn udp4(src: u16, dst: u16, payload: &[u8]) -> Vec<u8> {
    let mut p = vec![0u8; 12];
    p.extend([0x08, 0x00]);
    let mut ip = vec![0u8; 20];
    ip[0] = 0x45;
    ip[9] = 17;
    p.extend(ip);
    p.extend(src.to_be_bytes());
    p.extend(dst.to_be_bytes());
    p.extend((8 + payload.len() as u16).to_be_bytes());
    p.extend([0, 0]);
    p.extend(payload);
    p
}

#[test]
fn a_captured_packet_teaches_its_names() {
    let payload = response(vec![record("wire.example.", 2, RData::A(A::new(9, 9, 9, 9)))]);
    let packet = udp4(53, 40000, &payload);
    let e = capture_dns(&packet).unwrap();
    assert_eq!(e.len as usize, payload.len());
    assert_eq!(&e.data[..payload.len()], &payload[..]);
    let mut cache = DnsCache::new();
    ingest_dns(&e, &mut cache, 0);
    assert_eq!(host(&cache, IpAddr::V4(0x0909_0909)), Some(("wire.example".to_string(), 2 * SECOND)));
}

#[test]
fn only_dns_over_udp_is_captured() {
    let payload = [7u8; 12];
    assert!(capture_dns(&udp4(53, 1, &payload)).is_some());
    assert!(capture_dns(&udp4(1, 53, &payload)).is_some());
    assert!(capture_dns(&udp4(1, 2, &payload)).is_none());
    // Too short for a DNS header, cut short, not UDP, no IP.
    assert!(capture_dns(&udp4(53, 1, &payload[..11])).is_none());
    let whole = udp4(53, 1, &payload);
    assert!(capture_dns(&whole[..whole.len() - 1]).is_none());
    let mut tcp = udp4(53, 1, &payload);
    tcp[23] = 6;
    assert!(capture_dns(&tcp).is_none());
    let mut arp = udp4(53, 1, &payload);
    arp[13] = 0x06;
    assert!(capture_dns(&arp).is_none());
    // A header length under twenty bytes.
    let mut bad = udp4(53, 1, &payload);
    bad[14] = 0x44;
    assert!(capture_dns(&bad).is_none());
}

#[test]
fn ipv6_packets_and_long_payloads_are_captured() {
    let payload = vec![3u8; 600];
    let mut p = vec![0u8; 12];
    p.extend([0x86, 0xdd]);
    let mut ip = vec![0u8; 40];
    ip[6] = 17;
    p.extend(ip);
    p.extend(53u16.to_be_bytes());
    p.extend(1234u16.to_be_bytes());
    p.extend(608u16.to_be_bytes());
    p.extend([0, 0]);
    p.extend(&payload);
    let e = capture_dns(&p).unwrap();
    assert_eq!(e.len as usize, DNS_PAYLOAD_MAX);
    assert!(e.data.iter().all(|&b| b == 3));
    assert_eq!(dns_egress(&p).action, 0);
    assert!(dns_egress(&p).event.is_some());
    assert_eq!(dns_ingress(&[]).action, 0);
    assert!(dns_ingress(&[]).event.is_none());
}
