//! The records that cross the kernel boundary byte for byte, and their layout.
//!
//! The kernel object is built for little-endian targets only, so every integer is
//! little-endian; addresses keep the byte order they have on the wire.

use vstd::prelude::*;

use crate::bytes;

verus! {

/// One outbound flow, as a hook records it.
#[derive(Copy, Clone, Debug)]
pub struct ConnectEvent {
    pub pid: u32,
    pub uid: u32,
    pub start_ns: u64,
    pub daddr_v4: u32,
    pub daddr_v6: [u8; 16],
    pub dport: u16,
    pub family: u8,
    pub _pad: u8,
    pub comm: [u8; 16],
}

/// What the kernel side knows of a process.
#[derive(Copy, Clone, Debug)]
pub struct ProcessInfo {
    pub pid: u32,
    pub ppid: u32,
    pub uid: u32,
    pub _pad: u32,
    pub start_ns: u64,
    pub exe_inode: u64,
    pub comm: [u8; 16],
}

/// The most payload bytes of a DNS packet that are captured.
pub const DNS_PAYLOAD_MAX: usize = 512;

/// A captured DNS payload: the first `len` bytes of `data`.
#[derive(Copy, Clone, Debug)]
pub struct DnsEvent {
    pub len: u16,
    pub _pad: [u8; 6],
    pub data: [u8; DNS_PAYLOAD_MAX],
}

/// The key under which the kernel caches the verdict on a flow.
#[derive(Copy, Clone, Debug, PartialEq, Eq, Hash)]
pub struct FlowKey {
    pub pid: u32,
    pub _pad0: u32,
    pub start_ns: u64,
    pub daddr_v4: u32,
    pub daddr_v6: [u8; 16],
    pub dport: u16,
    pub family: u8,
    pub _pad: u8,
}

/// The value cached for a denied flow.
pub const VERDICT_DENY: u8 = 0;

pub const CONNECT_EVENT_SIZE: usize = 56;

pub const DNS_EVENT_SIZE: usize = 520;

/// The bytes of a `ConnectEvent`.
pub open spec fn connect_event_bytes(e: ConnectEvent) -> Seq<u8> {
    bytes::le_bytes(e.pid as nat, 4) + bytes::le_bytes(e.uid as nat, 4) + bytes::le_bytes(e.start_ns as nat, 8)
        + bytes::le_bytes(e.daddr_v4 as nat, 4) + e.daddr_v6@ + bytes::le_bytes(e.dport as nat, 2)
        + seq![e.family, e._pad] + e.comm@
}

/// The bytes `b` begin with the record `e`: each field stands at its offset.
pub open spec fn holds_connect_event(b: Seq<u8>, e: ConnectEvent) -> bool {
    &&& b.len() >= CONNECT_EVENT_SIZE
    &&& e.pid == bytes::le_nat(b.subrange(0, 4))
    &&& e.uid == bytes::le_nat(b.subrange(4, 8))
    &&& e.start_ns == bytes::le_nat(b.subrange(8, 16))
    &&& e.daddr_v4 == bytes::le_nat(b.subrange(16, 20))
    &&& e.daddr_v6@ == b.subrange(20, 36)
    &&& e.dport == bytes::le_nat(b.subrange(36, 38))
    &&& e.family == b[38]
    &&& e._pad == b[39]
    &&& e.comm@ == b.subrange(40, 56)
}

/// The bytes of a `DnsEvent`.
pub open spec fn dns_event_bytes(e: DnsEvent) -> Seq<u8> {
    bytes::le_bytes(e.len as nat, 2) + e._pad@ + e.data@
}

/// The bytes `b` begin with the record `e`.
pub open spec fn holds_dns_event(b: Seq<u8>, e: DnsEvent) -> bool {
    &&& b.len() >= DNS_EVENT_SIZE
    &&& e.len == bytes::le_nat(b.subrange(0, 2))
    &&& e._pad@ == b.subrange(2, 8)
    &&& e.data@ == b.subrange(8, 520)
}

impl ConnectEvent {
    /// Reads the record off the front of a ring buffer item; an item that is too short
    /// holds none.
    pub fn from_bytes(item: &[u8]) -> (r: Option<ConnectEvent>)
        ensures
            r is Some <==> item@.len() >= CONNECT_EVENT_SIZE,
            r is Some ==> holds_connect_event(item@, r->0),
    {
        if item.len() < CONNECT_EVENT_SIZE {
            return None;
        }
        proof {
            bytes::lemma_pow256_small();
        }
        Some(
            ConnectEvent {
                pid: bytes::read_le(item, 0, 4) as u32,
                uid: bytes::read_le(item, 4, 4) as u32,
                start_ns: bytes::read_le(item, 8, 8),
                daddr_v4: bytes::read_le(item, 16, 4) as u32,
                daddr_v6: bytes::read_16(item, 20),
                dport: bytes::read_le(item, 36, 2) as u16,
                family: item[38],
                _pad: item[39],
                comm: bytes::read_16(item, 40),
            },
        )
    }

    /// The record's bytes.
    pub fn to_bytes(&self) -> (r: Vec<u8>)
        ensures
            r@ == connect_event_bytes(*self),
    {
        let mut out: Vec<u8> = Vec::new();
        bytes::append_le(&mut out, self.pid as u64, 4);
        bytes::append_le(&mut out, self.uid as u64, 4);
        bytes::append_le(&mut out, self.start_ns, 8);
        bytes::append_le(&mut out, self.daddr_v4 as u64, 4);
        bytes::append_slice(&mut out, self.daddr_v6.as_slice());
        bytes::append_le(&mut out, self.dport as u64, 2);
        out.push(self.family);
        out.push(self._pad);
        bytes::append_slice(&mut out, self.comm.as_slice());
        assert(out@ =~= connect_event_bytes(*self));
        out
    }
}

impl DnsEvent {
    /// Reads the record off the front of a ring buffer item; an item that is too short
    /// holds none.
    pub fn from_bytes(item: &[u8]) -> (r: Option<DnsEvent>)
        ensures
            r is Some <==> item@.len() >= DNS_EVENT_SIZE,
            r is Some ==> holds_dns_event(item@, r->0),
    {
        if item.len() < DNS_EVENT_SIZE {
            return None;
        }
        proof {
            bytes::lemma_pow256_small();
        }
        let mut data: [u8; DNS_PAYLOAD_MAX] = [0;DNS_PAYLOAD_MAX];
        let mut i: usize = 0;
        while i < DNS_PAYLOAD_MAX
            invariant
                i <= DNS_PAYLOAD_MAX,
                item@.len() >= DNS_EVENT_SIZE,
                data@.take(i as int) == item@.subrange(8, 8 + i),
            decreases DNS_PAYLOAD_MAX - i,
        {
            data[i] = item[8 + i];
            i += 1;
            assert(data@.take(i as int) =~= item@.subrange(8, 8 + i));
        }
        assert(data@ =~= data@.take(512));
        let pad: [u8; 6] = [item[2], item[3], item[4], item[5], item[6], item[7]];
        assert(pad@ =~= item@.subrange(2, 8));
        Some(DnsEvent { len: bytes::read_le(item, 0, 2) as u16, _pad: pad, data })
    }

    /// The record's bytes.
    pub fn to_bytes(&self) -> (r: Vec<u8>)
        ensures
            r@ == dns_event_bytes(*self),
    {
        let mut out: Vec<u8> = Vec::new();
        bytes::append_le(&mut out, self.len as u64, 2);
        bytes::append_slice(&mut out, self._pad.as_slice());
        bytes::append_slice(&mut out, self.data.as_slice());
        assert(out@ =~= dns_event_bytes(*self));
        out
    }
}

/// Whatever follows a `ConnectEvent` in its ring buffer item, the record that is read back
/// is the one that was written, and a record fills `CONNECT_EVENT_SIZE` bytes.
pub proof fn lemma_connect_event_roundtrip(e: ConnectEvent, rest: Seq<u8>, read: ConnectEvent)
    requires
        holds_connect_event(connect_event_bytes(e) + rest, read),
    ensures
        connect_event_bytes(e).len() == CONNECT_EVENT_SIZE,
        read == e,
{
    bytes::lemma_pow256_small();
    bytes::lemma_le_roundtrip(e.pid as nat, 4);
    bytes::lemma_le_roundtrip(e.uid as nat, 4);
    bytes::lemma_le_roundtrip(e.start_ns as nat, 8);
    bytes::lemma_le_roundtrip(e.daddr_v4 as nat, 4);
    bytes::lemma_le_roundtrip(e.dport as nat, 2);
    let b = connect_event_bytes(e) + rest;
    assert(b.subrange(0, 4) =~= bytes::le_bytes(e.pid as nat, 4));
    assert(b.subrange(4, 8) =~= bytes::le_bytes(e.uid as nat, 4));
    assert(b.subrange(8, 16) =~= bytes::le_bytes(e.start_ns as nat, 8));
    assert(b.subrange(16, 20) =~= bytes::le_bytes(e.daddr_v4 as nat, 4));
    assert(b.subrange(20, 36) =~= e.daddr_v6@);
    assert(b.subrange(36, 38) =~= bytes::le_bytes(e.dport as nat, 2));
    assert(b.subrange(40, 56) =~= e.comm@);
    assert(read.daddr_v6 =~= e.daddr_v6);
    assert(read.comm =~= e.comm);
}

/// Whatever follows a `DnsEvent` in its ring buffer item, the record that is read back is
/// the one that was written, and a record fills `DNS_EVENT_SIZE` bytes.
pub proof fn lemma_dns_event_roundtrip(e: DnsEvent, rest: Seq<u8>, read: DnsEvent)
    requires
        holds_dns_event(dns_event_bytes(e) + rest, read),
    ensures
        dns_event_bytes(e).len() == DNS_EVENT_SIZE,
        read == e,
{
    bytes::lemma_pow256_small();
    bytes::lemma_le_roundtrip(e.len as nat, 2);
    let b = dns_event_bytes(e) + rest;
    assert(b.subrange(0, 2) =~= bytes::le_bytes(e.len as nat, 2));
    assert(b.subrange(2, 8) =~= e._pad@);
    assert(b.subrange(8, 520) =~= e.data@);
    assert(read._pad =~= e._pad);
    assert(read.data =~= e.data);
}

/// Where each field of a `ConnectEvent` stands in its bytes.
pub proof fn lemma_connect_event_layout(e: ConnectEvent)
    ensures
        ({
            let b = connect_event_bytes(e);
            &&& b.len() == 56
            &&& e.pid == b[0] + 256 * b[1] + 0x1_0000 * b[2] + 0x100_0000 * b[3]
            &&& e.uid == b[4] + 256 * b[5] + 0x1_0000 * b[6] + 0x100_0000 * b[7]
            &&& e.start_ns == bytes::le_nat(b.subrange(8, 16))
            &&& e.daddr_v4 == b[16] + 256 * b[17] + 0x1_0000 * b[18] + 0x100_0000 * b[19]
            &&& forall|i: int| 0 <= i < 16 ==> b[20 + i] == #[trigger] e.daddr_v6@[i]
            &&& e.dport == b[36] + 256 * b[37]
            &&& e.family == b[38]
            &&& e._pad == b[39]
            &&& forall|i: int| 0 <= i < 16 ==> b[40 + i] == #[trigger] e.comm@[i]
        }),
{
    bytes::lemma_pow256_small();
    bytes::lemma_le_roundtrip(e.pid as nat, 4);
    bytes::lemma_le_roundtrip(e.uid as nat, 4);
    bytes::lemma_le_roundtrip(e.start_ns as nat, 8);
    bytes::lemma_le_roundtrip(e.daddr_v4 as nat, 4);
    bytes::lemma_le_roundtrip(e.dport as nat, 2);
    bytes::lemma_le_weights(bytes::le_bytes(e.pid as nat, 4));
    bytes::lemma_le_weights(bytes::le_bytes(e.uid as nat, 4));
    bytes::lemma_le_weights(bytes::le_bytes(e.daddr_v4 as nat, 4));
    bytes::lemma_le_weights(bytes::le_bytes(e.dport as nat, 2));
    let b = connect_event_bytes(e);
    assert(b.subrange(8, 16) =~= bytes::le_bytes(e.start_ns as nat, 8));
}

/// Where each field of a `ConnectEvent` is read.
pub proof fn lemma_connect_event_fields(b: Seq<u8>, e: ConnectEvent)
    requires
        holds_connect_event(b, e),
    ensures
        b.len() >= 56,
        e.pid == b[0] + 256 * b[1] + 0x1_0000 * b[2] + 0x100_0000 * b[3],
        e.uid == b[4] + 256 * b[5] + 0x1_0000 * b[6] + 0x100_0000 * b[7],
        e.daddr_v4 == b[16] + 256 * b[17] + 0x1_0000 * b[18] + 0x100_0000 * b[19],
        forall|i: int| 0 <= i < 16 ==> #[trigger] e.daddr_v6@[i] == b[20 + i],
        e.dport == b[36] + 256 * b[37],
        e.family == b[38],
        forall|i: int| 0 <= i < 16 ==> #[trigger] e.comm@[i] == b[40 + i],
{
    bytes::lemma_le_weights(b.subrange(0, 4));
    bytes::lemma_le_weights(b.subrange(4, 8));
    bytes::lemma_le_weights(b.subrange(16, 20));
    bytes::lemma_le_weights(b.subrange(36, 38));
    assert forall|i: int| 0 <= i < 16 implies #[trigger] e.daddr_v6@[i] == b[20 + i] by {
        assert(b.subrange(20, 36)[i] == b[20 + i]);
    }
    assert forall|i: int| 0 <= i < 16 implies #[trigger] e.comm@[i] == b[40 + i] by {
        assert(b.subrange(40, 56)[i] == b[40 + i]);
    }
}

/// Where each field of a `DnsEvent` stands in its bytes.
pub proof fn lemma_dns_event_layout(e: DnsEvent)
    ensures
        ({
            let b = dns_event_bytes(e);
            &&& b.len() == 520
            &&& e.len == b[0] + 256 * b[1]
            &&& forall|i: int| 0 <= i < 512 ==> b[8 + i] == #[trigger] e.data@[i]
        }),
{
    bytes::lemma_pow256_small();
    bytes::lemma_le_roundtrip(e.len as nat, 2);
    bytes::lemma_le_weights(bytes::le_bytes(e.len as nat, 2));
}

/// Where each field of a `DnsEvent` is read.
pub proof fn lemma_dns_event_fields(b: Seq<u8>, e: DnsEvent)
    requires
        holds_dns_event(b, e),
    ensures
        b.len() >= 520,
        e.len == b[0] + 256 * b[1],
        forall|i: int| 0 <= i < 512 ==> #[trigger] e.data@[i] == b[8 + i],
{
    bytes::lemma_le_weights(b.subrange(0, 2));
    assert forall|i: int| 0 <= i < 512 implies #[trigger] e.data@[i] == b[8 + i] by {
        assert(b.subrange(8, 520)[i] == b[8 + i]);
    }
}

/// Where the start time of a `ConnectEvent` is read.
pub proof fn lemma_connect_event_start(b: Seq<u8>, e: ConnectEvent)
    requires
        holds_connect_event(b, e),
    ensures
        e.start_ns == b[8] + 256 * b[9] + 0x1_0000 * b[10] + 0x100_0000 * b[11] + 0x1_0000_0000 * b[12]
            + 0x100_0000_0000 * b[13] + 0x1_0000_0000_0000 * b[14] + 0x100_0000_0000_0000 * b[15],
{
    bytes::lemma_le_weights(b.subrange(8, 16));
}

} // verus!
