//! What the kernel hooks decide: which flows they record, which they refuse, what they
//! remember of processes, and which packets carry DNS.

use vstd::prelude::*;

use crate::bytes;
use crate::common::{ConnectEvent, DnsEvent, FlowKey, ProcessInfo, DNS_PAYLOAD_MAX};

verus! {

/// The running task, as the kernel helpers report it.
#[derive(Copy, Clone, Debug)]
pub struct Task {
    /// Thread group id in the high half, thread id in the low half.
    pub pid_tgid: u64,
    /// Group id in the high half, user id in the low half.
    pub uid_gid: u64,
    /// The command name, or `None` where the helper failed.
    pub comm: Option<[u8; 16]>,
}

/// An IPv4 destination as the socket hook sees it, in network byte order.
#[derive(Copy, Clone, Debug)]
pub struct SockAddr4 {
    pub user_port: u32,
    pub user_ip4: u32,
}

/// An IPv6 destination as the socket hook sees it, in network byte order.
#[derive(Copy, Clone, Debug)]
pub struct SockAddr6 {
    pub user_port: u32,
    pub user_ip6: [u32; 4],
}

/// What a socket hook answers and records.
#[derive(Copy, Clone, Debug)]
pub struct HookOutcome {
    /// 1 lets the call through, 0 makes it fail with `EPERM`.
    pub verdict: i32,
    pub event: Option<ConnectEvent>,
}

/// The process id of a task.
pub open spec fn task_pid(t: Task) -> int {
    t.pid_tgid as int / 0x1_0000_0000
}

/// The user id of a task.
pub open spec fn task_uid(t: Task) -> int {
    t.uid_gid as int % 0x1_0000_0000
}

/// The command name of a task, all zeros where it is not known.
pub open spec fn task_comm(t: Task) -> Seq<u8> {
    match t.comm {
        Some(c) => c@,
        None => Seq::new(16, |i: int| 0u8),
    }
}

/// The port number in a big-endian port field, of which only the low half counts.
pub open spec fn port_number(user_port: u32) -> int {
    bytes::be16((user_port % 256) as u8, ((user_port / 256) % 256) as u8)
}

/// The sixteen address bytes of an IPv6 destination.
pub open spec fn sock_addr6_bytes(a: SockAddr6) -> Seq<u8> {
    bytes::le_bytes(a.user_ip6[0] as nat, 4) + bytes::le_bytes(a.user_ip6[1] as nat, 4)
        + bytes::le_bytes(a.user_ip6[2] as nat, 4) + bytes::le_bytes(a.user_ip6[3] as nat, 4)
}

/// An address in 127.0.0.0/8: the first byte on the wire is 127.
pub open spec fn is_loopback_v4(ip4: u32) -> bool {
    bytes::le_bytes(ip4 as nat, 4)[0] == 127
}

/// The address ::1.
pub open spec fn is_loopback_v6(addr: Seq<u8>) -> bool {
    addr == Seq::new(15, |i: int| 0u8).push(1)
}

/// The flows that are recorded: those with a port, and for `sendmsg` only those that
/// leave the host.
pub open spec fn records(port: int, is_sendmsg: bool, loopback: bool) -> bool {
    port != 0 && !(is_sendmsg && loopback)
}

/// `e` is what is recorded of an IPv4 flow of task `t` to `a`.
pub open spec fn is_event_v4(e: ConnectEvent, a: SockAddr4, t: Task) -> bool {
    &&& e.pid == task_pid(t)
    &&& e.uid == task_uid(t)
    &&& e.start_ns == 0
    &&& e.daddr_v4 == a.user_ip4
    &&& e.daddr_v6@ == Seq::new(16, |i: int| 0u8)
    &&& e.dport == port_number(a.user_port)
    &&& e.family == 4
    &&& e._pad == 0
    &&& e.comm@ == task_comm(t)
}

/// `e` is what is recorded of an IPv6 flow of task `t` to `a`.
pub open spec fn is_event_v6(e: ConnectEvent, a: SockAddr6, t: Task) -> bool {
    &&& e.pid == task_pid(t)
    &&& e.uid == task_uid(t)
    &&& e.start_ns == 0
    &&& e.daddr_v4 == 0
    &&& e.daddr_v6@ == sock_addr6_bytes(a)
    &&& e.dport == port_number(a.user_port)
    &&& e.family == 6
    &&& e._pad == 0
    &&& e.comm@ == task_comm(t)
}

/// `k` is the verdict cache key of an IPv4 flow of task `t` to `a`.
pub open spec fn is_flow_key_v4(k: FlowKey, a: SockAddr4, t: Task) -> bool {
    &&& k.pid == task_pid(t)
    &&& k._pad0 == 0
    &&& k.start_ns == 0
    &&& k.daddr_v4 == a.user_ip4
    &&& k.daddr_v6@ == Seq::new(16, |i: int| 0u8)
    &&& k.dport == port_number(a.user_port)
    &&& k.family == 4
    &&& k._pad == 0
}

/// `k` is the verdict cache key of an IPv6 flow of task `t` to `a`.
pub open spec fn is_flow_key_v6(k: FlowKey, a: SockAddr6, t: Task) -> bool {
    &&& k.pid == task_pid(t)
    &&& k._pad0 == 0
    &&& k.start_ns == 0
    &&& k.daddr_v4 == 0
    &&& k.daddr_v6@ == sock_addr6_bytes(a)
    &&& k.dport == port_number(a.user_port)
    &&& k.family == 6
    &&& k._pad == 0
}

fn dport_of(user_port: u32) -> (r: u16)
    ensures
        r == port_number(user_port),
{
    ((user_port % 256) as u16) * 256 + ((user_port / 256) % 256) as u16
}

fn comm_of(t: &Task) -> (r: [u8; 16])
    ensures
        r@ == task_comm(*t),
{
    match t.comm {
        Some(c) => c,
        None => {
            let zero: [u8; 16] = [0;16];
            assert(zero@ =~= task_comm(*t));
            zero
        },
    }
}

fn pid_of(t: &Task) -> (r: u32)
    ensures
        r == task_pid(*t),
{
    (t.pid_tgid / 0x1_0000_0000) as u32
}

fn uid_of(t: &Task) -> (r: u32)
    ensures
        r == task_uid(*t),
{
    (t.uid_gid % 0x1_0000_0000) as u32
}

proof fn lemma_le4(w: u32)
    ensures
        bytes::le_bytes(w as nat, 4) == seq![
            (w % 256) as u8,
            ((w / 256) % 256) as u8,
            ((w / 65536) % 256) as u8,
            (w / 16777216) as u8,
        ],
{
    reveal_with_fuel(bytes::le_bytes, 5);
    let n = w as nat;
    assert(n / 256 / 256 == n / 65536);
    assert(n / 256 / 256 / 256 == n / 16777216);
    assert(bytes::le_bytes(w as nat, 4) =~= seq![
        (w % 256) as u8,
        ((w / 256) % 256) as u8,
        ((w / 65536) % 256) as u8,
        (w / 16777216) as u8,
    ]);
}

fn addr6_bytes(a: &SockAddr6) -> (r: [u8; 16])
    ensures
        r@ == sock_addr6_bytes(*a),
{
    let mut out: Vec<u8> = Vec::new();
    bytes::append_le(&mut out, a.user_ip6[0] as u64, 4);
    bytes::append_le(&mut out, a.user_ip6[1] as u64, 4);
    bytes::append_le(&mut out, a.user_ip6[2] as u64, 4);
    bytes::append_le(&mut out, a.user_ip6[3] as u64, 4);
    proof {
        bytes::lemma_le_bytes_len(a.user_ip6[0] as nat, 4);
        bytes::lemma_le_bytes_len(a.user_ip6[1] as nat, 4);
        bytes::lemma_le_bytes_len(a.user_ip6[2] as nat, 4);
        bytes::lemma_le_bytes_len(a.user_ip6[3] as nat, 4);
        assert(out@ =~= sock_addr6_bytes(*a));
        assert(out@.subrange(0, 16) =~= out@);
    }
    bytes::read_16(out.as_slice(), 0)
}

/// What the hooks record of an IPv4 flow. Port 0 is socket bookkeeping and carries no
/// traffic; a datagram to the loopback network is plumbing within the host.
pub fn emit_v4(a: &SockAddr4, is_sendmsg: bool, t: &Task) -> (r: Option<ConnectEvent>)
    ensures
        r is Some <==> records(port_number(a.user_port), is_sendmsg, is_loopback_v4(a.user_ip4)),
        r is Some ==> is_event_v4(r->0, *a, *t),
{
    let dport: u16 = dport_of(a.user_port);
    if dport == 0 {
        return None;
    }
    proof {
        lemma_le4(a.user_ip4);
    }
    if is_sendmsg && a.user_ip4 % 256 == 127 {
        return None;
    }
    let zero: [u8; 16] = [0;16];
    assert(zero@ =~= Seq::new(16, |i: int| 0u8));
    Some(
        ConnectEvent {
            pid: pid_of(t),
            uid: uid_of(t),
            start_ns: 0,
            daddr_v4: a.user_ip4,
            daddr_v6: zero,
            dport,
            family: 4,
            _pad: 0,
            comm: comm_of(t),
        },
    )
}

/// What the hooks record of an IPv6 flow.
pub fn emit_v6(a: &SockAddr6, is_sendmsg: bool, t: &Task) -> (r: Option<ConnectEvent>)
    ensures
        r is Some <==> records(
            port_number(a.user_port),
            is_sendmsg,
            is_loopback_v6(sock_addr6_bytes(*a)),
        ),
        r is Some ==> is_event_v6(r->0, *a, *t),
{
    let dport: u16 = dport_of(a.user_port);
    if dport == 0 {
        return None;
    }
    let w0: u32 = a.user_ip6[0];
    let w1: u32 = a.user_ip6[1];
    let w2: u32 = a.user_ip6[2];
    let w3: u32 = a.user_ip6[3];
    proof {
        lemma_le4(w0);
        lemma_le4(w1);
        lemma_le4(w2);
        lemma_le4(w3);
        let b = sock_addr6_bytes(*a);
        let one = Seq::new(15, |i: int| 0u8).push(1);
        if w0 == 0 && w1 == 0 && w2 == 0 && w3 == 0x0100_0000 {
            assert(b =~= one);
        }
        if b == one {
            assert(b[0] == 0 && b[1] == 0 && b[2] == 0 && b[3] == 0);
            assert(b[4] == 0 && b[5] == 0 && b[6] == 0 && b[7] == 0);
            assert(b[8] == 0 && b[9] == 0 && b[10] == 0 && b[11] == 0);
            assert(b[12] == 0 && b[13] == 0 && b[14] == 0 && b[15] == 1);
        }
    }
    if is_sendmsg && w0 == 0 && w1 == 0 && w2 == 0 && w3 == 0x0100_0000 {
        return None;
    }
    Some(
        ConnectEvent {
            pid: pid_of(t),
            uid: uid_of(t),
            start_ns: 0,
            daddr_v4: 0,
            daddr_v6: addr6_bytes(a),
            dport,
            family: 6,
            _pad: 0,
            comm: comm_of(t),
        },
    )
}

/// The verdict cache key of an IPv4 flow.
pub fn flow_key_v4(a: &SockAddr4, t: &Task) -> (k: FlowKey)
    ensures
        is_flow_key_v4(k, *a, *t),
{
    let zero: [u8; 16] = [0;16];
    assert(zero@ =~= Seq::new(16, |i: int| 0u8));
    FlowKey {
        pid: pid_of(t),
        _pad0: 0,
        start_ns: 0,
        daddr_v4: a.user_ip4,
        daddr_v6: zero,
        dport: dport_of(a.user_port),
        family: 4,
        _pad: 0,
    }
}

/// The verdict cache key of an IPv6 flow.
pub fn flow_key_v6(a: &SockAddr6, t: &Task) -> (k: FlowKey)
    ensures
        is_flow_key_v6(k, *a, *t),
{
    FlowKey {
        pid: pid_of(t),
        _pad0: 0,
        start_ns: 0,
        daddr_v4: 0,
        daddr_v6: addr6_bytes(a),
        dport: dport_of(a.user_port),
        family: 6,
        _pad: 0,
    }
}

/// What a hook does with an IPv4 flow: a flow whose key is in the verdict cache
/// (`cached`) is refused and not recorded, every other one is let through.
pub open spec fn is_outcome_v4(o: HookOutcome, a: SockAddr4, is_sendmsg: bool, t: Task, cached: bool) -> bool {
    &&& o.verdict == if cached { 0i32 } else { 1i32 }
    &&& o.event is Some <==> !cached && records(
        port_number(a.user_port),
        is_sendmsg,
        is_loopback_v4(a.user_ip4),
    )
    &&& o.event is Some ==> is_event_v4(o.event->0, a, t)
}

/// What a hook does with an IPv6 flow.
pub open spec fn is_outcome_v6(o: HookOutcome, a: SockAddr6, is_sendmsg: bool, t: Task, cached: bool) -> bool {
    &&& o.verdict == if cached { 0i32 } else { 1i32 }
    &&& o.event is Some <==> !cached && records(
        port_number(a.user_port),
        is_sendmsg,
        is_loopback_v6(sock_addr6_bytes(a)),
    )
    &&& o.event is Some ==> is_event_v6(o.event->0, a, t)
}

/// The hook on IPv4 `connect()`.
pub fn connect4(a: &SockAddr4, t: &Task, cached: bool) -> (o: HookOutcome)
    ensures
        is_outcome_v4(o, *a, false, *t, cached),
{
    if cached {
        return HookOutcome { verdict: 0, event: None };
    }
    HookOutcome { verdict: 1, event: emit_v4(a, false, t) }
}

/// The hook on IPv6 `connect()`.
pub fn connect6(a: &SockAddr6, t: &Task, cached: bool) -> (o: HookOutcome)
    ensures
        is_outcome_v6(o, *a, false, *t, cached),
{
    if cached {
        return HookOutcome { verdict: 0, event: None };
    }
    HookOutcome { verdict: 1, event: emit_v6(a, false, t) }
}

/// The hook on IPv4 `sendmsg()` without a connection.
pub fn sendmsg4(a: &SockAddr4, t: &Task, cached: bool) -> (o: HookOutcome)
    ensures
        is_outcome_v4(o, *a, true, *t, cached),
{
    if cached {
        return HookOutcome { verdict: 0, event: None };
    }
    HookOutcome { verdict: 1, event: emit_v4(a, true, t) }
}

/// The hook on IPv6 `sendmsg()` without a connection.
pub fn sendmsg6(a: &SockAddr6, t: &Task, cached: bool) -> (o: HookOutcome)
    ensures
        is_outcome_v6(o, *a, true, *t, cached),
{
    if cached {
        return HookOutcome { verdict: 0, event: None };
    }
    HookOutcome { verdict: 1, event: emit_v6(a, true, t) }
}

/// A change to the table of processes.
#[derive(Copy, Clone, Debug)]
pub enum ProcessOp {
    Keep,
    Insert { pid: u32, info: ProcessInfo },
    Remove { pid: u32 },
}

/// `info` is what is known of task `t` when it calls `execve`.
pub open spec fn is_exec_info(info: ProcessInfo, t: Task) -> bool {
    &&& info.pid == task_pid(t)
    &&& info.ppid == 0
    &&& info.uid == task_uid(t)
    &&& info._pad == 0
    &&& info.start_ns == 0
    &&& info.exe_inode == 0
    &&& info.comm@ == task_comm(t)
}

/// The tracepoint on `execve`: the table holds the running task from then on.
pub fn sys_enter_execve(t: &Task) -> (op: ProcessOp)
    ensures
        op is Insert,
        op->Insert_pid == task_pid(*t),
        is_exec_info(op->info, *t),
{
    let pid: u32 = pid_of(t);
    ProcessOp::Insert {
        pid,
        info: ProcessInfo {
            pid,
            ppid: 0,
            uid: uid_of(t),
            _pad: 0,
            start_ns: 0,
            exe_inode: 0,
            comm: comm_of(t),
        },
    }
}

/// A process id read from a tracepoint record: a read that failed, or a value that is not
/// positive, names no process.
pub open spec fn traced_pid_of(field: Option<i32>) -> Option<u32> {
    match field {
        Some(p) => if p > 0 {
            Some(p as u32)
        } else {
            None
        },
        None => None,
    }
}

pub fn traced_pid(field: Option<i32>) -> (r: Option<u32>)
    ensures
        r == traced_pid_of(field),
{
    match field {
        Some(p) => if p > 0 {
            Some(p as u32)
        } else {
            None
        },
        None => None,
    }
}

/// The parent's record, made out to the child.
pub open spec fn child_info(parent: ProcessInfo, parent_pid: u32, child_pid: u32) -> ProcessInfo {
    ProcessInfo { pid: child_pid, ppid: parent_pid, ..parent }
}

/// The tracepoint on `fork`. `parent_info` is the table's entry for the parent, if there
/// is one: the child inherits it, so a worker that never calls `execve` is attributed to
/// its parent's program.
pub fn sched_process_fork(
    parent_pid: Option<i32>,
    child_pid: Option<i32>,
    parent_info: Option<ProcessInfo>,
) -> (op: ProcessOp)
    ensures
        match (traced_pid_of(parent_pid), traced_pid_of(child_pid), parent_info) {
            (Some(p), Some(c), Some(info)) => op == (ProcessOp::Insert {
                pid: c,
                info: child_info(info, p, c),
            }),
            _ => op is Keep,
        },
{
    match (traced_pid(parent_pid), traced_pid(child_pid), parent_info) {
        (Some(p), Some(c), Some(parent)) => {
            let mut child = parent;
            child.pid = c;
            child.ppid = p;
            ProcessOp::Insert { pid: c, info: child }
        },
        _ => ProcessOp::Keep,
    }
}

/// The tracepoint on exit: the process leaves the table.
pub fn sched_process_exit(pid: Option<i32>) -> (op: ProcessOp)
    ensures
        match traced_pid_of(pid) {
            Some(p) => op == (ProcessOp::Remove { pid: p }),
            None => op is Keep,
        },
{
    match traced_pid(pid) {
        Some(p) => ProcessOp::Remove { pid: p },
        None => ProcessOp::Keep,
    }
}

pub const TC_ACT_OK: i32 = 0;

pub const ETH_HDR_LEN: usize = 14;

pub const ETH_P_IP: u16 = 0x0800;

pub const ETH_P_IPV6: u16 = 0x86dd;

pub const IPPROTO_UDP: u8 = 17;

pub const IPV6_HDR_LEN: usize = 40;

pub const UDP_HDR_LEN: usize = 8;

pub const DNS_MIN_HDR: usize = 12;

/// Where the UDP header of a packet begins: behind an Ethernet header and an IPv4 header
/// (of the length it states, from 20 to 60 bytes) or an IPv6 header without extensions.
pub open spec fn udp_offset(p: Seq<u8>) -> Option<int> {
    if p.len() < 14 {
        None
    } else if bytes::be16(p[12], p[13]) == ETH_P_IP {
        if p.len() >= 24 && 20 <= (p[14] % 16) * 4 && p[23] == IPPROTO_UDP {
            Some(14 + (p[14] % 16) * 4)
        } else {
            None
        }
    } else if bytes::be16(p[12], p[13]) == ETH_P_IPV6 {
        if p.len() >= 21 && p[20] == IPPROTO_UDP {
            Some(54int)
        } else {
            None
        }
    } else {
        None
    }
}

/// The number of payload bytes captured from a UDP packet of `total` bytes.
pub open spec fn captured_len(total: int) -> int {
    if total - UDP_HDR_LEN > DNS_PAYLOAD_MAX {
        DNS_PAYLOAD_MAX as int
    } else {
        total - UDP_HDR_LEN
    }
}

/// The DNS payload of a packet: that of a UDP packet from or to port 53 whose stated length
/// leaves room for a DNS header, cut to `DNS_PAYLOAD_MAX` bytes, if the packet holds it all.
pub open spec fn dns_payload(p: Seq<u8>) -> Option<Seq<u8>> {
    match udp_offset(p) {
        None => None,
        Some(off) => {
            if p.len() < off + 6 {
                None
            } else {
                let src = bytes::be16(p[off], p[off + 1]);
                let dst = bytes::be16(p[off + 2], p[off + 3]);
                let total = bytes::be16(p[off + 4], p[off + 5]);
                let start = off + UDP_HDR_LEN;
                if (src == 53 || dst == 53) && total >= UDP_HDR_LEN + DNS_MIN_HDR && p.len() >= start
                    + captured_len(total) {
                    Some(p.subrange(start, start + captured_len(total)))
                } else {
                    None
                }
            }
        },
    }
}

/// `e` carries `payload`, with nothing but zeros behind it.
pub open spec fn carries(e: DnsEvent, payload: Seq<u8>) -> bool {
    &&& e.len == payload.len()
    &&& e._pad@ == Seq::new(6, |i: int| 0u8)
    &&& e.data@ == payload + Seq::new((DNS_PAYLOAD_MAX - payload.len()) as nat, |i: int| 0u8)
}

fn load16(p: &[u8], off: usize) -> (r: Option<u16>)
    requires
        off <= 1000,
    ensures
        r is Some <==> off + 2 <= p@.len(),
        r is Some ==> r->0 == bytes::be16(p@[off as int], p@[off + 1]),
{
    if off + 2 <= p.len() {
        Some((p[off] as u16) * 256 + p[off + 1] as u16)
    } else {
        None
    }
}

fn load8(p: &[u8], off: usize) -> (r: Option<u8>)
    ensures
        r is Some <==> off < p@.len(),
        r is Some ==> r->0 == p@[off as int],
{
    if off < p.len() {
        Some(p[off])
    } else {
        None
    }
}

fn find_udp(p: &[u8]) -> (r: Option<usize>)
    ensures
        match udp_offset(p@) {
            Some(off) => r is Some && r->0 == off,
            None => r is None,
        },
        r is Some ==> r->0 <= 74,
{
    let eth_type: u16 = load16(p, 12)?;
    if eth_type == ETH_P_IP {
        let vihl: u8 = load8(p, ETH_HDR_LEN)?;
        let ihl: usize = (vihl % 16) as usize * 4;
        if !(20 <= ihl && ihl <= 60) {
            return None;
        }
        let proto: u8 = load8(p, ETH_HDR_LEN + 9)?;
        if proto != IPPROTO_UDP {
            return None;
        }
        Some(ETH_HDR_LEN + ihl)
    } else if eth_type == ETH_P_IPV6 {
        let next: u8 = load8(p, ETH_HDR_LEN + 6)?;
        if next != IPPROTO_UDP {
            return None;
        }
        Some(ETH_HDR_LEN + IPV6_HDR_LEN)
    } else {
        None
    }
}

/// Captures the DNS payload of a packet, if it carries one.
pub fn capture_dns(p: &[u8]) -> (r: Option<DnsEvent>)
    ensures
        match dns_payload(p@) {
            Some(payload) => r is Some && carries(r->0, payload),
            None => r is None,
        },
{
    let off: usize = find_udp(p)?;
    let src: u16 = load16(p, off)?;
    let dst: u16 = load16(p, off + 2)?;
    let total: u16 = load16(p, off + 4)?;
    if src != 53 && dst != 53 {
        return None;
    }
    if (total as usize) < UDP_HDR_LEN + DNS_MIN_HDR {
        return None;
    }
    let capped: usize = if (total as usize) > UDP_HDR_LEN + DNS_PAYLOAD_MAX {
        UDP_HDR_LEN + DNS_PAYLOAD_MAX
    } else {
        total as usize
    };
    let n: usize = capped - UDP_HDR_LEN;
    let start: usize = off + UDP_HDR_LEN;
    if start + n > p.len() {
        return None;
    }
    let ghost payload = p@.subrange(start as int, start + n);
    let mut data: [u8; DNS_PAYLOAD_MAX] = [0;DNS_PAYLOAD_MAX];
    let mut i: usize = 0;
    while i < n
        invariant
            i <= n <= DNS_PAYLOAD_MAX,
            start + n <= p@.len(),
            start <= 82,
            payload == p@.subrange(start as int, start + n),
            forall|j: int| 0 <= j < i ==> data@[j] == payload[j],
            forall|j: int| i <= j < DNS_PAYLOAD_MAX ==> data@[j] == 0,
        decreases n - i,
    {
        data[i] = p[start + i];
        i += 1;
    }
    let pad: [u8; 6] = [0;6];
    assert(pad@ =~= Seq::new(6, |i: int| 0u8));
    assert(data@ =~= payload + Seq::new((DNS_PAYLOAD_MAX - payload.len()) as nat, |i: int| 0u8));
    Some(DnsEvent { len: n as u16, _pad: pad, data })
}

/// What a traffic classifier answers and records.
#[derive(Copy, Clone, Debug)]
pub struct TcOutcome {
    pub action: i32,
    pub event: Option<DnsEvent>,
}

/// `o` lets the packet pass, and records its DNS payload, if it carries one.
pub open spec fn is_tc_outcome(o: TcOutcome, p: Seq<u8>) -> bool {
    &&& o.action == TC_ACT_OK
    &&& match dns_payload(p) {
        Some(payload) => o.event is Some && carries(o.event->0, payload),
        None => o.event is None,
    }
}

/// The classifier on packets that leave.
pub fn dns_egress(p: &[u8]) -> (o: TcOutcome)
    ensures
        is_tc_outcome(o, p@),
{
    TcOutcome { action: TC_ACT_OK, event: capture_dns(p) }
}

/// The classifier on packets that arrive.
pub fn dns_ingress(p: &[u8]) -> (o: TcOutcome)
    ensures
        is_tc_outcome(o, p@),
{
    TcOutcome { action: TC_ACT_OK, event: capture_dns(p) }
}

/// A payload that is captured fits the record and holds a DNS header.
pub proof fn lemma_dns_payload_len(p: Seq<u8>)
    ensures
        dns_payload(p) is Some ==> DNS_MIN_HDR <= dns_payload(p)->0.len() <= DNS_PAYLOAD_MAX,
{
}

/// A UDP packet from or to port 53 is captured whole over IPv6: what is captured is what
/// stands behind Ethernet, IPv6 and UDP header, whatever follows it in the packet.
pub proof fn lemma_dns_over_ipv6_is_captured(eth: Seq<u8>, ip: Seq<u8>, udp: Seq<u8>, payload: Seq<u8>, rest: Seq<u8>)
    requires
        eth.len() == 14,
        eth[12] == 0x86,
        eth[13] == 0xdd,
        ip.len() == 40,
        ip[6] == 17,
        udp.len() == 8,
        (udp[0] == 0 && udp[1] == 53) || (udp[2] == 0 && udp[3] == 53),
        udp[4] * 256 + udp[5] == 8 + payload.len(),
        12 <= payload.len(),
    ensures
        payload.len() <= 512 ==> dns_payload(eth + ip + udp + payload + rest) == Some(payload),
        payload.len() > 512 ==> dns_payload(eth + ip + udp + payload + rest) == Some(payload.take(512)),
{
    let p = eth + ip + udp + payload + rest;
    assert(p[12] == 0x86 && p[13] == 0xdd && p[20] == 17);
    assert(udp_offset(p) == Some(54int));
    assert(p[54] == udp[0] && p[55] == udp[1] && p[56] == udp[2] && p[57] == udp[3] && p[58] == udp[4] && p[59]
        == udp[5]);
    if payload.len() <= 512 {
        assert(p.subrange(62, 62 + payload.len() as int) =~= payload);
    } else {
        assert(p.subrange(62, 574) =~= payload.take(512));
    }
}

/// A UDP packet from or to port 53 is captured whole over IPv4, whatever options its header
/// has: what is captured is what stands behind Ethernet, IPv4 and UDP header.
pub proof fn lemma_dns_over_ipv4_is_captured(eth: Seq<u8>, ip: Seq<u8>, udp: Seq<u8>, payload: Seq<u8>, rest: Seq<u8>)
    requires
        eth.len() == 14,
        eth[12] == 0x08,
        eth[13] == 0x00,
        20 <= ip.len(),
        ip.len() == 4 * (ip[0] % 16),
        ip[9] == 17,
        udp.len() == 8,
        (udp[0] == 0 && udp[1] == 53) || (udp[2] == 0 && udp[3] == 53),
        udp[4] * 256 + udp[5] == 8 + payload.len(),
        12 <= payload.len(),
    ensures
        payload.len() <= 512 ==> dns_payload(eth + ip + udp + payload + rest) == Some(payload),
        payload.len() > 512 ==> dns_payload(eth + ip + udp + payload + rest) == Some(payload.take(512)),
{
    let p = eth + ip + udp + payload + rest;
    let off = 14 + ip.len() as int;
    assert(p[12] == 0x08 && p[13] == 0x00 && p[14] == ip[0] && p[23] == ip[9]);
    assert(udp_offset(p) == Some(off));
    assert(p[off] == udp[0] && p[off + 1] == udp[1] && p[off + 2] == udp[2] && p[off + 3] == udp[3] && p[off + 4]
        == udp[4] && p[off + 5] == udp[5]);
    if payload.len() <= 512 {
        assert(p.subrange(off + 8, off + 8 + payload.len() as int) =~= payload);
    } else {
        assert(p.subrange(off + 8, off + 8 + 512) =~= payload.take(512));
    }
}

/// Nothing but UDP from or to port 53 is captured, nothing that is too short for a DNS
/// header, and nothing that the packet does not hold.
pub proof fn lemma_only_dns_is_captured(p: Seq<u8>)
    requires
        dns_payload(p) is Some,
    ensures
        ({
            let v4 = p[12] == 0x08 && p[13] == 0x00;
            let v6 = p[12] == 0x86 && p[13] == 0xdd;
            let off = if v4 {
                14 + 4 * (p[14] % 16)
            } else {
                54
            };
            &&& p.len() >= off + 20
            &&& v4 || v6
            &&& v4 ==> p[23] == 17 && off >= 34
            &&& v6 ==> p[20] == 17
            &&& (p[off] == 0 && p[off + 1] == 53) || (p[off + 2] == 0 && p[off + 3] == 53)
            &&& p[off + 4] * 256 + p[off + 5] >= 20
            &&& forall|i: int| 0 <= i < dns_payload(p)->0.len() ==> #[trigger] dns_payload(p)->0[i] == p[off + 8 + i]
        }),
{
    let off = udp_offset(p)->0;
    assert(bytes::be16(p[12], p[13]) == 0x0800 ==> p[12] == 0x08 && p[13] == 0x00);
    assert(bytes::be16(p[12], p[13]) == 0x86dd ==> p[12] == 0x86 && p[13] == 0xdd);
    assert(bytes::be16(p[off], p[off + 1]) == 53 ==> p[off] == 0 && p[off + 1] == 53);
    assert(bytes::be16(p[off + 2], p[off + 3]) == 53 ==> p[off + 2] == 0 && p[off + 3] == 53);
}

/// A record tells how much it carries and carries it byte by byte.
pub proof fn lemma_record_carries_the_payload(e: DnsEvent, payload: Seq<u8>)
    requires
        carries(e, payload),
        payload.len() <= 512,
    ensures
        e.len == payload.len(),
        forall|i: int| 0 <= i < payload.len() ==> #[trigger] e.data@[i] == payload[i],
        e.data@.take(e.len as int) == payload,
        forall|i: int| payload.len() <= i < 512 ==> #[trigger] e.data@[i] == 0,
{
    assert(e.data@.take(e.len as int) =~= payload);
}

/// The packet always passes, and what is recorded of it is its DNS payload.
pub proof fn lemma_packets_pass(o: TcOutcome, p: Seq<u8>)
    requires
        is_tc_outcome(o, p),
    ensures
        o.action == 0,
        o.event is Some <==> dns_payload(p) is Some,
        o.event matches Some(e) ==> e.data@.take(e.len as int) == dns_payload(p)->0,
{
    lemma_dns_payload_len(p);
    if let Some(e) = o.event {
        lemma_record_carries_the_payload(e, dns_payload(p)->0);
    }
}

/// A byte of the recorded IPv6 address is the byte of the word that holds it, in the order
/// in which they lie in memory.
pub proof fn lemma_addr6_byte(a: SockAddr6, w: int, b: nat)
    requires
        0 <= w < 4,
        b < 4,
    ensures
        sock_addr6_bytes(a).len() == 16,
        sock_addr6_bytes(a)[4 * w + b] as nat == (a.user_ip6@[w] as nat / bytes::pow256(b)) % 256,
        bytes::pow256(0) == 1,
        bytes::pow256(1) == 0x100,
        bytes::pow256(2) == 0x1_0000,
        bytes::pow256(3) == 0x100_0000,
{
    reveal_with_fuel(bytes::pow256, 4);
    bytes::lemma_le_byte(a.user_ip6[0] as nat, 4, b);
    bytes::lemma_le_byte(a.user_ip6[1] as nat, 4, b);
    bytes::lemma_le_byte(a.user_ip6[2] as nat, 4, b);
    bytes::lemma_le_byte(a.user_ip6[3] as nat, 4, b);
}

/// A destination given by its sixteen bytes, four to a word, is recorded as those bytes.
pub proof fn lemma_addr6_words(a: SockAddr6, x: Seq<u8>)
    requires
        x.len() == 16,
        forall|w: int|
            0 <= w < 4 ==> #[trigger] a.user_ip6@[w] == x[4 * w] + 0x100 * x[4 * w + 1] + 0x1_0000 * x[4 * w + 2]
                + 0x100_0000 * x[4 * w + 3],
    ensures
        sock_addr6_bytes(a) == x,
{
    bytes::lemma_word_bytes(a.user_ip6@[0], x[0], x[1], x[2], x[3]);
    bytes::lemma_word_bytes(a.user_ip6@[1], x[4], x[5], x[6], x[7]);
    bytes::lemma_word_bytes(a.user_ip6@[2], x[8], x[9], x[10], x[11]);
    bytes::lemma_word_bytes(a.user_ip6@[3], x[12], x[13], x[14], x[15]);
    assert(sock_addr6_bytes(a) =~= x);
}

/// A port in network byte order is the port; what stands in the high half does not matter.
pub proof fn lemma_port_number(port: u16, high: u32, user_port: u32)
    requires
        user_port == (port % 256) * 256 + port / 256 + 0x1_0000 * high,
    ensures
        port_number(user_port) == port,
{
    let low: int = (port % 256) * 256 + port / 256;
    assert(user_port as int % 256 == port as int / 256);
    assert((user_port as int / 256) % 256 == port as int % 256);
}

/// A task is known by the id of its thread group and by its user.
pub proof fn lemma_task_ids(t: Task, pid: u32, tid: u32, gid: u32, uid: u32)
    requires
        t.pid_tgid == pid * 0x1_0000_0000 + tid,
        t.uid_gid == gid * 0x1_0000_0000 + uid,
    ensures
        task_pid(t) == pid,
        task_uid(t) == uid,
        t.comm matches Some(c) ==> task_comm(t) == c@,
        t.comm is None ==> task_comm(t).len() == 16 && forall|i: int| 0 <= i < 16 ==> #[trigger] task_comm(t)[i] == 0,
{
}

/// The loopback network is told by the first byte of the address.
pub proof fn lemma_loopback_v4(a: u8, b: u8, c: u8, d: u8, ip4: u32)
    requires
        ip4 == a + 0x100 * b + 0x1_0000 * c + 0x100_0000 * d,
    ensures
        is_loopback_v4(ip4) <==> a == 127,
{
    bytes::lemma_word_bytes(ip4, a, b, c, d);
}

/// The loopback address is fifteen zeros and a one.
pub proof fn lemma_loopback_v6(x: Seq<u8>)
    requires
        x.len() == 16,
    ensures
        is_loopback_v6(x) <==> x[15] == 1 && forall|i: int| 0 <= i < 15 ==> #[trigger] x[i] == 0,
{
    let one = Seq::new(15, |i: int| 0u8).push(1);
    if x[15] == 1 && (forall|i: int| 0 <= i < 15 ==> #[trigger] x[i] == 0) {
        assert(x =~= one);
    }
    if x == one {
        assert(one[15] == 1);
        assert forall|i: int| 0 <= i < 15 implies #[trigger] x[i] == 0 by {
            assert(one[i] == 0);
        }
    }
}

/// A flow to an IPv4 address that is not remembered is let through and, if it has a port and
/// does more than send a datagram within the host, recorded with where it goes and whose it
/// is. One that is remembered is refused and leaves no record.
pub proof fn lemma_flows_are_recorded_v4(o: HookOutcome, a: SockAddr4, is_sendmsg: bool, t: Task, cached: bool)
    requires
        is_outcome_v4(o, a, is_sendmsg, t, cached),
    ensures
        cached ==> o.verdict == 0 && o.event is None,
        !cached ==> o.verdict == 1,
        !cached && !is_sendmsg && port_number(a.user_port) != 0 ==> o.event is Some,
        !cached && port_number(a.user_port) != 0 && !is_loopback_v4(a.user_ip4) ==> o.event is Some,
        is_sendmsg && is_loopback_v4(a.user_ip4) ==> o.event is None,
        port_number(a.user_port) == 0 ==> o.event is None,
        o.event matches Some(e) ==> {
            &&& e.family == 4
            &&& e.daddr_v4 == a.user_ip4
            &&& e.dport == port_number(a.user_port)
            &&& e.pid == task_pid(t)
            &&& e.uid == task_uid(t)
            &&& e.comm@ == task_comm(t)
        },
{
}

/// A flow to an IPv6 address that is not remembered is let through and, if it has a port and
/// does more than send a datagram within the host, recorded with where it goes and whose it
/// is. One that is remembered is refused and leaves no record.
pub proof fn lemma_flows_are_recorded_v6(o: HookOutcome, a: SockAddr6, is_sendmsg: bool, t: Task, cached: bool)
    requires
        is_outcome_v6(o, a, is_sendmsg, t, cached),
    ensures
        cached ==> o.verdict == 0 && o.event is None,
        !cached ==> o.verdict == 1,
        !cached && !is_sendmsg && port_number(a.user_port) != 0 ==> o.event is Some,
        !cached && port_number(a.user_port) != 0 && !is_loopback_v6(sock_addr6_bytes(a)) ==> o.event is Some,
        is_sendmsg && is_loopback_v6(sock_addr6_bytes(a)) ==> o.event is None,
        port_number(a.user_port) == 0 ==> o.event is None,
        o.event matches Some(e) ==> {
            &&& e.family == 6
            &&& e.daddr_v6@ == sock_addr6_bytes(a)
            &&& e.dport == port_number(a.user_port)
            &&& e.pid == task_pid(t)
            &&& e.uid == task_uid(t)
            &&& e.comm@ == task_comm(t)
        },
{
}

/// Two IPv4 flows share a key only if they are of the same process and go to the same address
/// and port; those that do share it.
pub proof fn lemma_flow_keys_tell_apart_v4(k: FlowKey, a: SockAddr4, t: Task, l: FlowKey, b: SockAddr4, u: Task)
    requires
        is_flow_key_v4(k, a, t),
        is_flow_key_v4(l, b, u),
    ensures
        k == l <==> task_pid(t) == task_pid(u) && a.user_ip4 == b.user_ip4 && port_number(a.user_port) == port_number(
            b.user_port,
        ),
{
    assert(k.daddr_v6 =~= l.daddr_v6);
}

/// Two IPv6 flows share a key only if they are of the same process and go to the same address
/// and port; those that do share it. No IPv6 flow shares one with an IPv4 flow.
pub proof fn lemma_flow_keys_tell_apart_v6(
    k: FlowKey,
    a: SockAddr6,
    t: Task,
    l: FlowKey,
    b: SockAddr6,
    u: Task,
    m: FlowKey,
    c: SockAddr4,
    v: Task,
)
    requires
        is_flow_key_v6(k, a, t),
        is_flow_key_v6(l, b, u),
        is_flow_key_v4(m, c, v),
    ensures
        k == l <==> task_pid(t) == task_pid(u) && a.user_ip6@ == b.user_ip6@ && port_number(a.user_port)
            == port_number(b.user_port),
        k != m,
{
    if sock_addr6_bytes(a) == sock_addr6_bytes(b) {
        assert forall|w: int| 0 <= w < 4 implies #[trigger] a.user_ip6@[w] == b.user_ip6@[w] by {
            lemma_addr6_word_back(a, w);
            lemma_addr6_word_back(b, w);
        }
        assert(a.user_ip6@ =~= b.user_ip6@);
        if k.pid == l.pid && k.dport == l.dport {
            assert(k.daddr_v6 =~= l.daddr_v6);
        }
    }
    if a.user_ip6@ == b.user_ip6@ {
        assert(sock_addr6_bytes(a) == sock_addr6_bytes(b)) by {
            assert(a.user_ip6@[0] == b.user_ip6@[0]);
            assert(a.user_ip6@[1] == b.user_ip6@[1]);
            assert(a.user_ip6@[2] == b.user_ip6@[2]);
            assert(a.user_ip6@[3] == b.user_ip6@[3]);
        }
    }
}

proof fn lemma_addr6_word_back(a: SockAddr6, w: int)
    requires
        0 <= w < 4,
    ensures
        sock_addr6_bytes(a).len() == 16,
        a.user_ip6@[w] == bytes::le_nat(sock_addr6_bytes(a).subrange(4 * w, 4 * w + 4)),
{
    bytes::lemma_pow256_small();
    bytes::lemma_le_roundtrip(a.user_ip6[0] as nat, 4);
    bytes::lemma_le_roundtrip(a.user_ip6[1] as nat, 4);
    bytes::lemma_le_roundtrip(a.user_ip6[2] as nat, 4);
    bytes::lemma_le_roundtrip(a.user_ip6[3] as nat, 4);
    let x = sock_addr6_bytes(a);
    assert(x.subrange(0, 4) =~= bytes::le_bytes(a.user_ip6[0] as nat, 4));
    assert(x.subrange(4, 8) =~= bytes::le_bytes(a.user_ip6[1] as nat, 4));
    assert(x.subrange(8, 12) =~= bytes::le_bytes(a.user_ip6[2] as nat, 4));
    assert(x.subrange(12, 16) =~= bytes::le_bytes(a.user_ip6[3] as nat, 4));
}

/// What is known of a task that starts a program is its own: its process, its user and its
/// command.
pub proof fn lemma_exec_is_remembered(info: ProcessInfo, t: Task)
    requires
        is_exec_info(info, t),
    ensures
        info.pid == task_pid(t),
        info.uid == task_uid(t),
        info.comm@ == task_comm(t),
        info.ppid == 0,
{
}

/// A child is its parent's child and takes over its program and user.
pub proof fn lemma_child_inherits(parent: ProcessInfo, parent_pid: u32, child_pid: u32)
    ensures
        ({
            let child = child_info(parent, parent_pid, child_pid);
            &&& child.pid == child_pid
            &&& child.ppid == parent_pid
            &&& child.uid == parent.uid
            &&& child.comm == parent.comm
            &&& child.exe_inode == parent.exe_inode
            &&& child.start_ns == parent.start_ns
        }),
{
}

/// A process id from a tracepoint counts if it is positive.
pub proof fn lemma_traced_pid(p: i32)
    ensures
        p > 0 ==> (traced_pid_of(Some(p)) matches Some(n) && n == p),
        p <= 0 ==> traced_pid_of(Some(p)) is None,
        traced_pid_of(None) is None,
{
}

/// What is not known of a flow when it is recorded is zero.
pub proof fn lemma_unknown_is_zero(e: ConnectEvent, a: SockAddr4, f: ConnectEvent, b: SockAddr6, t: Task, i: int)
    requires
        is_event_v4(e, a, t),
        is_event_v6(f, b, t),
        0 <= i < 16,
    ensures
        e.start_ns == 0 && f.start_ns == 0,
        e.daddr_v6@[i] == 0,
        f.daddr_v4 == 0,
        e._pad == 0 && f._pad == 0,
{
}

} // verus!
