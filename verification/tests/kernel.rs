use dadophoros::addr::{ipv4_string, ipv6_string};
use dadophoros::common::{ConnectEvent, DnsEvent, ProcessInfo, CONNECT_EVENT_SIZE};
use dadophoros::daemon::common_flow_key;
use dadophoros::kernel::{
    connect4, connect6, flow_key_v4, flow_key_v6, sched_process_exit, sched_process_fork, sendmsg4, sendmsg6,
    sys_enter_execve, traced_pid, ProcessOp, SockAddr4, SockAddr6, Task,
};

fn task() -> Task {
    let mut comm = [0u8; 16];
    comm[..4].copy_from_slice(b"curl");
    Task { pid_tgid: (12453 << 32) | 12460, uid_gid: (100 << 32) | 1000, comm: Some(comm) }
}

// 140.82.121.4 and port 443, as they lie on the wire.
const GITHUB: SockAddr4 = SockAddr4 { user_port: 0xbb01, user_ip4: 0x0479_528c };

fn loopback6() -> SockAddr6 {
    SockAddr6 { user_port: 0xbb01, user_ip6: [0, 0, 0, 0x0100_0000] }
}

#[test]
fn connect_records_a_flow() {
    let o = connect4(&GITHUB, &task(), false);
    assert_eq!(o.verdict, 1);
    let e = o.event.unwrap();
    assert_eq!((e.pid, e.uid, e.start_ns), (12453, 1000, 0));
    assert_eq!(e.dport, 443);
    assert_eq!(e.family, 4);
    assert_eq!(ipv4_string(e.daddr_v4), "140.82.121.4");
    assert_eq!(&e.comm[..5], b"curl\0");
}

#[test]
fn a_cached_denial_fails_the_call_without_an_event() {
    let o = connect4(&GITHUB, &task(), true);
    assert_eq!(o.verdict, 0);
    assert!(o.event.is_none());
    assert_eq!(connect6(&loopback6(), &task(), true).verdict, 0);
    assert_eq!(sendmsg4(&GITHUB, &task(), true).verdict, 0);
    assert_eq!(sendmsg6(&loopback6(), &task(), true).verdict, 0);
}

#[test]
fn the_hooks_look_up_the_key_that_the_daemon_writes() {
    let e = connect4(&GITHUB, &task(), false).event.unwrap();
    let written = common_flow_key(&e);
    let looked_up = flow_key_v4(&GITHUB, &task());
    assert_eq!((written.pid, written.daddr_v4, written.dport), (looked_up.pid, looked_up.daddr_v4, looked_up.dport));
    assert_eq!((written.start_ns, written.family, written.daddr_v6), (looked_up.start_ns, looked_up.family, looked_up.daddr_v6));
    let e = connect6(&loopback6(), &task(), false).event.unwrap();
    let written = common_flow_key(&e);
    let looked_up = flow_key_v6(&loopback6(), &task());
    assert_eq!(written.daddr_v6, looked_up.daddr_v6);
    assert_eq!((written.pid, written.family), (looked_up.pid, looked_up.family));
}

#[test]
fn sendmsg_passes_over_loopback() {
    let local = SockAddr4 { user_port: 0xbb01, user_ip4: 0x0100_007f };
    assert!(connect4(&local, &task(), false).event.is_some());
    let o = sendmsg4(&local, &task(), false);
    assert_eq!(o.verdict, 1);
    assert!(o.event.is_none());
    assert!(sendmsg4(&GITHUB, &task(), false).event.is_some());
    assert!(connect6(&loopback6(), &task(), false).event.is_some());
    assert!(sendmsg6(&loopback6(), &task(), false).event.is_none());
}

#[test]
fn a_flow_without_a_port_is_passed_over() {
    let no_port = SockAddr4 { user_port: 0, user_ip4: GITHUB.user_ip4 };
    let o = connect4(&no_port, &task(), false);
    assert_eq!(o.verdict, 1);
    assert!(o.event.is_none());
}

#[test]
fn ipv6_words_become_bytes() {
    let a = SockAddr6 { user_port: 0x3500, user_ip6: [0xb80d_0120, 0, 0, 0x0100_0000] };
    let e = connect6(&a, &task(), false).event.unwrap();
    assert_eq!(e.dport, 53);
    assert_eq!(e.daddr_v4, 0);
    assert_eq!(ipv6_string(&e.daddr_v6), "2001:db8::1");
}

#[test]
fn a_task_without_a_name_gets_zeros() {
    let t = Task { comm: None, ..task() };
    assert_eq!(connect4(&GITHUB, &t, false).event.unwrap().comm, [0; 16]);
}

#[test]
fn processes_are_tracked_from_exec_to_exit() {
    let info = match sys_enter_execve(&task()) {
        ProcessOp::Insert { pid, info } => {
            assert_eq!(pid, 12453);
            info
        }
        _ => panic!("expected an insert"),
    };
    assert_eq!((info.pid, info.ppid, info.uid), (12453, 0, 1000));
    match sched_process_fork(Some(12453), Some(12500), Some(info)) {
        ProcessOp::Insert { pid, info: child } => {
            let child: ProcessInfo = child;
            assert_eq!(pid, 12500);
            assert_eq!((child.pid, child.ppid, child.uid), (12500, 12453, 1000));
            assert_eq!(child.comm, info.comm);
        }
        _ => panic!("expected an insert"),
    }
    assert!(matches!(sched_process_fork(Some(12453), Some(12500), None), ProcessOp::Keep));
    assert!(matches!(sched_process_fork(None, Some(1), Some(info)), ProcessOp::Keep));
    assert!(matches!(sched_process_fork(Some(1), Some(0), Some(info)), ProcessOp::Keep));
    assert!(matches!(sched_process_exit(Some(12453)), ProcessOp::Remove { pid: 12453 }));
    assert!(matches!(sched_process_exit(Some(-1)), ProcessOp::Keep));
    assert_eq!(traced_pid(Some(7)), Some(7));
    assert_eq!(traced_pid(Some(0)), None);
}

#[test]
fn records_cross_the_ring_buffer_unchanged() {
    let e = connect4(&GITHUB, &task(), false).event.unwrap();
    let bytes = e.to_bytes();
    assert_eq!(bytes.len(), CONNECT_EVENT_SIZE);
    assert_eq!(&bytes[..4], &12453u32.to_le_bytes());
    assert_eq!(bytes[38], 4);
    let back = ConnectEvent::from_bytes(&bytes).unwrap();
    assert_eq!((back.pid, back.uid, back.daddr_v4, back.dport, back.family), (e.pid, e.uid, e.daddr_v4, e.dport, e.family));
    assert_eq!((back.daddr_v6, back.comm), (e.daddr_v6, e.comm));
    assert!(ConnectEvent::from_bytes(&bytes[..CONNECT_EVENT_SIZE - 1]).is_none());
    let d = DnsEvent { len: 0x0102, _pad: [9; 6], data: [5; 512] };
    let back = DnsEvent::from_bytes(&d.to_bytes()).unwrap();
    assert_eq!((back.len, back._pad, back.data), (d.len, d._pad, d.data));
    assert_eq!(&d.to_bytes()[..2], &[2, 1]);
}

#[test]
fn addresses_have_their_usual_text() {
    let v6 = |g: [u16; 8]| {
        let mut b = [0u8; 16];
        for i in 0..8 {
            b[2 * i] = (g[i] >> 8) as u8;
            b[2 * i + 1] = g[i] as u8;
        }
        ipv6_string(&b)
    };
    assert_eq!(ipv4_string(0x04030201), "1.2.3.4");
    assert_eq!(ipv4_string(u32::MAX), "255.255.255.255");
    assert_eq!(v6([0; 8]), "::");
    assert_eq!(v6([0, 0, 0, 0, 0, 0, 0, 1]), "::1");
    assert_eq!(v6([1, 0, 0, 0, 0, 0, 0, 0]), "1::");
    assert_eq!(v6([0xfe80, 0, 0, 0, 0, 0, 0xabc, 0xd]), "fe80::abc:d");
    assert_eq!(v6([1, 0, 3, 4, 5, 6, 7, 8]), "1:0:3:4:5:6:7:8");
    assert_eq!(v6([1, 0, 0, 4, 0, 0, 0, 8]), "1:0:0:4::8");
    assert_eq!(v6([1, 0, 0, 4, 5, 0, 0, 8]), "1::4:5:0:0:8");
    assert_eq!(v6([0, 0, 0, 0, 0, 0xffff, 0x0102, 0x0304]), "::ffff:1.2.3.4");
    assert_eq!(v6([0, 0, 0, 0, 0, 0, 0x0102, 0x0304]), "::102:304");
}
