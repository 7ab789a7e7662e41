//! The messages between daemon and clients, and the frames they travel in: a four-byte
//! big-endian length, then that many bytes.

use vstd::prelude::*;
use vstd::string::*;

use crate::bytes;
use crate::text;

verus! {

pub const SOCKET_PATH: &'static str = "/run/dadophoros.sock";

/// The most bytes a frame may carry: 1 MiB.
pub const MAX_FRAME: usize = 1_048_576;

/// What a client asks of the daemon.
#[derive(Debug, Clone)]
pub enum ClientMessage {
    Subscribe { filter: Option<EventFilter> },
    Unsubscribe,
    /// Make a deny rule out of a row that the user picked. The daemon declines where the
    /// kind asks for a fact that the row did not have.
    CreateDenyRule {
        exe_path: Option<String>,
        hostname: Option<String>,
        dest_ip: Option<String>,
        dport: u16,
        by: DenyRuleKind,
    },
    /// Ask for the full rule set, disabled rules included.
    ListRules,
    /// Set a rule's `enabled` flag on disk. `id` is the rule's effective id.
    SetRuleEnabled { id: String, enabled: bool },
    /// Ask for the current aggregates.
    GetStats,
}

#[derive(Debug, Clone, Copy, PartialEq, Eq, Structural)]
pub enum DenyRuleKind {
    /// The host name and its subdomains.
    Host,
    /// The executable.
    Process,
    /// The destination address.
    Ip,
    /// Host and executable together.
    Both,
}

/// What the daemon tells a client.
#[derive(Debug, Clone)]
pub enum ServerMessage {
    Hello { daemon_version: String },
    Event(EnrichedEvent),
    /// The request was carried out.
    Ack,
    Error(String),
    /// The full rule set in priority order, disabled rules included.
    Rules(Vec<RuleInfo>),
    Stats(Stats),
}

/// A rule as it is shown.
#[derive(Debug, Clone)]
pub struct RuleInfo {
    /// The explicit `id`, or the file stem if there is none.
    pub id: String,
    pub priority: u32,
    pub enabled: bool,
    pub action: RuleAction,
    /// `once`, `session` or `persistent`.
    pub duration: String,
    /// One summary per match clause; none means catch-all.
    pub matches: Vec<String>,
    /// The file that holds the rule.
    pub path: String,
}

#[derive(Debug, Clone, Copy, PartialEq, Eq, Structural)]
pub enum RuleAction {
    Allow,
    Deny,
}

/// Aggregates over the session.
#[derive(Debug, Clone, Default)]
pub struct Stats {
    pub total_events: u64,
    pub total_allowed: u64,
    pub total_denied: u64,
    /// Top processes by connection count, descending.
    pub top_processes: Vec<LabeledCount>,
    /// Top destination hosts, or bare addresses, by connection count, descending.
    pub top_hosts: Vec<LabeledCount>,
    /// Connections per second, oldest first; the last one is still filling.
    pub activity: Vec<u64>,
}

#[derive(Debug, Clone, PartialEq, Eq)]
pub struct LabeledCount {
    pub label: String,
    pub count: u64,
}

#[derive(Debug, Clone, Default)]
pub struct EventFilter {
    pub process_path_contains: Option<String>,
    pub host_contains: Option<String>,
}

#[derive(Debug, Clone, Copy, PartialEq, Eq, Structural)]
pub enum Verdict {
    Allow,
    Deny,
}

#[derive(Debug, Clone, Copy, PartialEq, Eq, Hash)]
pub struct FlowKey {
    pub pid: u32,
    pub start_ns: u64,
    pub family: u8,
    pub daddr_v4: u32,
    pub daddr_v6: [u8; 16],
    pub dport: u16,
}

/// A flow with what the daemon found out about it.
#[derive(Debug)]
pub struct EnrichedEvent {
    pub ts_unix_ns: u64,
    pub pid: u32,
    pub uid: u32,
    pub comm: String,
    pub exe_path: Option<String>,
    pub family: u8,
    /// In network byte order.
    pub daddr_v4: u32,
    pub daddr_v6: [u8; 16],
    pub dport: u16,
    pub hostname: Option<String>,
    pub verdict: Verdict,
    pub matched_rule: Option<String>,
}

impl Clone for EnrichedEvent {
    fn clone(&self) -> (r: Self)
        ensures
            r == *self,
    {
        EnrichedEvent {
            ts_unix_ns: self.ts_unix_ns,
            pid: self.pid,
            uid: self.uid,
            comm: self.comm.clone(),
            exe_path: self.exe_path.clone(),
            family: self.family,
            daddr_v4: self.daddr_v4,
            daddr_v6: self.daddr_v6,
            dport: self.dport,
            hostname: self.hostname.clone(),
            verdict: self.verdict,
            matched_rule: self.matched_rule.clone(),
        }
    }
}

/// Why a message could not be read or written. A failure of the stream or of the codec is
/// carried by its text.
#[derive(Debug, Clone)]
pub enum ProtoError {
    Io(String),
    Codec(String),
    FrameTooLarge(usize),
}

impl ProtoError {
    /// The text of the error.
    pub open spec fn text(self) -> Seq<char> {
        match self {
            ProtoError::Io(e) => "io: "@ + e@,
            ProtoError::Codec(e) => "codec: "@ + e@,
            ProtoError::FrameTooLarge(n) => "frame too large: "@ + text::decimal(n as nat),
        }
    }

    pub fn message(&self) -> (r: String)
        ensures
            r@ == self.text(),
    {
        let mut out = String::new();
        match self {
            ProtoError::Io(e) => {
                out.append("io: ");
                out.append(e.as_str());
            },
            ProtoError::Codec(e) => {
                out.append("codec: ");
                out.append(e.as_str());
            },
            ProtoError::FrameTooLarge(n) => {
                out.append("frame too large: ");
                text::append_digits(&mut out, *n as u128, 10);
            },
        }
        assert(out@ =~= self.text());
        out
    }
}

/// The four bytes of a frame's length, most significant first.
pub open spec fn frame_header(len: nat) -> Seq<u8> {
    seq![
        ((len / 0x100_0000) % 256) as u8,
        ((len / 0x1_0000) % 256) as u8,
        ((len / 0x100) % 256) as u8,
        (len % 256) as u8,
    ]
}

/// The frame that carries `payload`.
pub open spec fn frame(payload: Seq<u8>) -> Seq<u8> {
    frame_header(payload.len()) + payload
}

/// The length that a frame's first four bytes state.
pub open spec fn stated_len(header: Seq<u8>) -> nat {
    bytes::be_nat(header.take(4))
}

/// What reading one frame off the front of `stream` comes to.
pub enum FrameRead {
    /// The stream ends before the frame does.
    Short,
    TooLarge(nat),
    Payload(Seq<u8>),
}

/// Reads one frame off the front of `stream`.
pub open spec fn first_frame(stream: Seq<u8>) -> FrameRead {
    if stream.len() < 4 {
        FrameRead::Short
    } else if stated_len(stream) > MAX_FRAME {
        FrameRead::TooLarge(stated_len(stream))
    } else if stream.len() < 4 + stated_len(stream) {
        FrameRead::Short
    } else {
        FrameRead::Payload(stream.subrange(4, 4 + stated_len(stream) as int))
    }
}

proof fn lemma_be4(h: Seq<u8>)
    requires
        h.len() == 4,
    ensures
        bytes::be_nat(h) == h[0] * 0x100_0000 + h[1] * 0x1_0000 + h[2] * 0x100 + h[3],
{
    reveal_with_fuel(bytes::be_nat, 5);
    assert(h.drop_last().drop_last().drop_last().drop_last().len() == 0);
}

/// What was framed is read back whole, whatever follows it in the stream: messages written
/// back to back are read back one by one.
pub proof fn lemma_frame_roundtrip(payload: Seq<u8>, rest: Seq<u8>)
    requires
        payload.len() <= MAX_FRAME,
    ensures
        first_frame(frame(payload) + rest) == FrameRead::Payload(payload),
        (frame(payload) + rest).skip(4 + payload.len() as int) == rest,
{
    let s = frame(payload) + rest;
    assert(s.take(4) =~= frame_header(payload.len()));
    lemma_be4(s.take(4));
    assert(s.subrange(4, 4 + payload.len() as int) =~= payload);
    assert(s.skip(4 + payload.len() as int) =~= rest);
}

/// A frame that is cut short anywhere is not read.
pub proof fn lemma_cut_frame_is_short(payload: Seq<u8>, n: nat)
    requires
        payload.len() <= MAX_FRAME,
        n < frame(payload).len(),
    ensures
        first_frame(frame(payload).take(n as int)) is Short,
{
    let s = frame(payload).take(n as int);
    if n >= 4 {
        assert(s.take(4) =~= frame_header(payload.len()));
        lemma_be4(s.take(4));
    }
}

/// The frame for a payload; one over `MAX_FRAME` is refused with its length.
pub fn write_message(payload: &[u8]) -> (r: Result<Vec<u8>, ProtoError>)
    ensures
        match r {
            Ok(out) => payload@.len() <= MAX_FRAME && out@ == frame(payload@),
            Err(e) => payload@.len() > MAX_FRAME && e == ProtoError::FrameTooLarge(
                payload@.len() as usize,
            ),
        },
{
    let len: usize = payload.len();
    if len > MAX_FRAME {
        return Err(ProtoError::FrameTooLarge(len));
    }
    let mut out: Vec<u8> = Vec::new();
    out.push(((len / 0x100_0000) % 256) as u8);
    out.push(((len / 0x1_0000) % 256) as u8);
    out.push(((len / 0x100) % 256) as u8);
    out.push((len % 256) as u8);
    bytes::append_slice(&mut out, payload);
    assert(out@ =~= frame(payload@));
    Ok(out)
}

/// The length that a frame's header states; one over `MAX_FRAME` is refused.
pub fn frame_len(header: &[u8; 4]) -> (r: Result<usize, ProtoError>)
    ensures
        match r {
            Ok(n) => n == stated_len(header@) && n <= MAX_FRAME,
            Err(e) => stated_len(header@) > MAX_FRAME && (e matches ProtoError::FrameTooLarge(n) && n
                == stated_len(header@)),
        },
{
    proof {
        assert(header@.take(4) =~= header@);
        lemma_be4(header@);
    }
    let n: u32 = header[0] as u32 * 0x100_0000 + header[1] as u32 * 0x1_0000 + header[2] as u32
        * 0x100 + header[3] as u32;
    if n as usize > MAX_FRAME {
        return Err(ProtoError::FrameTooLarge(n as usize));
    }
    Ok(n as usize)
}

/// Reads one frame off the front of a stream: its payload, and how much of the stream it
/// took. A stream that ends too early is an I/O error.
pub fn read_message(stream: &[u8]) -> (r: Result<(Vec<u8>, usize), ProtoError>)
    ensures
        match first_frame(stream@) {
            FrameRead::Short => r matches Err(ProtoError::Io(e)) && e@ == "early eof"@,
            FrameRead::TooLarge(n) => r matches Err(ProtoError::FrameTooLarge(m)) && m == n,
            FrameRead::Payload(p) => r matches Ok((out, used)) && out@ == p && used == 4 + p.len(),
        },
{
    if stream.len() < 4 {
        return Err(ProtoError::Io("early eof".to_string()));
    }
    let header: [u8; 4] = [stream[0], stream[1], stream[2], stream[3]];
    assert(header@.take(4) =~= stream@.take(4));
    let n: usize = match frame_len(&header) {
        Ok(n) => n,
        Err(e) => {
            return Err(e);
        },
    };
    if stream.len() - 4 < n {
        return Err(ProtoError::Io("early eof".to_string()));
    }
    let mut out: Vec<u8> = Vec::new();
    bytes::append_slice(&mut out, vstd::slice::slice_subrange(stream, 4, 4 + n));
    assert(out@ =~= stream@.subrange(4, 4 + n));
    Ok((out, 4 + n))
}

/// A frame is its payload behind the payload's length in four bytes, the most significant
/// first.
pub proof fn lemma_frame_states_its_length(payload: Seq<u8>)
    requires
        payload.len() <= 1_048_576,
    ensures
        ({
            let f = frame(payload);
            &&& f.len() == 4 + payload.len()
            &&& 0x100_0000 * f[0] + 0x1_0000 * f[1] + 0x100 * f[2] + f[3] == payload.len()
            &&& forall|i: int| 0 <= i < payload.len() ==> f[4 + i] == #[trigger] payload[i]
        }),
{
}

/// A stream that states a length of more than a mebibyte is refused, and so much is read of
/// any other as it states.
pub proof fn lemma_frames_are_read_as_stated(stream: Seq<u8>, n: int)
    requires
        stream.len() >= 4,
        n == 0x100_0000 * stream[0] + 0x1_0000 * stream[1] + 0x100 * stream[2] + stream[3],
    ensures
        n > 1_048_576 ==> first_frame(stream) == FrameRead::TooLarge(n as nat),
        n <= 1_048_576 && stream.len() < 4 + n ==> first_frame(stream) is Short,
        n <= 1_048_576 && stream.len() >= 4 + n ==> (first_frame(stream) matches FrameRead::Payload(p) && p.len() == n
            && forall|i: int| 0 <= i < n ==> #[trigger] p[i] == stream[4 + i]),
{
    lemma_be4(stream.take(4));
}

/// A stream of less than four bytes holds no frame.
pub proof fn lemma_short_streams_hold_nothing(stream: Seq<u8>)
    requires
        stream.len() < 4,
    ensures
        first_frame(stream) is Short,
{
}

/// What an error says: what failed, and how.
pub proof fn lemma_errors_say_why(why: String, n: usize)
    ensures
        ProtoError::Io(why).text() == seq!['i', 'o', ':', ' '] + why@,
        ProtoError::Codec(why).text() == seq!['c', 'o', 'd', 'e', 'c', ':', ' '] + why@,
        text::decimal(n as nat).is_suffix_of(ProtoError::FrameTooLarge(n).text()),
{
    reveal_strlit("io: ");
    reveal_strlit("codec: ");
    assert("io: "@ =~= seq!['i', 'o', ':', ' ']);
    assert("codec: "@ =~= seq!['c', 'o', 'd', 'e', 'c', ':', ' ']);
    let t = ProtoError::FrameTooLarge(n).text();
    let d = text::decimal(n as nat);
    assert(t.skip(t.len() - d.len()) =~= d);
}

/// A frame that is too large is refused by its length.
pub proof fn lemma_large_frames_are_named(n: usize)
    ensures
        ProtoError::FrameTooLarge(n).text() == "frame too large: "@ + text::decimal(n as nat),
{
}

} // verus!
