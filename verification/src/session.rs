//! Flow-keyed session sampling.
//!
//! Network traffic is summarized per flow: packets of one 5-tuple (and of
//! its reverse direction) share a session that buffers up to a fixed budget
//! of payload bytes.  A sweep over the table emits ripe payloads as packet
//! entries into a batch builder, ages idle flows, and drops flows whose
//! payload was judged near-random.

use crate::fluentd::MessageV;
use crate::fluentd::SizedForwardMode;
use crate::fluentd::can_push_packet;
use crate::fluentd::packet_entry;
use crate::fluentd::spec_message_bytes;
use crate::fluentd::with_entry;
use vstd::prelude::*;
use vstd::string::StringSliceAdditionalSpecFns;

verus! {

/// Number of sweeps an idle flow survives before it is dropped.
pub const MAX_AGE: usize = 128;

/// Per-flow cap, in bytes, of buffered and sampled payload.
pub const MAX_SAMPLE_SIZE: usize = 2048;

/// Minimum buffered payload before a flow is ripe for emission.
pub const MIN_SAMPLE_SIZE: usize = 128;

/// Serialized length of the five fixed sub-records of a packet entry:
/// the five keys, each with its string header, and the five values, each
/// with its byte-string header.
pub const SESSION_EXTRA_BYTES: usize = 49;

/// Reserve, in the emission size check, for the payload key and the
/// entry time.
pub const MESSAGE_LABEL_LEN: usize = 16;

/// Mathematical model of one session.
pub ghost struct SessionV {
    pub src_addr: u32,
    pub dst_addr: u32,
    pub src_port: u16,
    pub dst_port: u16,
    pub proto: u8,
    pub event_id: u64,
    pub age: nat,
    pub sampling: bool,
    pub bytes_sampled: nat,
    pub payload: Seq<u8>,
}

/// An IPv4 session.
pub struct Sessionv4 {
    src_addr: u32,
    dst_addr: u32,
    src_port: u16,
    dst_port: u16,
    proto: u8,
    event_id: u64,
    age: usize,
    sampling: bool,
    bytes_sampled: usize,
    payload: Vec<u8>,
}

impl View for Sessionv4 {
    type V = SessionV;

    closed spec fn view(&self) -> SessionV {
        SessionV {
            src_addr: self.src_addr,
            dst_addr: self.dst_addr,
            src_port: self.src_port,
            dst_port: self.dst_port,
            proto: self.proto,
            event_id: self.event_id,
            age: self.age as nat,
            sampling: self.sampling,
            bytes_sampled: self.bytes_sampled as nat,
            payload: self.payload@,
        }
    }
}

/// The model of a fresh session buffering its first payload.
pub open spec fn new_session(
    src_addr: u32,
    dst_addr: u32,
    src_port: u16,
    dst_port: u16,
    proto: u8,
    event_id: u64,
    payload: Seq<u8>,
) -> SessionV {
    SessionV {
        src_addr: src_addr,
        dst_addr: dst_addr,
        src_port: src_port,
        dst_port: dst_port,
        proto: proto,
        event_id: event_id,
        age: 0,
        sampling: true,
        bytes_sampled: 0,
        payload: payload,
    }
}

impl Sessionv4 {
    /// A fresh session: sampling, age zero, nothing sampled yet.
    pub fn new(
        src_addr: u32,
        dst_addr: u32,
        src_port: u16,
        dst_port: u16,
        proto: u8,
        event_id: u64,
        payload: &[u8],
    ) -> (r: Self)
        ensures
            r@ == new_session(src_addr, dst_addr, src_port, dst_port, proto, event_id, payload@),
    {
        Sessionv4 {
            src_addr,
            dst_addr,
            src_port,
            dst_port,
            proto,
            event_id,
            age: 0,
            sampling: true,
            bytes_sampled: 0,
            payload: vstd::slice::slice_to_vec(payload),
        }
    }
}

/// The flow key: symmetric in the two directions of a flow, so that both
/// map to the same session.
pub open spec fn spec_hash(
    src_addr: u32,
    dst_addr: u32,
    src_port: u16,
    dst_port: u16,
    proto: u8,
) -> int {
    (src_addr + dst_addr) * 0x8000_0000 + proto * 0x2_0000 + src_port + dst_port
}

/// The flow key of a packet's addresses, ports and protocol.
pub fn hash(src_addr: u32, dst_addr: u32, src_port: u16, dst_port: u16, proto: u8) -> (r: u64)
    ensures
        r == spec_hash(src_addr, dst_addr, src_port, dst_port, proto),
{
    let s: u64 = u64::from(src_addr) + u64::from(dst_addr);
    let shifted: u64 = s << 31u64;
    proof {
        assert(s < 0x2_0000_0000 ==> (s << 31u64) == s * 0x8000_0000) by (bit_vector);
    }
    let p: u64 = u64::from(proto) << 17u64;
    proof {
        let pr = proto;
        assert(((pr as u64) << 17u64) == pr * 0x2_0000) by (bit_vector);
    }
    shifted + p + u64::from(src_port) + u64::from(dst_port)
}

/// The flow key does not depend on the direction of the packet: swapping
/// source and destination gives the same key.
pub proof fn lemma_hash_symmetric(
    src_addr: u32,
    dst_addr: u32,
    src_port: u16,
    dst_port: u16,
    proto: u8,
)
    ensures
        spec_hash(src_addr, dst_addr, src_port, dst_port, proto) == spec_hash(
            dst_addr,
            src_addr,
            dst_port,
            src_port,
            proto,
        ),
{
}

/// A well-formed session: buffered plus already-sampled bytes within the
/// budget, and the age within its bound.
pub open spec fn wf_session(s: SessionV) -> bool {
    &&& s.bytes_sampled + s.payload.len() <= MAX_SAMPLE_SIZE
    &&& s.age <= MAX_AGE
}

/// Total buffered payload bytes of a session table.
pub open spec fn sum_payloads(v: Seq<(u64, SessionV)>) -> nat
    decreases v.len(),
{
    if v.len() == 0 {
        0
    } else {
        sum_payloads(v.drop_last()) + v.last().1.payload.len()
    }
}

/// Whether the table holds a session under the given key.
pub open spec fn ts_has(v: Seq<(u64, SessionV)>, h: u64) -> bool {
    exists|i: int| 0 <= i < v.len() && v[i].0 == h
}

/// The index of the session under the given key.
pub open spec fn ts_index(v: Seq<(u64, SessionV)>, h: u64) -> int {
    choose|i: int| 0 <= i < v.len() && v[i].0 == h
}

/// A well-formed session table: unique keys, each the hash of its
/// session's addresses, and all sessions well formed.
pub open spec fn wf_table(v: Seq<(u64, SessionV)>) -> bool {
    &&& forall|i: int, j: int| 0 <= i < j < v.len() ==> v[i].0 != v[j].0
    &&& forall|i: int|
        0 <= i < v.len() ==> (#[trigger] v[i]).0 == spec_hash(
            v[i].1.src_addr,
            v[i].1.dst_addr,
            v[i].1.src_port,
            v[i].1.dst_port,
            v[i].1.proto,
        )
    &&& forall|i: int| 0 <= i < v.len() ==> wf_session((#[trigger] v[i]).1)
}

/// A summary of network traffic as a collection of sessions.
pub struct Traffic {
    sessions: Vec<(u64, Sessionv4)>,
    message_data: usize,
}

/// The model of a stored session list.
pub closed spec fn view_pairs(s: Seq<(u64, Sessionv4)>) -> Seq<(u64, SessionV)> {
    s.map_values(|p: (u64, Sessionv4)| (p.0, p.1@))
}

impl View for Traffic {
    type V = Seq<(u64, SessionV)>;

    closed spec fn view(&self) -> Seq<(u64, SessionV)> {
        view_pairs(self.sessions@)
    }
}

impl Traffic {
    /// The traffic invariant: a well-formed table whose buffered byte
    /// count equals the sum of the sessions' buffered payloads.
    pub open spec fn wf(&self) -> bool {
        &&& wf_table(self@)
        &&& self.spec_message_data() == sum_payloads(self@)
    }

    /// The count of buffered payload bytes, for contracts.
    pub closed spec fn spec_message_data(&self) -> usize {
        self.message_data
    }

    /// The count of buffered payload bytes over all sessions.
    pub fn message_data(&self) -> (r: usize)
        ensures
            r == self.spec_message_data(),
    {
        self.message_data
    }

    /// The number of live sessions.
    pub fn session_count(&self) -> (r: usize)
        ensures
            r == self@.len(),
    {
        self.sessions.len()
    }
}

/// The flow key as the 64-bit value the table stores.
pub open spec fn spec_hash64(
    src_addr: u32,
    dst_addr: u32,
    src_port: u16,
    dst_port: u16,
    proto: u8,
) -> u64 {
    spec_hash(src_addr, dst_addr, src_port, dst_port, proto) as u64
}

/// How many leading payload bytes an update reads: all of them, capped at
/// the sampling budget.
pub open spec fn upd_read_len(data_len: nat) -> nat {
    if data_len < MAX_SAMPLE_SIZE {
        data_len
    } else {
        MAX_SAMPLE_SIZE as nat
    }
}

/// Outcome of one session update.
pub ghost struct UpdOut {
    pub sessions: Seq<(u64, SessionV)>,
    pub mdata: int,
    pub is_new: bool,
}

/// The exact transition of `update_session`: a packet of a known flow
/// extends its buffer up to the remaining budget (or is ignored when the
/// flow stopped sampling or its budget is spent); a packet of an unknown
/// flow opens a fresh session.  The buffered byte count grows by what was
/// absorbed.
pub open spec fn update_session_spec(
    v: Seq<(u64, SessionV)>,
    mdata: int,
    src_addr: u32,
    dst_addr: u32,
    src_port: u16,
    dst_port: u16,
    proto: u8,
    data: Seq<u8>,
    event_id: u64,
) -> UpdOut {
    let h = spec_hash64(src_addr, dst_addr, src_port, dst_port, proto);
    let rl0 = upd_read_len(data.len());
    if ts_has(v, h) {
        let i = ts_index(v, h);
        let s = v[i].1;
        if !s.sampling || s.bytes_sampled + s.payload.len() >= MAX_SAMPLE_SIZE {
            UpdOut { sessions: v, mdata: mdata, is_new: false }
        } else {
            let room = MAX_SAMPLE_SIZE - (s.bytes_sampled + s.payload.len());
            let rl = if rl0 <= room {
                rl0 as int
            } else {
                room
            };
            let s2 = SessionV { payload: s.payload + data.take(rl), ..s };
            UpdOut { sessions: v.update(i, (h, s2)), mdata: mdata + rl, is_new: false }
        }
    } else {
        let s2 = new_session(
            src_addr,
            dst_addr,
            src_port,
            dst_port,
            proto,
            event_id,
            data.take(rl0 as int),
        );
        UpdOut { sessions: v.push((h, s2)), mdata: mdata + rl0, is_new: true }
    }
}

/// Appending a session adds its buffered payload to the total.
pub proof fn lemma_sum_push(v: Seq<(u64, SessionV)>, p: (u64, SessionV))
    ensures
        sum_payloads(v.push(p)) == sum_payloads(v) + p.1.payload.len(),
{
    assert(v.push(p).drop_last() =~= v);
    assert(v.push(p).last() == p);
}

/// Replacing a session changes the total by the payload difference.
pub proof fn lemma_sum_update(v: Seq<(u64, SessionV)>, i: int, p: (u64, SessionV))
    requires
        0 <= i < v.len(),
    ensures
        sum_payloads(v.update(i, p)) + v[i].1.payload.len() == sum_payloads(v)
            + p.1.payload.len(),
    decreases v.len(),
{
    let q = v.update(i, p);
    if i == v.len() - 1 {
        assert(q.drop_last() =~= v.drop_last());
        assert(q.last() == p);
    } else {
        assert(q.last() == v.last());
        assert(q.drop_last() =~= v.drop_last().update(i, p));
        assert(v.drop_last()[i] == v[i]);
        lemma_sum_update(v.drop_last(), i, p);
    }
}

/// Appends the first `n` bytes of `src` to `dst`.
pub(crate) fn extend_bytes(dst: &mut Vec<u8>, src: &[u8], n: usize)
    requires
        n <= src@.len(),
        old(dst)@.len() + n <= usize::MAX,
    ensures
        final(dst)@ == old(dst)@ + src@.take(n as int),
{
    let mut i: usize = 0;
    while i < n
        invariant
            n <= src@.len(),
            0 <= i <= n,
            old(dst)@.len() + n <= usize::MAX,
            dst@ == old(dst)@ + src@.take(i as int),
        decreases n - i,
    {
        dst.push(src[i]);
        proof {
            assert(dst@ =~= old(dst)@ + src@.take(i as int + 1));
        }
        i += 1;
    }
}

/// The index of the session stored under the given key, if any.
fn find_session_idx(v: &Vec<(u64, Sessionv4)>, h: u64) -> (r: Option<usize>)
    ensures
        match r {
            Some(i) => i < v@.len() && v@[i as int].0 == h,
            None => forall|j: int| 0 <= j < v@.len() ==> (#[trigger] v@[j]).0 != h,
        },
{
    let n = v.len();
    let mut i: usize = 0;
    while i < n
        invariant
            n == v@.len(),
            0 <= i <= n,
            forall|j: int| 0 <= j < i ==> (#[trigger] v@[j]).0 != h,
        decreases n - i,
    {
        if v[i].0 == h {
            return Some(i);
        }
        i += 1;
    }
    None
}

impl Traffic {
    /// Feeds one packet's payload to its flow's session, opening the
    /// session when the flow is new.  Returns whether it was new.
    pub fn update_session(
        &mut self,
        src_addr: u32,
        dst_addr: u32,
        src_port: u16,
        dst_port: u16,
        proto: u8,
        data: &[u8],
        event_id: u64,
    ) -> (is_new: bool)
        requires
            old(self).wf(),
            old(self).spec_message_data() + MAX_SAMPLE_SIZE <= usize::MAX,
        ensures
            final(self).wf(),
            ({
                let o = update_session_spec(
                    old(self)@,
                    old(self).spec_message_data() as int,
                    src_addr,
                    dst_addr,
                    src_port,
                    dst_port,
                    proto,
                    data@,
                    event_id,
                );
                &&& final(self)@ == o.sessions
                &&& final(self).spec_message_data() == o.mdata
                &&& is_new == o.is_new
            }),
    {
        let ghost o = update_session_spec(
            old(self)@,
            old(self).spec_message_data() as int,
            src_addr,
            dst_addr,
            src_port,
            dst_port,
            proto,
            data@,
            event_id,
        );
        let h = hash(src_addr, dst_addr, src_port, dst_port, proto);
        let mut read_len = if data.len() < MAX_SAMPLE_SIZE {
            data.len()
        } else {
            MAX_SAMPLE_SIZE
        };
        match find_session_idx(&self.sessions, h) {
            Some(i) => {
                proof {
                    assert(self@[i as int].0 == h);
                    assert(ts_has(self@, h));
                    let j = ts_index(self@, h);
                    assert(self@[j].0 == h);
                    assert(i == j);
                }
                let (k, mut s) = self.sessions.remove(i);
                if !s.sampling || s.bytes_sampled + s.payload.len() >= MAX_SAMPLE_SIZE {
                    self.sessions.insert(i, (k, s));
                    proof {
                        assert(self@ =~= old(self)@);
                    }
                    return false;
                }
                let room = MAX_SAMPLE_SIZE - (s.bytes_sampled + s.payload.len());
                if room < read_len {
                    read_len = room;
                }
                extend_bytes(&mut s.payload, data, read_len);
                self.sessions.insert(i, (k, s));
                self.message_data = self.message_data + read_len;
                proof {
                    lemma_sum_update(old(self)@, i as int, self@[i as int]);
                    assert(self@ =~~= o.sessions);
                }
                false
            },
            None => {
                let mut s = Sessionv4::new(
                    src_addr,
                    dst_addr,
                    src_port,
                    dst_port,
                    proto,
                    event_id,
                    &data[0..read_len],
                );
                if read_len < MAX_SAMPLE_SIZE {
                    s.payload.reserve(MAX_SAMPLE_SIZE);
                }
                let ghost sv = s@;
                self.sessions.push((h, s));
                self.message_data = self.message_data + read_len;
                proof {
                    lemma_sum_push(old(self)@, (h, sv));
                    assert(self@ =~~= o.sessions);
                }
                true
            },
        }
    }
}

/// The bytes of the key under which a flow's payload is emitted.
pub open spec fn label_message() -> Seq<u8> {
    "message".spec_bytes()
}

/// The payload key is the seven ASCII bytes of "message".
pub proof fn lemma_message_label_len()
    ensures
        label_message().len() == 7,
{
    reveal_strlit("message");
    assert(vstd::utf8::is_ascii_chars("message"@));
    vstd::utf8::is_ascii_chars_encode_utf8("message"@);
}

/// First-match lookup in the near-random verdict list; a flow that is not
/// listed counts as not near-random.
pub open spec fn gate_of(gate: Seq<(u64, bool)>, h: u64) -> bool
    decreases gate.len(),
{
    if gate.len() == 0 {
        false
    } else if gate[0].0 == h {
        gate[0].1
    } else {
        gate_of(gate.drop_first(), h)
    }
}

/// A flow ripe for emission: still sampling, with enough buffered payload.
pub open spec fn mnm_eligible(s: SessionV) -> bool {
    s.sampling && s.payload.len() >= MIN_SAMPLE_SIZE
}

/// Outcome of the sweep over the session table, before pruning.
pub ghost struct MnmOut {
    pub sessions: Seq<(u64, SessionV)>,
    pub removal: Seq<u64>,
    pub msg: MessageV,
    pub count: nat,
    pub mdata: int,
    pub stopped: bool,
}

/// The exact sweep of `make_next_message` from position `i` on: an
/// unripe flow ages (and is queued for removal once its age has reached
/// the bound); a ripe flow judged near-random stops sampling and drops
/// its buffer; a ripe flow that would not fit the batch is skipped; any
/// other ripe flow is emitted as a packet entry, counts toward the
/// sequence, and the sweep stops once the batch has reached `max_len`.
#[verifier::opaque]
pub open spec fn mnm_scan(
    v: Seq<(u64, SessionV)>,
    i: int,
    msg: MessageV,
    count: nat,
    mdata: int,
    removal: Seq<u64>,
    max_len: int,
    gate: Seq<(u64, bool)>,
) -> MnmOut
    decreases v.len() - i,
{
    if i < 0 || i >= v.len() {
        MnmOut {
            sessions: v,
            removal: removal,
            msg: msg,
            count: count,
            mdata: mdata,
            stopped: false,
        }
    } else {
        let h = v[i].0;
        let s = v[i].1;
        if !mnm_eligible(s) {
            let removal2 = if s.age >= MAX_AGE {
                removal.push(h)
            } else {
                removal
            };
            let s2 = SessionV { age: s.age + 1, ..s };
            mnm_scan(v.update(i, (h, s2)), i + 1, msg, count, mdata, removal2, max_len, gate)
        } else if gate_of(gate, h) {
            let s2 = SessionV { sampling: false, bytes_sampled: 0, payload: Seq::empty(), ..s };
            mnm_scan(
                v.update(i, (h, s2)),
                i + 1,
                msg,
                count,
                mdata - s.payload.len(),
                removal,
                max_len,
                gate,
            )
        } else if spec_message_bytes(msg).len() + s.payload.len() + SESSION_EXTRA_BYTES
            + MESSAGE_LABEL_LEN > max_len {
            mnm_scan(v, i + 1, msg, count, mdata, removal, max_len, gate)
        } else {
            let e = packet_entry(
                s.event_id,
                label_message(),
                s.payload,
                s.src_addr,
                s.dst_addr,
                s.src_port,
                s.dst_port,
                s.proto,
            );
            let msg2 = if can_push_packet(
                msg,
                s.event_id,
                label_message(),
                s.payload,
                s.src_addr,
                s.dst_addr,
                s.src_port,
                s.dst_port,
                s.proto,
            ) {
                with_entry(msg, e)
            } else {
                msg
            };
            let s2 = SessionV {
                bytes_sampled: s.bytes_sampled + s.payload.len(),
                age: 0,
                sampling: s.bytes_sampled + s.payload.len() < MAX_SAMPLE_SIZE,
                payload: Seq::empty(),
                ..s
            };
            let v2 = v.update(i, (h, s2));
            let mdata2 = mdata - s.payload.len();
            if spec_message_bytes(msg2).len() >= max_len {
                MnmOut {
                    sessions: v2,
                    removal: removal,
                    msg: msg2,
                    count: count + 1,
                    mdata: mdata2,
                    stopped: true,
                }
            } else {
                mnm_scan(v2, i + 1, msg2, count + 1, mdata2, removal, max_len, gate)
            }
        }
    }
}

/// One aging step of the sweep, as an equation between scan states.
pub proof fn lemma_scan_step_age(
    v: Seq<(u64, SessionV)>,
    i: int,
    msg: MessageV,
    count: nat,
    mdata: int,
    removal: Seq<u64>,
    max_len: int,
    gate: Seq<(u64, bool)>,
)
    requires
        0 <= i < v.len(),
        !mnm_eligible(v[i].1),
    ensures
        mnm_scan(v, i, msg, count, mdata, removal, max_len, gate) == mnm_scan(
            v.update(i, (v[i].0, SessionV { age: v[i].1.age + 1, ..v[i].1 })),
            i + 1,
            msg,
            count,
            mdata,
            if v[i].1.age >= MAX_AGE {
                removal.push(v[i].0)
            } else {
                removal
            },
            max_len,
            gate,
        ),
{
    reveal_with_fuel(mnm_scan, 2);
}

/// One gating step of the sweep: a near-random flow stops sampling.
pub proof fn lemma_scan_step_gate(
    v: Seq<(u64, SessionV)>,
    i: int,
    msg: MessageV,
    count: nat,
    mdata: int,
    removal: Seq<u64>,
    max_len: int,
    gate: Seq<(u64, bool)>,
)
    requires
        0 <= i < v.len(),
        mnm_eligible(v[i].1),
        gate_of(gate, v[i].0),
    ensures
        mnm_scan(v, i, msg, count, mdata, removal, max_len, gate) == mnm_scan(
            v.update(
                i,
                (
                    v[i].0,
                    SessionV { sampling: false, bytes_sampled: 0, payload: Seq::empty(), ..v[i].1 },
                ),
            ),
            i + 1,
            msg,
            count,
            mdata - v[i].1.payload.len(),
            removal,
            max_len,
            gate,
        ),
{
    reveal_with_fuel(mnm_scan, 2);
}

/// One skipping step of the sweep: a ripe flow that would overflow the
/// batch is left as it is.
pub proof fn lemma_scan_step_skip(
    v: Seq<(u64, SessionV)>,
    i: int,
    msg: MessageV,
    count: nat,
    mdata: int,
    removal: Seq<u64>,
    max_len: int,
    gate: Seq<(u64, bool)>,
)
    requires
        0 <= i < v.len(),
        mnm_eligible(v[i].1),
        !gate_of(gate, v[i].0),
        spec_message_bytes(msg).len() + v[i].1.payload.len() + SESSION_EXTRA_BYTES
            + MESSAGE_LABEL_LEN > max_len,
    ensures
        mnm_scan(v, i, msg, count, mdata, removal, max_len, gate) == mnm_scan(
            v,
            i + 1,
            msg,
            count,
            mdata,
            removal,
            max_len,
            gate,
        ),
{
    reveal_with_fuel(mnm_scan, 2);
}

/// The batch after one emission of the sweep.
pub open spec fn mnm_emit_msg(msg: MessageV, s: SessionV) -> MessageV {
    let e = packet_entry(
        s.event_id,
        label_message(),
        s.payload,
        s.src_addr,
        s.dst_addr,
        s.src_port,
        s.dst_port,
        s.proto,
    );
    if can_push_packet(
        msg,
        s.event_id,
        label_message(),
        s.payload,
        s.src_addr,
        s.dst_addr,
        s.src_port,
        s.dst_port,
        s.proto,
    ) {
        with_entry(msg, e)
    } else {
        msg
    }
}

/// The session after one emission of the sweep.
pub open spec fn mnm_emit_session(s: SessionV) -> SessionV {
    SessionV {
        bytes_sampled: s.bytes_sampled + s.payload.len(),
        age: 0,
        sampling: s.bytes_sampled + s.payload.len() < MAX_SAMPLE_SIZE,
        payload: Seq::empty(),
        ..s
    }
}

/// One emitting step of the sweep, continuing the scan.
pub proof fn lemma_scan_step_emit(
    v: Seq<(u64, SessionV)>,
    i: int,
    msg: MessageV,
    count: nat,
    mdata: int,
    removal: Seq<u64>,
    max_len: int,
    gate: Seq<(u64, bool)>,
)
    requires
        0 <= i < v.len(),
        mnm_eligible(v[i].1),
        !gate_of(gate, v[i].0),
        spec_message_bytes(msg).len() + v[i].1.payload.len() + SESSION_EXTRA_BYTES
            + MESSAGE_LABEL_LEN <= max_len,
        spec_message_bytes(mnm_emit_msg(msg, v[i].1)).len() < max_len,
    ensures
        mnm_scan(v, i, msg, count, mdata, removal, max_len, gate) == mnm_scan(
            v.update(i, (v[i].0, mnm_emit_session(v[i].1))),
            i + 1,
            mnm_emit_msg(msg, v[i].1),
            count + 1,
            mdata - v[i].1.payload.len(),
            removal,
            max_len,
            gate,
        ),
{
    reveal_with_fuel(mnm_scan, 2);
}

/// One emitting step of the sweep that fills the batch and stops it.
pub proof fn lemma_scan_step_emit_stop(
    v: Seq<(u64, SessionV)>,
    i: int,
    msg: MessageV,
    count: nat,
    mdata: int,
    removal: Seq<u64>,
    max_len: int,
    gate: Seq<(u64, bool)>,
)
    requires
        0 <= i < v.len(),
        mnm_eligible(v[i].1),
        !gate_of(gate, v[i].0),
        spec_message_bytes(msg).len() + v[i].1.payload.len() + SESSION_EXTRA_BYTES
            + MESSAGE_LABEL_LEN <= max_len,
        spec_message_bytes(mnm_emit_msg(msg, v[i].1)).len() >= max_len,
    ensures
        mnm_scan(v, i, msg, count, mdata, removal, max_len, gate) == (MnmOut {
            sessions: v.update(i, (v[i].0, mnm_emit_session(v[i].1))),
            removal: removal,
            msg: mnm_emit_msg(msg, v[i].1),
            count: count + 1,
            mdata: mdata - v[i].1.payload.len(),
            stopped: true,
        }),
{
    reveal_with_fuel(mnm_scan, 2);
}

/// The sweep's in-progress table shape: the suffix from `i` on is still
/// untouched, keys are unique and tied to their sessions' addresses,
/// budgets hold, and only queued sessions exceed the age bound, by one.
pub open spec fn scan_inv(
    cur: Seq<(u64, SessionV)>,
    orig: Seq<(u64, SessionV)>,
    removal: Seq<u64>,
    i: int,
) -> bool {
    &&& cur.len() == orig.len()
    &&& forall|j: int| i <= j < cur.len() ==> cur[j] == orig[j]
    &&& forall|j: int, l: int| 0 <= j < l < cur.len() ==> cur[j].0 != cur[l].0
    &&& forall|j: int|
        0 <= j < cur.len() ==> (#[trigger] cur[j]).0 == spec_hash(
            cur[j].1.src_addr,
            cur[j].1.dst_addr,
            cur[j].1.src_port,
            cur[j].1.dst_port,
            cur[j].1.proto,
        )
    &&& forall|j: int|
        0 <= j < cur.len() ==> (#[trigger] cur[j]).1.bytes_sampled + cur[j].1.payload.len()
            <= MAX_SAMPLE_SIZE
    &&& forall|j: int|
        0 <= j < cur.len() ==> ((#[trigger] cur[j]).1.age <= MAX_AGE || (cur[j].1.age == MAX_AGE
            + 1 && removal.contains(cur[j].0)))
}

/// The in-progress shape survives moving the position forward.
pub proof fn lemma_inv_weaken(
    cur: Seq<(u64, SessionV)>,
    orig: Seq<(u64, SessionV)>,
    removal: Seq<u64>,
    i: int,
    j: int,
)
    requires
        scan_inv(cur, orig, removal, i),
        i <= j,
    ensures
        scan_inv(cur, orig, removal, j),
{
}

/// The in-progress shape survives an aging step.
pub proof fn lemma_inv_step_age(
    cur: Seq<(u64, SessionV)>,
    orig: Seq<(u64, SessionV)>,
    removal: Seq<u64>,
    i: int,
)
    requires
        scan_inv(cur, orig, removal, i),
        wf_table(orig),
        0 <= i < cur.len(),
    ensures
        scan_inv(
            cur.update(i, (cur[i].0, SessionV { age: cur[i].1.age + 1, ..cur[i].1 })),
            orig,
            if cur[i].1.age >= MAX_AGE {
                removal.push(cur[i].0)
            } else {
                removal
            },
            i + 1,
        ),
{
    let removal2 = if cur[i].1.age >= MAX_AGE {
        removal.push(cur[i].0)
    } else {
        removal
    };
    assert forall|x: u64| removal.contains(x) implies removal2.contains(x) by {
        let j = choose|j: int| 0 <= j < removal.len() && removal[j] == x;
        assert(removal2[j] == x);
    }
    if cur[i].1.age >= MAX_AGE {
        assert(cur[i] == orig[i]);
        assert(wf_session(orig[i].1));
        assert(removal2[removal.len() as int] == cur[i].0);
        assert(removal2.contains(cur[i].0));
    }
}

/// The in-progress shape survives replacing the session at the position
/// with one of the same addresses, a bounded budget, and age zero or
/// unchanged.
pub proof fn lemma_inv_step_replace(
    cur: Seq<(u64, SessionV)>,
    orig: Seq<(u64, SessionV)>,
    removal: Seq<u64>,
    i: int,
    s2: SessionV,
)
    requires
        scan_inv(cur, orig, removal, i),
        wf_table(orig),
        0 <= i < cur.len(),
        s2.src_addr == cur[i].1.src_addr,
        s2.dst_addr == cur[i].1.dst_addr,
        s2.src_port == cur[i].1.src_port,
        s2.dst_port == cur[i].1.dst_port,
        s2.proto == cur[i].1.proto,
        s2.bytes_sampled + s2.payload.len() <= MAX_SAMPLE_SIZE,
        s2.age == 0 || s2.age == cur[i].1.age,
    ensures
        scan_inv(cur.update(i, (cur[i].0, s2)), orig, removal, i + 1),
{
    assert(cur[i] == orig[i]);
    assert(wf_session(orig[i].1));
}

/// Taking a stored pair out and putting another back at the same place
/// replaces exactly that position of the model.
pub proof fn lemma_view_pairs_replace(sq: Seq<(u64, Sessionv4)>, i: int, p: (u64, Sessionv4))
    requires
        0 <= i < sq.len(),
    ensures
        view_pairs(sq.remove(i).insert(i, p)) == view_pairs(sq).update(i, (p.0, p.1@)),
{
    assert(view_pairs(sq.remove(i).insert(i, p)) =~~= view_pairs(sq).update(i, (p.0, p.1@)));
}

/// A sweep that has passed the end of the table leaves the state as it is.
pub proof fn lemma_scan_done(
    v: Seq<(u64, SessionV)>,
    i: int,
    msg: MessageV,
    count: nat,
    mdata: int,
    removal: Seq<u64>,
    max_len: int,
    gate: Seq<(u64, bool)>,
)
    requires
        i >= v.len(),
    ensures
        mnm_scan(v, i, msg, count, mdata, removal, max_len, gate) == (MnmOut {
            sessions: v,
            removal: removal,
            msg: msg,
            count: count,
            mdata: mdata,
            stopped: false,
        }),
{
    reveal_with_fuel(mnm_scan, 2);
}

/// The session after one aging step.
pub open spec fn aged_session(s: SessionV) -> SessionV {
    SessionV { age: s.age + 1, ..s }
}

/// The session after the entropy gate disabled it.
pub open spec fn gated_session(s: SessionV) -> SessionV {
    SessionV { sampling: false, bytes_sampled: 0, payload: Seq::empty(), ..s }
}

/// What one sweep can do to a single session: leave it (skipped, or the
/// sweep stopped first), age it, disable it as near-random, or emit it.
pub open spec fn sweep_outcome(s_old: SessionV, s_new: SessionV) -> bool {
    ||| s_new == s_old
    ||| s_new == aged_session(s_old)
    ||| s_new == gated_session(s_old)
    ||| s_new == mnm_emit_session(s_old)
}

/// Per-session accounting of the sweep: keys and positions are kept, each
/// session moves by one of the four outcomes, and a key is queued for
/// removal only when its session had reached the age bound.
#[verifier::rlimit(100)]
pub proof fn lemma_scan_outcomes(
    v: Seq<(u64, SessionV)>,
    i: int,
    msg: MessageV,
    count: nat,
    mdata: int,
    removal: Seq<u64>,
    max_len: int,
    gate: Seq<(u64, bool)>,
)
    requires
        0 <= i <= v.len(),
    ensures
        ({
            let o = mnm_scan(v, i, msg, count, mdata, removal, max_len, gate);
            &&& o.sessions.len() == v.len()
            &&& forall|j: int| 0 <= j < i ==> o.sessions[j] == v[j]
            &&& forall|j: int| i <= j < v.len() ==> (#[trigger] o.sessions[j]).0 == v[j].0
            &&& forall|j: int|
                i <= j < v.len() ==> sweep_outcome(v[j].1, (#[trigger] o.sessions[j]).1)
            &&& forall|h: u64| removal.contains(h) ==> o.removal.contains(h)
            &&& forall|h: u64|
                o.removal.contains(h) ==> removal.contains(h) || exists|j: int|
                    i <= j < v.len() && (#[trigger] v[j]).0 == h && v[j].1.age >= MAX_AGE
            &&& forall|j: int|
                i <= j < v.len() && !o.stopped && mnm_eligible((#[trigger] v[j]).1) && gate_of(
                    gate,
                    v[j].0,
                ) ==> o.sessions[j].1 == gated_session(v[j].1)
        }),
    decreases v.len() - i,
{
    let o = mnm_scan(v, i, msg, count, mdata, removal, max_len, gate);
    if i >= v.len() {
        lemma_scan_done(v, i, msg, count, mdata, removal, max_len, gate);
    } else {
        let h = v[i].0;
        let s = v[i].1;
        let stop_now = mnm_eligible(s) && !gate_of(gate, h) && spec_message_bytes(msg).len()
            + s.payload.len() + SESSION_EXTRA_BYTES + MESSAGE_LABEL_LEN <= max_len
            && spec_message_bytes(mnm_emit_msg(msg, s)).len() >= max_len;
        if stop_now {
            lemma_scan_step_emit_stop(v, i, msg, count, mdata, removal, max_len, gate);
            let v2 = v.update(i, (h, mnm_emit_session(s)));
            assert forall|j: int| 0 <= j < i implies o.sessions[j] == v[j] by {
                assert(v2[j] == v[j]);
            }
            assert forall|j: int| i <= j < v.len() implies (#[trigger] o.sessions[j]).0 == v[j].0
                && sweep_outcome(v[j].1, o.sessions[j].1) by {
                if j != i {
                    assert(v2[j] == v[j]);
                }
            }
        } else {
            let s2 = if !mnm_eligible(s) {
                aged_session(s)
            } else if gate_of(gate, h) {
                gated_session(s)
            } else if spec_message_bytes(msg).len() + s.payload.len() + SESSION_EXTRA_BYTES
                + MESSAGE_LABEL_LEN > max_len {
                s
            } else {
                mnm_emit_session(s)
            };
            let removal2 = if !mnm_eligible(s) && s.age >= MAX_AGE {
                removal.push(h)
            } else {
                removal
            };
            let msg2 = if mnm_eligible(s) && !gate_of(gate, h) && spec_message_bytes(msg).len()
                + s.payload.len() + SESSION_EXTRA_BYTES + MESSAGE_LABEL_LEN <= max_len {
                mnm_emit_msg(msg, s)
            } else {
                msg
            };
            let count2: nat = if mnm_eligible(s) && !gate_of(gate, h) && spec_message_bytes(
                msg,
            ).len() + s.payload.len() + SESSION_EXTRA_BYTES + MESSAGE_LABEL_LEN <= max_len {
                count + 1
            } else {
                count
            };
            let mdata2 = if !mnm_eligible(s) || (mnm_eligible(s) && !gate_of(gate, h)
                && spec_message_bytes(msg).len() + s.payload.len() + SESSION_EXTRA_BYTES
                + MESSAGE_LABEL_LEN > max_len) {
                mdata
            } else {
                mdata - s.payload.len()
            };
            let v2 = v.update(i, (h, s2));
            if !mnm_eligible(s) {
                lemma_scan_step_age(v, i, msg, count, mdata, removal, max_len, gate);
            } else if gate_of(gate, h) {
                lemma_scan_step_gate(v, i, msg, count, mdata, removal, max_len, gate);
            } else if spec_message_bytes(msg).len() + s.payload.len() + SESSION_EXTRA_BYTES
                + MESSAGE_LABEL_LEN > max_len {
                lemma_scan_step_skip(v, i, msg, count, mdata, removal, max_len, gate);
                assert(v.update(i, (h, s)) =~= v);
            } else {
                lemma_scan_step_emit(v, i, msg, count, mdata, removal, max_len, gate);
            }
            lemma_scan_outcomes(v2, i + 1, msg2, count2, mdata2, removal2, max_len, gate);
            let o2 = mnm_scan(v2, i + 1, msg2, count2, mdata2, removal2, max_len, gate);
            assert(o == o2);
            assert forall|j: int| 0 <= j < i implies o.sessions[j] == v[j] by {
                assert(o2.sessions[j] == v2[j]);
                assert(v2[j] == v[j]);
            }
            assert forall|j: int| i <= j < v.len() implies (#[trigger] o.sessions[j]).0 == v[j].0
                && sweep_outcome(v[j].1, o.sessions[j].1) by {
                if j == i {
                    assert(o2.sessions[i] == v2[i]);
                    assert(sweep_outcome(s, s2));
                } else {
                    assert(o2.sessions[j].0 == v2[j].0);
                    assert(sweep_outcome(v2[j].1, o2.sessions[j].1));
                    assert(v2[j] == v[j]);
                }
            }
            assert forall|x: u64| removal.contains(x) implies o.removal.contains(x) by {
                let l = choose|l: int| 0 <= l < removal.len() && removal[l] == x;
                assert(removal2[l] == x);
                assert(removal2.contains(x));
                assert(o2.removal.contains(x));
            }
            assert forall|x: u64| o.removal.contains(x) implies removal.contains(x) || exists|
                j: int,
            | i <= j < v.len() && (#[trigger] v[j]).0 == x && v[j].1.age >= MAX_AGE by {
                if !removal.contains(x) {
                    if removal2.contains(x) {
                        assert(!mnm_eligible(s) && s.age >= MAX_AGE);
                        let l = choose|l: int| 0 <= l < removal2.len() && removal2[l] == x;
                        assert(l == removal.len());
                        assert(x == h);
                        assert(v[i].0 == x && v[i].1.age >= MAX_AGE);
                    } else {
                        let j = choose|j: int|
                            i + 1 <= j < v2.len() && (#[trigger] v2[j]).0 == x && v2[j].1.age
                                >= MAX_AGE;
                        assert(v2[j] == v[j]);
                        assert(v[j].0 == x && v[j].1.age >= MAX_AGE);
                    }
                }
            }
            assert forall|j: int|
                i <= j < v.len() && !o.stopped && mnm_eligible((#[trigger] v[j]).1) && gate_of(
                    gate,
                    v[j].0,
                ) implies o.sessions[j].1 == gated_session(v[j].1) by {
                if j == i {
                    assert(o2.sessions[i] == v2[i]);
                } else {
                    assert(v2[j] == v[j]);
                    assert(o2.sessions[j].1 == gated_session(v2[j].1));
                }
            }
        }
    }
}

/// A key survives the pruning exactly when it is present and not queued.
pub proof fn lemma_prune_has(v: Seq<(u64, SessionV)>, removal: Seq<u64>, h: u64)
    ensures
        ts_has(mnm_prune(v, removal), h) <==> (ts_has(v, h) && !removal.contains(h)),
    decreases v.len(),
{
    if v.len() == 0 {
    } else {
        lemma_prune_has(v.drop_first(), removal, h);
        let rest = mnm_prune(v.drop_first(), removal);
        if removal.contains(v[0].0) {
            if ts_has(v, h) && !removal.contains(h) {
                let j = choose|j: int| 0 <= j < v.len() && v[j].0 == h;
                assert(v.drop_first()[j - 1].0 == h);
                assert(ts_has(v.drop_first(), h));
            }
            if ts_has(v.drop_first(), h) {
                let j = choose|j: int| 0 <= j < v.drop_first().len() && v.drop_first()[j].0 == h;
                assert(v[j + 1].0 == h);
                assert(ts_has(v, h));
            }
        } else {
            let w = seq![v[0]] + rest;
            if ts_has(w, h) {
                let j = choose|j: int| 0 <= j < w.len() && w[j].0 == h;
                if j == 0 {
                    assert(v[0].0 == h);
                    assert(ts_has(v, h));
                } else {
                    assert(rest[j - 1].0 == h);
                    assert(ts_has(rest, h));
                    let l = choose|l: int| 0 <= l < v.drop_first().len() && v.drop_first()[l].0
                        == h;
                    assert(v[l + 1].0 == h);
                    assert(ts_has(v, h));
                }
            }
            if ts_has(v, h) && !removal.contains(h) {
                let j = choose|j: int| 0 <= j < v.len() && v[j].0 == h;
                if j == 0 {
                    assert(w[0].0 == h);
                    assert(ts_has(w, h));
                } else {
                    assert(v.drop_first()[j - 1].0 == h);
                    assert(ts_has(v.drop_first(), h));
                    assert(ts_has(rest, h));
                    let l = choose|l: int| 0 <= l < rest.len() && rest[l].0 == h;
                    assert(w[l + 1].0 == h);
                    assert(ts_has(w, h));
                }
            }
        }
    }
}

/// Session aging law: a sweep raises a flow's age by at most one, and a
/// flow whose age is below the bound survives the sweep.  A fresh flow is
/// thus present for at least `MAX_AGE` sweeps without updates.
pub proof fn lemma_session_aging(
    v: Seq<(u64, SessionV)>,
    msg: MessageV,
    mdata: int,
    max_len: int,
    gate: Seq<(u64, bool)>,
    j: int,
)
    requires
        wf_table(v),
        0 <= j < v.len(),
        v[j].1.age < MAX_AGE,
    ensures
        ({
            let o = mnm_scan(v, 0, msg, 0, mdata, Seq::empty(), max_len, gate);
            &&& ts_has(mnm_prune(o.sessions, o.removal), v[j].0)
            &&& o.sessions[j].1.age <= v[j].1.age + 1
        }),
{
    let o = mnm_scan(v, 0, msg, 0, mdata, Seq::empty(), max_len, gate);
    lemma_scan_outcomes(v, 0, msg, 0, mdata, Seq::empty(), max_len, gate);
    lemma_prune_has(o.sessions, o.removal, v[j].0);
    assert(o.sessions[j].0 == v[j].0);
    assert(ts_has(o.sessions, v[j].0));
    if o.removal.contains(v[j].0) {
        assert(!Seq::<u64>::empty().contains(v[j].0));
        assert(exists|l: int|
            0 <= l < v.len() && (#[trigger] v[l]).0 == v[j].0 && v[l].1.age >= MAX_AGE);
        let l = choose|l: int|
            0 <= l < v.len() && (#[trigger] v[l]).0 == v[j].0 && v[l].1.age >= MAX_AGE;
        if l < j {
            assert(v[l].0 != v[j].0);
            assert(false);
        } else if j < l {
            assert(v[j].0 != v[l].0);
            assert(false);
        } else {
            assert(v[j].1.age >= MAX_AGE);
            assert(false);
        }
    }
}

/// Sampling budget law: a sweep changes each session by one of the four
/// outcomes; in particular an emission moves exactly the buffered payload
/// into the sampled count, the sampled count never exceeds the budget,
/// and a flow whose budget is spent stops sampling.
pub proof fn lemma_sampling_budget(
    v: Seq<(u64, SessionV)>,
    msg: MessageV,
    mdata: int,
    max_len: int,
    gate: Seq<(u64, bool)>,
    j: int,
)
    requires
        wf_table(v),
        0 <= j < v.len(),
    ensures
        ({
            let o = mnm_scan(v, 0, msg, 0, mdata, Seq::empty(), max_len, gate);
            let s_old = v[j].1;
            let s_new = o.sessions[j].1;
            &&& sweep_outcome(s_old, s_new)
            &&& s_new == mnm_emit_session(s_old) ==> {
                &&& s_new.bytes_sampled == s_old.bytes_sampled + s_old.payload.len()
                &&& s_new.bytes_sampled <= MAX_SAMPLE_SIZE
                &&& (s_new.bytes_sampled == MAX_SAMPLE_SIZE ==> !s_new.sampling)
            }
        }),
{
    lemma_scan_outcomes(v, 0, msg, 0, mdata, Seq::empty(), max_len, gate);
    assert(wf_session(v[j].1));
}

/// Entropy gate law: in a sweep that runs to completion, a ripe flow
/// whose payload was judged near-random stops sampling and drops its
/// buffered payload.
pub proof fn lemma_entropy_gate(
    v: Seq<(u64, SessionV)>,
    msg: MessageV,
    mdata: int,
    max_len: int,
    gate: Seq<(u64, bool)>,
    j: int,
)
    requires
        0 <= j < v.len(),
        mnm_eligible(v[j].1),
        gate_of(gate, v[j].0),
    ensures
        ({
            let o = mnm_scan(v, 0, msg, 0, mdata, Seq::empty(), max_len, gate);
            !o.stopped ==> o.sessions[j].1 == gated_session(v[j].1)
        }),
{
    lemma_scan_outcomes(v, 0, msg, 0, mdata, Seq::empty(), max_len, gate);
}

/// The table after dropping the sessions whose keys were queued.
pub open spec fn mnm_prune(v: Seq<(u64, SessionV)>, removal: Seq<u64>) -> Seq<(u64, SessionV)>
    decreases v.len(),
{
    if v.len() == 0 {
        Seq::empty()
    } else {
        let rest = mnm_prune(v.drop_first(), removal);
        if removal.contains(v[0].0) {
            rest
        } else {
            seq![v[0]] + rest
        }
    }
}

/// The event id handed back by the sweep: the upper 32 bits and the
/// low data-source byte of the incoming id, with the 24-bit sequence
/// advanced by the number of emitted entries.
pub open spec fn mnm_result(event_id: u64, count: nat) -> u64 {
    (event_id & 0xffff_ffff_0000_00ff) | ((((((event_id & 0x0000_0000_ffff_ff00) >> 8u64)
        + count) % 0x0100_0000) as u64) << 8u64)
}

/// The total buffered payload decomposed at the first session.
pub proof fn lemma_sum_head(v: Seq<(u64, SessionV)>)
    requires
        v.len() > 0,
    ensures
        sum_payloads(v) == v[0].1.payload.len() + sum_payloads(v.drop_first()),
    decreases v.len(),
{
    if v.len() == 1 {
        assert(v.drop_first() =~= Seq::<(u64, SessionV)>::empty());
        assert(v.drop_last() =~= Seq::<(u64, SessionV)>::empty());
    } else {
        lemma_sum_head(v.drop_last());
        assert(v.drop_last()[0] == v[0]);
        assert(v.drop_last().drop_first() =~= v.drop_first().drop_last());
        assert(v.drop_first().last() == v.last());
        assert(sum_payloads(v.drop_first()) == sum_payloads(v.drop_first().drop_last())
            + v.last().1.payload.len());
    }
}

/// Pruning with an empty queue keeps the table as it is.
pub proof fn lemma_prune_nothing(v: Seq<(u64, SessionV)>, removal: Seq<u64>)
    requires
        removal.len() == 0,
    ensures
        mnm_prune(v, removal) == v,
    decreases v.len(),
{
    if v.len() == 0 {
        assert(mnm_prune(v, removal) =~= v);
    } else {
        lemma_prune_nothing(v.drop_first(), removal);
        assert(!removal.contains(v[0].0));
        assert(seq![v[0]] + v.drop_first() =~= v);
    }
}

/// The advance of a value by one, modulo a positive bound.
proof fn lemma_mod_incr(a: int, m: int)
    requires
        a >= 0,
        m > 0,
    ensures
        (a + 1) % m == if a % m == m - 1 {
            0int
        } else {
            a % m + 1
        },
{
    vstd::arithmetic::div_mod::lemma_fundamental_div_mod(a, m);
    vstd::arithmetic::div_mod::lemma_mod_bound(a, m);
    let q = a / m;
    let r = a % m;
    if r == m - 1 {
        assert((q + 1) * m + 0 == a + 1) by (nonlinear_arith)
            requires
                a == m * q + r,
                r == m - 1,
        ;
        vstd::arithmetic::div_mod::lemma_fundamental_div_mod_converse_mod(a + 1, m, q + 1, 0);
    } else {
        assert(q * m + (r + 1) == a + 1) by (nonlinear_arith)
            requires
                a == m * q + r,
        ;
        vstd::arithmetic::div_mod::lemma_fundamental_div_mod_converse_mod(a + 1, m, q, r + 1);
    }
}

/// Whether the queue holds the given key.
fn contains_u64(v: &Vec<u64>, h: u64) -> (r: bool)
    ensures
        r == v@.contains(h),
{
    let n = v.len();
    let mut i: usize = 0;
    while i < n
        invariant
            n == v@.len(),
            0 <= i <= n,
            forall|j: int| 0 <= j < i ==> v@[j] != h,
        decreases n - i,
    {
        if v[i] == h {
            return true;
        }
        i += 1;
    }
    false
}

/// First-match lookup of a flow key in the near-random verdict list.
fn gate_lookup(gate: &Vec<(u64, bool)>, h: u64) -> (r: bool)
    ensures
        r == gate_of(gate@, h),
{
    let n = gate.len();
    let mut i: usize = 0;
    proof {
        assert(gate@.skip(0) =~= gate@);
    }
    while i < n
        invariant
            n == gate@.len(),
            0 <= i <= n,
            gate_of(gate@, h) == gate_of(gate@.skip(i as int), h),
        decreases n - i,
    {
        if gate[i].0 == h {
            proof {
                assert(gate@.skip(i as int)[0] == gate@[i as int]);
            }
            return gate[i].1;
        }
        proof {
            assert(gate@.skip(i as int)[0] == gate@[i as int]);
            assert(gate@.skip(i as int).drop_first() =~= gate@.skip(i as int + 1));
        }
        i += 1;
    }
    proof {
        assert(gate@.skip(n as int) =~= Seq::<(u64, bool)>::empty());
    }
    false
}

impl Traffic {
    /// Sweeps the sessions once, emitting ripe payloads into the batch
    /// builder as packet entries under their flows' original event ids.
    /// `near_random` carries, per flow key, the verdict of the entropy
    /// gate on the flow's buffered payload; a listed flow judged
    /// near-random stops sampling and drops its buffer.  Unripe flows
    /// age, and a flow that has reached the age bound is dropped.
    /// Returns the event id with the 24-bit sequence advanced by the
    /// number of emissions.
    #[verifier::rlimit(100)]
    pub fn make_next_message(
        &mut self,
        event_id: u64,
        msg: &mut SizedForwardMode,
        max_len: usize,
        near_random: &Vec<(u64, bool)>,
    ) -> (r: u64)
        requires
            old(self).wf(),
            old(msg).wf(),
        ensures
            final(self).wf(),
            final(msg).wf(),
            ({
                let o = mnm_scan(
                    old(self)@,
                    0,
                    old(msg)@,
                    0,
                    old(self).spec_message_data() as int,
                    Seq::empty(),
                    max_len as int,
                    near_random@,
                );
                &&& final(msg)@ == o.msg
                &&& final(self)@ == mnm_prune(o.sessions, o.removal)
                &&& r == mnm_result(event_id, o.count)
            }),
    {
        let ghost o_scan = mnm_scan(
            old(self)@,
            0,
            old(msg)@,
            0,
            old(self).spec_message_data() as int,
            Seq::empty(),
            max_len as int,
            near_random@,
        );
        let mut removal: Vec<u64> = Vec::new();
        let mut seq_lo: u64 = (event_id & 0x0000_0000_ffff_ff00) >> 8u64;
        let ghost s0 = seq_lo as int;
        let ghost mut count: nat = 0;
        let ghost mut stopped: bool = false;
        proof {
            assert((event_id & 0x0000_0000_ffff_ff00u64) >> 8u64 < 0x0100_0000) by (bit_vector);
            vstd::arithmetic::div_mod::lemma_small_mod(s0 as nat, 0x0100_0000);
        }
        let n = self.sessions.len();
        let mut i: usize = 0;
        loop
            invariant_except_break
                0 <= i <= n,
                n == self@.len(),
                msg.wf(),
                wf_table(old(self)@),
                n == old(self)@.len(),
                self.spec_message_data() == sum_payloads(self@),
                scan_inv(self@, old(self)@, removal@, i as int),
                0 <= s0 < 0x0100_0000,
                stopped == false,
                seq_lo == ((s0 + count) % 0x0100_0000) as u64,
                mnm_scan(
                    self@,
                    i as int,
                    msg@,
                    count,
                    self.spec_message_data() as int,
                    removal@,
                    max_len as int,
                    near_random@,
                ) == o_scan,
            ensures
                msg.wf(),
                n == self@.len(),
                self.spec_message_data() == sum_payloads(self@),
                scan_inv(self@, old(self)@, removal@, n as int),
                seq_lo == ((s0 + count) % 0x0100_0000) as u64,
                o_scan == (MnmOut {
                    sessions: self@,
                    removal: removal@,
                    msg: msg@,
                    count: count,
                    mdata: self.spec_message_data() as int,
                    stopped: stopped,
                }),
            decreases n - i,
        {
            if i >= n {
                proof {
                    lemma_scan_done(
                        self@,
                        i as int,
                        msg@,
                        count,
                        self.spec_message_data() as int,
                        removal@,
                        max_len as int,
                        near_random@,
                    );
                }
                break;
            }
            let ghost pre_sq = self.sessions@;
            let ghost pre_self = self@;
            let ghost pre_msg = msg@;
            let ghost pre_removal = removal@;
            let ghost pre_mdata = self.spec_message_data() as int;
            let ghost pre_count = count;
            let (k, mut s) = self.sessions.remove(i);
            let ghost sv = s@;
            proof {
                assert(pre_self[i as int] == (k, sv));
            }
            if !s.sampling || s.payload.len() < MIN_SAMPLE_SIZE {
                if s.age >= MAX_AGE {
                    removal.push(k);
                }
                s.age = s.age + 1;
                let ghost s2 = SessionV { age: sv.age + 1, ..sv };
                let ghost pv = (k, s);
                self.sessions.insert(i, (k, s));
                proof {
                    lemma_view_pairs_replace(pre_sq, i as int, pv);
                    assert(pv.1@ == s2);
                    assert(self@ == pre_self.update(i as int, (k, s2)));
                    lemma_sum_update(pre_self, i as int, (k, s2));
                    lemma_inv_step_age(pre_self, old(self)@, pre_removal, i as int);
                    lemma_scan_step_age(
                        pre_self,
                        i as int,
                        pre_msg,
                        pre_count,
                        pre_mdata,
                        pre_removal,
                        max_len as int,
                        near_random@,
                    );
                }
                i += 1;
            } else if gate_lookup(near_random, k) {
                let pl = s.payload.len();
                s.sampling = false;
                s.bytes_sampled = 0;
                s.payload.clear();
                let ghost s2 = SessionV {
                    sampling: false,
                    bytes_sampled: 0,
                    payload: Seq::empty(),
                    ..sv
                };
                let ghost pv = (k, s);
                self.sessions.insert(i, (k, s));
                proof {
                    lemma_view_pairs_replace(pre_sq, i as int, pv);
                    assert(pv.1@ == s2);
                    assert(self@ == pre_self.update(i as int, (k, s2)));
                    lemma_sum_update(pre_self, i as int, (k, s2));
                }
                self.message_data = self.message_data - pl;
                proof {
                    lemma_inv_step_replace(pre_self, old(self)@, pre_removal, i as int, s2);
                    lemma_scan_step_gate(
                        pre_self,
                        i as int,
                        pre_msg,
                        pre_count,
                        pre_mdata,
                        pre_removal,
                        max_len as int,
                        near_random@,
                    );
                }
                i += 1;
            } else {
                let msg_len = msg.serialized_len();
                let pl_len = s.payload.len();
                if msg_len > max_len || pl_len + SESSION_EXTRA_BYTES + MESSAGE_LABEL_LEN > max_len
                    - msg_len {
                    let ghost pv = (k, s);
                    self.sessions.insert(i, (k, s));
                    proof {
                        lemma_view_pairs_replace(pre_sq, i as int, pv);
                        assert((pv.0, pv.1@) == pre_self[i as int]);
                        assert(pre_self.update(i as int, pre_self[i as int]) =~= pre_self);
                        assert(self@ == pre_self);
                        lemma_inv_weaken(pre_self, old(self)@, pre_removal, i as int, i as int + 1);
                        lemma_scan_step_skip(
                            pre_self,
                            i as int,
                            pre_msg,
                            pre_count,
                            pre_mdata,
                            pre_removal,
                            max_len as int,
                            near_random@,
                        );
                    }
                    i += 1;
                } else {
                    let _ = msg.push_packet(
                        s.event_id,
                        "message",
                        s.payload.as_slice(),
                        s.src_addr,
                        s.dst_addr,
                        s.src_port,
                        s.dst_port,
                        s.proto,
                    );
                    s.bytes_sampled = s.bytes_sampled + pl_len;
                    s.age = 0;
                    if s.bytes_sampled >= MAX_SAMPLE_SIZE {
                        s.sampling = false;
                    }
                    s.payload.clear();
                    let ghost s2 = SessionV {
                        bytes_sampled: sv.bytes_sampled + sv.payload.len(),
                        age: 0,
                        sampling: sv.bytes_sampled + sv.payload.len() < MAX_SAMPLE_SIZE,
                        payload: Seq::empty(),
                        ..sv
                    };
                    let ghost pv = (k, s);
                    self.sessions.insert(i, (k, s));
                    proof {
                        lemma_view_pairs_replace(pre_sq, i as int, pv);
                        assert(pv.1@ == s2);
                        assert(self@ == pre_self.update(i as int, (k, s2)));
                        lemma_sum_update(pre_self, i as int, (k, s2));
                        lemma_mod_incr(s0 + pre_count, 0x0100_0000);
                        count = pre_count + 1;
                    }
                    self.message_data = self.message_data - pl_len;
                    seq_lo = if seq_lo >= 0x00FF_FFFF {
                        0
                    } else {
                        seq_lo + 1
                    };
                    if msg.serialized_len() >= max_len {
                        proof {
                            stopped = true;
                            lemma_inv_step_replace(pre_self, old(self)@, pre_removal, i as int, s2);
                            lemma_scan_step_emit_stop(
                                pre_self,
                                i as int,
                                pre_msg,
                                pre_count,
                                pre_mdata,
                                pre_removal,
                                max_len as int,
                                near_random@,
                            );
                        }
                        break;
                    }
                    proof {
                        lemma_inv_step_replace(pre_self, old(self)@, pre_removal, i as int, s2);
                        lemma_scan_step_emit(
                            pre_self,
                            i as int,
                            pre_msg,
                            pre_count,
                            pre_mdata,
                            pre_removal,
                            max_len as int,
                            near_random@,
                        );
                    }
                    i += 1;
                }
            }
        }
        let ghost scanned = self@;
        if removal.len() > 0 {
            let mut kept: Vec<(u64, Sessionv4)> = Vec::new();
            let mut rest: Vec<(u64, Sessionv4)> = Vec::new();
            core::mem::swap(&mut rest, &mut self.sessions);
            proof {
                assert(view_pairs(rest@) == scanned);
                assert(view_pairs(kept@) =~= Seq::<(u64, SessionV)>::empty());
                assert(view_pairs(kept@) + mnm_prune(view_pairs(rest@), removal@) =~= mnm_prune(
                    scanned,
                    removal@,
                ));
            }
            while rest.len() > 0
                invariant
                    view_pairs(kept@) + mnm_prune(view_pairs(rest@), removal@) == mnm_prune(
                        scanned,
                        removal@,
                    ),
                    self.spec_message_data() == sum_payloads(view_pairs(kept@)) + sum_payloads(
                        view_pairs(rest@),
                    ),
                    forall|j: int, l: int|
                        0 <= j < l < kept@.len() ==> view_pairs(kept@)[j].0 != view_pairs(
                            kept@,
                        )[l].0,
                    forall|j: int, l: int|
                        0 <= j < kept@.len() && 0 <= l < rest@.len() ==> view_pairs(kept@)[j].0
                            != view_pairs(rest@)[l].0,
                    forall|j: int, l: int|
                        0 <= j < l < rest@.len() ==> view_pairs(rest@)[j].0 != view_pairs(
                            rest@,
                        )[l].0,
                    forall|j: int|
                        0 <= j < kept@.len() ==> (#[trigger] view_pairs(kept@)[j]).0 == spec_hash(
                            view_pairs(kept@)[j].1.src_addr,
                            view_pairs(kept@)[j].1.dst_addr,
                            view_pairs(kept@)[j].1.src_port,
                            view_pairs(kept@)[j].1.dst_port,
                            view_pairs(kept@)[j].1.proto,
                        ),
                    forall|j: int|
                        0 <= j < rest@.len() ==> (#[trigger] view_pairs(rest@)[j]).0 == spec_hash(
                            view_pairs(rest@)[j].1.src_addr,
                            view_pairs(rest@)[j].1.dst_addr,
                            view_pairs(rest@)[j].1.src_port,
                            view_pairs(rest@)[j].1.dst_port,
                            view_pairs(rest@)[j].1.proto,
                        ),
                    forall|j: int|
                        0 <= j < kept@.len() ==> (#[trigger] view_pairs(
                            kept@,
                        )[j]).1.bytes_sampled + view_pairs(kept@)[j].1.payload.len()
                            <= MAX_SAMPLE_SIZE,
                    forall|j: int|
                        0 <= j < rest@.len() ==> (#[trigger] view_pairs(
                            rest@,
                        )[j]).1.bytes_sampled + view_pairs(rest@)[j].1.payload.len()
                            <= MAX_SAMPLE_SIZE,
                    forall|j: int|
                        0 <= j < kept@.len() ==> (#[trigger] view_pairs(kept@)[j]).1.age
                            <= MAX_AGE,
                    forall|j: int|
                        0 <= j < rest@.len() ==> ((#[trigger] view_pairs(rest@)[j]).1.age
                            <= MAX_AGE || removal@.contains(view_pairs(rest@)[j].0)),
                decreases rest@.len(),
            {
                let ghost pre_kept = view_pairs(kept@);
                let ghost pre_rest = view_pairs(rest@);
                let p = rest.remove(0);
                proof {
                    assert(pre_rest[0] == (p.0, p.1@));
                    assert(view_pairs(rest@) =~~= pre_rest.drop_first());
                    lemma_sum_head(pre_rest);
                }
                if contains_u64(&removal, p.0) {
                    self.message_data = self.message_data - p.1.payload.len();
                } else {
                    kept.push(p);
                    proof {
                        assert(view_pairs(kept@) =~~= pre_kept.push((p.0, p.1@)));
                        lemma_sum_push(pre_kept, (p.0, p.1@));
                        assert(view_pairs(kept@) + mnm_prune(view_pairs(rest@), removal@)
                            =~= pre_kept + (seq![(p.0, p.1@)] + mnm_prune(
                            pre_rest.drop_first(),
                            removal@,
                        )));
                    }
                }
            }
            proof {
                assert(view_pairs(rest@) =~= Seq::<(u64, SessionV)>::empty());
                assert(mnm_prune(view_pairs(rest@), removal@) =~= Seq::<(u64, SessionV)>::empty());
                assert(view_pairs(kept@) =~= view_pairs(kept@) + mnm_prune(
                    view_pairs(rest@),
                    removal@,
                ));
            }
            self.sessions = kept;
        } else {
            proof {
                lemma_prune_nothing(scanned, removal@);
            }
        }
        (event_id & 0xffff_ffff_0000_00ff) | (seq_lo << 8u64)
    }
}

/// The ripe flows of a table: for every session that is still sampling
/// with enough buffered payload, its key and its buffered payload.
pub open spec fn ripe_of(v: Seq<(u64, SessionV)>) -> Seq<(u64, Seq<u8>)>
    decreases v.len(),
{
    if v.len() == 0 {
        Seq::empty()
    } else {
        let rest = ripe_of(v.drop_first());
        if mnm_eligible(v[0].1) {
            seq![(v[0].0, v[0].1.payload)] + rest
        } else {
            rest
        }
    }
}

impl Traffic {
    /// The flows that are ripe for emission: their keys and buffered
    /// payloads, in table order.  The entropy gate is evaluated on these
    /// payloads before a sweep.
    pub fn ripe_flows(&self) -> (r: Vec<(u64, Vec<u8>)>)
        ensures
            r@.map_values(|p: (u64, Vec<u8>)| (p.0, p.1@)) == ripe_of(self@),
    {
        let n = self.sessions.len();
        let mut out: Vec<(u64, Vec<u8>)> = Vec::new();
        let mut i: usize = 0;
        proof {
            assert(self@.skip(0) =~= self@);
            assert(out@.map_values(|p: (u64, Vec<u8>)| (p.0, p.1@)) + ripe_of(self@.skip(0))
                =~= ripe_of(self@));
        }
        while i < n
            invariant
                n == self@.len(),
                0 <= i <= n,
                ripe_of(self@) == out@.map_values(|p: (u64, Vec<u8>)| (p.0, p.1@)) + ripe_of(
                    self@.skip(i as int),
                ),
            decreases n - i,
        {
            let ghost pre_out = out@.map_values(|p: (u64, Vec<u8>)| (p.0, p.1@));
            let s = &self.sessions[i].1;
            proof {
                assert(self@[i as int] == (self.sessions@[i as int].0, s@));
                assert(self@.skip(i as int)[0] == self@[i as int]);
                assert(self@.skip(i as int).drop_first() =~= self@.skip(i as int + 1));
            }
            if s.sampling && s.payload.len() >= MIN_SAMPLE_SIZE {
                let key = self.sessions[i].0;
                let payload = vstd::slice::slice_to_vec(self.sessions[i].1.payload.as_slice());
                out.push((key, payload));
                proof {
                    assert(out@.map_values(|p: (u64, Vec<u8>)| (p.0, p.1@)) =~= pre_out + seq![
                        (self@[i as int].0, self@[i as int].1.payload),
                    ]);
                    assert(pre_out + (seq![(self@[i as int].0, self@[i as int].1.payload)]
                        + ripe_of(self@.skip(i as int + 1))) =~= (pre_out + seq![
                        (self@[i as int].0, self@[i as int].1.payload),
                    ]) + ripe_of(self@.skip(i as int + 1)));
                }
            }
            i += 1;
        }
        proof {
            assert(ripe_of(self@.skip(n as int)) =~= Seq::<(u64, Seq<u8>)>::empty());
            assert(out@.map_values(|p: (u64, Vec<u8>)| (p.0, p.1@)) + Seq::<(
                u64,
                Seq<u8>,
            )>::empty() =~= out@.map_values(|p: (u64, Vec<u8>)| (p.0, p.1@)));
        }
        out
    }
}

impl Default for Traffic {
    /// An empty traffic summary.
    fn default() -> (r: Self)
        ensures
            r.wf(),
            r@ == Seq::<(u64, SessionV)>::empty(),
            r.spec_message_data() == 0,
    {
        let t = Traffic { sessions: Vec::new(), message_data: 0 };
        proof {
            assert(t@ =~= Seq::<(u64, SessionV)>::empty());
        }
        t
    }
}

} // verus!
