//! Wire framing and streaming reassembly: each frame is a 4-byte big-endian
//! length followed by that many bytes of message payload. The reassembler
//! accepts bytes in arbitrary chunks, emits every completed message, keeps
//! the tail of a partial frame for the next chunk, and drops (but counts)
//! frames whose payload does not decode.

use vstd::prelude::*;
use crate::json::JsonValue;
use crate::message::{MsgV, VSPMessage, msg_payload, decode_payload, lemma_msg_round_trip};
use crate::VSPError;

verus! {

/// The 4-byte big-endian form of `n` (meaningful for `n < 2^32`).
pub open spec fn be32(n: nat) -> Seq<u8> {
    seq![
        ((n / 0x1000000) % 0x100) as u8,
        ((n / 0x10000) % 0x100) as u8,
        ((n / 0x100) % 0x100) as u8,
        (n % 0x100) as u8,
    ]
}

/// The value of the first four bytes of `b` read big-endian.
pub open spec fn be32_val(b: Seq<u8>) -> nat {
    (b[0] as nat) * 0x1000000 + (b[1] as nat) * 0x10000 + (b[2] as nat) * 0x100 + (b[3] as nat)
}

pub proof fn lemma_be32_round(n: nat)
    requires
        n < 0x1_0000_0000,
    ensures
        be32(n).len() == 4,
        be32_val(be32(n)) == n,
{
    let x = n as u32;
    assert(((x / 0x1000000) % 0x100) * 0x1000000 + ((x / 0x10000) % 0x100) * 0x10000 + ((x
        / 0x100) % 0x100) * 0x100 + (x % 0x100) == x) by (bit_vector);
}

/// One frame carrying `p`.
pub open spec fn frame_for(p: Seq<u8>) -> Seq<u8> {
    be32(p.len()) + p
}

/// Splits a byte stream into the payloads of its complete frames and the
/// leftover bytes of a trailing partial frame.
pub open spec fn extract_frames(buf: Seq<u8>) -> (Seq<Seq<u8>>, Seq<u8>)
    decreases buf.len(),
{
    if buf.len() < 4 {
        (Seq::empty(), buf)
    } else {
        let n = be32_val(buf);
        if buf.len() < 4 + n {
            (Seq::empty(), buf)
        } else {
            let payload = buf.subrange(4, 4 + n as int);
            let rest = buf.subrange(4 + n as int, buf.len() as int);
            (seq![payload] + extract_frames(rest).0, extract_frames(rest).1)
        }
    }
}

/// The messages of the frame payloads that decode, in order.
pub open spec fn decode_frames(fs: Seq<Seq<u8>>) -> Seq<MsgV>
    decreases fs.len(),
{
    if fs.len() == 0 {
        Seq::empty()
    } else {
        match decode_payload(fs[0]) {
            Some(m) => seq![m] + decode_frames(fs.drop_first()),
            None => decode_frames(fs.drop_first()),
        }
    }
}

/// How many frame payloads fail to decode.
pub open spec fn dropped_of(fs: Seq<Seq<u8>>) -> nat
    decreases fs.len(),
{
    if fs.len() == 0 {
        0
    } else {
        (if decode_payload(fs[0]) is Some {
            0nat
        } else {
            1nat
        }) + dropped_of(fs.drop_first())
    }
}

/// Addition capped at the largest counter value.
pub open spec fn sat_add64(a: nat, b: nat) -> nat {
    if a + b > u64::MAX {
        u64::MAX as nat
    } else {
        a + b
    }
}

proof fn lemma_decode_frames_concat(a: Seq<Seq<u8>>, b: Seq<Seq<u8>>)
    ensures
        decode_frames(a + b) == decode_frames(a) + decode_frames(b),
        dropped_of(a + b) == dropped_of(a) + dropped_of(b),
    decreases a.len(),
{
    if a.len() == 0 {
        assert(a + b =~= b);
        assert(decode_frames(a) + decode_frames(b) =~= decode_frames(b));
    } else {
        assert((a + b).drop_first() =~= a.drop_first() + b);
        lemma_decode_frames_concat(a.drop_first(), b);
        assert((a + b)[0] == a[0]);
        match decode_payload(a[0]) {
            Some(m) => {
                assert(seq![m] + (decode_frames(a.drop_first()) + decode_frames(b)) =~= (seq![m]
                    + decode_frames(a.drop_first())) + decode_frames(b));
            },
            None => {},
        }
    }
}

/// The streaming reassembly state machine. `buffer` holds the bytes of an
/// incomplete frame; `connected` mirrors the connection lifecycle hooks;
/// `dropped` counts frames whose payload failed to decode.
pub struct VSPProtocol {
    buffer: Vec<u8>,
    connected: bool,
    dropped: u64,
}

impl VSPProtocol {
    /// The buffered bytes of the trailing partial frame.
    pub closed spec fn buf(&self) -> Seq<u8> {
        self.buffer@
    }

    pub closed spec fn connected(&self) -> bool {
        self.connected
    }

    /// How many corrupt frames have been dropped so far.
    pub closed spec fn dropped(&self) -> nat {
        self.dropped as nat
    }

    pub fn new() -> (r: VSPProtocol)
        ensures
            r.buf() == Seq::<u8>::empty(),
            !r.connected(),
            r.dropped() == 0,
    {
        VSPProtocol { buffer: Vec::new(), connected: false, dropped: 0 }
    }

    /// How many corrupt frames have been dropped so far.
    pub fn dropped_count(&self) -> (r: u64)
        ensures
            r as nat == self.dropped(),
    {
        self.dropped
    }

    /// The connection came up; buffered partial frames are kept.
    pub fn connection_made(&mut self)
        ensures
            final(self).connected(),
            final(self).buf() == old(self).buf(),
            final(self).dropped() == old(self).dropped(),
    {
        self.connected = true;
    }

    /// The connection went down; buffered partial frames are kept.
    pub fn connection_lost(&mut self, exc: Option<String>)
        ensures
            !final(self).connected(),
            final(self).buf() == old(self).buf(),
            final(self).dropped() == old(self).dropped(),
    {
        self.connected = false;
    }

    pub fn is_connected(&self) -> (r: bool)
        ensures
            r == self.connected(),
    {
        self.connected
    }

    /// The buffered byte count, and the expected payload length once the
    /// length prefix is complete.
    pub fn get_buffer_info(&self) -> (r: (usize, Option<usize>))
        ensures
            r.0 == self.buf().len(),
            match r.1 {
                Some(n) => self.buf().len() >= 4 && n as nat == be32_val(self.buf()),
                None => self.buf().len() < 4,
            },
    {
        if self.buffer.len() >= 4 {
            let n: usize = (self.buffer[0] as usize) * 0x1000000 + (self.buffer[1] as usize)
                * 0x10000 + (self.buffer[2] as usize) * 0x100 + (self.buffer[3] as usize);
            (self.buffer.len(), Some(n))
        } else {
            (self.buffer.len(), None)
        }
    }

    /// Drops any buffered partial frame.
    pub fn clear_buffer(&mut self)
        ensures
            final(self).buf() == Seq::<u8>::empty(),
            final(self).connected() == old(self).connected(),
            final(self).dropped() == old(self).dropped(),
    {
        self.buffer = Vec::new();
    }

    /// Frames a message for the wire: its payload length as four big-endian
    /// bytes, then the payload. A payload too long for the length prefix is
    /// a protocol error.
    pub fn send_message(&self, message: &mut VSPMessage) -> (r: Result<Vec<u8>, VSPError>)
        requires
            old(message).wf(),
        ensures
            final(message)@ == old(message)@,
            final(message).wf(),
            match r {
                Ok(f) => msg_payload(old(message)@).len() < 0x1_0000_0000 && f@ == frame_for(
                    msg_payload(old(message)@),
                ),
                Err(e) => msg_payload(old(message)@).len() >= 0x1_0000_0000 && e
                    == VSPError::ProtocolError,
            },
    {
        let payload = message.to_bytes();
        if payload.len() as u64 >= 0x1_0000_0000u64 {
            return Err(VSPError::ProtocolError);
        }
        let n = payload.len();
        let mut out: Vec<u8> = Vec::new();
        out.push(((n / 0x1000000) % 0x100) as u8);
        out.push(((n / 0x10000) % 0x100) as u8);
        out.push(((n / 0x100) % 0x100) as u8);
        out.push((n % 0x100) as u8);
        let mut i: usize = 0;
        while i < payload.len()
            invariant
                i <= payload@.len(),
                out@ == be32(payload@.len()) + payload@.take(i as int),
            decreases payload@.len() - i,
        {
            out.push(payload[i]);
            proof {
                assert(out@ =~= be32(payload@.len()) + payload@.take(i + 1));
            }
            i = i + 1;
        }
        proof {
            assert(payload@.take(payload@.len() as int) =~= payload@);
        }
        Ok(out)
    }

    /// Feeds a chunk of received bytes in. Every frame completed by this
    /// chunk is consumed: its message is returned if its payload decodes,
    /// and counted as dropped otherwise; the bytes of a trailing partial
    /// frame stay buffered. One corrupt frame never stalls the stream.
    pub fn data_received(&mut self, data: Vec<u8>) -> (msgs: Vec<VSPMessage>)
        ensures
            ({
                let all = old(self).buf() + data@;
                let fs = extract_frames(all).0;
                &&& final(self).buf() == extract_frames(all).1
                &&& msgs@.map_values(|m: VSPMessage| m@) == decode_frames(fs)
                &&& forall|i: int| 0 <= i < msgs@.len() ==> (#[trigger] msgs@[i]).wf()
                &&& final(self).dropped() == sat_add64(old(self).dropped() as nat, dropped_of(fs))
                &&& final(self).connected() == old(self).connected()
            }),
    {
        let ghost all = old(self).buf() + data@;
        let mut data = data;
        self.buffer.append(&mut data);
        let mut msgs: Vec<VSPMessage> = Vec::new();
        let ghost fs_done: Seq<Seq<u8>> = Seq::empty();
        let ghost d0 = old(self).dropped() as nat;
        proof {
            assert(self.buffer@ =~= all);
            assert(fs_done + extract_frames(self.buffer@).0 =~= extract_frames(all).0);
            assert(decode_frames(fs_done) =~= Seq::<MsgV>::empty());
            assert(msgs@.map_values(|m: VSPMessage| m@) =~= Seq::<MsgV>::empty());
        }
        let mut fs_done = Ghost(fs_done);
        loop
            invariant
                extract_frames(all).0 == fs_done@ + extract_frames(self.buffer@).0,
                extract_frames(all).1 == extract_frames(self.buffer@).1,
                msgs@.map_values(|m: VSPMessage| m@) == decode_frames(fs_done@),
                forall|i: int| 0 <= i < msgs@.len() ==> (#[trigger] msgs@[i]).wf(),
                self.dropped as nat == sat_add64(d0, dropped_of(fs_done@)),
                self.connected == old(self).connected,
            ensures
                self.buffer@.len() < 4 || self.buffer@.len() < 4 + be32_val(self.buffer@),
            decreases self.buffer@.len(),
        {
            if self.buffer.len() < 4 {
                break;
            }
            let n: usize = (self.buffer[0] as usize) * 0x1000000 + (self.buffer[1] as usize)
                * 0x10000 + (self.buffer[2] as usize) * 0x100 + (self.buffer[3] as usize);
            proof {
                assert(n as nat == be32_val(self.buffer@));
            }
            if self.buffer.len() - 4 < n {
                break;
            }
            let ghost cur = self.buffer@;
            let mut tail = self.buffer.split_off(4);
            let rest = tail.split_off(n);
            let payload = tail;
            self.buffer = rest;
            proof {
                assert(payload@ =~= cur.subrange(4, 4 + n as int));
                assert(self.buffer@ =~= cur.subrange(4 + n as int, cur.len() as int));
                assert(extract_frames(cur).0 == seq![payload@] + extract_frames(self.buffer@).0);
                assert(extract_frames(cur).1 == extract_frames(self.buffer@).1);
                assert(fs_done@ + (seq![payload@] + extract_frames(self.buffer@).0) =~= (fs_done@
                    + seq![payload@]) + extract_frames(self.buffer@).0);
                lemma_decode_frames_concat(fs_done@, seq![payload@]);
                assert(seq![payload@].drop_first() =~= Seq::<Seq<u8>>::empty());
                assert(decode_frames(Seq::<Seq<u8>>::empty()) =~= Seq::<MsgV>::empty());
                assert(dropped_of(Seq::<Seq<u8>>::empty()) == 0);
            }
            let ghost prev_done = fs_done@;
            match VSPMessage::from_bytes(&payload) {
                Ok(m) => {
                    msgs.push(m);
                    proof {
                        fs_done@ = prev_done + seq![payload@];
                        assert(decode_frames(seq![payload@]) =~= seq![m@]);
                        assert(msgs@.map_values(|mm: VSPMessage| mm@) =~= decode_frames(
                            prev_done,
                        ) + seq![m@]);
                        assert(dropped_of(seq![payload@]) == 0);
                    }
                },
                Err(_) => {
                    if self.dropped < u64::MAX {
                        self.dropped = self.dropped + 1;
                    }
                    proof {
                        fs_done@ = prev_done + seq![payload@];
                        assert(decode_frames(seq![payload@]) =~= Seq::<MsgV>::empty());
                        assert(decode_frames(prev_done) + decode_frames(seq![payload@])
                            =~= decode_frames(prev_done));
                        assert(dropped_of(seq![payload@]) == 1);
                    }
                },
            }
        }
        proof {
            assert(extract_frames(self.buffer@).0 =~= Seq::<Seq<u8>>::empty());
            assert(extract_frames(self.buffer@).1 == self.buffer@);
            assert(fs_done@ + Seq::<Seq<u8>>::empty() =~= fs_done@);
        }
        msgs
    }

    /// An echo response for an incoming request: same correlation id,
    /// service and endpoint, empty body, marked as a response. Responses
    /// are not answered.
    pub fn handle_message(&self, message: &VSPMessage) -> (r: Option<VSPMessage>)
        ensures
            match r {
                Some(m2) => !message@.is_response && m2@ == (MsgV {
                    request_id: message@.request_id,
                    service: message@.service,
                    endpoint: message@.endpoint,
                    is_response: true,
                    body: Seq::empty(),
                }) && m2.wf(),
                None => message@.is_response,
            },
    {
        if !message.is_response() {
            let body: Vec<(String, JsonValue)> = Vec::new();
            proof {
                assert(crate::json::jpairs_of(Seq::<(String, JsonValue)>::empty(), 0) =~= Seq::<
                    (Seq<char>, crate::json::JVal),
                >::empty());
            }
            Some(
                VSPMessage::new(
                    message.request_id().clone(),
                    message.service().clone(),
                    message.endpoint().clone(),
                    body,
                    true,
                ),
            )
        } else {
            None
        }
    }
}

/// Configuration for creating protocol instances.
pub struct VSPProtocolFactory {
    max_message_size: usize,
    timeout_seconds: u64,
}

impl VSPProtocolFactory {
    pub closed spec fn max_message_size(&self) -> nat {
        self.max_message_size as nat
    }

    pub closed spec fn timeout_seconds(&self) -> nat {
        self.timeout_seconds as nat
    }

    pub fn new(max_message_size: Option<usize>, timeout_seconds: Option<u64>) -> (r:
        VSPProtocolFactory)
        ensures
            r.max_message_size() == match max_message_size {
                Some(m) => m as nat,
                None => 1048576nat,
            },
            r.timeout_seconds() == match timeout_seconds {
                Some(t) => t as nat,
                None => 30nat,
            },
    {
        VSPProtocolFactory {
            max_message_size: match max_message_size {
                Some(m) => m,
                None => 1048576,
            },
            timeout_seconds: match timeout_seconds {
                Some(t) => t,
                None => 30,
            },
        }
    }

    pub fn create_protocol(&self) -> (r: VSPProtocol)
        ensures
            r.buf() == Seq::<u8>::empty(),
            !r.connected(),
            r.dropped() == 0,
    {
        VSPProtocol::new()
    }

    pub fn get_config(&self) -> (r: (usize, u64))
        ensures
            r.0 as nat == self.max_message_size(),
            r.1 as nat == self.timeout_seconds(),
    {
        (self.max_message_size, self.timeout_seconds)
    }
}

// ---------------------------------------------------------------------------
// Reassembly laws
// ---------------------------------------------------------------------------

/// A whole frame at the head of a stream is extracted exactly.
pub proof fn lemma_extract_whole_frame(p: Seq<u8>, rest: Seq<u8>)
    requires
        p.len() < 0x1_0000_0000,
    ensures
        extract_frames(frame_for(p) + rest).0 == seq![p] + extract_frames(rest).0,
        extract_frames(frame_for(p) + rest).1 == extract_frames(rest).1,
{
    lemma_be32_round(p.len());
    let all = frame_for(p) + rest;
    assert(all.len() == 4 + p.len() + rest.len());
    assert(all[0] == be32(p.len())[0] && all[1] == be32(p.len())[1] && all[2] == be32(
        p.len(),
    )[2] && all[3] == be32(p.len())[3]);
    assert(be32_val(all) == be32_val(be32(p.len())));
    assert(all.subrange(4, 4 + p.len() as int) =~= p);
    assert(all.subrange(4 + p.len() as int, all.len() as int) =~= rest);
}

/// A strict prefix of a frame yields nothing and is kept.
pub proof fn lemma_extract_partial_frame(p: Seq<u8>, cut: int)
    requires
        p.len() < 0x1_0000_0000,
        0 <= cut < frame_for(p).len(),
    ensures
        extract_frames(frame_for(p).take(cut)) == (Seq::<Seq<u8>>::empty(), frame_for(p).take(cut)),
{
    lemma_be32_round(p.len());
    let f = frame_for(p);
    let c = f.take(cut);
    if cut >= 4 {
        assert(c[0] == be32(p.len())[0] && c[1] == be32(p.len())[1] && c[2] == be32(p.len())[2]
            && c[3] == be32(p.len())[3]);
        assert(be32_val(c) == p.len());
        assert(c.len() < 4 + p.len());
    }
}

/// Two messages framed back to back in one chunk reassemble to exactly
/// those two messages, in order, with nothing left over.
proof fn lemma_decode_two(p1: Seq<u8>, p2: Seq<u8>, m1: MsgV, m2: MsgV)
    requires
        decode_payload(p1) == Some(m1),
        decode_payload(p2) == Some(m2),
    ensures
        decode_frames(seq![p1, p2]) == seq![m1, m2],
        dropped_of(seq![p1, p2]) == 0,
{
    let fs = seq![p1, p2];
    assert(fs.drop_first() =~= seq![p2]);
    assert(seq![p2].drop_first() =~= Seq::<Seq<u8>>::empty());
    assert(decode_frames(Seq::<Seq<u8>>::empty()) =~= Seq::<MsgV>::empty());
    assert(decode_frames(seq![p2]) =~= seq![m2]);
    assert(decode_frames(fs) =~= seq![m1, m2]);
    assert(dropped_of(Seq::<Seq<u8>>::empty()) == 0);
    assert(dropped_of(seq![p2]) == 0);
    assert(dropped_of(fs) == 0);
}

/// Two messages framed back to back in one chunk reassemble to exactly
/// those two messages, in order, with nothing left over.
#[verifier::rlimit(100)]
#[verifier::spinoff_prover]
pub proof fn lemma_two_frames_one_chunk(m1: MsgV, m2: MsgV)
    requires
        msg_payload(m1).len() < 0x1_0000_0000,
        msg_payload(m2).len() < 0x1_0000_0000,
    ensures
        ({
            let all = frame_for(msg_payload(m1)) + frame_for(msg_payload(m2));
            &&& extract_frames(all).0 == seq![msg_payload(m1), msg_payload(m2)]
            &&& extract_frames(all).1 == Seq::<u8>::empty()
            &&& decode_frames(extract_frames(all).0) == seq![m1, m2]
        }),
{
    let p1 = msg_payload(m1);
    let p2 = msg_payload(m2);
    let all = frame_for(p1) + frame_for(p2);
    lemma_extract_two(p1, p2);
    lemma_msg_round_trip(m1);
    lemma_msg_round_trip(m2);
    lemma_decode_two(p1, p2, m1, m2);
}

proof fn lemma_extract_two(p1: Seq<u8>, p2: Seq<u8>)
    requires
        p1.len() < 0x1_0000_0000,
        p2.len() < 0x1_0000_0000,
    ensures
        extract_frames(frame_for(p1) + frame_for(p2)).0 == seq![p1, p2],
        extract_frames(frame_for(p1) + frame_for(p2)).1 == Seq::<u8>::empty(),
{
    lemma_extract_whole_frame(p1, frame_for(p2));
    assert(frame_for(p2) + Seq::<u8>::empty() =~= frame_for(p2));
    lemma_extract_whole_frame(p2, Seq::empty());
    assert(extract_frames(Seq::<u8>::empty()).0 =~= Seq::<Seq<u8>>::empty());
    assert(extract_frames(frame_for(p1) + frame_for(p2)).0 =~= seq![p1, p2]);
}

/// A frame split at any byte offset across two chunks yields its message
/// only once the second chunk arrives, and exactly once.
pub proof fn lemma_split_frame(m: MsgV, cut: int)
    requires
        msg_payload(m).len() < 0x1_0000_0000,
        0 <= cut < frame_for(msg_payload(m)).len(),
    ensures
        ({
            let f = frame_for(msg_payload(m));
            &&& extract_frames(f.take(cut)).0 == Seq::<Seq<u8>>::empty()
            &&& extract_frames(f.take(cut)).1 == f.take(cut)
            &&& f.take(cut) + f.skip(cut) == f
            &&& extract_frames(f).0 == seq![msg_payload(m)]
            &&& extract_frames(f).1 == Seq::<u8>::empty()
            &&& decode_frames(extract_frames(f).0) == seq![m]
        }),
{
    let p = msg_payload(m);
    let f = frame_for(p);
    lemma_extract_partial_frame(p, cut);
    assert(f.take(cut) + f.skip(cut) =~= f);
    assert(f + Seq::<u8>::empty() =~= f);
    lemma_extract_whole_frame(p, Seq::empty());
    assert(extract_frames(f).0 =~= seq![p]);
    lemma_msg_round_trip(m);
    assert(seq![p].drop_first() =~= Seq::<Seq<u8>>::empty());
    assert(decode_frames(Seq::<Seq<u8>>::empty()) =~= Seq::<MsgV>::empty());
    assert(decode_frames(seq![p]) =~= seq![m]);
}

} // verus!
