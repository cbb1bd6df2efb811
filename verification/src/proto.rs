//! Wire-message framing: a self-delimiting encoding of one RPC frame as a
//! 32-bit big-endian payload length followed by the payload bytes, plus the
//! big-endian integer helpers shared with the durable-record framing.

use vstd::prelude::*;

use crate::error::Error;

verus! {

/// Largest payload a frame can carry: its length must fit the 32-bit prefix.
pub const MAX_PAYLOAD_LEN: usize = 0xffff_ffff;

/// Big-endian bytes of a 64-bit integer.
pub open spec fn u64_bytes(v: u64) -> Seq<u8> {
    seq![
        (v >> 56) as u8,
        (v >> 48) as u8,
        (v >> 40) as u8,
        (v >> 32) as u8,
        (v >> 24) as u8,
        (v >> 16) as u8,
        (v >> 8) as u8,
        v as u8,
    ]
}

/// The 64-bit integer whose big-endian bytes are `b` (meaningful when
/// `b.len() == 8`).
pub open spec fn u64_of(b: Seq<u8>) -> u64 {
    ((b[0] as u64) << 56) | ((b[1] as u64) << 48) | ((b[2] as u64) << 40)
        | ((b[3] as u64) << 32) | ((b[4] as u64) << 24) | ((b[5] as u64) << 16)
        | ((b[6] as u64) << 8) | (b[7] as u64)
}

/// Big-endian bytes of a 32-bit integer.
pub open spec fn u32_bytes(v: u32) -> Seq<u8> {
    seq![(v >> 24) as u8, (v >> 16) as u8, (v >> 8) as u8, v as u8]
}

/// The 32-bit integer whose big-endian bytes are `b` (meaningful when
/// `b.len() == 4`).
pub open spec fn u32_of(b: Seq<u8>) -> u32 {
    ((b[0] as u32) << 24) | ((b[1] as u32) << 16) | ((b[2] as u32) << 8) | (b[3] as u32)
}

/// Decoding the big-endian bytes of a 64-bit integer gives it back.
pub proof fn lemma_u64_round_trip(v: u64)
    ensures
        u64_of(u64_bytes(v)) == v,
{
    assert(((((v >> 56) as u8) as u64) << 56) | ((((v >> 48) as u8) as u64) << 48)
        | ((((v >> 40) as u8) as u64) << 40) | ((((v >> 32) as u8) as u64) << 32)
        | ((((v >> 24) as u8) as u64) << 24) | ((((v >> 16) as u8) as u64) << 16)
        | ((((v >> 8) as u8) as u64) << 8) | ((v as u8) as u64) == v) by (bit_vector);
}

/// Decoding the big-endian bytes of a 32-bit integer gives it back.
pub proof fn lemma_u32_round_trip(v: u32)
    ensures
        u32_of(u32_bytes(v)) == v,
{
    assert(((((v >> 24) as u8) as u32) << 24) | ((((v >> 16) as u8) as u32) << 16)
        | ((((v >> 8) as u8) as u32) << 8) | ((v as u8) as u32) == v) by (bit_vector);
}

/// One RPC frame, opaque to the transport core beyond its payload bytes.
pub struct WireMessage {
    pub payload: Vec<u8>,
}

impl View for WireMessage {
    type V = Seq<u8>;

    open spec fn view(&self) -> Seq<u8> {
        self.payload@
    }
}

impl Clone for WireMessage {
    /// The copy carries the same payload.
    fn clone(&self) -> (r: Self)
        ensures
            r@ == self@,
    {
        WireMessage { payload: clone_bytes(&self.payload) }
    }
}

/// Byte-for-byte copy of `v`.
pub fn clone_bytes(v: &Vec<u8>) -> (r: Vec<u8>)
    ensures
        r@ == v@,
{
    let mut r: Vec<u8> = Vec::new();
    let mut i: usize = 0;
    while i < v.len()
        invariant
            i <= v@.len(),
            r@ == v@.subrange(0, i as int),
        decreases v@.len() - i,
    {
        r.push(v[i]);
        i += 1;
        proof {
            assert(r@ =~= v@.subrange(0, i as int));
        }
    }
    proof {
        assert(v@.subrange(0, v@.len() as int) =~= v@);
    }
    r
}

/// A frame is encodable when its payload length fits the 32-bit prefix.
pub open spec fn msg_wf(m: Seq<u8>) -> bool {
    m.len() <= MAX_PAYLOAD_LEN
}

/// The self-delimiting encoding of a frame with payload `m`.
pub open spec fn message_bytes(m: Seq<u8>) -> Seq<u8> {
    u32_bytes(m.len() as u32) + m
}

/// What decoding one frame at the front of `b` yields: the payload and the
/// number of bytes consumed, or `None` when `b` is too short.
pub open spec fn parse_message(b: Seq<u8>) -> Option<(Seq<u8>, int)> {
    if b.len() < 4 {
        None
    } else {
        let n = u32_of(b.subrange(0, 4)) as int;
        if b.len() < 4 + n {
            None
        } else {
            Some((b.subrange(4, 4 + n), 4 + n))
        }
    }
}

/// A frame's encoding decodes back to that frame, whatever follows it.
pub proof fn lemma_message_round_trip(m: Seq<u8>, rest: Seq<u8>)
    requires
        msg_wf(m),
    ensures
        parse_message(message_bytes(m) + rest)
            == Some((m, 4 + m.len() as int)),
{
    let b = message_bytes(m) + rest;
    assert(b.subrange(0, 4) =~= u32_bytes(m.len() as u32));
    lemma_u32_round_trip(m.len() as u32);
    assert(u32_of(b.subrange(0, 4)) as int == m.len() as int);
    assert(b.subrange(4, 4 + m.len() as int) =~= m);
}

impl WireMessage {
    /// Appends the encoding of this frame to `out`.
    pub fn write_to(&self, out: &mut Vec<u8>)
        requires
            msg_wf(self@),
        ensures
            final(out)@ == old(out)@ + message_bytes(self@),
    {
        push_u32(out, self.payload.len() as u32);
        let ghost mid = out@;
        let mut i: usize = 0;
        while i < self.payload.len()
            invariant
                i <= self.payload.len(),
                out@ == mid + self.payload@.subrange(0, i as int),
            decreases self.payload.len() - i,
        {
            out.push(self.payload[i]);
            i += 1;
            proof {
                assert(out@ =~= mid + self.payload@.subrange(0, i as int));
            }
        }
        proof {
            assert(self.payload@.subrange(0, self.payload@.len() as int) =~= self.payload@);
            assert(out@ =~= old(out)@ + message_bytes(self@));
        }
    }

    /// Decodes one frame from `buf` starting at `pos`. Returns the frame and
    /// the position just past it; `EndOfStream` exactly when no byte of a new
    /// frame was available; `Decode` exactly when bytes were available but do
    /// not hold a whole frame.
    pub fn read_from(buf: &Vec<u8>, pos: usize) -> (r: Result<(WireMessage, usize), Error>)
        requires
            pos <= buf@.len(),
        ensures
            match r {
                Ok((m, p2)) => {
                    &&& parse_message(buf@.subrange(pos as int, buf@.len() as int))
                        == Some((m@, p2 - pos))
                    &&& pos < p2 <= buf@.len()
                    &&& msg_wf(m@)
                },
                Err(e) => {
                    &&& (e == Error::EndOfStream <==> pos == buf@.len())
                    &&& (e == Error::Decode <==> pos < buf@.len())
                    &&& parse_message(buf@.subrange(pos as int, buf@.len() as int)).is_none()
                },
            },
    {
        let ghost tail = buf@.subrange(pos as int, buf@.len() as int);
        if pos == buf.len() {
            return Err(Error::EndOfStream);
        }
        if buf.len() - pos < 4 {
            return Err(Error::Decode);
        }
        let n = read_u32_at(buf, pos) as usize;
        proof {
            assert(tail.subrange(0, 4) =~= buf@.subrange(pos as int, pos as int + 4));
        }
        if buf.len() - pos - 4 < n {
            return Err(Error::Decode);
        }
        let blen = buf.len();
        let mut payload: Vec<u8> = Vec::new();
        let mut i: usize = 0;
        while i < n
            invariant
                i <= n,
                pos + 4 + n <= blen == buf@.len(),
                payload@ == buf@.subrange(pos as int + 4, pos as int + 4 + i as int),
            decreases n - i,
        {
            payload.push(buf[pos + 4 + i]);
            i += 1;
            proof {
                assert(payload@ =~= buf@.subrange(pos as int + 4, pos as int + 4 + i as int));
            }
        }
        proof {
            assert(tail.subrange(4, 4 + n as int)
                =~= buf@.subrange(pos as int + 4, pos as int + 4 + n as int));
        }
        Ok((WireMessage { payload }, pos + 4 + n))
    }
}

/// Appends the big-endian bytes of `v` to `out`.
pub fn push_u64(out: &mut Vec<u8>, v: u64)
    ensures
        final(out)@ == old(out)@ + u64_bytes(v),
{
    out.push((v >> 56) as u8);
    out.push((v >> 48) as u8);
    out.push((v >> 40) as u8);
    out.push((v >> 32) as u8);
    out.push((v >> 24) as u8);
    out.push((v >> 16) as u8);
    out.push((v >> 8) as u8);
    out.push(v as u8);
    proof {
        assert(out@ =~= old(out)@ + u64_bytes(v));
    }
}

/// Appends the big-endian bytes of `v` to `out`.
pub fn push_u32(out: &mut Vec<u8>, v: u32)
    ensures
        final(out)@ == old(out)@ + u32_bytes(v),
{
    out.push((v >> 24) as u8);
    out.push((v >> 16) as u8);
    out.push((v >> 8) as u8);
    out.push(v as u8);
    proof {
        assert(out@ =~= old(out)@ + u32_bytes(v));
    }
}

/// Reads the big-endian 64-bit integer at `pos`.
pub fn read_u64_at(buf: &Vec<u8>, pos: usize) -> (v: u64)
    requires
        pos + 8 <= buf@.len(),
    ensures
        v == u64_of(buf@.subrange(pos as int, pos as int + 8)),
{
    let b = buf;
    // binds the length so its usize bound reaches the index arithmetic
    let blen = b.len();
    ((b[pos] as u64) << 56) | ((b[pos + 1] as u64) << 48) | ((b[pos + 2] as u64) << 40)
        | ((b[pos + 3] as u64) << 32) | ((b[pos + 4] as u64) << 24)
        | ((b[pos + 5] as u64) << 16) | ((b[pos + 6] as u64) << 8) | (b[pos + 7] as u64)
}

/// Reads the big-endian 32-bit integer at `pos`.
pub fn read_u32_at(buf: &Vec<u8>, pos: usize) -> (v: u32)
    requires
        pos + 4 <= buf@.len(),
    ensures
        v == u32_of(buf@.subrange(pos as int, pos as int + 4)),
{
    let b = buf;
    // binds the length so its usize bound reaches the index arithmetic
    let blen = b.len();
    ((b[pos] as u32) << 24) | ((b[pos + 1] as u32) << 16) | ((b[pos + 2] as u32) << 8)
        | (b[pos + 3] as u32)
}

} // verus!
