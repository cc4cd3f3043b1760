//! Transport framing: every message on the wire is a 4-byte little-endian
//! unsigned length prefix followed by exactly that many payload bytes.
//!
//! The framer knows nothing of request/response semantics.  The encode side
//! produces the complete frame for a payload; the decode side is an
//! accumulator, `FrameReader`, that accepts the stream's bytes in chunks of
//! any size and yields the payload once exactly one well-formed frame has
//! arrived.

use crate::error::OpenCliError;
use vstd::bytes::lemma_auto_spec_u32_to_from_le_bytes;
use vstd::bytes::spec_u32_from_le_bytes;
use vstd::bytes::spec_u32_to_le_bytes;
use vstd::bytes::u32_from_le_bytes;
use vstd::bytes::u32_to_le_bytes;
use vstd::prelude::*;
use vstd::slice::slice_subrange;
use vstd::slice::slice_to_vec;
use vstd::string::StringExecFns;

verus! {

/// Largest payload representable by the 4-byte length prefix.
pub const MAX_FRAME_PAYLOAD: u64 = 0xFFFF_FFFF;

/// The wire form of one frame: the payload's length as 4 little-endian
/// bytes, then the payload itself.
pub open spec fn spec_frame(payload: Seq<u8>) -> Seq<u8>
    recommends
        payload.len() <= MAX_FRAME_PAYLOAD,
{
    spec_u32_to_le_bytes(payload.len() as u32) + payload
}

/// What the decode side makes of a finished stream: the payload iff the
/// bytes are exactly one well-formed frame.
pub open spec fn spec_unframe(bytes: Seq<u8>) -> Option<Seq<u8>> {
    if bytes.len() >= 4 && spec_u32_from_le_bytes(bytes.take(4)) == bytes.len() - 4 {
        Some(bytes.skip(4))
    } else {
        None
    }
}

/// Framing inverts: the frame built from any payload of up to
/// 2^32 - 1 bytes decodes back to exactly that payload, whole.
pub proof fn lemma_frame_round_trip(payload: Seq<u8>)
    requires
        payload.len() <= MAX_FRAME_PAYLOAD,
    ensures
        spec_unframe(spec_frame(payload)) == Some(payload),
{
    lemma_auto_spec_u32_to_from_le_bytes();
    assert(spec_frame(payload).take(4) =~= spec_u32_to_le_bytes(payload.len() as u32));
    assert(spec_frame(payload).skip(4) =~= payload);
}

/// Build the complete frame for `payload`.  Fails, with a serialization
/// error, exactly when the payload cannot be represented by a 32-bit
/// length.
pub fn encode_frame(payload: &Vec<u8>) -> (r: Result<Vec<u8>, OpenCliError>)
    ensures
        payload@.len() <= MAX_FRAME_PAYLOAD ==> (r matches Ok(f) && f@ == spec_frame(payload@)),
        payload@.len() > MAX_FRAME_PAYLOAD ==> (r matches Err(e) && e is SerializationError),
{
    if payload.len() as u64 > MAX_FRAME_PAYLOAD {
        return Err(
            OpenCliError::SerializationError(
                String::from_str("message exceeds the 32-bit frame length"),
            ),
        );
    }
    let len: u32 = payload.len() as u32;
    let mut out = u32_to_le_bytes(len);
    let mut body = slice_to_vec(payload.as_slice());
    out.append(&mut body);
    Ok(out)
}

/// Decode-side accumulator.  Bytes arrive in chunks of arbitrary size; the
/// reader only ever concatenates them, so the outcome depends on the bytes
/// alone, never on how the stream happened to split them.
pub struct FrameReader {
    received: Vec<u8>,
}

impl View for FrameReader {
    type V = Seq<u8>;

    closed spec fn view(&self) -> Seq<u8> {
        self.received@
    }
}

/// How many more bytes must arrive before the stream can hold one complete
/// frame: first the 4 header bytes, then as many as the header announces.
pub open spec fn spec_frame_bytes_needed(bytes: Seq<u8>) -> int {
    if bytes.len() < 4 {
        4 - bytes.len()
    } else {
        let want = spec_u32_from_le_bytes(bytes.take(4)) + 4;
        if bytes.len() < want {
            want - bytes.len()
        } else {
            0
        }
    }
}

impl FrameReader {
    /// A reader that has seen no bytes yet.
    pub fn new() -> (r: FrameReader)
        ensures
            r@ == Seq::<u8>::empty(),
    {
        FrameReader { received: Vec::new() }
    }

    /// Accept the next chunk of the stream, whatever its size.
    pub fn push_chunk(&mut self, chunk: &[u8])
        ensures
            final(self)@ == old(self)@ + chunk@,
    {
        let mut c = slice_to_vec(chunk);
        self.received.append(&mut c);
    }

    /// How many further bytes are needed before the frame is complete;
    /// 0 means [`Self::try_finish`] will yield the payload.
    pub fn needed(&self) -> (n: u64)
        ensures
            n == spec_frame_bytes_needed(self@),
    {
        if self.received.len() < 4 {
            4 - self.received.len() as u64
        } else {
            let hdr = slice_subrange(self.received.as_slice(), 0, 4);
            let want: u64 = u32_from_le_bytes(hdr) as u64 + 4;
            if (self.received.len() as u64) < want {
                want - self.received.len() as u64
            } else {
                0
            }
        }
    }

    /// The payload, if what has arrived is exactly one well-formed frame.
    pub fn try_finish(&self) -> (r: Option<Vec<u8>>)
        ensures
            r is Some <==> spec_unframe(self@) is Some,
            r matches Some(p) ==> spec_unframe(self@) == Some(p@),
    {
        if self.received.len() < 4 {
            return None;
        }
        let hdr = slice_subrange(self.received.as_slice(), 0, 4);
        let announced: u64 = u32_from_le_bytes(hdr) as u64;
        if self.received.len() as u64 - 4 != announced {
            return None;
        }
        let payload = slice_to_vec(
            slice_subrange(self.received.as_slice(), 4, self.received.len()),
        );
        assert(payload@ =~= self@.skip(4));
        Some(payload)
    }
}

} // verus!
