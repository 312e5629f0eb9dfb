//! Length-delimited framing of a byte stream.
//!
//! A frame is a varint length prefix followed by exactly that many payload
//! bytes.  The codec is stateless between frames.  An empty buffer is the
//! clean end of the stream, not an error; a buffer that ends mid-prefix or
//! mid-payload is malformed.

use crate::errors::IdentifyError;
use crate::varint::{
    decode_varint, lemma_varint_parse_encode, lemma_varint_parse_len, push_varint, spec_varint,
    spec_varint_parse,
};
use vstd::prelude::*;
use vstd::slice::{slice_subrange, slice_to_vec};

verus! {

/// The bytes of one frame carrying `payload`.
pub open spec fn spec_frame(payload: Seq<u8>) -> Seq<u8> {
    spec_varint(payload.len()) + payload
}

/// What a reader takes from the front of `s`: the payload and the number of
/// bytes consumed, or `None` if the length prefix is truncated or announces
/// more bytes than follow.
pub open spec fn spec_parse_frame(s: Seq<u8>) -> Option<(Seq<u8>, int)> {
    match spec_varint_parse(s) {
        None => None,
        Some((ln, l)) => if l + ln <= s.len() {
            Some((s.subrange(l, l + ln), l + ln))
        } else {
            None
        },
    }
}

/// Appends `payload@` to `out`, one for one.
pub(crate) fn push_bytes(out: &mut Vec<u8>, payload: &[u8])
    ensures
        final(out)@ == old(out)@ + payload@,
{
    let ghost base = out@;
    let n = payload.len();
    let mut i: usize = 0;
    while i < n
        invariant
            i <= n,
            n == payload@.len(),
            out@ == base + payload@.take(i as int),
        decreases n - i,
    {
        out.push(payload[i]);
        proof {
            assert((base + payload@.take(i as int)).push(payload@[i as int]) =~= base
                + payload@.take(i as int + 1));
        }
        i = i + 1;
    }
    proof {
        assert(payload@.take(n as int) =~= payload@);
    }
}

/// Encodes one frame: the varint length of `payload` followed by `payload`.
pub fn write_frame(payload: &[u8]) -> (r: Vec<u8>)
    ensures
        r@ == spec_frame(payload@),
{
    let mut out: Vec<u8> = Vec::new();
    push_varint(&mut out, payload.len() as u64);
    push_bytes(&mut out, payload);
    proof {
        assert(Seq::<u8>::empty() + spec_varint(payload@.len()) + payload@ =~= spec_frame(
            payload@,
        ));
    }
    out
}

/// Reads the single frame at the front of `s`.  An empty `s` means the
/// stream closed cleanly before a frame: `Ok(None)`.  A truncated prefix or
/// a payload shorter than announced is a malformed frame.
pub fn read_frame(s: &[u8]) -> (r: Result<Option<Vec<u8>>, IdentifyError>)
    ensures
        s@.len() == 0 ==> (r matches Ok(p) && p is None),
        s@.len() > 0 ==> match spec_parse_frame(s@) {
            Some((payload, c)) => r matches Ok(p) && p matches Some(v) && v@ == payload,
            None => r == Err::<Option<Vec<u8>>, IdentifyError>(IdentifyError::MalformedFrame),
        },
{
    if s.len() == 0 {
        return Ok(None);
    }
    match decode_varint(s, 0) {
        None => {
            proof {
                assert(s@.skip(0) =~= s@);
                if spec_varint_parse(s@) is Some {
                    lemma_varint_parse_len(s@);
                }
            }
            Err(IdentifyError::MalformedFrame)
        },
        Some((ln, end)) => {
            proof {
                assert(s@.skip(0) =~= s@);
            }
            let rem = s.len() - end;
            if ln > rem as u64 {
                return Err(IdentifyError::MalformedFrame);
            }
            let ln_us = ln as usize;
            let payload = slice_to_vec(slice_subrange(s, end, end + ln_us));
            Ok(Some(payload))
        },
    }
}

/// Framing round trip: reading a frame written for any payload, of any
/// length including zero, yields exactly that payload and consumes the
/// whole frame.
pub proof fn lemma_frame_round_trip(payload: Seq<u8>)
    ensures
        spec_parse_frame(spec_frame(payload)) == Some::<(Seq<u8>, int)>(
            (payload, spec_frame(payload).len() as int),
        ),
{
    let pre = spec_varint(payload.len());
    lemma_varint_parse_encode(payload.len(), payload);
    assert(spec_frame(payload).subrange(pre.len() as int, pre.len() + payload.len() as int)
        =~= payload);
}

} // verus!
