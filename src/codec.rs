//! Framing of the TCP protocol: length-delimited payloads for requests and
//! replies, and the decoder and encoder interfaces that the mux and preface
//! layers are built on.

use crate::bytes_be::{get_u32, lemma_u32_bytes_of, lemma_u32_round_trip, put_u32, u32_bytes, u32_of};
use crate::latency::Latency;
use crate::message::{Reply, Spec};
use bytes::BytesMut;
use tokio_util::codec::{Decoder, Encoder, LengthDelimitedCodec};
use vstd::prelude::*;

verus! {

/// Why bytes could not be decoded or a value encoded.
#[derive(Copy, Clone, Debug, PartialEq, Eq, Structural)]
pub enum CodecError {
    /// The connection does not begin with the protocol's preface.
    InvalidPreface,
    /// A request's payload is not eight bytes long.
    InvalidSpec,
    /// A payload is longer than a frame can hold.
    FrameTooLong,
}

/// A decoder over a byte stream, which may keep state between calls.
pub trait FrameDecoder: Sized {
    type Item: View;

    /// Decoding from the start of `src` in state `self`: the next state, and
    /// either an error or the number of bytes consumed with the item, if a
    /// whole one arrived.
    spec fn spec_decode(self, src: Seq<u8>) -> (Self, Result<(nat, Option<<Self::Item as View>::V>), CodecError>);

    fn decode(&mut self, src: &[u8]) -> (r: Result<(usize, Option<Self::Item>), CodecError>)
        ensures
            *final(self) == old(self).spec_decode(src@).0,
            decoded_view(r) == old(self).spec_decode(src@).1,
            r is Ok ==> r->Ok_0.0 <= src@.len(),
    ;
}

/// An encoder onto a byte stream, which may keep state between calls.
pub trait FrameEncoder: Sized {
    type Item: View;

    /// Encoding `item` in state `self`: the next state, and the bytes
    /// written or an error.
    spec fn spec_encode(self, item: <Self::Item as View>::V) -> (Self, Result<Seq<u8>, CodecError>);

    fn encode(&mut self, item: Self::Item, dst: &mut Vec<u8>) -> (r: Result<(), CodecError>)
        ensures
            *final(self) == old(self).spec_encode(item@).0,
            match old(self).spec_encode(item@).1 {
                Ok(bytes) => r is Ok && final(dst)@ == old(dst)@ + bytes,
                Err(e) => r == Err::<(), _>(e) && final(dst)@ == old(dst)@,
            },
    ;
}

/// What a decoder returned, as views.
pub open spec fn decoded_view<T: View>(r: Result<(usize, Option<T>), CodecError>) -> Result<(nat, Option<T::V>), CodecError> {
    match r {
        Err(e) => Err(e),
        Ok((c, None)) => Ok((c as nat, None)),
        Ok((c, Some(x))) => Ok((c as nat, Some(x@))),
    }
}

/// The largest payload: what a four-byte length field holds.
pub const MAX_FRAME_LEN: usize = 0xffff_ffff;

/// A frame: the payload's length in four big-endian bytes, then the payload.
pub open spec fn frame_of(payload: Seq<u8>) -> Seq<u8> {
    u32_bytes(payload.len() as u32) + payload
}

/// The payload of the frame at the start of `src` and the frame's length;
/// `None` until all of it has arrived.
pub open spec fn frame_at(src: Seq<u8>) -> Option<(Seq<u8>, nat)> {
    if src.len() < 4 {
        None
    } else {
        let n = u32_of(src.take(4)) as int;
        if src.len() < 4 + n {
            None
        } else {
            Some((src.subrange(4, 4 + n), (4 + n) as nat))
        }
    }
}

/// Relies on tokio-util's `LengthDelimitedCodec`, built with a four-byte
/// big-endian length field and `max_len` as the largest frame: encoding
/// writes the payload's length, then the payload, and refuses a longer
/// payload.
#[verifier::external_body]
fn length_delimited_encode(payload: &[u8], max_len: usize) -> (r: Option<Vec<u8>>)
    requires
        max_len <= MAX_FRAME_LEN,
    ensures
        payload@.len() <= max_len ==> r is Some && r->Some_0@ == frame_of(payload@),
        payload@.len() > max_len ==> r is None,
{
    let mut codec = LengthDelimitedCodec::builder().length_field_length(4).max_frame_length(
        max_len,
    ).new_codec();
    let mut buf = BytesMut::new();
    match codec.encode(payload, &mut buf) {
        Ok(()) => Some(buf.to_vec()),
        Err(_) => None,
    }
}

/// Relies on `LengthDelimitedCodec::decode`, built as above, from a fresh
/// state: the payload of the first frame once all of it has arrived, and an
/// error for a length field over `max_len`.
#[verifier::external_body]
fn length_delimited_decode(src: &[u8], max_len: usize) -> (r: Result<Option<Vec<u8>>, CodecError>)
    requires
        max_len <= MAX_FRAME_LEN,
    ensures
        src@.len() < 4 ==> r is Ok && r->Ok_0 is None,
        src@.len() >= 4 && u32_of(src@.take(4)) > max_len ==> r is Err,
        src@.len() >= 4 && u32_of(src@.take(4)) <= max_len ==> match frame_at(src@) {
            None => r is Ok && r->Ok_0 is None,
            Some((p, _)) => r is Ok && r->Ok_0 is Some && r->Ok_0->Some_0@ == p,
        },
{
    let mut codec = LengthDelimitedCodec::builder().length_field_length(4).max_frame_length(
        max_len,
    ).new_codec();
    let mut buf = BytesMut::from(src);
    match codec.decode(&mut buf) {
        Ok(Some(frame)) => Ok(Some(frame.to_vec())),
        Ok(None) => Ok(None),
        Err(_) => Err(CodecError::FrameTooLong),
    }
}

/// Decodes the frame at the start of `src`: its payload and length.
fn decode_frame(src: &[u8]) -> (r: Option<(Vec<u8>, usize)>)
    ensures
        match frame_at(src@) {
            None => r is None,
            Some((p, c)) => r matches Some((v, n)) && v@ == p && n == c,
        },
{
    proof {
        if src@.len() >= 4 {
            assert(u32_of(src@.take(4)) <= u32::MAX);
        }
    }
    match length_delimited_decode(src, MAX_FRAME_LEN) {
        Ok(Some(payload)) => {
            let m = src.len();
            let n = payload.len();
            proof {
                assert(src@.len() >= 4 + n);
            }
            Some((payload, 4 + n))
        },
        _ => None,
    }
}

// === SpecCodec ===

/// The payload of a request: latency in milliseconds and response size, each
/// in four big-endian bytes (each truncated to 32 bits).
pub open spec fn spec_payload(s: Spec) -> Seq<u8> {
    u32_bytes(s.latency.millis as u32) + u32_bytes(s.response_size as u32)
}

/// The request that an eight-byte payload describes.
pub open spec fn spec_of_payload(p: Seq<u8>) -> Spec {
    Spec {
        latency: Latency { millis: u32_of(p.take(4)) as u64 },
        response_size: u32_of(p.skip(4)) as usize,
    }
}

/// Frames requests.
#[derive(Copy, Clone, Debug, Default, PartialEq, Eq, Structural)]
pub struct SpecCodec;

impl FrameDecoder for SpecCodec {
    type Item = Spec;

    open spec fn spec_decode(self, src: Seq<u8>) -> (SpecCodec, Result<(nat, Option<Spec>), CodecError>) {
        match frame_at(src) {
            None => (self, Ok((0, None))),
            Some((p, c)) => if p.len() == 8 {
                (self, Ok((c, Some(spec_of_payload(p)))))
            } else {
                (self, Err(CodecError::InvalidSpec))
            },
        }
    }

    fn decode(&mut self, src: &[u8]) -> (r: Result<(usize, Option<Spec>), CodecError>) {
        match decode_frame(src) {
            None => Ok((0, None)),
            Some((payload, n)) => {
                if payload.len() != 8 {
                    return Err(CodecError::InvalidSpec);
                }
                let ms = get_u32(payload.as_slice(), 0);
                let size = get_u32(payload.as_slice(), 4);
                proof {
                    assert(payload@.subrange(0, 4) =~= payload@.take(4));
                    assert(payload@.subrange(4, 8) =~= payload@.skip(4));
                }
                Ok((n, Some(Spec { latency: Latency { millis: ms as u64 }, response_size: size as usize })))
            },
        }
    }
}

impl FrameEncoder for SpecCodec {
    type Item = Spec;

    open spec fn spec_encode(self, item: Spec) -> (SpecCodec, Result<Seq<u8>, CodecError>) {
        (self, Ok(frame_of(spec_payload(item))))
    }

    fn encode(&mut self, item: Spec, dst: &mut Vec<u8>) -> (r: Result<(), CodecError>) {
        let mut payload: Vec<u8> = Vec::new();
        put_u32(&mut payload, item.latency.millis as u32);
        put_u32(&mut payload, item.response_size as u32);
        proof {
            assert(payload@ =~= spec_payload(item));
        }
        match length_delimited_encode(payload.as_slice(), MAX_FRAME_LEN) {
            Some(mut frame) => {
                dst.append(&mut frame);
                Ok(())
            },
            None => Err(CodecError::FrameTooLong),
        }
    }
}

// === ReplyCodec ===

/// Frames replies.
#[derive(Copy, Clone, Debug, Default, PartialEq, Eq, Structural)]
pub struct ReplyCodec;

impl FrameDecoder for ReplyCodec {
    type Item = Reply;

    open spec fn spec_decode(self, src: Seq<u8>) -> (ReplyCodec, Result<(nat, Option<Seq<u8>>), CodecError>) {
        match frame_at(src) {
            None => (self, Ok((0, None))),
            Some((p, c)) => (self, Ok((c, Some(p)))),
        }
    }

    fn decode(&mut self, src: &[u8]) -> (r: Result<(usize, Option<Reply>), CodecError>) {
        match decode_frame(src) {
            None => Ok((0, None)),
            Some((data, n)) => Ok((n, Some(Reply { data }))),
        }
    }
}

impl FrameEncoder for ReplyCodec {
    type Item = Reply;

    open spec fn spec_encode(self, item: Seq<u8>) -> (ReplyCodec, Result<Seq<u8>, CodecError>) {
        if item.len() <= MAX_FRAME_LEN {
            (self, Ok(frame_of(item)))
        } else {
            (self, Err(CodecError::FrameTooLong))
        }
    }

    fn encode(&mut self, item: Reply, dst: &mut Vec<u8>) -> (r: Result<(), CodecError>) {
        match length_delimited_encode(item.data.as_slice(), MAX_FRAME_LEN) {
            Some(mut frame) => {
                dst.append(&mut frame);
                Ok(())
            },
            None => Err(CodecError::FrameTooLong),
        }
    }
}

// === Laws ===

/// The frame of a payload decodes to that payload, whatever follows it.
pub proof fn lemma_frame_round_trip(p: Seq<u8>, rest: Seq<u8>)
    requires
        p.len() <= MAX_FRAME_LEN,
    ensures
        frame_at(frame_of(p) + rest) == Some((p, (4 + p.len()) as nat)),
{
    let s = frame_of(p) + rest;
    lemma_u32_round_trip(p.len() as u32);
    assert(s.take(4) =~= u32_bytes(p.len() as u32));
    assert(s.subrange(4, 4 + p.len() as int) =~= p);
}

/// A decoded frame encodes back to the bytes it was decoded from.
pub proof fn lemma_frame_of_decoded(src: Seq<u8>)
    requires
        frame_at(src) is Some,
    ensures
        frame_of(frame_at(src)->Some_0.0) == src.take(frame_at(src)->Some_0.1 as int),
{
    let n = u32_of(src.take(4));
    lemma_u32_bytes_of(src.take(4));
    assert(frame_of(src.subrange(4, 4 + n)) =~= src.take(4 + n));
}

/// A request whose latency and size fit in 32 bits decodes from its
/// bytes whole, whatever follows them.
pub proof fn lemma_spec_encode_decode(s: Spec, rest: Seq<u8>)
    requires
        s.latency.millis <= u32::MAX,
        s.response_size <= u32::MAX,
    ensures
        SpecCodec.spec_decode(SpecCodec.spec_encode(s).1->Ok_0 + rest).1 == Ok::<_, CodecError>(
            (12nat, Some(s)),
        ),
{
    let p = spec_payload(s);
    lemma_u32_round_trip(s.latency.millis as u32);
    lemma_u32_round_trip(s.response_size as u32);
    assert(p.take(4) =~= u32_bytes(s.latency.millis as u32));
    assert(p.skip(4) =~= u32_bytes(s.response_size as u32));
    lemma_frame_round_trip(p, rest);
    assert(spec_of_payload(p) == s);
}

/// A decoded request encodes back to the bytes it was read from.
pub proof fn lemma_spec_decode_encode(src: Seq<u8>)
    ensures
        SpecCodec.spec_decode(src).1 matches Ok((c, Some(x))) ==> SpecCodec.spec_encode(x).1
            == Ok::<_, CodecError>(src.take(c as int)),
{
    if let Ok((c, Some(x))) = SpecCodec.spec_decode(src).1 {
        let q = frame_at(src)->Some_0.0;
        lemma_frame_of_decoded(src);
        lemma_u32_bytes_of(q.take(4));
        lemma_u32_bytes_of(q.skip(4));
        let a = u32_of(q.take(4));
        let b = u32_of(q.skip(4));
        assert(x.latency.millis == a as u64);
        assert(x.response_size == b as usize);
        assert(x.latency.millis as u32 == a);
        assert(x.response_size as u32 == b);
        assert(spec_payload(x) =~= q);
    }
}

/// Reply bytes decode to the payload they encode, and a decoded reply
/// encodes back to the bytes it was read from.
pub proof fn lemma_reply_round_trip(p: Seq<u8>, rest: Seq<u8>, src: Seq<u8>)
    requires
        p.len() <= MAX_FRAME_LEN,
    ensures
        ReplyCodec.spec_decode(ReplyCodec.spec_encode(p).1->Ok_0 + rest).1 == Ok::<_, CodecError>(
            ((4 + p.len()) as nat, Some(p)),
        ),
        ReplyCodec.spec_decode(src).1 matches Ok((c, Some(x))) ==> ReplyCodec.spec_encode(x).1
            == Ok::<_, CodecError>(src.take(c as int)),
{
    lemma_frame_round_trip(p, rest);
    if let Ok((c, Some(x))) = ReplyCodec.spec_decode(src).1 {
        lemma_frame_of_decoded(src);
    }
}

} // verus!
