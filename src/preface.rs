//! The preface layer of the TCP protocol: a connection opens with fixed
//! bytes that identify the protocol; after them, the inner codec works
//! unchanged.

use crate::codec::{CodecError, FrameDecoder, FrameEncoder};
use vstd::prelude::*;
use vstd::slice::slice_subrange;

verus! {

/// The number of bytes of the preface.
pub const PREFACE_LEN: usize = 23;

/// The preface: `ort.olix0r.net/load\r\n\r\n`.
pub open spec fn preface_bytes() -> Seq<u8> {
    seq![
        111u8, 114, 116, 46, 111, 108, 105, 120, 48, 114, 46, 110, 101, 116, 47, 108, 111, 97, 100, 13,
        10, 13, 10,
    ]
}

fn preface() -> (r: [u8; 23])
    ensures
        r@ == preface_bytes(),
{
    let r: [u8; 23] = [
        111u8, 114, 116, 46, 111, 108, 105, 120, 48, 114, 46, 110, 101, 116, 47, 108, 111, 97, 100, 13,
        10, 13, 10,
    ];
    proof {
        assert(r@ =~= preface_bytes());
    }
    r
}

/// Whether `src` begins with the preface; `src` holds at least its length.
fn starts_with_preface(src: &[u8]) -> (r: bool)
    requires
        src@.len() >= PREFACE_LEN,
    ensures
        r == (src@.take(PREFACE_LEN as int) == preface_bytes()),
{
    let p = preface();
    let mut i: usize = 0;
    while i < PREFACE_LEN
        invariant
            i <= PREFACE_LEN,
            src@.len() >= PREFACE_LEN,
            p@ == preface_bytes(),
            forall|k: int| 0 <= k < i ==> src@[k] == p@[k],
        decreases PREFACE_LEN - i,
    {
        if src[i] != p[i] {
            proof {
                assert(src@.take(PREFACE_LEN as int)[i as int] != preface_bytes()[i as int]);
            }
            return false;
        }
        i += 1;
    }
    proof {
        assert(src@.take(PREFACE_LEN as int) =~= preface_bytes());
    }
    true
}

/// Whether the preface has been read or written yet.
#[derive(Copy, Clone, Debug, PartialEq, Eq, Structural)]
pub enum State {
    Init,
    Prefaced,
}

/// Checks the preface before decoding with the inner codec, and writes it
/// before the first encoded item.
#[derive(Copy, Clone, Debug, PartialEq, Eq)]
pub struct Codec<C> {
    pub inner: C,
    pub state: State,
}

impl<C> Codec<C> {
    pub fn new(inner: C) -> (r: Codec<C>)
        ensures
            r.inner == inner,
            r.state == State::Init,
    {
        Codec { inner, state: State::Init }
    }
}

/// An outcome with `n` more bytes consumed.
pub open spec fn shifted<V>(r: Result<(nat, Option<V>), CodecError>, n: nat) -> Result<(nat, Option<V>), CodecError> {
    match r {
        Err(e) => Err(e),
        Ok((c, v)) => Ok((c + n, v)),
    }
}

/// A codec whose preface has not been read or written yet.
pub open spec fn fresh<C>(inner: C) -> Codec<C> {
    Codec { inner, state: State::Init }
}

/// A codec past its preface.
pub open spec fn prefaced<C>(inner: C) -> Codec<C> {
    Codec { inner, state: State::Prefaced }
}

impl<D: FrameDecoder> FrameDecoder for Codec<D> {
    type Item = D::Item;

    open spec fn spec_decode(self, src: Seq<u8>) -> (Codec<D>, Result<(nat, Option<<D::Item as View>::V>), CodecError>) {
        match self.state {
            State::Prefaced => {
                let (inner, r) = self.inner.spec_decode(src);
                (prefaced(inner), r)
            },
            State::Init => if src.len() < PREFACE_LEN {
                (self, Ok((0, None)))
            } else if src.take(PREFACE_LEN as int) != preface_bytes() {
                (self, Err(CodecError::InvalidPreface))
            } else {
                let (inner, r) = self.inner.spec_decode(src.skip(PREFACE_LEN as int));
                (prefaced(inner), shifted(r, PREFACE_LEN as nat))
            },
        }
    }

    fn decode(&mut self, src: &[u8]) -> (r: Result<(usize, Option<D::Item>), CodecError>) {
        match self.state {
            State::Prefaced => self.inner.decode(src),
            State::Init => {
                if src.len() < PREFACE_LEN {
                    return Ok((0, None));
                }
                if !starts_with_preface(src) {
                    return Err(CodecError::InvalidPreface);
                }
                self.state = State::Prefaced;
                let rest = slice_subrange(src, PREFACE_LEN, src.len());
                proof {
                    assert(rest@ =~= src@.skip(PREFACE_LEN as int));
                }
                match self.inner.decode(rest) {
                    Ok((c, item)) => Ok((c + PREFACE_LEN, item)),
                    Err(e) => Err(e),
                }
            },
        }
    }
}

impl<E: FrameEncoder> FrameEncoder for Codec<E> {
    type Item = E::Item;

    open spec fn spec_encode(self, item: <E::Item as View>::V) -> (Codec<E>, Result<Seq<u8>, CodecError>) {
        let (inner, r) = self.inner.spec_encode(item);
        match r {
            Err(e) => (Codec { inner, state: self.state }, Err(e)),
            Ok(b) => (
                prefaced(inner),
                Ok(
                    if self.state == State::Init {
                        preface_bytes() + b
                    } else {
                        b
                    },
                ),
            ),
        }
    }

    fn encode(&mut self, item: E::Item, dst: &mut Vec<u8>) -> (r: Result<(), CodecError>) {
        let mut body: Vec<u8> = Vec::new();
        match self.inner.encode(item, &mut body) {
            Err(e) => Err(e),
            Ok(()) => {
                let ghost b = body@;
                let ghost before = dst@;
                if self.state == State::Init {
                    let p = preface();
                    let mut i: usize = 0;
                    while i < PREFACE_LEN
                        invariant
                            i <= PREFACE_LEN,
                            p@ == preface_bytes(),
                            dst@ == before + preface_bytes().take(i as int),
                        decreases PREFACE_LEN - i,
                    {
                        dst.push(p[i]);
                        proof {
                            assert(preface_bytes().take(i + 1) =~= preface_bytes().take(
                                i as int,
                            ).push(p@[i as int]));
                        }
                        i += 1;
                    }
                    proof {
                        assert(preface_bytes().take(PREFACE_LEN as int) =~= preface_bytes());
                    }
                    self.state = State::Prefaced;
                }
                let ghost mid = dst@;
                dst.append(&mut body);
                proof {
                    assert(dst@ =~= mid + b);
                    assert(before + preface_bytes() + b =~= before + (preface_bytes() + b));
                }
                Ok(())
            },
        }
    }
}

/// Once the preface has been read, the codec decodes exactly as its inner
/// decoder: the preface followed by any bytes decodes as the inner decoder
/// decodes those bytes, with the preface's bytes counted as consumed; and
/// past the preface every outcome is the inner decoder's.
pub proof fn lemma_prefaced_decodes_as_inner<D: FrameDecoder>(inner: D, rest: Seq<u8>, src: Seq<u8>)
    ensures
        fresh(inner).spec_decode(preface_bytes() + rest) == (
            prefaced(inner.spec_decode(rest).0),
            shifted(inner.spec_decode(rest).1, PREFACE_LEN as nat),
        ),
        prefaced(inner).spec_decode(src) == (prefaced(inner.spec_decode(src).0), inner.spec_decode(src).1),
{
    let s = preface_bytes() + rest;
    assert(s.take(PREFACE_LEN as int) =~= preface_bytes());
    assert(s.skip(PREFACE_LEN as int) =~= rest);
}

/// Bytes that do not begin with the preface are refused, however the inner
/// decoder would read them.
pub proof fn lemma_wrong_preface_refused<D: FrameDecoder>(inner: D, src: Seq<u8>)
    requires
        src.len() >= PREFACE_LEN,
        src.take(PREFACE_LEN as int) != preface_bytes(),
    ensures
        fresh(inner).spec_decode(src).1 == Err::<(nat, Option<<D::Item as View>::V>), _>(CodecError::InvalidPreface),
{
}

/// What a client writes first — the preface, then a framed request —
/// decodes on the server's stack to that request and its id, consuming the
/// 43 bytes, whatever follows; the server is then past the preface and
/// before the next id.
pub proof fn lemma_request_stream(id: u64, s: crate::message::Spec, rest: Seq<u8>)
    requires
        s.latency.millis <= u32::MAX,
        s.response_size <= u32::MAX,
    ensures
        fresh(crate::muxer::fresh_decode(crate::codec::SpecCodec)).spec_decode(
            fresh(crate::muxer::fresh_encode(crate::codec::SpecCodec)).spec_encode((id, s)).1->Ok_0
                + rest,
        ) == (
            prefaced(crate::muxer::fresh_decode(crate::codec::SpecCodec)),
            Ok::<_, CodecError>((43nat, Some((id, s)))),
        ),
{
    let framed = crate::muxer::fresh_encode(crate::codec::SpecCodec).spec_encode((id, s)).1->Ok_0;
    let inner = crate::muxer::fresh_decode(crate::codec::SpecCodec);
    assert(preface_bytes() + framed + rest =~= preface_bytes() + (framed + rest));
    lemma_prefaced_decodes_as_inner(inner, framed + rest, Seq::empty());
    crate::muxer::lemma_spec_frame_round_trip(id, s, rest, Seq::empty());
}

} // verus!
