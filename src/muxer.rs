//! The mux layer of the TCP protocol: every frame carries a request id, and
//! replies may come back in any order. Here are the id codec and the
//! decisions of the client and server connection drivers.

use crate::bytes_be::{get_u64, lemma_u64_round_trip, put_u64, u64_bytes, u64_of};
use crate::codec::{CodecError, FrameDecoder, FrameEncoder};
use std::collections::HashMap;
use vstd::prelude::*;
use vstd::slice::slice_subrange;

verus! {

/// A value tagged with the id of its request.
#[derive(Clone, Debug, PartialEq, Eq)]
pub struct Frame<T> {
    pub id: u64,
    pub value: T,
}

impl<T: View> View for Frame<T> {
    type V = (u64, T::V);

    open spec fn view(&self) -> (u64, T::V) {
        (self.id, self.value@)
    }
}

/// Writes the id in eight big-endian bytes before each encoded value.
#[derive(Copy, Clone, Debug, Default, PartialEq, Eq)]
pub struct FramedEncode<E> {
    pub inner: E,
}

/// Where a frame decoder stands: before an id, or after one whose value has
/// not arrived yet.
#[derive(Copy, Clone, Debug, PartialEq, Eq)]
pub enum DecodeState {
    Init,
    Head { id: u64 },
}

/// Reads the eight-byte id before each value.
#[derive(Copy, Clone, Debug, PartialEq, Eq)]
pub struct FramedDecode<D> {
    pub inner: D,
    pub state: DecodeState,
}

impl<E> FramedEncode<E> {
    pub fn new(inner: E) -> (r: FramedEncode<E>)
        ensures
            r.inner == inner,
    {
        FramedEncode { inner }
    }
}

impl<D> FramedDecode<D> {
    pub fn new(inner: D) -> (r: FramedDecode<D>)
        ensures
            r.inner == inner,
            r.state == DecodeState::Init,
    {
        FramedDecode { inner, state: DecodeState::Init }
    }
}

/// The outcome of the inner decoder, after `n` more bytes were consumed
/// before it and with the value tagged with `id`.
pub open spec fn tagged<V>(r: Result<(nat, Option<V>), CodecError>, n: nat, id: u64) -> Result<(nat, Option<(u64, V)>), CodecError> {
    match r {
        Err(e) => Err(e),
        Ok((c, None)) => Ok((c + n, None)),
        Ok((c, Some(v))) => Ok((c + n, Some((id, v)))),
    }
}

impl<D: FrameDecoder> FrameDecoder for FramedDecode<D> {
    type Item = Frame<D::Item>;

    open spec fn spec_decode(self, src: Seq<u8>) -> (FramedDecode<D>, Result<(nat, Option<(u64, <D::Item as View>::V)>), CodecError>) {
        let (id, rest, n) = match self.state {
            DecodeState::Init => (u64_of(src.take(8)), src.skip(8), 8nat),
            DecodeState::Head { id } => (id, src, 0nat),
        };
        if self.state == DecodeState::Init && src.len() < 8 {
            (self, Ok((0, None)))
        } else {
            let (inner, r) = self.inner.spec_decode(rest);
            let state = if r matches Ok((_, None)) {
                DecodeState::Head { id }
            } else {
                DecodeState::Init
            };
            (FramedDecode { inner, state }, tagged(r, n, id))
        }
    }

    fn decode(&mut self, src: &[u8]) -> (r: Result<(usize, Option<Frame<D::Item>>), CodecError>) {
        let (id, rest, n) = match self.state {
            DecodeState::Init => {
                if src.len() < 8 {
                    return Ok((0, None));
                }
                (get_u64(src, 0), slice_subrange(src, 8, src.len()), 8usize)
            },
            DecodeState::Head { id } => (id, src, 0usize),
        };
        proof {
            assert(src@.subrange(0, 8) =~= src@.take(8));
            assert(src@.subrange(8, src@.len() as int) =~= src@.skip(8));
        }
        let m = src.len();
        let r = self.inner.decode(rest);
        match r {
            Err(e) => {
                self.state = DecodeState::Init;
                Err(e)
            },
            Ok((c, None)) => {
                self.state = DecodeState::Head { id };
                Ok((c + n, None))
            },
            Ok((c, Some(value))) => {
                self.state = DecodeState::Init;
                Ok((c + n, Some(Frame { id, value })))
            },
        }
    }
}

impl<E: FrameEncoder> FrameEncoder for FramedEncode<E> {
    type Item = Frame<E::Item>;

    open spec fn spec_encode(self, item: (u64, <E::Item as View>::V)) -> (FramedEncode<E>, Result<Seq<u8>, CodecError>) {
        let (inner, r) = self.inner.spec_encode(item.1);
        (
            FramedEncode { inner },
            match r {
                Ok(b) => Ok(u64_bytes(item.0) + b),
                Err(e) => Err(e),
            },
        )
    }

    fn encode(&mut self, item: Frame<E::Item>, dst: &mut Vec<u8>) -> (r: Result<(), CodecError>) {
        let Frame { id, value } = item;
        let mut body: Vec<u8> = Vec::new();
        let r = self.inner.encode(value, &mut body);
        match r {
            Ok(()) => {
                let ghost b = body@;
                let ghost before = dst@;
                put_u64(dst, id);
                dst.append(&mut body);
                proof {
                    assert(dst@ =~= before + (u64_bytes(id) + b));
                }
                Ok(())
            },
            Err(e) => Err(e),
        }
    }
}

// === Laws ===

/// A frame decoder before its first id.
pub open spec fn fresh_decode<D>(inner: D) -> FramedDecode<D> {
    FramedDecode { inner, state: DecodeState::Init }
}

/// A frame encoder.
pub open spec fn fresh_encode<E>(inner: E) -> FramedEncode<E> {
    FramedEncode { inner }
}

/// A frame decodes from its id's eight bytes followed by the inner bytes
/// exactly as the inner decoder decodes those bytes, tagged with the id.
pub proof fn lemma_framed_decode<D: FrameDecoder>(inner: D, id: u64, bytes: Seq<u8>)
    ensures
        fresh_decode(inner).spec_decode(u64_bytes(id) + bytes).1
            == tagged(inner.spec_decode(bytes).1, 8, id),
{
    let src = u64_bytes(id) + bytes;
    lemma_u64_round_trip(id);
    assert(src.take(8) =~= u64_bytes(id));
    assert(src.skip(8) =~= bytes);
}

/// Frames of requests: encoding then decoding gives the frame back, and a
/// decoded frame encodes back to the bytes it was read from.
pub proof fn lemma_spec_frame_round_trip(id: u64, s: crate::message::Spec, rest: Seq<u8>, src: Seq<u8>)
    requires
        s.latency.millis <= u32::MAX,
        s.response_size <= u32::MAX,
    ensures
        fresh_decode(crate::codec::SpecCodec).spec_decode(
            fresh_encode(crate::codec::SpecCodec).spec_encode((id, s)).1->Ok_0 + rest,
        ).1 == Ok::<_, CodecError>((20nat, Some((id, s)))),
        fresh_decode(crate::codec::SpecCodec).spec_decode(
            src,
        ).1 matches Ok((c, Some(x))) ==> fresh_encode(crate::codec::SpecCodec).spec_encode(
            x,
        ).1 == Ok::<_, CodecError>(src.take(c as int)),
{
    let body = crate::codec::SpecCodec.spec_encode(s).1->Ok_0;
    crate::codec::lemma_spec_encode_decode(s, rest);
    assert(u64_bytes(id) + body + rest =~= u64_bytes(id) + (body + rest));
    lemma_framed_decode(crate::codec::SpecCodec, id, body + rest);
    if let Ok((c, Some(x))) = fresh_decode(crate::codec::SpecCodec).spec_decode(src).1 {
        let tail = src.skip(8);
        crate::codec::lemma_spec_decode_encode(tail);
        crate::bytes_be::lemma_u64_bytes_of(src.take(8));
        assert(src.take(c as int) =~= src.take(8) + tail.take(c - 8));
    }
}

/// The bytes of a framed reply: its id, then its frame.
proof fn lemma_reply_frame_bytes(id: u64, p: Seq<u8>)
    requires
        p.len() <= crate::codec::MAX_FRAME_LEN,
    ensures
        fresh_encode(crate::codec::ReplyCodec).spec_encode((id, p)).1 == Ok::<_, CodecError>(
            u64_bytes(id) + crate::codec::frame_of(p),
        ),
{
}

/// A frame of a reply decodes from its bytes whole, whatever follows them.
#[verifier::spinoff_prover]
#[verifier::rlimit(60)]
pub proof fn lemma_reply_frame_encode_decode(id: u64, p: Seq<u8>, rest: Seq<u8>)
    requires
        p.len() <= crate::codec::MAX_FRAME_LEN,
    ensures
        fresh_decode(crate::codec::ReplyCodec).spec_decode(
            fresh_encode(crate::codec::ReplyCodec).spec_encode((id, p)).1->Ok_0 + rest,
        ).1 == Ok::<_, CodecError>(((12 + p.len()) as nat, Some((id, p)))),
{
    let body = crate::codec::frame_of(p);
    let tail = body + rest;
    lemma_reply_frame_bytes(id, p);
    let src = fresh_encode(crate::codec::ReplyCodec).spec_encode((id, p)).1->Ok_0 + rest;
    assert(src =~= u64_bytes(id) + tail);
    let inner = crate::codec::ReplyCodec.spec_decode(tail).1;
    assert(inner == Ok::<_, CodecError>(((4 + p.len()) as nat, Some(p)))) by {
        crate::codec::lemma_frame_round_trip(p, rest);
    }
    lemma_framed_decode(crate::codec::ReplyCodec, id, tail);
    assert(tagged(inner, 8, id) == Ok::<_, CodecError>(((12 + p.len()) as nat, Some((id, p)))));
}

/// A decoded frame of a reply encodes back to the bytes it was read from.
pub proof fn lemma_reply_frame_decode_encode(src: Seq<u8>)
    ensures
        fresh_decode(crate::codec::ReplyCodec).spec_decode(src).1 matches Ok((c, Some(x)))
            ==> fresh_encode(crate::codec::ReplyCodec).spec_encode(x).1 == Ok::<_, CodecError>(
            src.take(c as int),
        ),
{
    if src.len() >= 8 {
        let tail = src.skip(8);
        if let Ok((c, Some(x))) = crate::codec::ReplyCodec.spec_decode(tail).1 {
            crate::codec::lemma_reply_round_trip(Seq::empty(), Seq::empty(), tail);
            crate::bytes_be::lemma_u64_bytes_of(src.take(8));
            assert(src.take(c + 8int) =~= src.take(8) + tail.take(c as int));
        }
    }
}

// === Client driver ===

/// Why a connection ends in error.
#[derive(Copy, Clone, Debug, PartialEq, Eq, Structural)]
pub enum MuxError {
    /// A reply came for an id that is not in flight.
    UnknownResponse,
    /// The peer closed the connection with requests in flight.
    ConnectionReset,
    /// A request id was not greater than the one before it.
    RequestIdTooLow,
}

/// What issuing the next id from `next` gives: the next `next`, and the id,
/// unless the ids are exhausted (`u64::MAX` is never issued).
pub open spec fn spec_dispatch(next: u64) -> (u64, Option<u64>) {
    if next < u64::MAX {
        ((next + 1) as u64, Some(next))
    } else {
        (next, None)
    }
}

/// The client side of one connection: the next request id and the waiters
/// of the requests in flight, by id.
pub struct MuxClient<W> {
    next_id: u64,
    in_flight: HashMap<u64, W>,
}

impl<W> MuxClient<W> {
    /// Ids start at 1 and every id in flight was issued before the next one.
    pub closed spec fn wf(self) -> bool {
        &&& 1 <= self.next_id
        &&& forall|id: u64| #[trigger] self.in_flight@.contains_key(id) ==> 1 <= id < self.next_id
    }

    /// The id that the next request gets.
    pub closed spec fn spec_next_id(self) -> u64 {
        self.next_id
    }

    /// The waiters of the requests in flight, by id.
    pub closed spec fn spec_in_flight(self) -> Map<u64, W> {
        self.in_flight@
    }

    /// A connection with nothing in flight; ids start at 1.
    pub fn new() -> (r: MuxClient<W>)
        ensures
            r.wf(),
            r.spec_next_id() == 1,
            r.spec_in_flight() == Map::<u64, W>::empty(),
    {
        broadcast use vstd::std_specs::hash::group_hash_axioms;

        let r = MuxClient { next_id: 1, in_flight: HashMap::new() };
        proof {
            assert(r.in_flight@ == Map::<u64, W>::empty());
        }
        r
    }

    /// Whether every id has been issued, so that the connection must close.
    pub fn is_exhausted(&self) -> (r: bool)
        ensures
            r == (self.spec_next_id() == u64::MAX),
    {
        self.next_id == u64::MAX
    }

    /// Issues the next id to a request and keeps its waiter until the reply
    /// comes; `None` once the ids are exhausted.
    pub fn dispatch(&mut self, waiter: W) -> (r: Option<u64>)
        requires
            old(self).wf(),
        ensures
            final(self).wf(),
            (final(self).spec_next_id(), r) == spec_dispatch(old(self).spec_next_id()),
            r is Some ==> !old(self).spec_in_flight().contains_key(r->Some_0)
                && final(self).spec_in_flight() == old(self).spec_in_flight().insert(r->Some_0, waiter),
            r is None ==> final(self).spec_in_flight() == old(self).spec_in_flight(),
    {
        broadcast use vstd::std_specs::hash::group_hash_axioms;

        if self.next_id == u64::MAX {
            return None;
        }
        let id = self.next_id;
        self.next_id = id + 1;
        self.in_flight.insert(id, waiter);
        Some(id)
    }

    /// Takes the waiter of a reply's request; `None` when no request with
    /// that id is in flight, which is a protocol error.
    pub fn complete(&mut self, id: u64) -> (r: Option<W>)
        requires
            old(self).wf(),
        ensures
            final(self).wf(),
            final(self).spec_next_id() == old(self).spec_next_id(),
            final(self).spec_in_flight() == old(self).spec_in_flight().remove(id),
            old(self).spec_in_flight().contains_key(id) ==> r == Some(old(self).spec_in_flight()[id]),
            !old(self).spec_in_flight().contains_key(id) ==> r is None,
    {
        broadcast use vstd::std_specs::hash::group_hash_axioms;

        self.in_flight.remove(&id)
    }

    /// The number of requests in flight.
    pub fn in_flight_len(&self) -> (r: usize)
        ensures
            r == self.spec_in_flight().len(),
    {
        broadcast use vstd::std_specs::hash::group_hash_axioms;

        self.in_flight.len()
    }

    /// What the end of the reply stream means: a clean close when nothing
    /// is in flight, else a reset connection.
    pub fn on_closed(&self) -> (r: Result<(), MuxError>)
        ensures
            r is Ok <==> self.spec_in_flight().len() == 0,
            r is Err ==> r == Err::<(), _>(MuxError::ConnectionReset),
    {
        broadcast use vstd::std_specs::hash::group_hash_axioms;

        if self.in_flight.len() == 0 {
            Ok(())
        } else {
            Err(MuxError::ConnectionReset)
        }
    }
}

/// The ids that one client issues strictly increase: whatever a client
/// does after issuing an id (its next id never decreases), any id it issues
/// later is greater.
pub proof fn lemma_ids_strictly_increase(first: u64, later: u64)
    requires
        spec_dispatch(first).1 is Some,
        later >= spec_dispatch(first).0,
    ensures
        spec_dispatch(later).1 is Some ==> spec_dispatch(later).1->Some_0 > spec_dispatch(first).1->Some_0,
{
}

// === Server driver ===

/// The server side of one connection: request ids must strictly increase.
pub struct MuxServer {
    last_id: u64,
}

impl MuxServer {
    /// The greatest request id accepted so far, or zero.
    pub closed spec fn spec_last_id(self) -> u64 {
        self.last_id
    }

    pub fn new() -> (r: MuxServer)
        ensures
            r.spec_last_id() == 0,
    {
        MuxServer { last_id: 0 }
    }

    /// Accepts a request id greater than every one before it; a lower or
    /// repeated id is refused and the connection must close.
    pub fn accept(&mut self, id: u64) -> (r: Result<(), MuxError>)
        ensures
            r is Ok <==> id > old(self).spec_last_id(),
            r is Ok ==> final(self).spec_last_id() == id,
            r is Err ==> r == Err::<(), _>(MuxError::RequestIdTooLow) && final(self).spec_last_id()
                == old(self).spec_last_id(),
    {
        if id <= self.last_id {
            return Err(MuxError::RequestIdTooLow);
        }
        self.last_id = id;
        Ok(())
    }
}

/// Whether a server connection still reads requests, and how many of its
/// requests await their replies. Once it stops reading (on a drain signal
/// or at the end of the request stream) it takes no new request, and it is
/// done when nothing is in flight.
#[derive(Copy, Clone, Debug, PartialEq, Eq, Structural)]
pub struct ServerDrain {
    pub reading: bool,
    pub in_flight: usize,
}

impl ServerDrain {
    pub fn new() -> (r: ServerDrain)
        ensures
            r.reading && r.in_flight == 0,
    {
        ServerDrain { reading: true, in_flight: 0 }
    }

    /// Takes a request that was read: only while reading, and while the
    /// count of requests in flight can grow.
    pub fn on_request(&mut self) -> (r: bool)
        ensures
            r == (old(self).reading && old(self).in_flight < usize::MAX),
            final(self).reading == old(self).reading,
            r ==> final(self).in_flight == old(self).in_flight + 1,
            !r ==> final(self).in_flight == old(self).in_flight,
    {
        if self.reading && self.in_flight < usize::MAX {
            self.in_flight = self.in_flight + 1;
            true
        } else {
            false
        }
    }

    /// A request got its reply (or failed).
    pub fn on_reply(&mut self)
        ensures
            final(self).reading == old(self).reading,
            final(self).in_flight == (if old(self).in_flight > 0 {
                old(self).in_flight - 1
            } else {
                0
            }),
    {
        if self.in_flight > 0 {
            self.in_flight = self.in_flight - 1;
        }
    }

    /// Stops reading requests: on a drain signal, or when the client closes
    /// its side.
    pub fn stop_reading(&mut self)
        ensures
            !final(self).reading,
            final(self).in_flight == old(self).in_flight,
    {
        self.reading = false;
    }

    /// Whether the connection may finish: no longer reading, nothing in
    /// flight.
    pub fn is_done(&self) -> (r: bool)
        ensures
            r == (!self.reading && self.in_flight == 0),
    {
        !self.reading && self.in_flight == 0
    }
}

} // verus!
