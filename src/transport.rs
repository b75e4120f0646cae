//! Targets and transports: the three schemes a load client speaks, and the
//! settings of the TCP transport.

use crate::text::bytes_equal;
use vstd::prelude::*;
use vstd::string::StringSliceAdditionalSpecFns;

verus! {

/// One of the three transports, each with its own target or client.
#[derive(Clone, Debug, PartialEq, Eq)]
pub enum Flavor<H, G, T> {
    Http(H),
    Grpc(G),
    Tcp(T),
}

/// The schemes of target URIs.
pub open spec fn http_scheme() -> Seq<u8> {
    seq![104u8, 116, 116, 112]
}

pub open spec fn grpc_scheme() -> Seq<u8> {
    seq![103u8, 114, 112, 99]
}

pub open spec fn tcp_scheme() -> Seq<u8> {
    seq![116u8, 99, 112]
}

/// The transport of a scheme and its default port: `http` on 8080, `grpc`
/// on 8070, `tcp` on 8090.
pub open spec fn spec_scheme(s: Seq<u8>) -> Option<(Flavor<(), (), ()>, u16)> {
    if s == http_scheme() {
        Some((Flavor::Http(()), 8080u16))
    } else if s == grpc_scheme() {
        Some((Flavor::Grpc(()), 8070u16))
    } else if s == tcp_scheme() {
        Some((Flavor::Tcp(()), 8090u16))
    } else {
        None
    }
}

/// The transport that a target URI's scheme selects, with the port to use
/// when the URI has none; `None` for any other scheme.
pub fn scheme_flavor(scheme: &str) -> (r: Option<(Flavor<(), (), ()>, u16)>)
    ensures
        r == spec_scheme(scheme.spec_bytes()),
{
    let s = scheme.as_bytes();
    let http: [u8; 4] = [104u8, 116, 116, 112];
    let grpc: [u8; 4] = [103u8, 114, 112, 99];
    let tcp: [u8; 3] = [116u8, 99, 112];
    proof {
        assert(http@ =~= http_scheme());
        assert(grpc@ =~= grpc_scheme());
        assert(tcp@ =~= tcp_scheme());
    }
    if bytes_equal(s, http.as_slice()) {
        Some((Flavor::Http(()), 8080))
    } else if bytes_equal(s, grpc.as_slice()) {
        Some((Flavor::Grpc(()), 8070))
    } else if bytes_equal(s, tcp.as_slice()) {
        Some((Flavor::Tcp(()), 8090))
    } else {
        None
    }
}

/// The number of requests that may wait for a TCP connection's driver
/// unless configured otherwise.
pub const DEFAULT_BUFFER_CAPACITY: usize = 100_000;

/// Makes muxed TCP connections.
#[derive(Copy, Clone, Debug, PartialEq, Eq, Structural)]
pub struct MakeTcp {
    buffer_capacity: usize,
}

impl MakeTcp {
    pub closed spec fn spec_buffer_capacity(self) -> usize {
        self.buffer_capacity
    }

    pub fn new(buffer_capacity: usize) -> (r: MakeTcp)
        ensures
            r.spec_buffer_capacity() == buffer_capacity,
    {
        MakeTcp { buffer_capacity }
    }

    /// The bound of the queue of requests to a connection's driver.
    pub fn buffer_capacity(&self) -> (r: usize)
        ensures
            r == self.spec_buffer_capacity(),
    {
        self.buffer_capacity
    }
}

} // verus!
