//! The request and the reply of one call, whatever the transport.

use crate::latency::Latency;
use vstd::prelude::*;

verus! {

/// A request: the latency and the size of the reply that a server is asked
/// for.
#[derive(Copy, Clone, Debug, Default, PartialEq, Eq, Structural)]
pub struct Spec {
    pub latency: Latency,
    pub response_size: usize,
}

/// A reply: an opaque payload.
#[derive(Clone, Debug, Default, PartialEq, Eq)]
pub struct Reply {
    pub data: Vec<u8>,
}

impl View for Spec {
    type V = Spec;

    open spec fn view(&self) -> Spec {
        *self
    }
}

impl View for Reply {
    type V = Seq<u8>;

    open spec fn view(&self) -> Seq<u8> {
        self.data@
    }
}

} // verus!
