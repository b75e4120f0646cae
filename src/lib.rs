//! A load-generation harness: percentile distributions for shaping requests,
//! the framed TCP protocol, and the decisions of the request driver and of
//! the client middleware.

pub mod bytes_be;
pub mod codec;
pub mod distribution;
pub mod http;
pub mod latency;
pub mod limits;
pub mod message;
pub mod middleware;
pub mod muxer;
pub mod preface;
pub mod runner;
pub mod text;
pub mod transport;
