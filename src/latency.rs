//! Durations in milliseconds, and their text form.

use crate::text::{duration_text, parse_duration_millis};
use vstd::prelude::*;
use vstd::string::StringSliceAdditionalSpecFns;

verus! {

/// A duration in whole milliseconds.
#[derive(Copy, Clone, Debug, Default, PartialEq, Eq, Structural)]
pub struct Latency {
    pub millis: u64,
}

/// The text is not a duration.
#[derive(Copy, Clone, Debug, PartialEq, Eq, Structural)]
pub struct InvalidDuration;

impl Latency {
    pub fn from_millis(millis: u64) -> (r: Latency)
        ensures
            r.millis == millis,
    {
        Latency { millis }
    }

    /// Parses `Nms`, `Ns` or `0`, with white space around; see
    /// `duration_text`.
    pub fn parse(s: &str) -> (r: Result<Latency, InvalidDuration>)
        ensures
            duration_text(s.spec_bytes()) is None ==> r == Err::<Latency, _>(InvalidDuration),
            duration_text(s.spec_bytes()) matches Some(ms) ==> r == Ok::<_, InvalidDuration>(
                Latency { millis: ms },
            ),
    {
        parse_duration(s)
    }
}

/// Parses a human duration: `Nms`, `Ns`, or `0` without a unit, with white
/// space around; see `duration_text`.
pub fn parse_duration(s: &str) -> (r: Result<Latency, InvalidDuration>)
    ensures
        duration_text(s.spec_bytes()) is None ==> r == Err::<Latency, _>(InvalidDuration),
        duration_text(s.spec_bytes()) matches Some(ms) ==> r == Ok::<_, InvalidDuration>(
            Latency { millis: ms },
        ),
{
    let b = s.as_bytes();
    proof {
        assert(b@.subrange(0, b@.len() as int) =~= b@);
    }
    match parse_duration_millis(b, 0, b.len()) {
        Some(millis) => Ok(Latency { millis }),
        None => Err(InvalidDuration),
    }
}

} // verus!
