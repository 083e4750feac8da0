//! The log of the best circuits that a search has found.

use vstd::prelude::*;

verus! {

/// An entry of the log: the size of a circuit, and when it was found.
pub struct BestCircSer {
    pub circ_len: usize,
    pub time: String,
}

impl BestCircSer {
    /// An entry for a circuit that was found just now.
    pub fn new(circ_len: usize) -> (entry: Self)
        ensures
            entry.circ_len == circ_len,
            entry.time@.len() > 0,
            entry.time@.contains('T'),
    {
        Self::at(circ_len, now())
    }

    /// An entry for a circuit that was found at the given time.
    pub fn at(circ_len: usize, time: String) -> (entry: Self)
        ensures
            entry.circ_len == circ_len,
            entry.time == time,
    {
        BestCircSer { circ_len, time }
    }
}

/// Calls `chrono::Local::now` and `chrono::DateTime::to_rfc3339`, which gives a
/// date and a time with `T` between them. Which ones depends on the time and on the time zone of
/// the machine, and is left open.
#[verifier::external_body]
fn now() -> (time: String)
    ensures
        time@.len() > 0,
        time@.contains('T'),
{
    chrono::Local::now().to_rfc3339()
}

} // verus!
