//! Projects probable final standings of a partially-completed round-robin
//! tournament: every possible outcome of the unplayed matches is enumerated,
//! each outcome's snapshot is ranked, and per-player placement histograms
//! are accumulated over the whole outcome space.

pub mod engine;
pub mod matches;
pub mod order;
pub mod player;
pub mod ranking;
pub mod report;

use vstd::prelude::*;

verus! {

/// Strip the first `prefix_length` characters from `s`; if `s` is shorter
/// than the prefix, it is returned unchanged.
pub fn strip_prefix(s: String, prefix_length: usize) -> (r: String)
    ensures
        s@.len() >= prefix_length ==> r@ == s@.subrange(prefix_length as int, s@.len() as int),
        s@.len() < prefix_length ==> r@ == s@,
{
    let n = s.as_str().unicode_len();
    if n >= prefix_length {
        let tail = s.as_str().substring_char(prefix_length, n);
        String::from_str(tail)
    } else {
        s
    }
}

} // verus!
