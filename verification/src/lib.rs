//! A generation-coalescing cache core with streaming envelope extraction.
//!
//! The library holds the verified logic of a server that generates artifacts
//! on demand and caches them forever: resolving request paths into cache
//! keys, coalescing concurrent generations per key, extracting the payload
//! between a designated marker pair from a chunk-fragmented text stream, and
//! shaping the request sent to the generation backend.

use vstd::prelude::*;

pub mod ai;
pub mod assets;
pub mod coordinator;
pub mod listing;
pub mod resolver;
pub mod streaming_parser;

verus! {

/// Relies on `String::push` of std: appends the character to the string.
#[verifier::external_body]
pub(crate) fn push_char(s: &mut String, c: char)
    ensures
        final(s)@ == old(s)@.push(c),
{
    s.push(c)
}

} // verus!
