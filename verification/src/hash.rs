//! The hash that stands for a name in the binary files.

use vstd::prelude::*;

verus! {

/// A 64-bit number that stands for a name. The files hold only such numbers,
/// never the names themselves.
pub type Hash40 = u64;

/// The 40-bit hash of a label, as the `hash40` crate computes it: the CRC-32
/// of the label's bytes, ASCII letters taken in lower case, and above it the
/// low eight bits of the number of those bytes. It is a function of the
/// label alone; nothing else about it is stated here.
pub uninterp spec fn hash40_of(label: Seq<char>) -> u64;

/// The hash of `label`. This calls `hash40::hash40`, taken on trust: it
/// returns for every string, and its result depends on the characters of the
/// string and on nothing else.
#[verifier::external_body]
pub(crate) fn hash40(label: &str) -> (hash: u64)
    ensures
        hash == hash40_of(label@),
{
    ::hash40::hash40(label).0
}

} // verus!
