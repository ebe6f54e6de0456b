//! Truncation of an ordered entry sequence to a configured maximum count.

use vstd::prelude::*;

verus! {

/// Keep only the first `limit` entries of an ordered sequence.
///
/// A limit of zero means unlimited, so the sequence is left unchanged,
/// as it also is whenever the limit reaches the current length. The
/// order of the surviving entries is never disturbed.
pub fn limit_entries(entries: &mut Vec<(String, u64)>, limit: usize)
    ensures
        limit == 0 || limit >= old(entries)@.len() ==> final(entries)@ == old(entries)@,
        0 < limit < old(entries)@.len() ==> final(entries)@ == old(entries)@.take(
            limit as int,
        ),
{
    if limit > 0 && limit < entries.len() {
        entries.truncate(limit);
        assert(entries@ =~= old(entries)@.take(limit as int));
    }
}

} // verus!
