// Sorting through std.
use vstd::prelude::*;

verus! {

/// Relies on std's `slice::sort`: the items in ascending order.
#[verifier::external_body]
pub(crate) fn sort_ascending(v: &mut Vec<u64>)
    ensures
        final(v)@.len() == old(v)@.len(),
        final(v)@.map_values(|x: u64| x as int) == old(v)@.map_values(|x: u64| x as int).sort(),
{
    v.sort();
}

} // verus!
