//! The replacement for Chromaprint's `fpcalc` tool: a cached fingerprint is handed out
//! where it is current.

use vstd::prelude::*;

use crate::database::FileFingerprint;
use crate::matcher::find_cached;

verus! {

/// The position of the fingerprint to hand out: the cached one of `file`, where the cache
/// is current. Otherwise it has to be computed.
pub fn cached_fingerprint(current: bool, file: &str, cached: &Vec<FileFingerprint>) -> (r: Option<
    usize,
>)
    ensures
        r is Some <==> current && exists|i: int|
            0 <= i < cached@.len() && crate::path::same_path((#[trigger] cached@[i]).path@, file@),
        r matches Some(i) ==> i < cached@.len() && crate::path::same_path(
            cached@[i as int].path@,
            file@,
        ) && forall|k: int|
            0 <= k < i ==> !crate::path::same_path((#[trigger] cached@[k]).path@, file@),
{
    if current {
        find_cached(file, cached)
    } else {
        None
    }
}

} // verus!
