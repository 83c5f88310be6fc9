//! Case folding of storage keys.
//!
//! A token is stored under its lower-cased form, so that two documents using
//! different casing of the same word feed the same posting entry. The token
//! text itself is never modified; only the storage key is folded.

use vstd::prelude::*;

verus! {

/// The lower-cased form of a character sequence, as `str::to_lowercase`
/// computes it.
pub uninterp spec fn lower_of(s: Seq<char>) -> Seq<char>;

/// Relies on `str::to_lowercase`: the result depends on the characters of the
/// input alone.
#[verifier::external_body]
pub(crate) fn fold_key(key: &str) -> (r: String)
    ensures
        r@ == lower_of(key@),
{
    key.to_lowercase()
}

} // verus!
