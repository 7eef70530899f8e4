//! Fresh random identifiers.

use vstd::prelude::*;

verus! {

/// A fresh random id: a version-4 UUID from the `uuid` crate, in its
/// hyphenated form, which is 36 characters long. Which id comes out is left
/// to chance.
#[verifier::external_body]
pub(crate) fn new_uuid() -> (r: String)
    ensures
        r@.len() == 36,
{
    uuid::Uuid::new_v4().to_string()
}

} // verus!
