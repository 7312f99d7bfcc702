//! Fresh identifiers for the client's generate request.
use vstd::prelude::*;

verus! {

/// Relies on uuid's `Uuid::new_v4` and its `Display`: a random version 4
/// identifier, written as 36 characters in the hyphenated form, with the
/// hyphens at positions 8, 13, 18 and 23.
#[verifier::external_body]
fn random_uuid() -> (r: String)
    ensures
        r@.len() == 36,
        r@[8] == '-',
        r@[13] == '-',
        r@[18] == '-',
        r@[23] == '-',
{
    uuid::Uuid::new_v4().to_string()
}

/// A fresh identifier, unique across the cluster with overwhelming
/// probability: 36 characters, in the hyphenated form of a random UUID.
pub fn generate_id() -> (r: String)
    ensures
        r@.len() == 36,
        r@[8] == '-',
        r@[13] == '-',
        r@[18] == '-',
        r@[23] == '-',
{
    random_uuid()
}

} // verus!
