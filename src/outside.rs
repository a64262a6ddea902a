use vstd::prelude::*;

verus! {

/// Relies on `uuid::Uuid::new_v4` and the `urn` formatter: a random
/// version-4 UUID written as `urn:uuid:` and 36 hyphenated hex digits.
#[verifier::external_body]
pub(crate) fn new_token() -> (r: String)
    ensures
        r@.len() == 45,
{
    uuid::Uuid::new_v4().urn().to_string()
}

/// Relies on `std::time::SystemTime::now`: whole seconds since the Unix
/// epoch, or 0 for a clock set before it.
#[verifier::external_body]
pub(crate) fn now_secs() -> (r: u64) {
    match std::time::SystemTime::now().duration_since(std::time::UNIX_EPOCH) {
        Ok(d) => d.as_secs(),
        Err(_) => 0,
    }
}

} // verus!
