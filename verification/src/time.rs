use vstd::prelude::*;

verus! {

/// A date and time without zone, as the database stores it. The service only
/// carries such values from a row to a result.
#[verifier::external_type_specification]
#[verifier::external_body]
pub struct ExNaiveDateTime(chrono::NaiveDateTime);

} // verus!
