use vstd::arithmetic::power::pow;
use vstd::prelude::*;

verus! {

/// The error that `uuid` reports for text that does not denote an identifier.
#[verifier::external_type_specification]
#[verifier::external_body]
pub struct ExUuidError(uuid::Error);

/// The identifier that `text` denotes under `uuid::Uuid::parse_str`, if any.
pub uninterp spec fn uuid_from_text(text: Seq<char>) -> Option<u128>;

/// A lower-case hexadecimal digit.
pub open spec fn hex_digit(d: int) -> char {
    if d < 10 {
        (d + 48) as char
    } else {
        (d + 87) as char
    }
}

/// The `k`-th of the 32 hexadecimal digits of `v`, most significant first.
pub open spec fn uuid_nibble(v: u128, k: int) -> int {
    (v as int / pow(16, (31 - k) as nat)) % 16
}

/// The 32 lower-case hexadecimal digits of `v`.
pub open spec fn uuid_simple(v: u128) -> Seq<char> {
    Seq::new(32, |k: int| hex_digit(uuid_nibble(v, k)))
}

/// The hyphenated text of an identifier: `xxxxxxxx-xxxx-xxxx-xxxx-xxxxxxxxxxxx`.
pub open spec fn uuid_hyphenated(v: u128) -> Seq<char> {
    let h = uuid_simple(v);
    h.subrange(0, 8) + seq!['-'] + h.subrange(8, 12) + seq!['-'] + h.subrange(12, 16) + seq!['-']
        + h.subrange(16, 20) + seq!['-'] + h.subrange(20, 32)
}

/// Calls `uuid::Uuid::parse_str` and gives the identifier as its 128-bit value
/// (`Uuid::as_u128`). Trusted: the result is `Ok` exactly when `uuid_from_text`
/// names a value, and then it is that value; the hyphenated text of any value is
/// parsed back to that value. The accepted grammar (simple, hyphenated, braced,
/// URN forms) is left to `uuid_from_text`.
#[verifier::external_body]
pub(crate) fn parse_uuid(text: &str) -> (res: Result<u128, uuid::Error>)
    ensures
        res is Ok <==> uuid_from_text(text@) is Some,
        res matches Ok(v) ==> uuid_from_text(text@) == Some(v),
        res is Err ==> forall|v: u128| #[trigger] uuid_hyphenated(v) != text@,
        res matches Ok(w) ==> forall|v: u128| #[trigger] uuid_hyphenated(v) == text@ ==> w == v,
{
    match uuid::Uuid::parse_str(text) {
        Ok(id) => Ok(id.as_u128()),
        Err(e) => Err(e),
    }
}

/// Calls `uuid::Uuid::from_u128` and then `to_string`. Trusted: the text is the
/// hyphenated lower-case form of the identifier.
#[verifier::external_body]
pub(crate) fn uuid_text(id: u128) -> (res: String)
    ensures
        res@ == uuid_hyphenated(id),
{
    uuid::Uuid::from_u128(id).to_string()
}

} // verus!
