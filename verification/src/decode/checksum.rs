//! Asset digests.

use blake2::Digest;
use vstd::prelude::*;
use vstd::string::StringExecFns;

verus! {

/// The digest of one asset's bytes.
pub type Checksum = [u8; 64];

/// The BLAKE2b-512 digest of `data`, as the `blake2` crate computes it.
pub uninterp spec fn blake2b512(data: Seq<u8>) -> Seq<u8>;

/// Calls `blake2::Blake2b512::digest`. Trusted: the result is the digest of
/// `data`, a function of the bytes of `data` alone.
#[verifier::external_body]
pub fn compute_checksum(data: &[u8]) -> (sum: Checksum)
    ensures
        sum@ == blake2b512(data@),
{
    blake2::Blake2b512::digest(data).into()
}

/// A digest that is not the expected one.
#[derive(Debug, Clone, Copy)]
pub struct Mismatch {
    pub expected: Checksum,
    pub actual: Checksum,
}

/// The sixteen hexadecimal digits, letters in lower case.
pub open spec fn hex_digit(value: int) -> char
    recommends
        0 <= value < 16,
{
    seq!['0', '1', '2', '3', '4', '5', '6', '7', '8', '9', 'a', 'b', 'c', 'd', 'e', 'f'][value]
}

/// Two hexadecimal digits for each byte, the high one first.
pub open spec fn hex_text(bytes: Seq<u8>) -> Seq<char> {
    Seq::new(
        2 * bytes.len(),
        |i: int|
            if i % 2 == 0 {
                hex_digit(bytes[i / 2] as int / 16)
            } else {
                hex_digit(bytes[i / 2] as int % 16)
            },
    )
}

/// What `Mismatch::message` says of two digests.
pub open spec fn mismatch_text(expected: Seq<u8>, actual: Seq<u8>) -> Seq<char> {
    "Checksum mismatch: expected "@ + hex_text(expected) + ", got "@ + hex_text(actual)
}

/// Formats `hexhex::Hex::new(bytes)`. Trusted: with its default options that
/// type's `Display` writes two lower-case hexadecimal digits per byte and no
/// prefix.
#[verifier::external_body]
fn hex_string(bytes: &[u8]) -> (text: String)
    ensures
        text@ == hex_text(bytes@),
{
    format!("{}", hexhex::Hex::new(bytes))
}

impl Mismatch {
    /// Names both digests in hexadecimal.
    pub fn message(&self) -> (text: String)
        ensures
            text@ == mismatch_text(self.expected@, self.actual@),
    {
        let mut text = String::from_str("Checksum mismatch: expected ");
        text.append(hex_string(self.expected.as_slice()).as_str());
        text.append(", got ");
        text.append(hex_string(self.actual.as_slice()).as_str());
        text
    }
}

/// Holds a computed digest against the expected one.
pub fn match_checksum(actual: Checksum, expected: &Checksum) -> (r: Result<(), Mismatch>)
    ensures
        r is Ok <==> actual@ == expected@,
        r matches Err(mismatch) ==> mismatch.expected == *expected && mismatch.actual == actual,
{
    let mut i: usize = 0;
    while i < 64
        invariant
            i <= 64,
            forall|j: int| 0 <= j < i ==> actual@[j] == expected@[j],
        decreases 64 - i,
    {
        if actual[i] != expected[i] {
            return Err(Mismatch { expected: *expected, actual });
        }
        i += 1;
    }
    assert(actual@ =~= expected@);
    Ok(())
}

/// Computes the digest of `data` and holds it against `expected`.
pub fn check(data: &[u8], expected: &Checksum) -> (r: Result<(), Mismatch>)
    ensures
        r is Ok <==> blake2b512(data@) == expected@,
        r matches Err(mismatch) ==> mismatch.expected == *expected && mismatch.actual@
            == blake2b512(data@),
{
    match_checksum(compute_checksum(data), expected)
}

} // verus!
