//! Content digests: the SHA-256 value that names a stored asset, and its text form.

use sha2::Digest;
use vstd::prelude::*;

verus! {

/// A SHA-256 digest of a file's content.
#[derive(Debug, Clone, Copy)]
pub struct HashDigest(pub [u8; 32]);

impl View for HashDigest {
    type V = Seq<u8>;

    open spec fn view(&self) -> Seq<u8> {
        self.0@
    }
}

impl PartialEq for HashDigest {
    fn eq(&self, other: &Self) -> (res: bool) {
        self.same_as(other)
    }
}

impl Eq for HashDigest {}

impl vstd::std_specs::cmp::PartialEqSpecImpl for HashDigest {
    open spec fn obeys_eq_spec() -> bool {
        true
    }

    open spec fn eq_spec(&self, other: &Self) -> bool {
        self@ == other@
    }
}

/// The digit of a nibble in lower-case hexadecimal.
pub open spec fn hex_digit(n: int) -> char {
    if n < 10 {
        (48 + n) as char
    } else {
        (87 + n) as char
    }
}

/// Lower-case hexadecimal text of a byte sequence, two digits per byte, high nibble first.
pub open spec fn hex_lower(bytes: Seq<u8>) -> Seq<char>
    decreases bytes.len(),
{
    if bytes.len() == 0 {
        Seq::empty()
    } else {
        seq![hex_digit(bytes[0] as int / 16), hex_digit(bytes[0] as int % 16)] + hex_lower(bytes.drop_first())
    }
}

/// The SHA-256 digest of a byte sequence (FIPS 180-4).
pub uninterp spec fn sha256(data: Seq<u8>) -> Seq<u8>;

/// Calls `sha2::Sha256::digest`; the contract claims that the digest is the
/// SHA-256 value of exactly the bytes given.
#[verifier::external_body]
pub(crate) fn sha256_digest(data: &[u8]) -> (digest: HashDigest)
    ensures
        digest@ == sha256(data@),
{
    let out: [u8; 32] = sha2::Sha256::digest(data).into();
    HashDigest(out)
}

/// Calls `hex::encode`; the contract claims that it writes each byte as two
/// lower-case hexadecimal digits, high nibble first, and nothing else.
#[verifier::external_body]
fn hex_encode(bytes: &[u8; 32]) -> (text: String)
    ensures
        text@ == hex_lower(bytes@),
{
    hex::encode(bytes)
}

impl HashDigest {
    /// Compares two digests byte by byte.
    pub fn same_as(&self, other: &Self) -> (res: bool)
        ensures
            res == (self@ == other@),
    {
        let mut i: usize = 0;
        while i < 32
            invariant
                i <= 32,
                forall|j: int| 0 <= j < i ==> self@[j] == other@[j],
            decreases 32 - i,
        {
            if self.0[i] != other.0[i] {
                assert(self@[i as int] != other@[i as int]);
                return false;
            }
            i = i + 1;
        }
        assert(self@ =~= other@);
        true
    }

    /// The digest as lower-case hexadecimal text.
    pub fn hex(&self) -> (text: String)
        ensures
            text@ == hex_lower(self@),
    {
        hex_encode(&self.0)
    }
}

} // verus!
