use vstd::prelude::*;
use sha1::{Digest, Sha1};

verus! {

/// The lowercase-hex SHA-1 digest of a byte sequence, as 40 characters. The
/// digest is a pure function of the bytes.
pub uninterp spec fn sha1_hex_of(data: Seq<u8>) -> Seq<char>;

/// Relies on the sha1 crate's `Sha1` through the `Digest` interface: the
/// digest is deterministic in the input bytes, and the `{:x}` rendering of
/// its 20 bytes is 40 lowercase hex characters.
#[verifier::external_body]
pub(crate) fn sha1_hex(data: &[u8]) -> (r: String)
    ensures
        r@ == sha1_hex_of(data@),
        r@.len() == 40,
{
    let mut hasher = Sha1::new();
    hasher.update(data);
    format!("{:x}", hasher.finalize())
}

} // verus!
