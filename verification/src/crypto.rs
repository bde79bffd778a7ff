use vstd::prelude::*;
use vstd::string::StrSliceExecFns;
use vstd::utf8::encode_utf8;

use sha2::{Digest, Sha256};

verus! {

/// The SHA-256 digest of a byte string.
pub uninterp spec fn sha256_of(bytes: Seq<u8>) -> Seq<u8>;

/// Relies on sha2's `Sha256::digest`: the digest is a pure function of the
/// input bytes and is exactly 32 bytes long.
#[verifier::external_body]
fn sha256(bytes: &Vec<u8>) -> (r: Vec<u8>)
    ensures
        r@ == sha256_of(bytes@),
        r@.len() == 32,
{
    Sha256::digest(bytes.as_slice()).to_vec()
}

/// What the curve-signature primitive answers for a digest, a compact
/// signature and a compressed public key: `None` when it rejects the encoding
/// of one of the three, otherwise `Some` of its verdict.
pub uninterp spec fn secp256k1_check(
    digest: Seq<u8>,
    signature: Seq<u8>,
    pubkey: Seq<u8>,
) -> Option<bool>;

/// Relies on `cosmwasm_crypto::secp256k1_verify`: a pure function of its three
/// byte-string arguments that returns `Err` when the hash, signature or public
/// key is malformed and otherwise `Ok` with the verification verdict.
#[verifier::external_body]
pub(crate) fn verify_signature(digest: &Vec<u8>, signature: &Vec<u8>, pubkey: &Vec<u8>) -> (r:
    Result<bool, crate::error::ContractError>)
    ensures
        r matches Ok(b) ==> secp256k1_check(digest@, signature@, pubkey@) == Some(b),
        r matches Err(e) ==> secp256k1_check(digest@, signature@, pubkey@) is None && e
            == crate::error::ContractError::MalformedSignature,
{
    match cosmwasm_crypto::secp256k1_verify(
        digest.as_slice(),
        signature.as_slice(),
        pubkey.as_slice(),
    ) {
        Ok(b) => Ok(b),
        Err(_) => Err(crate::error::ContractError::MalformedSignature),
    }
}

/// The digest that validators sign for a privileged message: SHA-256 over the
/// payload bytes followed immediately by the message id bytes. There is no
/// delimiter or length prefix between the two fields; this is a known
/// weakness of the scheme, preserved deliberately.
pub open spec fn signed_digest(message_id: Seq<char>, raw_json: Seq<char>) -> Seq<u8> {
    sha256_of(encode_utf8(raw_json) + encode_utf8(message_id))
}

/// Concatenate `raw_json` with `message_id`, used as a nonce, and hash them
/// for signing.
pub fn hash(message_id: &str, raw_json: &str) -> (r: Vec<u8>)
    ensures
        r@ == signed_digest(message_id@, raw_json@),
        r@.len() == 32,
{
    let mut bytes = raw_json.as_bytes_vec();
    let mut id_bytes = message_id.as_bytes_vec();
    bytes.append(&mut id_bytes);
    sha256(&bytes)
}

} // verus!
