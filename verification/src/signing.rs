//! The detached-signature interface: producing a signature blob with a
//! minisign secret key, and checking one against a set of trusted keys.

use vstd::prelude::*;

verus! {

#[verifier::external_type_specification]
#[verifier::external_body]
pub struct ExSecretKey(minisign::SecretKey);

/// Relies on `minisign::sign`: produces a detached signature blob in the
/// textual box format. Nothing is promised of the bytes: they include a
/// random nonce and a timestamp comment.
#[verifier::external_body]
pub(crate) fn sign_with_key(sk: &minisign::SecretKey, data: &[u8]) -> (r: Option<Vec<u8>>) {
    minisign::sign(None, sk, data, None, None).ok().map(|s| s.to_bytes())
}

/// Whether `minisign_verify::PublicKey::verify` accepts `sig` for `data`
/// under the key encoded as `key_b64`: a function of the three arguments
/// alone.
pub uninterp spec fn minisign_valid(key_b64: Seq<char>, sig: Seq<char>, data: Seq<u8>) -> bool;

/// Relies on `minisign_verify::PublicKey::verify`, with
/// `PublicKey::from_base64` and `Signature::decode` converting the two
/// textual arguments; a key or signature that does not decode validates
/// nothing.
#[verifier::external_body]
fn verify_one(key_b64: &str, sig: &str, data: &[u8]) -> (r: bool)
    ensures
        r == minisign_valid(key_b64@, sig@, data@),
{
    let pk = match minisign_verify::PublicKey::from_base64(key_b64) {
        Ok(k) => k,
        Err(_) => {
            return false;
        },
    };
    let decoded = match minisign_verify::Signature::decode(sig) {
        Ok(s) => s,
        Err(_) => {
            return false;
        },
    };
    pk.verify(data, &decoded, false).is_ok()
}

/// Accepts exactly when some key of the trust set validates the
/// signature over the data. A key that does not decode as base64
/// validates nothing: it weakens the trust set rather than failing the
/// check, so callers who want malformed keys surfaced must screen them
/// before building the set.
pub fn verify_with_any(keys: &Vec<String>, sig: &str, data: &[u8]) -> (r: bool)
    ensures
        r == exists|i: int| 0 <= i < keys@.len() && minisign_valid(keys@[i]@, sig@, data@),
{
    let n = keys.len();
    for i in 0..n
        invariant
            n == keys@.len(),
            forall|k: int| 0 <= k < i ==> !minisign_valid(keys@[k]@, sig@, data@),
        decreases n - i,
    {
        if verify_one(keys[i].as_str(), sig, data) {
            return true;
        }
    }
    false
}

} // verus!
