//! The Verifier: a keyed MAC over the raw request bytes, compared against
//! a caller-supplied hex-encoded signature. Malformed hex and mismatched
//! bytes both verify to false; nothing panics and nothing leaks.
use vstd::prelude::*;
use crate::hexcode::{decode_hex, hex_decoded, hex_of, lemma_hex_round_trip, valid_hex};
use crate::keys::KeyStore;

verus! {

/// The MAC bytes that the keyed hash yields for `key` and `msg`: a fixed
/// function of the two arguments alone.
pub uninterp spec fn mac_of(key: Seq<u8>, msg: Seq<u8>) -> Seq<u8>;

/// Relies on hmac::Hmac<sha2::Sha256>: a deterministic MAC of key and
/// message; the output of the underlying hash is 32 bytes. Keys of any
/// length are accepted.
#[verifier::external_body]
fn hmac_sha256(key: &[u8], msg: &[u8]) -> (r: Vec<u8>)
    ensures
        r@ == mac_of(key@, msg@),
        r@.len() == 32,
{
    let mut mac = <hmac::Hmac<sha2::Sha256> as hmac::Mac>::new_from_slice(key)
        .expect("HMAC accepts keys of any size");
    hmac::Mac::update(&mut mac, msg);
    hmac::Mac::finalize(mac).into_bytes().to_vec()
}

/// The signature hex names exactly the MAC of `payload` under `key`.
pub open spec fn verified_spec(payload: Seq<u8>, signature_hex: Seq<char>, key: Seq<u8>) -> bool {
    valid_hex(signature_hex) && hex_decoded(signature_hex) == mac_of(key, payload)
}

/// Compares the two byte vectors, walking every position of equal-length
/// inputs rather than stopping at the first difference.
fn eq_bytes(a: &Vec<u8>, b: &Vec<u8>) -> (r: bool)
    ensures
        r == (a@ == b@),
{
    if a.len() != b.len() {
        proof {
            assert(a@ != b@);
        }
        return false;
    }
    let mut diff: bool = false;
    let mut i: usize = 0;
    while i < a.len()
        invariant
            i <= a@.len(),
            a@.len() == b@.len(),
            diff == exists|k: int| 0 <= k < i && a@[k] != b@[k],
        decreases a@.len() - i,
    {
        if a[i] != b[i] {
            diff = true;
        }
        i = i + 1;
    }
    if diff {
        assert(a@ != b@);
        false
    } else {
        assert(a@ =~= b@);
        true
    }
}

/// Verifies the integrity signature: computes the keyed MAC over `body`
/// with the store's integrity key, decodes `signature_hex`, and accepts
/// only an exact match. Malformed hex is a plain mismatch.
pub fn verify_signature(body: &[u8], signature_hex: &str, keys: &KeyStore) -> (r: bool)
    ensures
        r == verified_spec(body@, signature_hex@, keys.integrity_key_spec()),
{
    let computed = hmac_sha256(keys.integrity_key().as_slice(), body);
    match decode_hex(signature_hex) {
        Some(expected) => eq_bytes(&computed, &expected),
        None => false,
    }
}

/// A signature formed by hex-encoding the MAC of the very payload under
/// the very key always verifies.
pub proof fn lemma_verify_own_mac(body: Seq<u8>, key: Seq<u8>)
    ensures
        verified_spec(body, hex_of(mac_of(key, body)), key),
{
    lemma_hex_round_trip(mac_of(key, body));
}

/// A signature that is not valid hexadecimal never verifies, whatever the
/// payload and the key.
pub proof fn lemma_invalid_hex_never_verifies(body: Seq<u8>, signature_hex: Seq<char>, key: Seq<u8>)
    requires
        !valid_hex(signature_hex),
    ensures
        !verified_spec(body, signature_hex, key),
{
}

} // verus!
