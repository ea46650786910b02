//! The Notary: a deterministic asymmetric signature over exactly the
//! artifact bytes, rendered as lowercase hexadecimal for a header value.
use vstd::prelude::*;
use crate::hexcode::{encode_hex, hex_of};
use crate::keys::KeyStore;

verus! {

/// The 64 signature bytes that the deterministic signature scheme yields
/// for a 32-byte seed and a message: a fixed function of the two
/// arguments alone.
pub uninterp spec fn notary_sig_of(seed: Seq<u8>, msg: Seq<u8>) -> Seq<u8>;

/// Relies on ed25519_dalek::SigningKey::{from_bytes, sign}: the scheme
/// derives its nonce from the key and the message, so the 64-byte
/// signature depends on the seed and the message alone.
#[verifier::external_body]
fn ed25519_sign(seed: &[u8], msg: &[u8]) -> (r: Vec<u8>)
    requires
        seed@.len() == 32,
    ensures
        r@ == notary_sig_of(seed@, msg@),
        r@.len() == 64,
{
    let mut seed_arr = [0u8; 32];
    seed_arr.copy_from_slice(seed);
    let signing_key = ed25519_dalek::SigningKey::from_bytes(&seed_arr);
    let signature = ed25519_dalek::Signer::sign(&signing_key, msg);
    signature.to_bytes().to_vec()
}

/// The hex header value that notarizing `data` under `seed` yields.
pub open spec fn notarized_spec(data: Seq<u8>, seed: Seq<u8>) -> Seq<char> {
    hex_of(notary_sig_of(seed, data))
}

/// Signs exactly the raw artifact bytes with the store's notary seed and
/// renders the signature as lowercase hexadecimal.
pub fn sign_artwork(data: &[u8], keys: &KeyStore) -> (r: String)
    requires
        keys.wf(),
    ensures
        r@ == notarized_spec(data@, keys.notary_seed_spec()),
{
    let signature = ed25519_sign(keys.notary_seed().as_slice(), data);
    encode_hex(signature.as_slice())
}

/// Notarization is deterministic: two signatures over the same bytes
/// under the same seed render identically.
pub proof fn lemma_notarize_deterministic(
    r1: Seq<char>,
    r2: Seq<char>,
    data: Seq<u8>,
    seed: Seq<u8>,
)
    requires
        r1 == notarized_spec(data, seed),
        r2 == notarized_spec(data, seed),
    ensures
        r1 == r2,
{
}

} // verus!
