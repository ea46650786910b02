//! Key material loaded once at process start and immutable afterwards: a
//! symmetric integrity key of any length and a 32-byte seed for the
//! deterministic asymmetric notarization scheme.
use vstd::prelude::*;
use crate::hexcode::{decode_hex, hex_decoded, valid_hex};

verus! {

/// The two process-lifetime secrets.
pub struct KeyStore {
    integrity_key: Vec<u8>,
    notary_seed: Vec<u8>,
}

/// A fatal startup failure: the configured key material is malformed.
/// Such an error never arises at request time.
#[derive(Clone, Copy, PartialEq, Eq, Structural, Debug)]
pub enum ConfigError {
    MalformedNotaryKey,
}

impl KeyStore {
    /// The symmetric integrity key, as handed in.
    pub closed spec fn integrity_key_spec(&self) -> Seq<u8> {
        self.integrity_key@
    }

    /// The asymmetric signing seed, as decoded from hex.
    pub closed spec fn notary_seed_spec(&self) -> Seq<u8> {
        self.notary_seed@
    }

    /// The seed has the one length the signature scheme accepts.
    pub open spec fn wf(&self) -> bool {
        self.notary_seed_spec().len() == 32
    }

    /// Builds the store from the raw integrity key bytes and the
    /// hex-encoded notary seed, exactly as both are configured. Fails if
    /// and only if the seed is not valid hex for 32 bytes.
    pub fn load(integrity_key: Vec<u8>, notary_seed_hex: &str) -> (r: Result<KeyStore, ConfigError>)
        ensures
            match r {
                Ok(ks) => valid_hex(notary_seed_hex@) && hex_decoded(notary_seed_hex@).len() == 32
                    && ks.integrity_key_spec() == integrity_key@
                    && ks.notary_seed_spec() == hex_decoded(notary_seed_hex@) && ks.wf(),
                Err(e) => e == ConfigError::MalformedNotaryKey && !(valid_hex(notary_seed_hex@)
                    && hex_decoded(notary_seed_hex@).len() == 32),
            },
    {
        match decode_hex(notary_seed_hex) {
            Some(seed) => {
                if seed.len() == 32 {
                    Ok(KeyStore { integrity_key, notary_seed: seed })
                } else {
                    Err(ConfigError::MalformedNotaryKey)
                }
            },
            None => Err(ConfigError::MalformedNotaryKey),
        }
    }

    /// The integrity key bytes, for the MAC computation.
    pub fn integrity_key(&self) -> (r: &Vec<u8>)
        ensures
            r@ == self.integrity_key_spec(),
    {
        &self.integrity_key
    }

    /// The notary seed bytes, for the signing computation.
    pub fn notary_seed(&self) -> (r: &Vec<u8>)
        ensures
            r@ == self.notary_seed_spec(),
    {
        &self.notary_seed
    }
}

} // verus!
