//! An integrity gateway library: it verifies a keyed MAC over inbound
//! request bytes, notarizes artifact uploads with a deterministic
//! asymmetric signature, reconstructs multipart bodies, and decides for
//! every inbound request whether it is rejected or forwarded unchanged.
#![verifier::loop_isolation(false)]
use vstd::prelude::*;

pub mod args;
pub mod bytes_util;
pub mod hexcode;
pub mod keys;
pub mod mac;
pub mod notary;
pub mod multipart;
pub mod dispatch;
