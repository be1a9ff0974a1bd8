//! Frame authentication: HMAC-SHA256 over the frame bytes with K_mac.
use vstd::prelude::*;
use crate::crypto::{hmac_sha256, hmac_sha256_tag, hmac_sha256_verify};
use crate::framing::FrameError;

verus! {

/// HMAC-SHA256 tag over the frame bytes with `k_mac`.
pub fn tag(frame: &[u8], k_mac: &[u8; 32]) -> (t: [u8; 32])
    ensures
        t@ == hmac_sha256(k_mac@, frame@),
{
    hmac_sha256_tag(k_mac.as_slice(), frame)
}

/// Checks `tag` against the frame under `k_mac`.
pub fn verify(frame: &[u8], tag: &[u8; 32], k_mac: &[u8; 32]) -> (r: Result<(), FrameError>)
    ensures
        r is Ok <==> tag@ == hmac_sha256(k_mac@, frame@),
        r matches Err(e) ==> e == FrameError::AuthFailed,
{
    if hmac_sha256_verify(k_mac.as_slice(), frame, tag) {
        Ok(())
    } else {
        Err(FrameError::AuthFailed)
    }
}

} // verus!
