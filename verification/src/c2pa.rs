//! C2PA report types.
use vstd::prelude::*;
use vstd::string::StringExecFns;
use crate::text::{contains_text, lists_text};

verus! {

/// Watermark metadata carried in the C2PA manifest assertion.
pub struct WatermarkClaim {
    pub mode: String,
    pub recipient_id: Option<String>,
    pub keyed: bool,
}

/// Result of reading and verifying a C2PA manifest.
pub struct C2paReport {
    pub present: bool,
    pub claim_generator: Option<String>,
    /// "valid", "invalid" or "unsigned".
    pub signature_status: String,
    pub signer_org: Option<String>,
    pub valid_from: Option<String>,
    pub valid_to: Option<String>,
    pub watermark_claim: Option<WatermarkClaim>,
}

impl C2paReport {
    /// The report for an image without any manifest.
    pub fn unsigned() -> (r: Self)
        ensures
            !r.present,
            r.signature_status@ == "unsigned"@,
            r.claim_generator is None,
            r.signer_org is None,
            r.valid_from is None,
            r.valid_to is None,
            r.watermark_claim is None,
    {
        C2paReport {
            present: false,
            claim_generator: None,
            signature_status: String::from_str("unsigned"),
            signer_org: None,
            valid_from: None,
            valid_to: None,
            watermark_claim: None,
        }
    }
}

/// What `signature_status` answers: "invalid" when the validation status
/// reports a signature mismatch or a missing signature; otherwise "valid" when
/// the active manifest's successes include a validated signature; otherwise
/// "invalid".
pub open spec fn signature_verdict(status_codes: Seq<String>, success_codes: Seq<String>) -> Seq<char> {
    if lists_text(status_codes, "claimSignature.mismatch"@) || lists_text(status_codes, "claimSignature.missing"@) {
        "invalid"@
    } else if lists_text(success_codes, "claimSignature.validated"@) {
        "valid"@
    } else {
        "invalid"@
    }
}

/// Signature status of a manifest from the codes its reader reported: the
/// validation status codes and the success codes of the active manifest.
pub fn signature_status(status_codes: &Vec<String>, success_codes: &Vec<String>) -> (s: String)
    ensures
        s@ == signature_verdict(status_codes@, success_codes@),
{
    if contains_text(status_codes, "claimSignature.mismatch") || contains_text(status_codes, "claimSignature.missing") {
        String::from_str("invalid")
    } else if contains_text(success_codes, "claimSignature.validated") {
        String::from_str("valid")
    } else {
        String::from_str("invalid")
    }
}

} // verus!
