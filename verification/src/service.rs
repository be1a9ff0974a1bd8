//! Credential service logic: the key store and key derivation, credential
//! state decisions (verify, consume, revoke), the credential store with its
//! consumption records and audit trail, object access checks and the framing
//! self-check. Storage and clocks stay with the caller: timestamps come
//! in as microseconds since the Unix epoch.
use vstd::prelude::*;
use vstd::utf8::encode_utf8;
use crate::carrier_integration::{credential_params, credential_coded};
use crate::crypto::{
    base64_standard_decode, base64_standard_decode_str, hmac_sha256, hmac_sha256_tag, random_bytes,
    sha256_digest,
};
use crate::octets::opt_bytes;
use crate::ecc::{self, Profile};
use crate::framing::{self, Params, PayloadType, sealed, lemma_open_seal};
use crate::octets::{concat, first_32};
use crate::pointer;
use crate::text::{contains_text, lists_text, str_eq};

verus! {

/// Service-level failures.
#[derive(Debug, Clone, Copy, PartialEq, Eq, Structural)]
pub enum ServiceError {
    /// No such key id, credential or object.
    NotFound,
    /// The token text or its frame was refused.
    InvalidToken,
    Revoked,
    Expired,
    Exhausted,
    /// The credential is already revoked.
    Conflict,
    /// The actor may not read the object.
    Unauthorized,
    /// No content key is available to decrypt the object.
    MissingContentKey,
    /// A stored content key, nonce or tag has the wrong length.
    InvalidStoredObject,
    /// Encryption or tag verification failed.
    Crypto,
    /// A consume request carries no idempotency key.
    MissingIdempotencyKey,
    /// A message body misses a field or holds bad base64.
    BadRequestBody,
}

/// HTTP status of a service error: 404 not found, 409 conflict, 410 expired or
/// revoked, 429 exhausted, 400 invalid token, 403 unauthorized, 500 otherwise.
pub open spec fn status_code(e: ServiceError) -> u16 {
    match e {
        ServiceError::NotFound => 404,
        ServiceError::Conflict => 409,
        ServiceError::Expired => 410,
        ServiceError::Revoked => 410,
        ServiceError::Exhausted => 429,
        ServiceError::InvalidToken => 400,
        ServiceError::Unauthorized => 403,
        _ => 500,
    }
}

/// The HTTP status a service error is answered with.
pub fn http_status(e: ServiceError) -> (code: u16)
    ensures
        code == status_code(e),
{
    match e {
        ServiceError::NotFound => 404,
        ServiceError::Conflict => 409,
        ServiceError::Expired => 410,
        ServiceError::Revoked => 410,
        ServiceError::Exhausted => 429,
        ServiceError::InvalidToken => 400,
        ServiceError::Unauthorized => 403,
        _ => 500,
    }
}

/// The idempotency key of a consume request: the header's if present, else the body's.
pub fn idempotency_key(header: Option<String>, body: Option<String>) -> (r: Result<String, ServiceError>)
    ensures
        match header {
            Some(h) => r == Ok::<String, ServiceError>(h),
            None => match body {
                Some(b) => r == Ok::<String, ServiceError>(b),
                None => r == Err::<String, ServiceError>(ServiceError::MissingIdempotencyKey),
            },
        },
{
    match header {
        Some(h) => Ok(h),
        None => match body {
            Some(b) => Ok(b),
            None => Err(ServiceError::MissingIdempotencyKey),
        },
    }
}

/// The token id a request names and the hash credentials are stored under.
pub fn token_lookup(token_text: &str) -> (r: Result<([u8; 16], Vec<u8>), ServiceError>)
    ensures
        match r {
            Ok((t, h)) => crate::models::token_id_parsed(token_text@) == Some(t@) && h@ == sha256_digest(t@),
            Err(e) => crate::models::token_id_parsed(token_text@) is None && e == ServiceError::InvalidToken,
        },
{
    match crate::models::parse_token_id(token_text) {
        Ok(t) => {
            let h = crate::models::sha256(t.as_slice());
            Ok((t, h))
        },
        Err(_) => Err(ServiceError::InvalidToken),
    }
}

// ── Key store ───────────────────────────────────────────────────────────────

/// In-memory key store: `key_id → master secret` (one entry per key id).
#[derive(Debug)]
pub struct Kms {
    master_by_key_id: Vec<(String, [u8; 32])>,
}

/// The map that a list of entries with distinct key ids describes.
pub open spec fn entries_map(s: Seq<(String, [u8; 32])>) -> Map<Seq<char>, Seq<u8>>
    decreases s.len(),
{
    if s.len() == 0 {
        Map::empty()
    } else {
        entries_map(s.drop_last()).insert(s.last().0@, s.last().1@)
    }
}

/// No key id occurs twice.
pub open spec fn distinct_ids(s: Seq<(String, [u8; 32])>) -> bool {
    forall|i: int, j: int| 0 <= i < j < s.len() ==> (#[trigger] s[i].0)@ != (#[trigger] s[j].0)@
}

proof fn lemma_entries_lookup(s: Seq<(String, [u8; 32])>, i: int)
    requires
        distinct_ids(s),
        0 <= i < s.len(),
    ensures
        entries_map(s).contains_key(s[i].0@),
        entries_map(s)[s[i].0@] == s[i].1@,
    decreases s.len(),
{
    if i < s.len() - 1 {
        lemma_entries_lookup(s.drop_last(), i);
        assert(s.drop_last()[i] == s[i]);
    }
}

proof fn lemma_entries_absent(s: Seq<(String, [u8; 32])>, k: Seq<char>)
    requires
        forall|i: int| 0 <= i < s.len() ==> (#[trigger] s[i].0)@ != k,
    ensures
        !entries_map(s).contains_key(k),
    decreases s.len(),
{
    if s.len() > 0 {
        lemma_entries_absent(s.drop_last(), k);
    }
}

proof fn lemma_entries_update(s: Seq<(String, [u8; 32])>, i: int, e: (String, [u8; 32]))
    requires
        distinct_ids(s),
        0 <= i < s.len(),
        s[i].0@ == e.0@,
    ensures
        entries_map(s.update(i, e)) == entries_map(s).insert(e.0@, e.1@),
        distinct_ids(s.update(i, e)),
    decreases s.len(),
{
    let t = s.update(i, e);
    if i == s.len() - 1 {
        assert(t.drop_last() =~= s.drop_last());
        lemma_entries_absent(s.drop_last(), e.0@);
        assert(entries_map(t) =~= entries_map(s).insert(e.0@, e.1@));
    } else {
        lemma_entries_update(s.drop_last(), i, e);
        assert(t.drop_last() =~= s.drop_last().update(i, e));
        assert(entries_map(t) =~= entries_map(s).insert(e.0@, e.1@));
    }
}

impl Kms {
    /// The key store as a map from key id to master secret.
    pub closed spec fn masters(&self) -> Map<Seq<char>, Seq<u8>> {
        entries_map(self.master_by_key_id@)
    }

    /// No key id is stored twice.
    pub closed spec fn wf(&self) -> bool {
        distinct_ids(self.master_by_key_id@)
    }

    /// An empty key store.
    pub fn new() -> (k: Self)
        ensures
            k.wf(),
            k.masters() == Map::<Seq<char>, Seq<u8>>::empty(),
    {
        Kms { master_by_key_id: Vec::new() }
    }

    fn insert(&mut self, key_id: String, master: [u8; 32])
        requires
            old(self).wf(),
        ensures
            final(self).wf(),
            final(self).masters() == old(self).masters().insert(key_id@, master@),
    {
        let mut i: usize = 0;
        let n = self.master_by_key_id.len();
        while i < n
            invariant
                n == self.master_by_key_id@.len(),
                0 <= i <= n,
                self.master_by_key_id@ == old(self).master_by_key_id@,
                distinct_ids(self.master_by_key_id@),
                forall|j: int| 0 <= j < i ==> (#[trigger] self.master_by_key_id@[j].0)@ != key_id@,
            decreases n - i,
        {
            if str_eq(self.master_by_key_id[i].0.as_str(), key_id.as_str()) {
                proof {
                    lemma_entries_update(self.master_by_key_id@, i as int, (key_id, master));
                }
                self.master_by_key_id.set(i, (key_id, master));
                return;
            }
            i += 1;
        }
        let ghost before = self.master_by_key_id@;
        self.master_by_key_id.push((key_id, master));
        proof {
            assert(self.master_by_key_id@.drop_last() =~= before);
        }
    }

    /// The store with `master` under `key_id` (replacing any earlier one).
    pub fn with_key(self, key_id: String, master: [u8; 32]) -> (k: Self)
        requires
            self.wf(),
        ensures
            k.wf(),
            k.masters() == self.masters().insert(key_id@, master@),
    {
        let mut k = self;
        k.insert(key_id, master);
        k
    }

    /// Store a fresh random master under `key_id` and return it.
    pub fn generate_key_id(&mut self, key_id: &str) -> (master: [u8; 32])
        requires
            old(self).wf(),
        ensures
            final(self).wf(),
            final(self).masters() == old(self).masters().insert(key_id@, master@),
    {
        let v = random_bytes(32);
        let master = first_32(v.as_slice());
        self.insert(key_id.to_owned(), master);
        master
    }

    /// The master secret of `key_id`.
    pub fn get_master(&self, key_id: &str) -> (r: Result<[u8; 32], ServiceError>)
        requires
            self.wf(),
        ensures
            r is Ok <==> self.masters().contains_key(key_id@),
            r matches Ok(m) ==> m@ == self.masters()[key_id@],
            r matches Err(e) ==> e == ServiceError::NotFound,
    {
        let n = self.master_by_key_id.len();
        let mut i: usize = 0;
        while i < n
            invariant
                n == self.master_by_key_id@.len(),
                0 <= i <= n,
                distinct_ids(self.master_by_key_id@),
                forall|j: int| 0 <= j < i ==> (#[trigger] self.master_by_key_id@[j].0)@ != key_id@,
            decreases n - i,
        {
            if str_eq(self.master_by_key_id[i].0.as_str(), key_id) {
                proof {
                    lemma_entries_lookup(self.master_by_key_id@, i as int);
                }
                return Ok(self.master_by_key_id[i].1);
            }
            i += 1;
        }
        proof {
            lemma_entries_absent(self.master_by_key_id@, key_id@);
        }
        Err(ServiceError::NotFound)
    }

    /// Derive (K_mac, K_embed) for a token from the master of `key_id` by
    /// HMAC-SHA256 domain separation.
    pub fn derive(&self, key_id: &str, cover_id: &[u8; 16], token_id: &[u8; 16]) -> (r: Result<
        ([u8; 32], [u8; 32]),
        ServiceError,
    >)
        requires
            self.wf(),
        ensures
            r is Ok <==> self.masters().contains_key(key_id@),
            r matches Ok((k_mac, k_embed)) ==> k_mac@ == token_key(
                self.masters()[key_id@],
                mac_domain_v1(),
                cover_id@,
                token_id@,
            ) && k_embed@ == token_key(self.masters()[key_id@], embed_domain_v1(), cover_id@, token_id@),
            r matches Err(e) ==> e == ServiceError::NotFound,
    {
        let master = self.get_master(key_id)?;
        let k_mac = Self::prf(&master, "capglyph-k-mac-v1".as_bytes(), cover_id, token_id);
        let k_embed = Self::prf(&master, "capglyph-k-embed-v1".as_bytes(), cover_id, token_id);
        Ok((k_mac, k_embed))
    }

    /// HMAC-SHA256(master, domain || cover_id || token_id).
    pub fn prf(master: &[u8; 32], domain: &[u8], cover_id: &[u8; 16], token_id: &[u8; 16]) -> (k: [u8; 32])
        ensures
            k@ == token_key(master@, domain@, cover_id@, token_id@),
    {
        let head = concat(domain, cover_id.as_slice());
        let msg = concat(head.as_slice(), token_id.as_slice());
        hmac_sha256_tag(master.as_slice(), msg.as_slice())
    }
}

impl Default for Kms {
    fn default() -> (k: Self)
        ensures
            k.wf(),
            k.masters() == Map::<Seq<char>, Seq<u8>>::empty(),
    {
        Kms::new()
    }
}

/// Domain string of the per-token MAC key.
pub open spec fn mac_domain_v1() -> Seq<u8> {
    encode_utf8("capglyph-k-mac-v1"@)
}

/// Domain string of the per-token embedding key.
pub open spec fn embed_domain_v1() -> Seq<u8> {
    encode_utf8("capglyph-k-embed-v1"@)
}

/// A per-token key derived from a master secret.
pub open spec fn token_key(master: Seq<u8>, domain: Seq<u8>, cover_id: Seq<u8>, token_id: Seq<u8>) -> Seq<u8> {
    hmac_sha256(master, domain + cover_id + token_id)
}

/// Keys for issuing: derived from the master of `key_id`, or from an all-zero
/// master when the store has no such key.
pub fn issue_keys(kms: &Kms, key_id: &str, cover_id: &[u8; 16], token_id: &[u8; 16]) -> (r: (
    [u8; 32],
    [u8; 32],
))
    requires
        kms.wf(),
    ensures
        ({
            let master = if kms.masters().contains_key(key_id@) {
                kms.masters()[key_id@]
            } else {
                Seq::new(32, |i: int| 0u8)
            };
            &&& r.0@ == token_key(master, mac_domain_v1(), cover_id@, token_id@)
            &&& r.1@ == token_key(master, embed_domain_v1(), cover_id@, token_id@)
        }),
{
    match kms.derive(key_id, cover_id, token_id) {
        Ok(v) => v,
        Err(_) => {
            let zero = [0u8; 32];
            proof {
                assert(zero@ =~= Seq::new(32, |i: int| 0u8));
            }
            let k_mac = Kms::prf(&zero, "capglyph-k-mac-v1".as_bytes(), cover_id, token_id);
            let k_embed = Kms::prf(&zero, "capglyph-k-embed-v1".as_bytes(), cover_id, token_id);
            (k_mac, k_embed)
        },
    }
}

/// What issuing produces for a token under `k_mac`: the sealed frame, its
/// repetition-8 coding and the SHA-256 of the sealed frame.
pub fn issue_artifacts(token_id: &[u8; 16], k_mac: &[u8; 32]) -> (r: (Vec<u8>, Vec<u8>, Vec<u8>))
    ensures
        r.0@ == sealed(token_id@, credential_params(), k_mac@),
        r.0@ == sealed(token_id@, Params { version: 1, payload_type: PayloadType::Credential, flags: 0 }, k_mac@),
        r.1@ == credential_coded(token_id@, k_mac@),
        r.2@ == sha256_digest(r.0@),
{
    let params = Params { version: 1, payload_type: PayloadType::Credential, flags: 0 };
    let s = framing::seal(token_id.as_slice(), &params, k_mac);
    let coded = ecc::encode(s.as_slice(), Profile::Repetition8);
    let digest = crate::models::sha256(s.as_slice());
    (s, coded, digest)
}

// ── Credential state ────────────────────────────────────────────────────────

/// What the decisions read of a stored credential (times in microseconds).
#[derive(Debug, Clone, Copy, PartialEq, Eq, Structural)]
pub struct CredentialState {
    pub revoked_at: Option<i64>,
    pub not_before: Option<i64>,
    pub expires_at: Option<i64>,
    pub max_uses: Option<i64>,
    pub use_count: i64,
}

/// A credential's status at a point in time.
#[derive(Debug, Clone, Copy, PartialEq, Eq, Structural)]
pub enum CredentialStatus {
    Valid,
    Revoked,
    NotYetValid,
    Expired,
    Exhausted,
}

impl CredentialStatus {
    /// The status name. A verify response carries only `valid`; the others name
    /// the refusals (`revoked`, `expired`, `exhausted`) and, for a credential
    /// that has not started, the internal `not_yet_valid`, which is answered as
    /// `expired`.
    pub fn name(&self) -> (s: &'static str)
        ensures
            *self == CredentialStatus::Valid ==> s@ == "valid"@,
            *self == CredentialStatus::Revoked ==> s@ == "revoked"@,
            *self == CredentialStatus::NotYetValid ==> s@ == "not_yet_valid"@,
            *self == CredentialStatus::Expired ==> s@ == "expired"@,
            *self == CredentialStatus::Exhausted ==> s@ == "exhausted"@,
    {
        match self {
            CredentialStatus::Valid => "valid",
            CredentialStatus::Revoked => "revoked",
            CredentialStatus::NotYetValid => "not_yet_valid",
            CredentialStatus::Expired => "expired",
            CredentialStatus::Exhausted => "exhausted",
        }
    }
}

/// Status of `c` at `now`, checks in order: revoked, not yet valid, expired,
/// use quota exhausted.
pub open spec fn status_at(c: CredentialState, now: i64) -> CredentialStatus {
    if c.revoked_at is Some {
        CredentialStatus::Revoked
    } else if c.not_before matches Some(nb) && now < nb {
        CredentialStatus::NotYetValid
    } else if c.expires_at matches Some(ea) && now >= ea {
        CredentialStatus::Expired
    } else if c.max_uses matches Some(m) && c.use_count >= m {
        CredentialStatus::Exhausted
    } else {
        CredentialStatus::Valid
    }
}

/// The status of a credential at `now`.
pub fn credential_status(c: &CredentialState, now: i64) -> (s: CredentialStatus)
    ensures
        s == status_at(*c, now),
{
    if c.revoked_at.is_some() {
        return CredentialStatus::Revoked;
    }
    if let Some(nb) = c.not_before {
        if now < nb {
            return CredentialStatus::NotYetValid;
        }
    }
    if let Some(ea) = c.expires_at {
        if now >= ea {
            return CredentialStatus::Expired;
        }
    }
    if let Some(m) = c.max_uses {
        if c.use_count >= m {
            return CredentialStatus::Exhausted;
        }
    }
    CredentialStatus::Valid
}

/// What a read-only verify answers for a status: a valid credential is
/// reported; revoked, expired and exhausted ones are refused with that error,
/// and one that has not started yet is refused as expired (the response status
/// is only ever one of valid, expired, revoked, exhausted).
pub fn verify_outcome(s: CredentialStatus) -> (r: Result<CredentialStatus, ServiceError>)
    ensures
        s == CredentialStatus::Valid ==> r == Ok::<CredentialStatus, ServiceError>(s),
        s == CredentialStatus::Revoked ==> r == Err::<CredentialStatus, ServiceError>(ServiceError::Revoked),
        (s == CredentialStatus::Expired || s == CredentialStatus::NotYetValid) ==> r == Err::<
            CredentialStatus,
            ServiceError,
        >(ServiceError::Expired),
        s == CredentialStatus::Exhausted ==> r == Err::<CredentialStatus, ServiceError>(
            ServiceError::Exhausted,
        ),
{
    match s {
        CredentialStatus::Valid => Ok(s),
        CredentialStatus::Revoked => Err(ServiceError::Revoked),
        CredentialStatus::NotYetValid => Err(ServiceError::Expired),
        CredentialStatus::Expired => Err(ServiceError::Expired),
        CredentialStatus::Exhausted => Err(ServiceError::Exhausted),
    }
}

/// The outcome written with a consumption attempt. Only `Consumed` is kept: a
/// refused attempt is rolled back with the rest of its transaction.
#[derive(Debug, Clone, Copy, PartialEq, Eq, Structural)]
pub enum ConsumeOutcome {
    Consumed,
    Revoked,
    NotYetValid,
    Expired,
    Exhausted,
    /// A concurrent consumption took the last use between check and update.
    ExhaustedRace,
}

impl ConsumeOutcome {
    /// The outcome name written with the consumption record.
    pub fn name(&self) -> (s: &'static str)
        ensures
            *self == ConsumeOutcome::Consumed ==> s@ == "consumed"@,
            *self == ConsumeOutcome::Revoked ==> s@ == "revoked"@,
            *self == ConsumeOutcome::NotYetValid ==> s@ == "not_yet_valid"@,
            *self == ConsumeOutcome::Expired ==> s@ == "expired"@,
            *self == ConsumeOutcome::Exhausted ==> s@ == "exhausted"@,
            *self == ConsumeOutcome::ExhaustedRace ==> s@ == "exhausted_race"@,
    {
        match self {
            ConsumeOutcome::Consumed => "consumed",
            ConsumeOutcome::Revoked => "revoked",
            ConsumeOutcome::NotYetValid => "not_yet_valid",
            ConsumeOutcome::Expired => "expired",
            ConsumeOutcome::Exhausted => "exhausted",
            ConsumeOutcome::ExhaustedRace => "exhausted_race",
        }
    }
}

/// The first step of a consumption, once the credential is loaded.
#[derive(Debug, Clone, Copy, PartialEq, Eq, Structural)]
pub enum ConsumeStep {
    /// The idempotency key already has a recorded consumption: answer with the
    /// result recorded for it, consuming nothing.
    Replay(CredentialState),
    /// Refuse with the error; nothing is kept (the attempt is rolled back).
    Refuse(ConsumeOutcome, ServiceError),
    /// Attempt the guarded increment.
    Attempt,
}

/// What `consume_step` decides.
pub open spec fn consume_step_spec(c: CredentialState, previous: Option<CredentialState>, now: i64) -> ConsumeStep {
    if let Some(p) = previous {
        ConsumeStep::Replay(p)
    } else {
        match status_at(c, now) {
            CredentialStatus::Revoked => ConsumeStep::Refuse(ConsumeOutcome::Revoked, ServiceError::Revoked),
            CredentialStatus::NotYetValid => ConsumeStep::Refuse(
                ConsumeOutcome::NotYetValid,
                ServiceError::Expired,
            ),
            CredentialStatus::Expired => ConsumeStep::Refuse(ConsumeOutcome::Expired, ServiceError::Expired),
            CredentialStatus::Exhausted => ConsumeStep::Refuse(
                ConsumeOutcome::Exhausted,
                ServiceError::Exhausted,
            ),
            CredentialStatus::Valid => ConsumeStep::Attempt,
        }
    }
}

/// Decide the first step of consuming credential `c` at `now`; `previous` is
/// the result recorded for this idempotency key, if it has one. A
/// not-yet-valid credential is refused as expired.
pub fn consume_step(c: &CredentialState, previous: Option<CredentialState>, now: i64) -> (d: ConsumeStep)
    ensures
        d == consume_step_spec(*c, previous, now),
{
    if let Some(p) = previous {
        return ConsumeStep::Replay(p);
    }
    match credential_status(c, now) {
        CredentialStatus::Revoked => ConsumeStep::Refuse(ConsumeOutcome::Revoked, ServiceError::Revoked),
        CredentialStatus::NotYetValid => ConsumeStep::Refuse(
            ConsumeOutcome::NotYetValid,
            ServiceError::Expired,
        ),
        CredentialStatus::Expired => ConsumeStep::Refuse(ConsumeOutcome::Expired, ServiceError::Expired),
        CredentialStatus::Exhausted => ConsumeStep::Refuse(
            ConsumeOutcome::Exhausted,
            ServiceError::Exhausted,
        ),
        CredentialStatus::Valid => ConsumeStep::Attempt,
    }
}

/// The guarded increment: the stored credential after it, if the guard (not
/// revoked, started, not expired, below quota) holds at `now`.
pub open spec fn consumed(c: CredentialState, now: i64) -> Option<CredentialState> {
    if status_at(c, now) == CredentialStatus::Valid && c.use_count < i64::MAX {
        Some(CredentialState { use_count: (c.use_count + 1) as i64, ..c })
    } else {
        None
    }
}

/// The result of the guarded increment: the new use count, or a refusal for a
/// race that exhausted the quota in between.
pub fn consume_finish(new_use_count: Option<i64>) -> (r: Result<i64, (ConsumeOutcome, ServiceError)>)
    ensures
        match new_use_count {
            Some(n) => r == Ok::<i64, (ConsumeOutcome, ServiceError)>(n),
            None => r == Err::<i64, (ConsumeOutcome, ServiceError)>(
                (ConsumeOutcome::ExhaustedRace, ServiceError::Exhausted),
            ),
        },
{
    match new_use_count {
        Some(n) => Ok(n),
        None => Err((ConsumeOutcome::ExhaustedRace, ServiceError::Exhausted)),
    }
}

/// The guarded increment applied to an in-memory credential.
pub fn consume_apply(c: &CredentialState, now: i64) -> (r: Option<CredentialState>)
    ensures
        r == consumed(*c, now),
{
    if credential_status(c, now) == CredentialStatus::Valid && c.use_count < i64::MAX {
        Some(CredentialState { use_count: c.use_count + 1, ..*c })
    } else {
        None
    }
}

/// The map that a list of (idempotency key, result) records with distinct keys describes.
pub open spec fn log_map(s: Seq<(String, CredentialState)>) -> Map<Seq<char>, CredentialState>
    decreases s.len(),
{
    if s.len() == 0 {
        Map::empty()
    } else {
        log_map(s.drop_last()).insert(s.last().0@, s.last().1)
    }
}

/// No idempotency key is recorded twice.
pub open spec fn log_distinct(s: Seq<(String, CredentialState)>) -> bool {
    forall|i: int, j: int| 0 <= i < j < s.len() ==> (#[trigger] s[i].0)@ != (#[trigger] s[j].0)@
}

proof fn lemma_log_lookup(s: Seq<(String, CredentialState)>, i: int)
    requires
        log_distinct(s),
        0 <= i < s.len(),
    ensures
        log_map(s).contains_key(s[i].0@),
        log_map(s)[s[i].0@] == s[i].1,
    decreases s.len(),
{
    if i < s.len() - 1 {
        lemma_log_lookup(s.drop_last(), i);
        assert(s.drop_last()[i] == s[i]);
    }
}

proof fn lemma_log_absent(s: Seq<(String, CredentialState)>, k: Seq<char>)
    requires
        forall|i: int| 0 <= i < s.len() ==> (#[trigger] s[i].0)@ != k,
    ensures
        !log_map(s).contains_key(k),
    decreases s.len(),
{
    if s.len() > 0 {
        lemma_log_absent(s.drop_last(), k);
    }
}

/// The consumptions recorded for one credential: for each idempotency key,
/// the result its consumption answered.
pub struct ConsumeLog {
    records: Vec<(String, CredentialState)>,
}

impl ConsumeLog {
    /// The recorded results, by idempotency key.
    pub closed spec fn results(&self) -> Map<Seq<char>, CredentialState> {
        log_map(self.records@)
    }

    /// No key is recorded twice.
    pub closed spec fn wf(&self) -> bool {
        log_distinct(self.records@)
    }

    /// A log with no consumptions.
    pub fn new() -> (l: Self)
        ensures
            l.wf(),
            l.results() == Map::<Seq<char>, CredentialState>::empty(),
    {
        ConsumeLog { records: Vec::new() }
    }

    /// The result recorded for `key`, if any.
    pub fn previous(&self, key: &str) -> (r: Option<CredentialState>)
        requires
            self.wf(),
        ensures
            r == (if self.results().contains_key(key@) {
                Some(self.results()[key@])
            } else {
                None::<CredentialState>
            }),
    {
        let n = self.records.len();
        let mut i: usize = 0;
        while i < n
            invariant
                n == self.records@.len(),
                0 <= i <= n,
                log_distinct(self.records@),
                forall|j: int| 0 <= j < i ==> (#[trigger] self.records@[j].0)@ != key@,
            decreases n - i,
        {
            if str_eq(self.records[i].0.as_str(), key) {
                proof {
                    lemma_log_lookup(self.records@, i as int);
                }
                return Some(self.records[i].1);
            }
            i += 1;
        }
        proof {
            lemma_log_absent(self.records@, key@);
        }
        None
    }

    /// Record `result` for a key that has no record yet.
    fn record(&mut self, key: &str, result: CredentialState)
        requires
            old(self).wf(),
            !old(self).results().contains_key(key@),
        ensures
            final(self).wf(),
            final(self).results() == old(self).results().insert(key@, result),
    {
        let ghost before = self.records@;
        proof {
            assert forall|i: int| 0 <= i < before.len() implies (#[trigger] before[i].0)@ != key@ by {
                lemma_log_lookup(before, i);
            }
        }
        self.records.push((key.to_owned(), result));
        proof {
            assert(self.records@.drop_last() =~= before);
        }
    }
}

/// What an audit event records.
#[derive(Debug, Clone, Copy, PartialEq, Eq, Structural)]
pub enum AuditKind {
    Issued,
    Consumed,
    Revoked,
}

impl AuditKind {
    /// The event type written to the audit trail.
    pub fn event_type(&self) -> (s: &'static str)
        ensures
            *self == AuditKind::Issued ==> s@ == "credential.issued"@,
            *self == AuditKind::Consumed ==> s@ == "credential.consumed"@,
            *self == AuditKind::Revoked ==> s@ == "credential.revoked"@,
    {
        match self {
            AuditKind::Issued => "credential.issued",
            AuditKind::Consumed => "credential.consumed",
            AuditKind::Revoked => "credential.revoked",
        }
    }
}

/// One audit event: its kind, the credential it concerns, and for a
/// consumption the idempotency key it was made under.
pub struct AuditEvent {
    pub kind: AuditKind,
    pub object_id: [u8; 16],
    pub idempotency_key: Option<String>,
}

/// An audit event as plain values.
pub open spec fn audit_view(e: AuditEvent) -> (AuditKind, Seq<u8>, Option<Seq<char>>) {
    (
        e.kind,
        e.object_id@,
        match e.idempotency_key {
            Some(k) => Some(k@),
            None => None,
        },
    )
}

/// The audit trail, oldest event first.
pub struct AuditTrail {
    pub events: Vec<AuditEvent>,
}

impl AuditTrail {
    /// The recorded events, oldest first.
    pub open spec fn entries(&self) -> Seq<(AuditKind, Seq<u8>, Option<Seq<char>>)> {
        self.events@.map_values(|e: AuditEvent| audit_view(e))
    }

    /// A trail with no events.
    pub fn new() -> (t: Self)
        ensures
            t.entries() == Seq::<(AuditKind, Seq<u8>, Option<Seq<char>>)>::empty(),
    {
        let t = AuditTrail { events: Vec::new() };
        proof {
            assert(t.entries() =~= Seq::<(AuditKind, Seq<u8>, Option<Seq<char>>)>::empty());
        }
        t
    }

    /// Append an event.
    fn record(&mut self, kind: AuditKind, object_id: &[u8; 16], key: Option<&str>)
        ensures
            final(self).entries() == old(self).entries().push(
                (
                    kind,
                    object_id@,
                    match key {
                        Some(k) => Some(k@),
                        None => None::<Seq<char>>,
                    },
                ),
            ),
    {
        let idempotency_key = match key {
            Some(k) => Some(k.to_owned()),
            None => None,
        };
        let e = AuditEvent { kind, object_id: *object_id, idempotency_key };
        self.events.push(e);
        proof {
            assert(self.entries() =~= old(self).entries().push(audit_view(e)));
        }
    }
}

/// What consuming under idempotency key `key` at `now` answers, given the
/// recorded results and the stored credential: a key with a recorded result is
/// answered with it; otherwise the step decides, and an attempt answers the
/// credential after the guarded increment (or `Exhausted` if the guard fails).
pub open spec fn consume_answer(
    log: Map<Seq<char>, CredentialState>,
    c: CredentialState,
    key: Seq<char>,
    now: i64,
) -> Result<CredentialState, ServiceError> {
    let previous = if log.contains_key(key) {
        Some(log[key])
    } else {
        None::<CredentialState>
    };
    match consume_step_spec(c, previous, now) {
        ConsumeStep::Replay(p) => Ok(p),
        ConsumeStep::Refuse(_, e) => Err(e),
        ConsumeStep::Attempt => match consumed(c, now) {
            Some(d) => Ok(d),
            None => Err(ServiceError::Exhausted),
        },
    }
}

/// Consume credential `c` (id `id`) under idempotency key `key` at `now`. A
/// replayed key is answered with the result recorded for it and changes
/// nothing; a refusal changes nothing; a consumption stores the incremented
/// credential, records it as the key's result and adds a `credential.consumed`
/// audit event for the credential and the key.
pub fn consume(
    log: &mut ConsumeLog,
    audit: &mut AuditTrail,
    c: &mut CredentialState,
    id: &[u8; 16],
    key: &str,
    now: i64,
) -> (r: Result<CredentialState, ServiceError>)
    requires
        old(log).wf(),
    ensures
        final(log).wf(),
        r == consume_answer(old(log).results(), *old(c), key@, now),
        old(log).results().contains_key(key@) || r is Err ==> *final(c) == *old(c) && final(log).results()
            == old(log).results() && final(audit).entries() == old(audit).entries(),
        !old(log).results().contains_key(key@) && r is Ok ==> *final(c) == r->Ok_0 && final(log).results()
            == old(log).results().insert(key@, r->Ok_0) && final(audit).entries() == old(
            audit,
        ).entries().push((AuditKind::Consumed, id@, Some(key@))),
{
    let previous = log.previous(key);
    match consume_step(c, previous, now) {
        ConsumeStep::Replay(p) => Ok(p),
        ConsumeStep::Refuse(_, e) => Err(e),
        ConsumeStep::Attempt => {
            let next = consume_apply(c, now);
            let counted = consume_finish(
                match next {
                    Some(d) => Some(d.use_count),
                    None => None,
                },
            );
            match (counted, next) {
                (Ok(_), Some(d)) => {
                    log.record(key, d);
                    audit.record(AuditKind::Consumed, id, Some(key));
                    *c = d;
                    Ok(d)
                },
                _ => Err(ServiceError::Exhausted),
            }
        },
    }
}

/// A replayed idempotency key is answered with the result of its first
/// consumption, whatever the credential's state and the time of the replay.
pub proof fn lemma_replay_answers_previous(
    log: Map<Seq<char>, CredentialState>,
    c: CredentialState,
    key: Seq<char>,
    now: i64,
    later_c: CredentialState,
    later: i64,
)
    requires
        !log.contains_key(key),
        consume_answer(log, c, key, now) is Ok,
    ensures
        consume_answer(log.insert(key, consume_answer(log, c, key, now)->Ok_0), later_c, key, later)
            == consume_answer(log, c, key, now),
{
}

/// Consuming under each key of `keys` in turn at `now`, starting from the log
/// `log` and the credential `c`, as `consume` does: the answers in order and
/// the credential afterwards.
pub open spec fn consume_all(
    log: Map<Seq<char>, CredentialState>,
    c: CredentialState,
    keys: Seq<Seq<char>>,
    now: i64,
) -> (Seq<Result<CredentialState, ServiceError>>, CredentialState)
    decreases keys.len(),
{
    if keys.len() == 0 {
        (Seq::empty(), c)
    } else {
        let r = consume_answer(log, c, keys[0], now);
        let fresh = !log.contains_key(keys[0]) && r is Ok;
        let log2 = if fresh { log.insert(keys[0], r->Ok_0) } else { log };
        let c2 = if fresh { r->Ok_0 } else { c };
        let rest = consume_all(log2, c2, keys.drop_first(), now);
        (seq![r] + rest.0, rest.1)
    }
}

/// No double spend: consuming a credential with quota `m` under `N` distinct
/// new idempotency keys succeeds exactly while uses remain, the successes
/// answer use counts one apart, and the credential ends with
/// `min(use_count + N, m)` uses.
pub proof fn lemma_no_double_spend(
    log: Map<Seq<char>, CredentialState>,
    c: CredentialState,
    keys: Seq<Seq<char>>,
    now: i64,
    m: i64,
)
    requires
        keys.no_duplicates(),
        forall|i: int| 0 <= i < keys.len() ==> !log.contains_key(#[trigger] keys[i]),
        c.revoked_at is None,
        !(c.not_before matches Some(nb) && now < nb),
        !(c.expires_at matches Some(ea) && now >= ea),
        c.max_uses == Some(m),
        0 <= c.use_count <= m,
        m < i64::MAX,
    ensures
        ({
            let (rs, cf) = consume_all(log, c, keys, now);
            &&& rs.len() == keys.len()
            &&& cf.use_count == (if c.use_count + keys.len() < m { c.use_count + keys.len() } else { m as int })
            &&& forall|i: int| 0 <= i < rs.len() ==> (#[trigger] rs[i] is Ok <==> c.use_count + i < m)
            &&& forall|i: int|
                0 <= i < rs.len() ==> (#[trigger] rs[i] matches Ok(d) ==> d.use_count == c.use_count + i + 1)
            &&& forall|i: int|
                0 <= i < rs.len() ==> (#[trigger] rs[i] matches Err(e) ==> e == ServiceError::Exhausted)
            &&& cf.max_uses == Some(m) && cf.revoked_at is None
        }),
    decreases keys.len(),
{
    if keys.len() > 0 {
        let k0 = keys[0];
        assert(!log.contains_key(k0));
        let r = consume_answer(log, c, k0, now);
        let fresh = !log.contains_key(k0) && r is Ok;
        let log2 = if fresh { log.insert(k0, r->Ok_0) } else { log };
        let c2 = if fresh { r->Ok_0 } else { c };
        let rest_keys = keys.drop_first();
        assert forall|i: int| 0 <= i < rest_keys.len() implies !log2.contains_key(#[trigger] rest_keys[i]) by {
            assert(rest_keys[i] == keys[i + 1]);
            assert(keys[i + 1] != keys[0]);
        }
        assert(rest_keys.no_duplicates()) by {
            assert forall|i: int, j: int| 0 <= i < rest_keys.len() && 0 <= j < rest_keys.len() && i != j implies rest_keys[i]
                != rest_keys[j] by {
                assert(rest_keys[i] == keys[i + 1] && rest_keys[j] == keys[j + 1]);
            }
        }
        if c.use_count < m {
            assert(status_at(c, now) == CredentialStatus::Valid);
            assert(r == Ok::<CredentialState, ServiceError>(CredentialState { use_count: (c.use_count + 1) as i64, ..c }));
        } else {
            assert(status_at(c, now) == CredentialStatus::Exhausted);
            assert(r == Err::<CredentialState, ServiceError>(ServiceError::Exhausted));
        }
        lemma_no_double_spend(log2, c2, rest_keys, now, m);
        let rest = consume_all(log2, c2, rest_keys, now);
        let rs = seq![r] + rest.0;
        assert(consume_all(log, c, keys, now) == (rs, rest.1));
        assert forall|i: int| 0 < i < rs.len() implies #[trigger] rs[i] == rest.0[i - 1] by {}
    }
}

/// Revoking: refused if already revoked, else the credential revoked at `now`.
pub open spec fn revoked(c: CredentialState, now: i64) -> Result<CredentialState, ServiceError> {
    if c.revoked_at is Some {
        Err(ServiceError::Conflict)
    } else {
        Ok(CredentialState { revoked_at: Some(now), ..c })
    }
}

/// Revoke credential `c` at `now`.
pub fn revoke_apply(c: &CredentialState, now: i64) -> (r: Result<CredentialState, ServiceError>)
    ensures
        r == revoked(*c, now),
{
    if c.revoked_at.is_some() {
        Err(ServiceError::Conflict)
    } else {
        Ok(CredentialState { revoked_at: Some(now), ..*c })
    }
}

/// The stored credentials, by id.
pub struct CredentialStore {
    entries: Vec<([u8; 16], CredentialState)>,
}

/// The map that a list of (id, credential) entries with distinct ids describes.
pub open spec fn store_map(s: Seq<([u8; 16], CredentialState)>) -> Map<Seq<u8>, CredentialState>
    decreases s.len(),
{
    if s.len() == 0 {
        Map::empty()
    } else {
        store_map(s.drop_last()).insert(s.last().0@, s.last().1)
    }
}

/// No id is stored twice.
pub open spec fn store_distinct(s: Seq<([u8; 16], CredentialState)>) -> bool {
    forall|i: int, j: int| 0 <= i < j < s.len() ==> (#[trigger] s[i].0)@ != (#[trigger] s[j].0)@
}

proof fn lemma_store_lookup(s: Seq<([u8; 16], CredentialState)>, i: int)
    requires
        store_distinct(s),
        0 <= i < s.len(),
    ensures
        store_map(s).contains_key(s[i].0@),
        store_map(s)[s[i].0@] == s[i].1,
    decreases s.len(),
{
    if i < s.len() - 1 {
        lemma_store_lookup(s.drop_last(), i);
        assert(s.drop_last()[i] == s[i]);
    }
}

proof fn lemma_store_absent(s: Seq<([u8; 16], CredentialState)>, k: Seq<u8>)
    requires
        forall|i: int| 0 <= i < s.len() ==> (#[trigger] s[i].0)@ != k,
    ensures
        !store_map(s).contains_key(k),
    decreases s.len(),
{
    if s.len() > 0 {
        lemma_store_absent(s.drop_last(), k);
    }
}

proof fn lemma_store_update(s: Seq<([u8; 16], CredentialState)>, i: int, v: CredentialState)
    requires
        store_distinct(s),
        0 <= i < s.len(),
    ensures
        store_distinct(s.update(i, (s[i].0, v))),
        store_map(s.update(i, (s[i].0, v))) == store_map(s).insert(s[i].0@, v),
    decreases s.len(),
{
    let t = s.update(i, (s[i].0, v));
    if i == s.len() - 1 {
        assert(t.drop_last() =~= s.drop_last());
        lemma_store_lookup(s, i);
        assert forall|j: int| 0 <= j < s.len() - 1 implies (#[trigger] s.drop_last()[j].0)@ != s[i].0@ by {
            assert(s.drop_last()[j] == s[j]);
        }
        lemma_store_absent(s.drop_last(), s[i].0@);
        assert(store_map(s).insert(s[i].0@, v) =~= store_map(s.drop_last()).insert(s[i].0@, v));
    } else {
        lemma_store_update(s.drop_last(), i, v);
        assert(t.drop_last() =~= s.drop_last().update(i, (s[i].0, v)));
        assert(s.last().0@ != s[i].0@);
        assert(store_map(t) =~= store_map(s).insert(s[i].0@, v));
    }
}

/// Two ids are equal byte for byte.
fn ids_equal(a: &[u8; 16], b: &[u8; 16]) -> (r: bool)
    ensures
        r == (a@ == b@),
{
    let mut i: usize = 0;
    while i < 16
        invariant
            0 <= i <= 16,
            forall|j: int| 0 <= j < i ==> a@[j] == b@[j],
        decreases 16 - i,
    {
        if a[i] != b[i] {
            return false;
        }
        i += 1;
    }
    proof {
        assert(a@ =~= b@);
    }
    true
}

impl CredentialStore {
    /// The stored credentials, by id.
    pub closed spec fn credentials(&self) -> Map<Seq<u8>, CredentialState> {
        store_map(self.entries@)
    }

    /// No id is stored twice.
    pub closed spec fn wf(&self) -> bool {
        store_distinct(self.entries@)
    }

    /// A store with no credentials.
    pub fn new() -> (s: Self)
        ensures
            s.wf(),
            s.credentials() == Map::<Seq<u8>, CredentialState>::empty(),
    {
        CredentialStore { entries: Vec::new() }
    }

    /// Position of `id` in the entries, if stored.
    fn position(&self, id: &[u8; 16]) -> (r: Option<usize>)
        requires
            self.wf(),
        ensures
            match r {
                Some(i) => i < self.entries@.len() && self.entries@[i as int].0@ == id@,
                None => !self.credentials().contains_key(id@),
            },
    {
        let n = self.entries.len();
        let mut i: usize = 0;
        while i < n
            invariant
                n == self.entries@.len(),
                0 <= i <= n,
                forall|j: int| 0 <= j < i ==> (#[trigger] self.entries@[j].0)@ != id@,
            decreases n - i,
        {
            if ids_equal(&self.entries[i].0, id) {
                return Some(i);
            }
            i += 1;
        }
        proof {
            lemma_store_absent(self.entries@, id@);
        }
        None
    }

    /// The credential stored under `id`.
    pub fn get(&self, id: &[u8; 16]) -> (r: Option<CredentialState>)
        requires
            self.wf(),
        ensures
            r == (if self.credentials().contains_key(id@) {
                Some(self.credentials()[id@])
            } else {
                None::<CredentialState>
            }),
    {
        match self.position(id) {
            Some(i) => {
                proof {
                    lemma_store_lookup(self.entries@, i as int);
                }
                Some(self.entries[i].1)
            },
            None => None,
        }
    }

    /// Store `c` under `id`, replacing what was stored there.
    pub fn put(&mut self, id: &[u8; 16], c: CredentialState)
        requires
            old(self).wf(),
        ensures
            final(self).wf(),
            final(self).credentials() == old(self).credentials().insert(id@, c),
    {
        match self.position(id) {
            Some(i) => {
                let key = self.entries[i].0;
                proof {
                    lemma_store_update(self.entries@, i as int, c);
                }
                self.entries.set(i, (key, c));
            },
            None => {
                let ghost before = self.entries@;
                proof {
                    assert forall|j: int| 0 <= j < before.len() implies (#[trigger] before[j].0)@ != id@ by {
                        lemma_store_lookup(before, j);
                    }
                }
                self.entries.push((*id, c));
                proof {
                    assert(self.entries@.drop_last() =~= before);
                }
            },
        }
    }
}

/// A newly issued credential: not revoked, never used, with the given validity
/// window and quota.
pub open spec fn issued(not_before: Option<i64>, expires_at: Option<i64>, max_uses: Option<i64>) -> CredentialState {
    CredentialState { revoked_at: None, not_before, expires_at, max_uses, use_count: 0 }
}

/// Store a newly issued credential under the fresh id `id` and add a
/// `credential.issued` audit event for it. An id already in the store is a
/// conflict, and nothing changes.
pub fn issue_credential(
    store: &mut CredentialStore,
    audit: &mut AuditTrail,
    id: &[u8; 16],
    not_before: Option<i64>,
    expires_at: Option<i64>,
    max_uses: Option<i64>,
) -> (r: Result<CredentialState, ServiceError>)
    requires
        old(store).wf(),
    ensures
        final(store).wf(),
        old(store).credentials().contains_key(id@) <==> r is Err,
        r matches Err(e) ==> e == ServiceError::Conflict && final(store).credentials() == old(
            store,
        ).credentials() && final(audit).entries() == old(audit).entries(),
        r matches Ok(c) ==> c == issued(not_before, expires_at, max_uses) && final(store).credentials()
            == old(store).credentials().insert(id@, c) && final(audit).entries() == old(
            audit,
        ).entries().push((AuditKind::Issued, id@, None)),
{
    if store.get(id).is_some() {
        return Err(ServiceError::Conflict);
    }
    let c = CredentialState { revoked_at: None, not_before, expires_at, max_uses, use_count: 0 };
    store.put(id, c);
    audit.record(AuditKind::Issued, id, None);
    Ok(c)
}

/// What revoking the credential stored under `id` at `now` answers: not found,
/// refused if already revoked, else the revoked credential.
pub open spec fn revoke_answer(creds: Map<Seq<u8>, CredentialState>, id: Seq<u8>, now: i64) -> Result<
    CredentialState,
    ServiceError,
> {
    if !creds.contains_key(id) {
        Err(ServiceError::NotFound)
    } else {
        revoked(creds[id], now)
    }
}

/// Revoke the credential stored under `id` at `now`: an unknown id is not found,
/// a credential already revoked is refused, and either way nothing changes;
/// otherwise the stored credential is revoked (its use count kept) and a
/// `credential.revoked` audit event for it is added.
pub fn revoke(store: &mut CredentialStore, audit: &mut AuditTrail, id: &[u8; 16], now: i64) -> (r: Result<
    CredentialState,
    ServiceError,
>)
    requires
        old(store).wf(),
    ensures
        final(store).wf(),
        r == revoke_answer(old(store).credentials(), id@, now),
        r is Err ==> final(store).credentials() == old(store).credentials() && final(audit).entries()
            == old(audit).entries(),
        r is Ok ==> final(store).credentials() == old(store).credentials().insert(id@, r->Ok_0)
            && final(audit).entries() == old(audit).entries().push((AuditKind::Revoked, id@, None)),
{
    let c = match store.get(id) {
        Some(c) => c,
        None => return Err(ServiceError::NotFound),
    };
    match revoke_apply(&c, now) {
        Ok(d) => {
            store.put(id, d);
            audit.record(AuditKind::Revoked, id, None);
            Ok(d)
        },
        Err(e) => Err(e),
    }
}

/// Consumption never lets the use count pass the quota: a credential within
/// its quota stays within it, and each consumption adds exactly one use.
pub proof fn lemma_consume_within_quota(c: CredentialState, now: i64)
    requires
        c.max_uses matches Some(m) ==> c.use_count <= m,
    ensures
        consumed(c, now) matches Some(d) ==> d.use_count == c.use_count + 1 && (d.max_uses matches Some(
            m,
        ) ==> d.use_count <= m),
        consumed(c, now) is Some ==> consume_step_spec(c, None, now) == ConsumeStep::Attempt,
{
}

/// Consuming is only attempted on a valid credential; a key with a recorded
/// result is answered with that result, never consumed twice; revoked and
/// expired credentials are refused.
pub proof fn lemma_consume_step_guard(c: CredentialState, previous: Option<CredentialState>, now: i64)
    ensures
        consume_step_spec(c, previous, now) == ConsumeStep::Attempt <==> previous is None && status_at(
            c,
            now,
        ) == CredentialStatus::Valid,
        previous matches Some(p) ==> consume_step_spec(c, previous, now) == ConsumeStep::Replay(p),
        previous is None && c.revoked_at is Some ==> consume_step_spec(c, previous, now) == ConsumeStep::Refuse(
            ConsumeOutcome::Revoked,
            ServiceError::Revoked,
        ),
        previous is None && c.revoked_at is None && (c.expires_at matches Some(ea) && now >= ea) && !(
        c.not_before matches Some(nb) && now < nb) ==> consume_step_spec(c, previous, now)
            == ConsumeStep::Refuse(ConsumeOutcome::Expired, ServiceError::Expired),
{
}

/// After a revocation the credential is revoked at every later time, and
/// revoking it again is refused.
pub proof fn lemma_revoke_final(c: CredentialState, now: i64, later: i64)
    ensures
        revoked(c, now) matches Ok(d) ==> status_at(d, later) == CredentialStatus::Revoked && revoked(
            d,
            later,
        ) == Err::<CredentialState, ServiceError>(ServiceError::Conflict),
        c.revoked_at is Some ==> revoked(c, now) == Err::<CredentialState, ServiceError>(
            ServiceError::Conflict,
        ),
{
}

// ── Framing self-check ──────────────────────────────────────────────────────

/// Re-derive K_mac for a credential's token and check that sealing the token
/// opens back to it; a missing key id skips the check.
pub fn verify_framing(kms: &Kms, key_id: &str, cover_id: &[u8; 16], token_id: &[u8; 16]) -> (r: Result<
    (),
    ServiceError,
>)
    requires
        kms.wf(),
    ensures
        r is Ok,
{
    let (k_mac, _) = match kms.derive(key_id, cover_id, token_id) {
        Ok(v) => v,
        Err(_) => return Ok(()),
    };
    let params = Params { version: 1, payload_type: PayloadType::Credential, flags: 0 };
    let s = framing::seal(token_id.as_slice(), &params, &k_mac);
    proof {
        lemma_open_seal(token_id@, params, k_mac@);
    }
    let (_hdr, payload) = match framing::open(s.as_slice(), &k_mac) {
        Ok(x) => x,
        Err(_) => return Err(ServiceError::InvalidToken),
    };
    if payload.len() != 16 {
        return Err(ServiceError::InvalidToken);
    }
    let mut i: usize = 0;
    while i < 16
        invariant
            0 <= i <= 16,
            payload@ == token_id@,
        decreases 16 - i,
    {
        if payload[i] != token_id[i] {
            return Err(ServiceError::InvalidToken);
        }
        i += 1;
    }
    Ok(())
}

// ── Message objects ─────────────────────────────────────────────────────────

/// A stored object needs a 12-byte nonce and a 16-byte tag.
pub fn check_object_lengths(nonce: &[u8], tag: &[u8]) -> (r: Result<(), ServiceError>)
    ensures
        r is Ok <==> nonce@.len() == 12 && tag@.len() == 16,
        r matches Err(e) ==> e == ServiceError::InvalidStoredObject,
{
    if nonce.len() != 12 || tag.len() != 16 {
        Err(ServiceError::InvalidStoredObject)
    } else {
        Ok(())
    }
}

/// The key to decrypt an object with: the override if given, else the stored
/// content key (which must be 32 bytes).
pub fn select_content_key(key_override: Option<[u8; 32]>, stored: Option<&[u8]>) -> (r: Result<
    [u8; 32],
    ServiceError,
>)
    ensures
        key_override matches Some(k) ==> r == Ok::<[u8; 32], ServiceError>(k),
        key_override is None ==> match stored {
            Some(s) => if s@.len() == 32 {
                r matches Ok(k) && k@ == s@
            } else {
                r == Err::<[u8; 32], ServiceError>(ServiceError::InvalidStoredObject)
            },
            None => r == Err::<[u8; 32], ServiceError>(ServiceError::MissingContentKey),
        },
{
    if let Some(k) = key_override {
        return Ok(k);
    }
    match stored {
        Some(s) => {
            if s.len() != 32 {
                return Err(ServiceError::InvalidStoredObject);
            }
            let k = first_32(s);
            proof {
                assert(k@ =~= s@);
            }
            Ok(k)
        },
        None => Err(ServiceError::MissingContentKey),
    }
}

/// Decrypt a stored object: check the nonce and tag lengths, then AEAD-decrypt.
pub fn decrypt_object(ciphertext: &[u8], nonce: &[u8], tag: &[u8], key: &[u8; 32]) -> (r: Result<
    Vec<u8>,
    ServiceError,
>)
    ensures
        !(nonce@.len() == 12 && tag@.len() == 16) ==> r == Err::<Vec<u8>, ServiceError>(
            ServiceError::InvalidStoredObject,
        ),
        r matches Ok(p) ==> nonce@.len() == 12 && ciphertext@ + tag@ == crate::crypto::chacha20poly1305_seal(
            key@,
            nonce@,
            p@,
        ),
        nonce@.len() == 12 && tag@.len() == 16 ==> forall|q: Seq<u8>|
            pointer::aead_accepts(q.len()) && ciphertext@ + tag@ == #[trigger] crate::crypto::chacha20poly1305_seal(
                key@,
                nonce@,
                q,
            ) ==> (r matches Ok(p) && p@ == q),
        r matches Err(e) ==> e == ServiceError::InvalidStoredObject || e == ServiceError::Crypto,
{
    check_object_lengths(nonce, tag)?;
    let mut nonce_arr = [0u8; 12];
    let mut i: usize = 0;
    while i < 12
        invariant
            0 <= i <= 12,
            nonce@.len() == 12,
            forall|j: int| 0 <= j < i ==> nonce_arr@[j] == nonce@[j],
        decreases 12 - i,
    {
        nonce_arr[i] = nonce[i];
        i += 1;
    }
    proof {
        assert(nonce_arr@ =~= nonce@);
    }
    match pointer::aead_decrypt(ciphertext, tag, key, &nonce_arr) {
        Ok(p) => Ok(p),
        Err(_) => Err(ServiceError::Crypto),
    }
}

/// What object access reads: expiry, owner and the policy's allow list (as the
/// actor texts it names).
pub struct ObjectAccess {
    pub expires_at: Option<i64>,
    pub owner_id: Option<[u8; 16]>,
    pub allow: Option<Vec<String>>,
}

/// Whether the allow list names `actor_text`.
pub open spec fn allow_lists(allow: Seq<String>, actor_text: Seq<char>) -> bool {
    lists_text(allow, actor_text)
}

/// What `authorize_object` decides: expired objects are refused; an object with
/// an owner is readable by the owner, or by an actor its allow list names.
pub open spec fn object_access(a: &ObjectAccess, actor: Option<[u8; 16]>, actor_text: Seq<char>, now: i64) -> Result<(), ServiceError> {
    if a.expires_at matches Some(exp) && now >= exp {
        Err(ServiceError::Expired)
    } else {
        match a.owner_id {
            None => Ok(()),
            Some(owner) => match actor {
                None => Err(ServiceError::Unauthorized),
                Some(act) => if act@ == owner@ {
                    Ok(())
                } else {
                    match &a.allow {
                        Some(list) => if allow_lists(list@, actor_text) {
                            Ok(())
                        } else {
                            Err(ServiceError::Unauthorized)
                        },
                        None => Err(ServiceError::Unauthorized),
                    }
                },
            },
        }
    }
}

/// Access check for an object (no IDOR): `actor_text` is the actor's id in the
/// text form the allow list uses.
pub fn authorize_object(a: &ObjectAccess, actor: Option<[u8; 16]>, actor_text: &str, now: i64) -> (r: Result<
    (),
    ServiceError,
>)
    ensures
        r == object_access(a, actor, actor_text@, now),
{
    if let Some(exp) = a.expires_at {
        if now >= exp {
            return Err(ServiceError::Expired);
        }
    }
    let owner = match a.owner_id {
        None => return Ok(()),
        Some(o) => o,
    };
    let act = match actor {
        None => return Err(ServiceError::Unauthorized),
        Some(x) => x,
    };
    let mut same = true;
    let mut i: usize = 0;
    while i < 16
        invariant
            0 <= i <= 16,
            same <==> forall|j: int| 0 <= j < i ==> act@[j] == owner@[j],
        decreases 16 - i,
    {
        if act[i] != owner[i] {
            same = false;
        }
        i += 1;
    }
    proof {
        if same {
            assert(act@ =~= owner@);
        }
    }
    if same {
        return Ok(());
    }
    proof {
        assert(act@ != owner@) by {
            if act@ == owner@ {
                assert(forall|j: int| 0 <= j < 16 ==> act@[j] == owner@[j]);
            }
        }
    }
    match &a.allow {
        None => Err(ServiceError::Unauthorized),
        Some(list) => if contains_text(list, actor_text) {
            Ok(())
        } else {
            Err(ServiceError::Unauthorized)
        },
    }
}

/// Offline resolve once the object is loaded: check access, then decrypt with
/// the content key from the carrier.
pub fn open_offline_object(
    access: &ObjectAccess,
    actor: Option<[u8; 16]>,
    actor_text: &str,
    now: i64,
    ciphertext: &[u8],
    nonce: &[u8],
    tag: &[u8],
    content_key: &[u8; 32],
) -> (r: Result<Vec<u8>, ServiceError>)
    ensures
        object_access(access, actor, actor_text@, now) matches Err(e) ==> r == Err::<Vec<u8>, ServiceError>(e),
        object_access(access, actor, actor_text@, now) is Ok ==> (!(nonce@.len() == 12 && tag@.len() == 16) ==> r
            == Err::<Vec<u8>, ServiceError>(ServiceError::InvalidStoredObject)),
        r matches Ok(p) ==> object_access(access, actor, actor_text@, now) is Ok && ciphertext@ + tag@
            == crate::crypto::chacha20poly1305_seal(content_key@, nonce@, p@),
        object_access(access, actor, actor_text@, now) is Ok && nonce@.len() == 12 && tag@.len() == 16 ==> forall|q: Seq<u8>|
            pointer::aead_accepts(q.len()) && ciphertext@ + tag@ == #[trigger] crate::crypto::chacha20poly1305_seal(
                content_key@,
                nonce@,
                q,
            ) ==> (r matches Ok(p) && p@ == q),
{
    match authorize_object(access, actor, actor_text, now) {
        Ok(()) => decrypt_object(ciphertext, nonce, tag, content_key),
        Err(e) => Err(e),
    }
}

/// Resolve-and-decrypt once the object is loaded: pick the key (override, else
/// the stored content key), then decrypt.
pub fn decrypt_resolved(
    key_override: Option<[u8; 32]>,
    stored_key: Option<&[u8]>,
    ciphertext: &[u8],
    nonce: &[u8],
    tag: &[u8],
) -> (r: Result<Vec<u8>, ServiceError>)
    ensures
        key_override is None && stored_key is None ==> r == Err::<Vec<u8>, ServiceError>(ServiceError::MissingContentKey),
        key_override is None && (stored_key matches Some(k) && k@.len() != 32) ==> r == Err::<Vec<u8>, ServiceError>(
            ServiceError::InvalidStoredObject,
        ),
        r matches Ok(p) ==> nonce@.len() == 12 && exists|k: [u8; 32]|
            (key_override == Some(k) || (key_override is None && (stored_key matches Some(s) && s@ == k@)))
                && ciphertext@ + tag@ == crate::crypto::chacha20poly1305_seal(k@, nonce@, p@),
{
    let key = match select_content_key(key_override, stored_key) {
        Ok(k) => k,
        Err(e) => return Err(e),
    };
    decrypt_object(ciphertext, nonce, tag, &key)
}

/// How a store-message request is served.
pub enum StorePlan {
    /// Encrypt this plaintext server-side.
    Encrypt(Vec<u8>),
    /// Store this already-encrypted object.
    Store { ciphertext: Vec<u8>, nonce: Vec<u8>, tag: Vec<u8> },
}

/// An optional base64 field decoded with the standard alphabet.
pub open spec fn field_decoded(f: Option<Seq<char>>) -> Option<Seq<u8>> {
    match f {
        Some(t) => base64_standard_decode(t),
        None => None,
    }
}

fn decode_field(f: Option<&str>) -> (r: Option<Vec<u8>>)
    ensures
        opt_bytes(r) == field_decoded(
            match f {
                Some(t) => Some(t@),
                None => None,
            },
        ),
{
    match f {
        Some(t) => base64_standard_decode_str(t),
        None => None,
    }
}

/// Decide a store-message request from its base64 fields: a plaintext field
/// selects server-side encryption; otherwise cipher text, nonce and tag must all
/// be present. Any missing field or bad base64 refuses the body.
pub fn store_plan(
    plaintext_b64: Option<&str>,
    ciphertext_b64: Option<&str>,
    nonce_b64: Option<&str>,
    tag_b64: Option<&str>,
) -> (r: Result<StorePlan, ServiceError>)
    ensures
        match plaintext_b64 {
            Some(p) => match base64_standard_decode(p@) {
                Some(bytes) => r matches Ok(StorePlan::Encrypt(v)) && v@ == bytes,
                None => r matches Err(e) && e == ServiceError::BadRequestBody,
            },
            None => {
                let ct = field_decoded(match ciphertext_b64 { Some(t) => Some(t@), None => None });
                let nc = field_decoded(match nonce_b64 { Some(t) => Some(t@), None => None });
                let tg = field_decoded(match tag_b64 { Some(t) => Some(t@), None => None });
                if ct is Some && nc is Some && tg is Some {
                    r matches Ok(StorePlan::Store { ciphertext, nonce, tag }) && ciphertext@ == ct->0
                        && nonce@ == nc->0 && tag@ == tg->0
                } else {
                    r matches Err(e) && e == ServiceError::BadRequestBody
                }
            },
        },
{
    if let Some(p) = plaintext_b64 {
        return match base64_standard_decode_str(p) {
            Some(bytes) => Ok(StorePlan::Encrypt(bytes)),
            None => Err(ServiceError::BadRequestBody),
        };
    }
    let ct = decode_field(ciphertext_b64);
    let nc = decode_field(nonce_b64);
    let tg = decode_field(tag_b64);
    match (ct, nc, tg) {
        (Some(ciphertext), Some(nonce), Some(tag)) => Ok(StorePlan::Store { ciphertext, nonce, tag }),
        _ => Err(ServiceError::BadRequestBody),
    }
}

} // verus!
