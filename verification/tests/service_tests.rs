use capglyph::service::{
    consume, issue_credential, revoke, AuditKind, AuditTrail, ConsumeLog, CredentialStore,
    decrypt_resolved, http_status, idempotency_key, open_offline_object, store_plan, token_lookup,
    StorePlan,
    authorize_object, check_object_lengths, consume_apply, consume_finish, consume_step,
    credential_status, decrypt_object, issue_artifacts, issue_keys, revoke_apply,
    select_content_key, verify_framing, verify_outcome, ConsumeOutcome, ConsumeStep,
    CredentialState, CredentialStatus, Kms, ObjectAccess, ServiceError,
};
use capglyph::pointer::aead_encrypt;

fn state() -> CredentialState {
    CredentialState { revoked_at: None, not_before: Some(100), expires_at: Some(200), max_uses: Some(2), use_count: 0 }
}

#[test]
fn kms_store_and_lookup() {
    let kms = Kms::new().with_key("a".to_string(), [1u8; 32]).with_key("b".to_string(), [2u8; 32]);
    assert_eq!(kms.get_master("a"), Ok([1u8; 32]));
    assert_eq!(kms.get_master("b"), Ok([2u8; 32]));
    assert_eq!(kms.get_master("c"), Err(ServiceError::NotFound));
    let kms = kms.with_key("a".to_string(), [3u8; 32]);
    assert_eq!(kms.get_master("a"), Ok([3u8; 32]));
    let mut kms = kms;
    let m = kms.generate_key_id("fresh");
    assert_eq!(kms.get_master("fresh"), Ok(m));
}

#[test]
fn kms_derive_is_domain_separated() {
    let kms = Kms::new().with_key("default".to_string(), [5u8; 32]);
    let (k_mac, k_embed) = kms.derive("default", &[1u8; 16], &[2u8; 16]).unwrap();
    assert_ne!(k_mac, k_embed);
    assert_eq!(k_mac, Kms::prf(&[5u8; 32], b"capglyph-k-mac-v1", &[1u8; 16], &[2u8; 16]));
    assert_eq!(kms.derive("missing", &[1u8; 16], &[2u8; 16]), Err(ServiceError::NotFound));
    let (z_mac, _) = issue_keys(&kms, "missing", &[1u8; 16], &[2u8; 16]);
    assert_eq!(z_mac, Kms::prf(&[0u8; 32], b"capglyph-k-mac-v1", &[1u8; 16], &[2u8; 16]));
}

#[test]
fn status_order() {
    let c = state();
    assert_eq!(credential_status(&c, 50), CredentialStatus::NotYetValid);
    assert_eq!(credential_status(&c, 150), CredentialStatus::Valid);
    assert_eq!(credential_status(&c, 200), CredentialStatus::Expired);
    let used = CredentialState { use_count: 2, ..c };
    assert_eq!(credential_status(&used, 150), CredentialStatus::Exhausted);
    let revoked = CredentialState { revoked_at: Some(1), ..used };
    assert_eq!(credential_status(&revoked, 250), CredentialStatus::Revoked);
    assert_eq!(CredentialStatus::NotYetValid.name(), "not_yet_valid");
}

#[test]
fn verify_outcomes() {
    assert_eq!(verify_outcome(CredentialStatus::Valid), Ok(CredentialStatus::Valid));
    assert_eq!(verify_outcome(CredentialStatus::NotYetValid), Err(ServiceError::Expired));
    assert_eq!(verify_outcome(CredentialStatus::Expired), Err(ServiceError::Expired));
    assert_eq!(verify_outcome(CredentialStatus::Revoked), Err(ServiceError::Revoked));
    assert_eq!(verify_outcome(CredentialStatus::Exhausted), Err(ServiceError::Exhausted));
}

#[test]
fn consume_steps_and_quota() {
    let c = state();
    assert_eq!(consume_step(&c, Some(c), 0), ConsumeStep::Replay(c));
    assert_eq!(
        consume_step(&c, None, 50),
        ConsumeStep::Refuse(ConsumeOutcome::NotYetValid, ServiceError::Expired)
    );
    assert_eq!(consume_step(&c, None, 150), ConsumeStep::Attempt);
    let c1 = consume_apply(&c, 150).unwrap();
    let c2 = consume_apply(&c1, 150).unwrap();
    assert_eq!(c2.use_count, 2);
    assert_eq!(consume_apply(&c2, 150), None);
    assert_eq!(
        consume_step(&c2, None, 150),
        ConsumeStep::Refuse(ConsumeOutcome::Exhausted, ServiceError::Exhausted)
    );
    assert_eq!(consume_finish(Some(3)), Ok(3));
    assert_eq!(consume_finish(None), Err((ConsumeOutcome::ExhaustedRace, ServiceError::Exhausted)));
    assert_eq!(ConsumeOutcome::ExhaustedRace.name(), "exhausted_race");
}

#[test]
fn revoke_once() {
    let c = state();
    let r = revoke_apply(&c, 120).unwrap();
    assert_eq!(r.revoked_at, Some(120));
    assert_eq!(revoke_apply(&r, 130), Err(ServiceError::Conflict));
    assert_eq!(credential_status(&r, 150), CredentialStatus::Revoked);
}

#[test]
fn framing_self_check_passes() {
    let kms = Kms::new().with_key("k".to_string(), [8u8; 32]);
    assert_eq!(verify_framing(&kms, "k", &[1u8; 16], &[2u8; 16]), Ok(()));
    assert_eq!(verify_framing(&kms, "absent", &[1u8; 16], &[2u8; 16]), Ok(()));
}

#[test]
fn issue_artifacts_shape() {
    let (sealed, coded, digest) = issue_artifacts(&[3u8; 16], &[4u8; 32]);
    assert_eq!(coded.len(), sealed.len() * 64);
    assert_eq!(digest.len(), 32);
}

#[test]
fn object_access_rules() {
    let owner = [1u8; 16];
    let other = [2u8; 16];
    let open_obj = ObjectAccess { expires_at: None, owner_id: None, allow: None };
    assert_eq!(authorize_object(&open_obj, None, "", 0), Ok(()));
    let owned = ObjectAccess { expires_at: Some(10), owner_id: Some(owner), allow: Some(vec!["friend".to_string()]) };
    assert_eq!(authorize_object(&owned, Some(owner), "o", 5), Ok(()));
    assert_eq!(authorize_object(&owned, Some(owner), "o", 10), Err(ServiceError::Expired));
    assert_eq!(authorize_object(&owned, None, "", 5), Err(ServiceError::Unauthorized));
    assert_eq!(authorize_object(&owned, Some(other), "friend", 5), Ok(()));
    assert_eq!(authorize_object(&owned, Some(other), "stranger", 5), Err(ServiceError::Unauthorized));
    let no_list = ObjectAccess { expires_at: None, owner_id: Some(owner), allow: None };
    assert_eq!(authorize_object(&no_list, Some(other), "friend", 5), Err(ServiceError::Unauthorized));
}

#[test]
fn stored_object_decrypt() {
    let key = [6u8; 32];
    let nonce = [7u8; 12];
    let (ct, tag) = aead_encrypt(b"msg", &key, &nonce).unwrap();
    assert_eq!(decrypt_object(&ct, &nonce, &tag, &key), Ok(b"msg".to_vec()));
    assert_eq!(decrypt_object(&ct, &nonce[..11], &tag, &key), Err(ServiceError::InvalidStoredObject));
    assert_eq!(decrypt_object(&ct, &nonce, &tag, &[0u8; 32]), Err(ServiceError::Crypto));
    assert_eq!(check_object_lengths(&nonce, &tag), Ok(()));
    assert_eq!(select_content_key(Some(key), None), Ok(key));
    assert_eq!(select_content_key(None, Some(&key[..])), Ok(key));
    assert_eq!(select_content_key(None, Some(&key[..5])), Err(ServiceError::InvalidStoredObject));
    assert_eq!(select_content_key(None, None), Err(ServiceError::MissingContentKey));
}

#[test]
fn http_status_codes() {
    assert_eq!(http_status(ServiceError::NotFound), 404);
    assert_eq!(http_status(ServiceError::Conflict), 409);
    assert_eq!(http_status(ServiceError::Expired), 410);
    assert_eq!(http_status(ServiceError::Revoked), 410);
    assert_eq!(http_status(ServiceError::Exhausted), 429);
    assert_eq!(http_status(ServiceError::InvalidToken), 400);
    assert_eq!(http_status(ServiceError::Unauthorized), 403);
    assert_eq!(http_status(ServiceError::Crypto), 500);
}

#[test]
fn idempotency_key_precedence() {
    assert_eq!(idempotency_key(Some("h".into()), Some("b".into())), Ok("h".to_string()));
    assert_eq!(idempotency_key(None, Some("b".into())), Ok("b".to_string()));
    assert_eq!(idempotency_key(None, None), Err(ServiceError::MissingIdempotencyKey));
}

#[test]
fn token_lookup_hashes_token() {
    let (t, h) = token_lookup("AAAAAAAAAAAAAAAAAAAAAA").unwrap();
    assert_eq!(t, [0u8; 16]);
    assert_eq!(h, capglyph::models::sha256(&[0u8; 16]));
    assert_eq!(token_lookup("nope"), Err(ServiceError::InvalidToken));
}

#[test]
fn offline_and_resolved_decrypt() {
    let key = [6u8; 32];
    let nonce = [7u8; 12];
    let (ct, tag) = aead_encrypt(b"msg", &key, &nonce).unwrap();
    let access = ObjectAccess { expires_at: None, owner_id: Some([1u8; 16]), allow: None };
    assert_eq!(open_offline_object(&access, Some([1u8; 16]), "", 0, &ct, &nonce, &tag, &key), Ok(b"msg".to_vec()));
    assert_eq!(
        open_offline_object(&access, Some([2u8; 16]), "", 0, &ct, &nonce, &tag, &key),
        Err(ServiceError::Unauthorized)
    );
    assert_eq!(decrypt_resolved(None, Some(&key[..]), &ct, &nonce, &tag), Ok(b"msg".to_vec()));
    assert_eq!(decrypt_resolved(None, None, &ct, &nonce, &tag), Err(ServiceError::MissingContentKey));
}

#[test]
fn store_plans() {
    match store_plan(Some("aGVsbG8="), None, None, None) {
        Ok(StorePlan::Encrypt(p)) => assert_eq!(p, b"hello".to_vec()),
        _ => panic!("expected an encrypt plan"),
    }
    assert!(matches!(store_plan(Some("***"), None, None, None), Err(ServiceError::BadRequestBody)));
    match store_plan(None, Some("AQID"), Some("AAAAAAAAAAAAAAAA"), Some("AAAAAAAAAAAAAAAAAAAAAA==")) {
        Ok(StorePlan::Store { ciphertext, nonce, tag }) => {
            assert_eq!(ciphertext, vec![1, 2, 3]);
            assert_eq!(nonce.len(), 12);
            assert_eq!(tag.len(), 16);
        }
        _ => panic!("expected a store plan"),
    }
    assert!(matches!(store_plan(None, Some("AQID"), None, Some("AA==")), Err(ServiceError::BadRequestBody)));
}

const CRED_ID: [u8; 16] = [7u8; 16];

fn fresh(max_uses: Option<i64>) -> CredentialState {
    CredentialState { revoked_at: None, not_before: None, expires_at: None, max_uses, use_count: 0 }
}

#[test]
fn replayed_idempotency_key_is_not_counted() {
    let mut log = ConsumeLog::new();
    let mut audit = AuditTrail::new();
    let mut c = fresh(Some(5));
    let first = consume(&mut log, &mut audit, &mut c, &CRED_ID, "idem-replay-1", 10).unwrap();
    assert_eq!(first.use_count, 1);
    let replay = consume(&mut log, &mut audit, &mut c, &CRED_ID, "idem-replay-1", 11).unwrap();
    assert_eq!(replay, first);
    assert_eq!(c.use_count, 1);
    let second = consume(&mut log, &mut audit, &mut c, &CRED_ID, "idem-replay-2", 12).unwrap();
    assert_eq!(second.use_count, 2);
    assert_eq!(c.use_count, 2);
    // the first key still answers its own result, not the current row
    assert_eq!(consume(&mut log, &mut audit, &mut c, &CRED_ID, "idem-replay-1", 13).unwrap().use_count, 1);
    assert_eq!(c.use_count, 2);
}

#[test]
fn verify_leaves_use_count_and_quota() {
    let mut log = ConsumeLog::new();
    let mut audit = AuditTrail::new();
    let mut c = fresh(Some(2));
    for now in 0..5 {
        assert_eq!(verify_outcome(credential_status(&c, now)), Ok(CredentialStatus::Valid));
    }
    assert_eq!(c.use_count, 0);
    assert_eq!(consume(&mut log, &mut audit, &mut c, &CRED_ID, "quota-test-1", 6).unwrap().use_count, 1);
    assert_eq!(consume(&mut log, &mut audit, &mut c, &CRED_ID, "quota-test-2", 7).unwrap().use_count, 2);
    assert_eq!(consume(&mut log, &mut audit, &mut c, &CRED_ID, "quota-test-3", 8), Err(ServiceError::Exhausted));
    assert_eq!(c.use_count, 2);
}

#[test]
fn revoked_state_refuses_verify_and_consume() {
    let mut log = ConsumeLog::new();
    let mut audit = AuditTrail::new();
    let mut c = revoke_apply(&fresh(Some(5)), 1).unwrap();
    assert_eq!(verify_outcome(credential_status(&c, 2)), Err(ServiceError::Revoked));
    assert_eq!(consume(&mut log, &mut audit, &mut c, &CRED_ID, "idem-after-revoke", 2), Err(ServiceError::Revoked));
    assert_eq!(consume_step(&c, None, 2), ConsumeStep::Refuse(ConsumeOutcome::Revoked, ServiceError::Revoked));
    assert_eq!(log.previous("idem-after-revoke"), None);
}

#[test]
fn expired_state_refuses_consume() {
    let mut log = ConsumeLog::new();
    let mut audit = AuditTrail::new();
    let mut c = CredentialState { expires_at: Some(100), ..fresh(None) };
    assert_eq!(consume(&mut log, &mut audit, &mut c, &CRED_ID, "late", 100), Err(ServiceError::Expired));
    assert_eq!(consume_step(&c, None, 101), ConsumeStep::Refuse(ConsumeOutcome::Expired, ServiceError::Expired));
    assert_eq!(consume(&mut log, &mut audit, &mut c, &CRED_ID, "early", 99).unwrap().use_count, 1);
}

#[test]
fn not_yet_valid_is_answered_as_expired() {
    let c = CredentialState { not_before: Some(100), ..fresh(None) };
    assert_eq!(credential_status(&c, 50), CredentialStatus::NotYetValid);
    assert_eq!(verify_outcome(credential_status(&c, 50)), Err(ServiceError::Expired));
    let mut log = ConsumeLog::new();
    let mut audit = AuditTrail::new();
    let mut c2 = c;
    assert_eq!(consume(&mut log, &mut audit, &mut c2, &CRED_ID, "k", 50), Err(ServiceError::Expired));
}

#[test]
fn sequential_consumes_never_exceed_quota() {
    for m in [1i64, 3] {
        let mut log = ConsumeLog::new();
        let mut audit = AuditTrail::new();
        let mut c = fresh(Some(m));
        let mut successes = Vec::new();
        for i in 0..10 {
            match consume(&mut log, &mut audit, &mut c, &CRED_ID, &format!("key-{i}"), 5) {
                Ok(d) => successes.push(d.use_count),
                Err(e) => assert_eq!(e, ServiceError::Exhausted),
            }
        }
        assert_eq!(successes, (1..=m).collect::<Vec<i64>>());
        assert_eq!(c.use_count, m);
    }
}

#[test]
fn revoked_credential_cannot_be_consumed() {
    let mut store = CredentialStore::new();
    let mut audit = AuditTrail::new();
    let mut log = ConsumeLog::new();
    issue_credential(&mut store, &mut audit, &CRED_ID, None, None, Some(5)).unwrap();
    revoke(&mut store, &mut audit, &CRED_ID, 10).unwrap();
    let mut c = store.get(&CRED_ID).unwrap();
    assert_eq!(verify_outcome(credential_status(&c, 11)), Err(ServiceError::Revoked));
    assert_eq!(consume(&mut log, &mut audit, &mut c, &CRED_ID, "idem-after-revoke", 11), Err(ServiceError::Revoked));
    assert!(audit.events.iter().any(|e| e.kind.event_type() == "credential.revoked" && e.object_id == CRED_ID));
}

#[test]
fn audit_trail_records_issue_consume_revoke() {
    let mut store = CredentialStore::new();
    let mut audit = AuditTrail::new();
    let mut log = ConsumeLog::new();
    issue_credential(&mut store, &mut audit, &CRED_ID, None, None, Some(2)).unwrap();
    let mut c = store.get(&CRED_ID).unwrap();
    consume(&mut log, &mut audit, &mut c, &CRED_ID, "audit-idem-1", 1).unwrap();
    store.put(&CRED_ID, c);
    revoke(&mut store, &mut audit, &CRED_ID, 2).unwrap();
    let types: Vec<&str> = audit.events.iter().filter(|e| e.object_id == CRED_ID).map(|e| e.kind.event_type()).collect();
    assert!(types.contains(&"credential.issued"));
    assert!(types.contains(&"credential.consumed"));
    assert!(types.contains(&"credential.revoked"));
    assert_eq!(audit.events[1].idempotency_key.as_deref(), Some("audit-idem-1"));
}

#[test]
fn revoke_errors_change_nothing() {
    let mut store = CredentialStore::new();
    let mut audit = AuditTrail::new();
    assert_eq!(revoke(&mut store, &mut audit, &CRED_ID, 1), Err(ServiceError::NotFound));
    issue_credential(&mut store, &mut audit, &CRED_ID, None, None, None).unwrap();
    assert_eq!(issue_credential(&mut store, &mut audit, &CRED_ID, None, None, None), Err(ServiceError::Conflict));
    let r = revoke(&mut store, &mut audit, &CRED_ID, 3).unwrap();
    assert_eq!(r.revoked_at, Some(3));
    assert_eq!(r.use_count, 0);
    assert_eq!(revoke(&mut store, &mut audit, &CRED_ID, 4), Err(ServiceError::Conflict));
    assert_eq!(store.get(&CRED_ID).unwrap().revoked_at, Some(3));
    assert_eq!(audit.events.len(), 2);
    assert_eq!(audit.events[1].kind, AuditKind::Revoked);
}

#[test]
fn replay_and_refusal_add_no_audit_event() {
    let mut log = ConsumeLog::new();
    let mut audit = AuditTrail::new();
    let mut c = fresh(Some(1));
    consume(&mut log, &mut audit, &mut c, &CRED_ID, "k1", 1).unwrap();
    consume(&mut log, &mut audit, &mut c, &CRED_ID, "k1", 2).unwrap();
    assert_eq!(consume(&mut log, &mut audit, &mut c, &CRED_ID, "k2", 3), Err(ServiceError::Exhausted));
    assert_eq!(audit.events.len(), 1);
    assert_eq!(audit.events[0].kind, AuditKind::Consumed);
}
