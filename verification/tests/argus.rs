//! Tokens: issue, verify, revoke.

use mneme::argus::{Argus, AuthError};
use mneme::users::UsersDb;

fn argus() -> Argus {
    Argus::new(b"test-secret-key-1234567890abcdef")
}

#[test]
fn issue_and_verify_ok() {
    let a = argus();
    let token = a.issue(42, 3600).unwrap();
    let claims = a.verify(&token).unwrap();
    assert_eq!(claims.user_id, 42);
}

#[test]
fn expired_token_rejected() {
    let a = argus();
    // TTL of 0 gives exp == iat, so already expired
    let token = a.issue(1, 0).unwrap();
    assert!(a.verify(&token).is_err());
}

#[test]
fn wrong_secret_rejected() {
    let a1 = Argus::new(b"secret-one");
    let a2 = Argus::new(b"secret-two");
    let token = a1.issue(1, 3600).unwrap();
    assert!(a2.verify(&token).is_err());
}

#[test]
fn revoked_token_rejected() {
    let mut a = argus();
    let token = a.issue(7, 3600).unwrap();
    a.revoke(&token).unwrap();
    assert!(a.verify(&token).is_err());
}

#[test]
fn tampered_payload_rejected() {
    let a = argus();
    let token = a.issue(1, 3600).unwrap();
    // Replace a byte in the payload section (before the last '.')
    let dot = token.rfind('.').unwrap();
    let mut chars: Vec<char> = token.chars().collect();
    // Flip case of a character inside the payload
    if dot > 2 {
        chars[2] = if chars[2].is_ascii_uppercase() { 'a' } else { 'A' };
    }
    let tampered: String = chars.into_iter().collect();
    if tampered != token {
        assert!(a.verify(&tampered).is_err());
    }
}

#[test]
fn cluster_tag_verify() {
    let a = argus();
    let msg = b"hello-node-2";
    let sig = a.sign(msg).unwrap();
    assert!(a.verify_cluster_tag(msg, &sig));
    assert!(!a.verify_cluster_tag(b"wrong", &sig));
}

#[test]
fn revoke_does_not_affect_other_tokens() {
    let mut a = argus();
    let t1 = a.issue(1, 3600).unwrap();
    let t2 = a.issue(2, 3600).unwrap();
    a.revoke(&t1).unwrap();
    assert!(a.verify(&t1).is_err());
    assert!(a.verify(&t2).is_ok());
}

#[test]
fn malformed_token_rejected() {
    let a = argus();
    assert!(a.verify("not-a-token").is_err());
    assert!(a.verify("").is_err());
    assert!(a.verify("a.b.c.d").is_err());
}

/// Helper: create an Argus backed by a UsersDb with a pre-created user.
fn argus_with_user(username: &str, password: &str, role: &str) -> Argus {
    let mut db = UsersDb::in_memory();
    db.create_user(username, password, role).unwrap();
    Argus::with_users_db(b"test-secret-key-1234567890abcdef", db)
}

#[test]
fn auth_valid_user() {
    let a = argus_with_user("alice", "hunter2", "admin");
    let (token, claims) = a.auth_user("alice", "hunter2").unwrap();
    assert!(!token.is_empty());
    assert_eq!(claims.user_id, 1);
    // Token should also be verifiable.
    let verified = a.verify(&token).unwrap();
    assert_eq!(verified.user_id, claims.user_id);
}

#[test]
fn auth_invalid_password() {
    let a = argus_with_user("alice", "hunter2", "admin");
    let result = a.auth_user("alice", "wrong-password");
    assert!(result.is_err());
}

#[test]
fn auth_nonexistent_user() {
    let a = argus_with_user("alice", "hunter2", "admin");
    let result = a.auth_user("nobody", "whatever");
    assert!(result.is_err());
}

#[test]
fn validate_expired_token() {
    // Use a TTL of 0 so the token is expired at issuance.
    let mut db = UsersDb::in_memory();
    db.create_user("alice", "pw", "admin").unwrap();
    let a = Argus::with_config(b"test-secret", db, 0);
    let (token, _) = a.auth_user("alice", "pw").unwrap();
    let err = a.verify(&token).unwrap_err();
    assert!(err.message().contains("expired"));
}

#[test]
fn validate_revoked_token() {
    let mut a = argus_with_user("alice", "pw", "admin");
    let (token, _) = a.auth_user("alice", "pw").unwrap();
    // Verify it works before revocation.
    assert!(a.verify(&token).is_ok());
    // Revoke the token.
    a.revoke(&token).unwrap();
    // Verify it is rejected with "revoked".
    let err = a.verify(&token).unwrap_err();
    assert!(err.message().contains("revoked"));
}

#[test]
fn validate_tampered_token() {
    let a = argus_with_user("alice", "pw", "admin");
    let (token, _) = a.auth_user("alice", "pw").unwrap();
    // Tamper with a byte in the payload (before the dot).
    let mut bytes = token.into_bytes();
    // Flip a bit in the 3rd byte of the payload section.
    bytes[2] ^= 0x01;
    let tampered = String::from_utf8(bytes).unwrap();
    let err = a.verify(&tampered).unwrap_err();
    // Should fail with invalid signature or bad payload.
    let msg = err.message();
    assert!(msg.contains("invalid") || msg.contains("bad"));
}

#[test]
fn issue_token_csprng_jti() {
    let a = argus_with_user("alice", "pw", "admin");
    let (_, claims1) = a.auth_user("alice", "pw").unwrap();
    let (_, claims2) = a.auth_user("alice", "pw").unwrap();
    assert_ne!(claims1.jti, claims2.jti, "JTIs must differ (CSPRNG)");
}

#[test]
fn role_in_claims() {
    let a = argus_with_user("alice", "pw", "admin");
    let (_, claims) = a.auth_user("alice", "pw").unwrap();
    assert_eq!(claims.role, "admin");
}

#[test]
fn allowed_dbs_in_claims() {
    let mut db = UsersDb::in_memory();
    db.create_user("alice", "pw", "admin").unwrap();
    db.grant_db("alice", 1).unwrap();
    db.grant_db("alice", 5).unwrap();
    db.grant_db("alice", 10).unwrap();
    let a = Argus::with_users_db(b"test-secret-key-1234567890abcdef", db);
    let (_, claims) = a.auth_user("alice", "pw").unwrap();
    assert_eq!(claims.allowed_dbs, vec![1, 5, 10]);
}

#[test]
fn revocations_add_up() {
    let mut a = argus();
    let tokens: Vec<String> = (0..5).map(|i| a.issue(i, 3600).unwrap()).collect();
    for t in &tokens[..4] {
        a.revoke(t).unwrap();
    }
    for t in &tokens[..4] {
        assert!(a.verify(t).is_err());
    }
    assert_eq!(a.verify(&tokens[4]).unwrap().user_id, 4);
}

#[test]
fn a_session_may_not_last_beyond_all_times() {
    let mut users = UsersDb::in_memory();
    users.create_user("ann", "pw", "admin").unwrap();
    let a = Argus::with_config(b"secret", users, u64::MAX);
    assert_eq!(a.session_claims("ann", "pw", 1, 7).unwrap_err(), AuthError::TtlTooLong);
    assert_eq!(a.auth_user_at("ann", "pw", 1, 7).unwrap_err(), AuthError::TtlTooLong);
    let c = a.session_claims("ann", "pw", 0, 7).unwrap();
    assert_eq!((c.iat, c.exp, c.jti, c.role.as_str()), (0, u64::MAX, 7, "admin"));
    assert!(matches!(a.session_claims("ann", "no", 0, 7), Err(AuthError::User(_))));
}
