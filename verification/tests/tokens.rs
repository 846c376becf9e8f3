//! Known values behind tokens and passwords.

use base64::engine::general_purpose::URL_SAFE_NO_PAD;
use base64::Engine;
use mneme::argus::{Argus, AuthError, Claims};
use mneme::crypto::constant_time_eq;
use mneme::named_claims::announces;
use mneme::text::hex_of_bytes;
use mneme::users::{UserError, UsersDb};
use std::collections::BTreeMap;

#[test]
fn tags_are_hmac_sha256() {
    let a = Argus::new(b"Jefe");
    let tag = a.sign(b"what do ya want for nothing?").unwrap();
    assert_eq!(hex_of_bytes(&tag), "5bdcc146bf60754e6a042426089575c75a003f089d2739839dec58b964ec3843");
    assert!(a.verify_cluster_tag(b"what do ya want for nothing?", &tag));
    assert!(!a.verify_cluster_tag(b"what do ya want for nothing", &tag));
    assert!(constant_time_eq(b"ab", b"ab") && !constant_time_eq(b"ab", b"abc"));
}

#[test]
fn passwords_are_derived() {
    let mut db = UsersDb::in_memory();
    db.create_user_with("u", "password", "admin", b"saltsaltsaltsalt");
    let r = &db.records()[0];
    assert_eq!(r.hash, "T78tEi_mr8Yageny_jk6s5-Qanjd3ceXdjwOeEhX6bQ");
    assert_eq!(r.salt, "c2FsdHNhbHRzYWx0c2FsdA");
    assert_eq!(db.verify("u", "password"), Ok(1));
    assert_eq!(db.verify("u", "passwort"), Err(UserError::InvalidCredentials));
    let mut other = UsersDb::in_memory();
    other.create_user_with("u", "password", "admin", b"saltsaltsaltsalT");
    assert_ne!(other.records()[0].hash, db.records()[0].hash);
}

#[test]
fn corrupt_records_are_told() {
    let mut db = UsersDb::in_memory();
    db.create_user_with("u", "pw", "admin", b"0123456789abcdef");
    let mut records = db.records();
    records[0].salt = "*".to_string();
    assert_eq!(UsersDb::from_records(records).verify("u", "pw"), Err(UserError::CorruptSalt));
    let mut records = db.records();
    records[0].hash = "*".to_string();
    assert_eq!(UsersDb::from_records(records).verify("u", "pw"), Err(UserError::CorruptHash));
}

#[test]
fn the_last_administrator_stays() {
    let mut db = UsersDb::in_memory();
    db.create_user("root", "pw", "admin").unwrap();
    assert_eq!(db.delete_user("root"), Err(UserError::LastAdminDeleted));
    assert_eq!(db.set_role("root", "readonly"), Err(UserError::LastAdminDemoted));
    assert_eq!(db.delete_user("none"), Err(UserError::NoSuchUser));
    assert_eq!(UserError::NoSuchUser.message_for("none"), "unknown user 'none'");
    assert_eq!(UserError::LastAdminDeleted.message_for("root"), UserError::LastAdminDeleted.message());
}

/// A token over any claims, signed with the node's secret.
fn token_over(a: &Argus, claims: Vec<u8>) -> String {
    a.token_from(Some(claims)).unwrap()
}

#[test]
fn tokens_are_made_of_two_parts() {
    let a = Argus::new(b"secret");
    let t = token_over(&a, vec![0xfb, 0xff]);
    let (payload, sig) = t.split_once('.').unwrap();
    assert_eq!(payload, "-_8");
    assert_eq!(sig.len(), 43);
    assert!(a.token_from(None).is_none());
}

#[test]
fn old_tokens_still_count() {
    let a = Argus::new(b"secret");
    let four = token_over(&a, rmp_serde::to_vec(&(7u64, 200u64, 100u64, 1u64)).unwrap());
    let c = a.verify_at(&four, 150).unwrap();
    assert_eq!((c.user_id, c.role.as_str(), c.allowed_dbs.len()), (7, "admin", 0));
    let five = token_over(&a, rmp_serde::to_vec(&(7u64, 200u64, 100u64, 1u64, "readonly")).unwrap());
    let c = a.verify_at(&five, 150).unwrap();
    assert_eq!((c.role.as_str(), c.allowed_dbs.len()), ("readonly", 0));
    let six = token_over(&a, rmp_serde::to_vec(&(7u64, 200u64, 100u64, 1u64, "readonly", vec![3u16])).unwrap());
    assert_eq!(a.verify_at(&six, 150).unwrap().allowed_dbs, vec![3]);
}

#[test]
fn every_refusal_has_its_reason() {
    let mut a = Argus::new(b"secret");
    let (good, claims) = a.issue_at(1, 100, "admin", &[], 1000, 5).unwrap();
    assert_eq!(a.verify_at(&good, 1099).unwrap().jti, 5);
    assert_eq!(a.verify_at("no dot", 0).unwrap_err(), AuthError::Malformed);
    assert_eq!(a.verify_at("abc.*", 0).unwrap_err(), AuthError::BadSigEncoding);
    assert_eq!(a.verify_at("abc.abcd", 0).unwrap_err(), AuthError::InvalidSignature);
    assert_eq!(a.verify_at(&good, 1100).unwrap_err(), AuthError::Expired);
    let junk = token_over(&a, vec![0xc1]);
    assert_eq!(a.verify_at(&junk, 0).unwrap_err(), AuthError::BadClaims);
    a.revoke_at(&good, 1000).unwrap();
    assert_eq!(a.verify_at(&good, 1000).unwrap_err(), AuthError::Revoked);
    assert_eq!(a.judge(claims, 1000).unwrap_err(), AuthError::Revoked);
    assert_eq!(a.issue_at(1, u64::MAX, "admin", &[], 1, 1).unwrap_err(), AuthError::TtlTooLong);
    let fresh = Claims { user_id: 1, exp: 10, iat: 0, jti: 9, role: "admin".to_string(), allowed_dbs: vec![] };
    assert!(fresh.is_expired_at(10) && !fresh.is_expired_at(9));
}

#[test]
fn payloads_that_are_no_base64_are_told() {
    let a = Argus::new(b"secret");
    let sig = URL_SAFE_NO_PAD.encode(a.sign(b"*").unwrap());
    assert_eq!(a.verify_at(&format!("*.{sig}"), 0).unwrap_err(), AuthError::BadPayloadEncoding);
}

#[test]
fn salts_are_kept_in_url_safe_base64() {
    let mut db = UsersDb::in_memory();
    db.create_user_with("u", "pw", "admin", &[0xfb, 0xff]);
    assert_eq!(db.get_user("u").unwrap().salt, "-_8");
    db.create_user_with("u", "pw", "admin", b"Man");
    assert_eq!(db.get_user("u").unwrap().salt, "TWFu");
    assert_eq!(db.verify("u", "pw"), Ok(1));
}

#[test]
fn salts_with_bits_left_over_are_not_read() {
    let mut db = UsersDb::in_memory();
    db.create_user_with("u", "pw", "admin", b"M");
    let mut records = db.records();
    assert_eq!(records[0].salt, "TQ");
    records[0].salt = "TR".to_string();
    assert_eq!(UsersDb::from_records(records).verify("u", "pw"), Err(UserError::CorruptSalt));
}

fn named(pairs: &[(&str, serde_json::Value)]) -> Vec<u8> {
    let map: BTreeMap<String, serde_json::Value> = pairs.iter().map(|(k, v)| (k.to_string(), v.clone())).collect();
    rmp_serde::to_vec(&map).unwrap()
}

#[test]
fn claims_may_carry_their_names() {
    let a = Argus::new(b"secret");
    let mut pairs = vec![
        ("user_id", serde_json::Value::from(7u64)),
        ("exp", serde_json::Value::from(200u64)),
        ("iat", serde_json::Value::from(100u64)),
        ("jti", serde_json::Value::from(u64::MAX)),
    ];
    let c = a.verify_at(&token_over(&a, named(&pairs)), 150).unwrap();
    assert_eq!((c.user_id, c.exp, c.iat, c.jti), (7, 200, 100, u64::MAX));
    assert_eq!((c.role.as_str(), c.allowed_dbs.len()), ("admin", 0));
    pairs.push(("role", serde_json::Value::from("readonly")));
    pairs.push(("allowed_dbs", serde_json::Value::from(vec![3u64, 65535])));
    pairs.push(("other", serde_json::Value::from(vec!["x"])));
    let c = a.verify_at(&token_over(&a, named(&pairs)), 150).unwrap();
    assert_eq!((c.role.as_str(), c.allowed_dbs), ("readonly", vec![3, 65535]));
    assert_eq!(a.verify_at(&token_over(&a, named(&pairs)), 200).unwrap_err(), AuthError::Expired);
    assert_eq!(a.verify_at(&token_over(&a, named(&pairs[1..])), 150).unwrap_err(), AuthError::BadClaims);
    pairs[5].1 = serde_json::Value::from(vec![65536u64]);
    assert_eq!(a.verify_at(&token_over(&a, named(&pairs)), 150).unwrap_err(), AuthError::BadClaims);
    pairs[5].1 = serde_json::Value::Null;
    assert_eq!(a.verify_at(&token_over(&a, named(&pairs)), 150).unwrap_err(), AuthError::BadClaims);
}

#[test]
fn a_claim_may_not_come_twice() {
    let a = Argus::new(b"secret");
    let four = named(&[
        ("user_id", serde_json::Value::from(7u64)),
        ("exp", serde_json::Value::from(200u64)),
        ("iat", serde_json::Value::from(100u64)),
        ("jti", serde_json::Value::from(1u64)),
    ]);
    assert_eq!(four[0], 0x84);
    let mut five = four.clone();
    five[0] = 0x85;
    five.extend_from_slice(&rmp_serde::to_vec("jti").unwrap());
    five.push(2);
    assert!(a.verify_at(&token_over(&a, four), 150).is_ok());
    assert_eq!(a.verify_at(&token_over(&a, five), 150).unwrap_err(), AuthError::BadClaims);
}

#[test]
fn maps_announce_their_pairs() {
    assert!(announces(&[0x80], 0) && announces(&[0x8f], 15) && !announces(&[0x8f], 14));
    assert!(announces(&[0xde, 1, 2], 258) && announces(&[0xdf, 0, 1, 0, 2], 65538));
    assert!(!announces(&[], 0) && !announces(&[0xde, 1], 1) && !announces(&[0x90], 0));
}
