//! How nodes join.

use mneme::herold::{generate_join_token, join_bundle, join_token_from, register_answer, HeroldRegistry, RegisterPayload};
use mneme::text::rsplit_once;

fn payload(node_id: &str, grant_bytes: u64, token: &str) -> RegisterPayload {
    RegisterPayload {
        node_id: node_id.into(),
        role: "keeper".into(),
        grant_bytes,
        replication_addr: "1.2.3.4:7379".into(),
        join_token: token.into(),
    }
}

#[test]
fn generate_token_format() {
    let t = generate_join_token();
    assert!(t.starts_with("mneme_tok_"));
    assert_eq!(t.len(), 42);
}

#[test]
fn registry_rejects_bad_token() {
    let mut registry = HeroldRegistry::new("correct_token".into(), Vec::new());
    let (ack, pool_max) = registry.handle_register(&payload("hypnos-1", 256 * 1024 * 1024, "wrong_token"), 0);
    assert!(!ack.accepted);
    assert_eq!(pool_max, 0);
    assert_eq!(ack.message, "invalid join token");
}

#[test]
fn registry_accepts_valid_keeper() {
    let mut registry = HeroldRegistry::new("secret".into(), Vec::new());
    let grant = 256u64 * 1024 * 1024;
    let (ack, pool_max) = registry.handle_register(&payload("hypnos-1", grant, "secret"), 0);
    assert!(ack.accepted);
    assert_eq!(pool_max, grant);
    assert_eq!(registry.keepers().len(), 1);
}

#[test]
fn registry_assigns_unique_ids() {
    let mut registry = HeroldRegistry::new("tok".into(), Vec::new());
    let (a1, _) = registry.handle_register(&payload("h1", 1, "tok"), 0);
    let (a2, _) = registry.handle_register(&payload("h2", 1, "tok"), 1);
    assert_ne!(a1.assigned_id, a2.assigned_id);
}

#[test]
fn replicas_add_nothing_to_the_pool() {
    let mut registry = HeroldRegistry::new("tok".into(), Vec::new());
    let mut p = payload("r1", 100, "tok");
    p.role = "read-replica".into();
    let (ack, pool_max) = registry.handle_register(&p, 5);
    assert!(ack.accepted);
    assert_eq!(pool_max, 5);
    assert!(registry.keepers().is_empty());
}

#[test]
fn tokens_show_their_bytes() {
    assert_eq!(join_token_from(&[0x00, 0xff, 0x1a]), "mneme_tok_00ff1a");
}

#[test]
fn bundles_split_again() {
    let b = join_bundle(b"certificate", "secret", "tok");
    assert_eq!(b, "Y2VydGlmaWNhdGU=:secret:tok");
    let (rest, token) = rsplit_once(&b, ':').unwrap();
    let (ca, secret) = rsplit_once(rest, ':').unwrap();
    assert_eq!((ca, secret, token), ("Y2VydGlmaWNhdGU=", "secret", "tok"));
}

#[test]
fn registration_answers_name_the_number() {
    let ok = register_answer(&Ok(payload("h1", 1, "tok")), "tok", 77);
    assert!(ok.accepted && ok.assigned_id == 77 && ok.message == "OK");
    let no = register_answer(&Ok(payload("h1", 1, "other")), "tok", 77);
    assert!(!no.accepted && no.assigned_id == 0 && no.message == "invalid join_token");
    let unread = register_answer(&Err("bad marker".to_string()), "tok", 77);
    assert!(!unread.accepted && unread.assigned_id == 0 && unread.message == "decode error: bad marker");
}

#[test]
fn certificates_are_carried_in_standard_base64() {
    let first = |ca: &[u8]| join_bundle(ca, "s", "t").split(':').next().unwrap().to_string();
    assert_eq!(first(b""), "");
    assert_eq!(first(b"M"), "TQ==");
    assert_eq!(first(b"Ma"), "TWE=");
    assert_eq!(first(b"Man"), "TWFu");
    assert_eq!(first(&[0xfb, 0xff]), "+/8=");
    assert_eq!(first(&[0xfb, 0xff, 0xbf, 0x30]), "+/+/MA==");
}

#[test]
fn numbers_are_never_given_twice() {
    let mut registry = HeroldRegistry::new("tok".into(), Vec::new());
    let mut given = vec![1u64];
    for i in 0..20u64 {
        let token = if i % 3 == 0 { "no" } else { "tok" };
        let mut p = payload("h", 10, token);
        if i % 2 == 0 {
            p.role = "read-replica".into();
        }
        let before = registry.keepers().len();
        let (ack, limit) = registry.handle_register(&p, 5);
        assert_eq!(ack.accepted, token == "tok");
        if ack.accepted {
            assert!(!given.contains(&ack.assigned_id));
            given.push(ack.assigned_id);
        } else {
            assert_eq!(ack.assigned_id, 0);
        }
        let joins = ack.accepted && i % 2 == 1;
        assert_eq!(registry.keepers().len(), before + joins as usize);
        assert_eq!(limit, if joins { 15 } else { 5 });
    }
}
