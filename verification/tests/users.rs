//! Accounts and passwords.

use mneme::proto::CmdId;
use mneme::rbac::{can_execute, Role};
use mneme::users::{UserError, UsersDb};

#[test]
fn create_and_verify() {
    let mut db = UsersDb::in_memory();
    let uid = db.create_user("alice", "hunter2", "readwrite").unwrap();
    assert!(uid > 0);
    let uid2 = db.verify("alice", "hunter2").unwrap();
    assert_eq!(uid, uid2);
}

#[test]
fn first_user_always_admin() {
    let mut db = UsersDb::in_memory();
    db.create_user("alice", "pw", "readwrite").unwrap();
    let rec = db.get_user("alice").unwrap();
    // First user is promoted to admin regardless of requested role.
    assert_eq!(rec.role, "admin");
}

#[test]
fn second_user_keeps_requested_role() {
    let mut db = UsersDb::in_memory();
    db.create_user("alice", "pw", "admin").unwrap();
    db.create_user("bob", "pw2", "readonly").unwrap();
    assert_eq!(db.get_user("bob").unwrap().role, "readonly");
}

#[test]
fn wrong_password_rejected() {
    let mut db = UsersDb::in_memory();
    db.create_user("bob", "correct", "readwrite").unwrap();
    assert!(db.verify("bob", "wrong").is_err());
}

#[test]
fn unknown_user_rejected() {
    let db = UsersDb::in_memory();
    assert!(db.verify("nobody", "pass").is_err());
}

#[test]
fn two_users_independent() {
    let mut db = UsersDb::in_memory();
    db.create_user("a", "pass_a", "readwrite").unwrap();
    db.create_user("b", "pass_b", "readonly").unwrap();
    assert!(db.verify("a", "pass_a").is_ok());
    assert!(db.verify("b", "pass_b").is_ok());
    assert!(db.verify("a", "pass_b").is_err());
}

#[test]
fn delete_user_works() {
    let mut db = UsersDb::in_memory();
    db.create_user("admin", "pw", "admin").unwrap();
    db.create_user("bob", "pw2", "readwrite").unwrap();
    db.delete_user("bob").unwrap();
    assert!(db.get_user("bob").is_none());
}

#[test]
fn cannot_delete_last_admin() {
    let mut db = UsersDb::in_memory();
    db.create_user("admin", "pw", "admin").unwrap();
    assert!(db.delete_user("admin").is_err());
}

#[test]
fn grant_revoke_db() {
    let mut db = UsersDb::in_memory();
    db.create_user("alice", "pw", "readwrite").unwrap();
    db.grant_db("alice", 1).unwrap();
    db.grant_db("alice", 3).unwrap();
    let rec = db.get_user("alice").unwrap();
    assert_eq!(rec.allowed_dbs, vec![1, 3]);
    db.revoke_db("alice", 1).unwrap();
    let rec = db.get_user("alice").unwrap();
    assert_eq!(rec.allowed_dbs, vec![3]);
}

#[test]
fn set_role_works() {
    let mut db = UsersDb::in_memory();
    db.create_user("admin", "pw", "admin").unwrap();
    db.create_user("bob", "pw2", "readwrite").unwrap();
    db.set_role("bob", "readonly").unwrap();
    assert_eq!(db.get_user("bob").unwrap().role, "readonly");
}

#[test]
fn list_users_sorted_by_id() {
    let mut db = UsersDb::in_memory();
    db.create_user("a", "pw", "admin").unwrap();
    db.create_user("b", "pw", "readwrite").unwrap();
    db.create_user("c", "pw", "readonly").unwrap();
    let list = db.list_users();
    assert_eq!(list.len(), 3);
    assert!(list[0].user_id < list[1].user_id);
    assert!(list[1].user_id < list[2].user_id);
}

#[test]
fn revoking_the_last_database_ends_access() {
    let mut db = UsersDb::in_memory();
    db.create_user("bob", "pw", "readwrite").unwrap();
    db.grant_db("bob", 1).unwrap();
    assert_eq!(db.revoke_db("bob", 1), Ok(()));
    let dbs = db.get_user("bob").unwrap().allowed_dbs.clone();
    for id in [0u16, 1, 15, 65534] {
        assert!(!can_execute(Role::ReadWrite, CmdId::Get, id, &dbs));
    }
    assert_eq!(db.revoke_db("bob", 1), Ok(()));
    assert_eq!(db.get_user("bob").unwrap().allowed_dbs, dbs);
    db.grant_db("bob", 4).unwrap();
    let dbs = db.get_user("bob").unwrap().allowed_dbs.clone();
    assert!(can_execute(Role::ReadWrite, CmdId::Get, 4, &dbs));
    assert!(!can_execute(Role::ReadWrite, CmdId::Get, 1, &dbs));
    db.revoke_db("bob", 4).unwrap();
    let dbs = db.get_user("bob").unwrap().allowed_dbs.clone();
    assert!(!can_execute(Role::ReadWrite, CmdId::Get, 4, &dbs));
}

#[test]
fn an_account_without_a_list_keeps_all_databases() {
    let mut db = UsersDb::in_memory();
    db.create_user("bob", "pw", "readwrite").unwrap();
    assert_eq!(db.revoke_db("bob", 1), Ok(()));
    assert_eq!(db.get_user("bob").unwrap().allowed_dbs, Vec::<u16>::new());
    let e = db.revoke_db("carol", 1).unwrap_err();
    assert_eq!(e, UserError::NoSuchUser);
    assert_eq!(e.message_for("carol"), "unknown user 'carol'");
}
