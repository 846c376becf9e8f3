//! Roles and what they may do.

use mneme::proto::CmdId;
use mneme::rbac::{can_execute, Role};

#[test]
fn admin_always_allowed() {
    for cmd in [CmdId::Get, CmdId::SetKey, CmdId::UserCreate, CmdId::FlushDb] {
        assert!(can_execute(Role::Admin, cmd, 0, &[]));
        assert!(can_execute(Role::Admin, cmd, 5, &[0, 1]));
    }
}

#[test]
fn readonly_blocks_writes() {
    assert!(can_execute(Role::ReadOnly, CmdId::Get, 0, &[]));
    assert!(!can_execute(Role::ReadOnly, CmdId::SetKey, 0, &[]));
    assert!(!can_execute(Role::ReadOnly, CmdId::Del, 0, &[]));
    assert!(!can_execute(Role::ReadOnly, CmdId::FlushDb, 0, &[]));
    assert!(!can_execute(Role::ReadOnly, CmdId::UserCreate, 0, &[]));
}

#[test]
fn readwrite_allows_data_writes() {
    assert!(can_execute(Role::ReadWrite, CmdId::SetKey, 0, &[]));
    assert!(can_execute(Role::ReadWrite, CmdId::Del, 0, &[]));
    assert!(can_execute(Role::ReadWrite, CmdId::FlushDb, 0, &[]));
    // But not user management
    assert!(!can_execute(Role::ReadWrite, CmdId::UserCreate, 0, &[]));
    assert!(!can_execute(Role::ReadWrite, CmdId::UserDelete, 0, &[]));
}

#[test]
fn db_restriction_enforced() {
    // allowed_dbs = [0]: can access db 0, not db 1
    assert!(can_execute(Role::ReadWrite, CmdId::Get, 0, &[0]));
    assert!(!can_execute(Role::ReadWrite, CmdId::Get, 1, &[0]));
    // admin ignores allowed_dbs
    assert!(can_execute(Role::Admin, CmdId::Get, 1, &[0]));
}

#[test]
fn empty_allowed_dbs_means_all() {
    assert!(can_execute(Role::ReadWrite, CmdId::Get, 15, &[]));
    assert!(can_execute(Role::ReadOnly,  CmdId::Get, 15, &[]));
}

#[test]
fn role_roundtrip() {
    for (s, r) in [("admin", Role::Admin), ("readwrite", Role::ReadWrite), ("readonly", Role::ReadOnly)] {
        assert_eq!(Role::from_str(s), r);
        assert_eq!(r.as_str(), s);
    }
    // Anything else is read-write
    assert_eq!(Role::from_str("superuser"), Role::ReadWrite);
}

#[test]
fn a_listed_database_is_let_into_whatever_its_number() {
    assert!(can_execute(Role::ReadWrite, CmdId::Get, 65535, &[65535]));
    assert!(can_execute(Role::ReadOnly, CmdId::Get, 65535, &[0, 65535]));
    assert!(!can_execute(Role::ReadWrite, CmdId::Get, 65535, &[0]));
    assert!(!can_execute(Role::ReadWrite, CmdId::Get, 0, &[65535]));
}
