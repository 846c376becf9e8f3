//! What commands on accounts and tokens do, told by who may sign in and what
//! the lists of accounts hold.

use vstd::prelude::*;

use crate::argus::{check_token, is_session, AuthError, ClaimsView};
use crate::mnemosyne::{did, Caller, Mnemosyne, NodeCommand};
use crate::order::{law_sort_ascending, law_sort_keeps_items};
use crate::proto::PushView;
use crate::reply::ReplyView;
use crate::users::{
    admin_count, by_id, checked, id_leq, in_order, known, law_grant_and_revoke, law_ids_fresh, law_revoke_ends_access,
    lemma_admins_remove, lemma_place_exists, place, UserError, UserView,
};
use crate::value::ErrorView;

verus! {

/// The account of a name.
pub open spec fn account(s: Seq<UserView>, name: Seq<char>, u: UserView) -> bool {
    s.contains(u) && u.username == name
}

/// No two accounts have one name.
pub open spec fn one_each(s: Seq<UserView>) -> bool {
    forall|i: int, j: int| 0 <= i < j < s.len() ==> (#[trigger] s[i]).username != (#[trigger] s[j]).username
}

/// There is an administrator of another name.
pub open spec fn other_admin(s: Seq<UserView>, name: Seq<char>) -> bool {
    exists|v: UserView| #[trigger] s.contains(v) && v.username != name && v.role == "admin"@
}

proof fn lemma_has_admin(s: Seq<UserView>)
    ensures
        admin_count(s) > 0 <==> exists|k: int| 0 <= k < s.len() && (#[trigger] s[k]).role == "admin"@,
    decreases s.len(),
{
    if s.len() > 0 {
        let t = s.drop_last();
        lemma_has_admin(t);
        if admin_count(t) > 0 {
            let k = choose|k: int| 0 <= k < t.len() && (#[trigger] t[k]).role == "admin"@;
            assert(s[k].role == "admin"@);
        }
        if s.last().role == "admin"@ {
            assert(s[s.len() - 1].role == "admin"@);
        }
        if exists|k: int| 0 <= k < s.len() && (#[trigger] s[k]).role == "admin"@ {
            let k = choose|k: int| 0 <= k < s.len() && (#[trigger] s[k]).role == "admin"@;
            if k < t.len() {
                assert(t[k].role == "admin"@);
            }
        }
    }
}

/// Where the account of a name stands, and whether another is an
/// administrator's.
proof fn lemma_account_at(s: Seq<UserView>, name: Seq<char>)
    requires
        one_each(s),
    ensures
        0 <= place(s, name) <= s.len(),
        known(s, name) <==> exists|u: UserView| #[trigger] account(s, name, u),
        known(s, name) ==> account(s, name, s[place(s, name)]),
        forall|u: UserView| #[trigger] account(s, name, u) ==> u == s[place(s, name)],
        known(s, name) && s[place(s, name)].role == "admin"@ ==> (admin_count(s) >= 2 <==> other_admin(s, name)),
{
    lemma_place_exists(s, name);
    let i = place(s, name);
    assert forall|u: UserView| #[trigger] account(s, name, u) implies i < s.len() && u == s[i] by {
        let k = choose|k: int| 0 <= k < s.len() && s[k] == u;
        if k < i {
            assert(s[k].username != name);
        } else if i < k {
            assert(s[i].username != s[k].username);
        }
    }
    if i < s.len() {
        assert(account(s, name, s[i]));
        let t = s.remove(i);
        lemma_admins_remove(s, i);
        lemma_has_admin(t);
        if s[i].role == "admin"@ {
            if admin_count(s) >= 2 {
                let k = choose|k: int| 0 <= k < t.len() && (#[trigger] t[k]).role == "admin"@;
                let p = if k < i { k } else { k + 1 };
                assert(t[k] == s[p]);
                if p < i {
                    assert(s[p].username != s[i].username);
                } else {
                    assert(s[i].username != s[p].username);
                }
                assert(s.contains(s[p]));
            }
            if other_admin(s, name) {
                let v = choose|v: UserView| #[trigger] s.contains(v) && v.username != name && v.role == "admin"@;
                let p = choose|p: int| 0 <= p < s.len() && s[p] == v;
                let k = if p < i { p } else { p - 1 };
                assert(t[k] == v);
            }
        }
    }
}

/// `USER DELETE` removes the account of a name and no other. It is refused
/// where there is none, and where it is the only administrator's.
pub proof fn law_user_delete_removes(
    n: Mnemosyne,
    username: String,
    conn_db: u16,
    now: u64,
    after: Mnemosyne,
    r: Result<ReplyView, ErrorView>,
    pushes: Seq<PushView>,
)
    requires
        one_each(n.argus.accounts()),
        did(n, NodeCommand::UserDelete { username }, conn_db, now, after, r, pushes),
    ensures
        ({
            let s = n.argus.accounts();
            let t = after.argus.accounts();
            &&& r is Ok <==> exists|u: UserView|
                #[trigger] account(s, username@, u) && (u.role == "admin"@ ==> other_admin(s, username@))
            &&& r is Ok ==> forall|u: UserView| #[trigger] t.contains(u) <==> s.contains(u) && u.username != username@
            &&& r is Ok ==> one_each(t)
            &&& r is Err ==> t == s
            &&& after.store == n.store && after.argus.revoked() == n.argus.revoked() && pushes.len() == 0
        }),
{
    let s = n.argus.accounts();
    let t = after.argus.accounts();
    lemma_account_at(s, username@);
    let i = place(s, username@);
    if r is Ok {
        assert(account(s, username@, s[i]));
        assert(t == s.remove(i));
        assert forall|u: UserView| #[trigger] t.contains(u) <==> s.contains(u) && u.username != username@ by {
            if t.contains(u) {
                let k = choose|k: int| 0 <= k < t.len() && t[k] == u;
                let p = if k < i { k } else { k + 1 };
                assert(s[p] == u);
                if p < i {
                    assert(s[p].username != s[i].username);
                } else {
                    assert(s[i].username != s[p].username);
                }
            }
            if s.contains(u) && u.username != username@ {
                let p = choose|p: int| 0 <= p < s.len() && s[p] == u;
                let k = if p < i { p } else { p - 1 };
                assert(t[k] == u);
            }
        }
        assert(one_each(t)) by {
            assert forall|a: int, b: int| 0 <= a < b < t.len() implies (#[trigger] t[a]).username != (#[trigger] t[b]).username by {
                let p = if a < i { a } else { a + 1 };
                let q = if b < i { b } else { b + 1 };
                assert(s[p].username != s[q].username);
            }
        }
    }
}

/// The accounts of `t` are those of `s`, but for the one of a name, which is
/// `u` in `t`.
pub open spec fn one_changed(s: Seq<UserView>, t: Seq<UserView>, name: Seq<char>, u: UserView) -> bool {
    &&& account(t, name, u)
    &&& one_each(t)
    &&& forall|x: UserView| x.username != name ==> (#[trigger] t.contains(x) <==> s.contains(x))
}

proof fn lemma_one_changed(s: Seq<UserView>, name: Seq<char>, u: UserView)
    requires
        one_each(s),
        known(s, name),
        u.username == name,
    ensures
        one_changed(s, s.update(place(s, name), u), name, u),
{
    lemma_account_at(s, name);
    let i = place(s, name);
    let t = s.update(i, u);
    assert(t[i] == u);
    assert forall|x: UserView| x.username != name implies (#[trigger] t.contains(x) <==> s.contains(x)) by {
        if t.contains(x) {
            let k = choose|k: int| 0 <= k < t.len() && t[k] == x;
            assert(s[k] == x);
        }
        if s.contains(x) {
            let k = choose|k: int| 0 <= k < s.len() && s[k] == x;
            assert(t[k] == x);
        }
    }
    assert forall|a: int, b: int| 0 <= a < b < t.len() implies (#[trigger] t[a]).username != (#[trigger] t[b]).username by {
        assert(s[a].username != s[b].username);
    }
}

/// `USER SETROLE` gives the account of a name the role and changes nothing else
/// of it, nor any other account. It is refused where there is none, and where
/// it would take its role from the only administrator.
pub proof fn law_user_setrole_sets(
    n: Mnemosyne,
    username: String,
    role: String,
    conn_db: u16,
    now: u64,
    after: Mnemosyne,
    r: Result<ReplyView, ErrorView>,
    pushes: Seq<PushView>,
    u: UserView,
)
    requires
        one_each(n.argus.accounts()),
        did(n, NodeCommand::UserSetRole { username, role }, conn_db, now, after, r, pushes),
    ensures
        ({
            let s = n.argus.accounts();
            let t = after.argus.accounts();
            &&& (forall|x: UserView| !#[trigger] account(s, username@, x)) ==> r is Err
            &&& account(s, username@, u) ==> {
                &&& r is Err <==> u.role == "admin"@ && role@ != "admin"@ && !other_admin(s, username@)
                &&& r is Ok ==> one_changed(s, t, username@, UserView { role: role@, ..u })
            }
            &&& r is Err ==> t == s
            &&& after.store == n.store && after.argus.revoked() == n.argus.revoked() && pushes.len() == 0
        }),
{
    let s = n.argus.accounts();
    lemma_account_at(s, username@);
    let i = place(s, username@);
    if known(s, username@) {
        lemma_one_changed(s, username@, UserView { role: role@, ..s[i] });
    }
}

/// `USER GRANT` adds a database to those of an account, and `USER REVOKE` takes
/// one away; both keep their order and touch nothing else. An account without a
/// list may use all databases: a grant gives it a list, a revocation leaves it
/// without. A list never becomes empty by a revocation.
pub proof fn law_user_databases_change(
    n: Mnemosyne,
    username: String,
    db: u16,
    conn_db: u16,
    now: u64,
    after: Mnemosyne,
    r: Result<ReplyView, ErrorView>,
    pushes: Seq<PushView>,
    grants: bool,
    u: UserView,
    x: u16,
)
    requires
        one_each(n.argus.accounts()),
        grants ==> did(n, NodeCommand::UserGrant { username, db_id: db }, conn_db, now, after, r, pushes),
        !grants ==> did(n, NodeCommand::UserRevoke { username, db_id: db }, conn_db, now, after, r, pushes),
    ensures
        ({
            let s = n.argus.accounts();
            let t = after.argus.accounts();
            &&& r is Ok <==> exists|y: UserView| #[trigger] account(s, username@, y)
            &&& r is Err ==> t == s
            &&& account(s, username@, u) ==> exists|d: Seq<u16>|
                {
                    &&& #[trigger] one_changed(s, t, username@, UserView { allowed_dbs: d, ..u })
                    &&& grants ==> (d.contains(x) <==> x == db || u.allowed_dbs.contains(x))
                    &&& !grants && x != 65535 ==> (d.contains(x) <==> x != db && u.allowed_dbs.contains(x))
                    &&& !grants ==> (d.len() == 0 <==> u.allowed_dbs.len() == 0)
                    &&& ascending(u.allowed_dbs) ==> ascending(d)
                }
            &&& after.store == n.store && after.argus.revoked() == n.argus.revoked() && pushes.len() == 0
        }),
{
    let s = n.argus.accounts();
    let t = after.argus.accounts();
    lemma_account_at(s, username@);
    let i = place(s, username@);
    if account(s, username@, u) {
        assert(u == s[i]);
        let d = t[i].allowed_dbs;
        lemma_one_changed(s, username@, UserView { allowed_dbs: d, ..u });
        law_grant_and_revoke(u.allowed_dbs, db, x);
        law_revoke_ends_access(crate::rbac::Role::ReadWrite, crate::proto::CmdId::Get, u.allowed_dbs, db, x);
        assert(in_order(u.allowed_dbs) <==> ascending(u.allowed_dbs));
        assert(in_order(d) <==> ascending(d));
        assert(one_changed(s, t, username@, UserView { allowed_dbs: d, ..u }));
    }
}

/// Numbers in ascending order.
pub open spec fn ascending(d: Seq<u16>) -> bool {
    forall|i: int, j: int| 0 <= i < j < d.len() ==> d[i] <= d[j]
}

/// `USER CREATE` makes an account that the password signs in to. The first one
/// is an administrator's whatever role was asked for; a new one may use all
/// databases and has a number above all others. Of a name that is taken the
/// account keeps its number and databases. No other account changes.
pub proof fn law_user_create_makes(
    n: Mnemosyne,
    username: String,
    password: String,
    role: String,
    conn_db: u16,
    now: u64,
    after: Mnemosyne,
    r: Result<ReplyView, ErrorView>,
    pushes: Seq<PushView>,
)
    requires
        one_each(n.argus.accounts()),
        did(n, NodeCommand::UserCreate { username, password, role }, conn_db, now, after, r, pushes),
        (exists|x: UserView| #[trigger] account(n.argus.accounts(), username@, x)) || forall|x: UserView|
            #[trigger] n.argus.accounts().contains(x) ==> x.user_id < u64::MAX,
    ensures
        ({
            let s = n.argus.accounts();
            let t = after.argus.accounts();
            &&& r is Ok
            &&& exists|u: UserView|
                {
                    &&& #[trigger] one_changed(s, t, username@, u)
                    &&& checked(t, username@, password@) == Ok::<u64, UserError>(u.user_id)
                    &&& u.role == if s.len() == 0 { "admin"@ } else { role@ }
                    &&& forall|old: UserView| #[trigger] account(s, username@, old) ==> u.user_id == old.user_id
                        && u.allowed_dbs == old.allowed_dbs
                    &&& (forall|old: UserView| !#[trigger] account(s, username@, old)) ==> {
                        &&& u.allowed_dbs.len() == 0
                        &&& forall|x: UserView| #[trigger] s.contains(x) ==> x.user_id < u.user_id
                    }
                }
            &&& after.store == n.store && after.argus.revoked() == n.argus.revoked() && pushes.len() == 0
        }),
{
    let s = n.argus.accounts();
    let t = after.argus.accounts();
    let name = username@;
    lemma_account_at(s, name);
    let i = place(s, name);
    let (u, salt) = choose|u: UserView, salt: Seq<u8>|
        #[trigger] crate::users::is_account(u, s, name, password@, role@, salt) && crate::mnemosyne::changed_accounts(
            n,
            after,
            crate::users::with_user(s, u, role@),
        );
    assert(t == crate::users::with_user(s, u, role@));
    if known(s, name) {
        let w = UserView { salt: u.salt, hash: u.hash, role: role@, ..s[i] };
        lemma_one_changed(s, name, w);
        assert(account(s, name, s[i]));
        assert(one_changed(s, t, name, w));
    } else {
        assert(t == s.push(u));
        assert(t[s.len() as int] == u);
        assert forall|x: UserView| x.username != name implies (#[trigger] t.contains(x) <==> s.contains(x)) by {
            if t.contains(x) {
                let k = choose|k: int| 0 <= k < t.len() && t[k] == x;
                assert(s[k] == x);
            }
            if s.contains(x) {
                let k = choose|k: int| 0 <= k < s.len() && s[k] == x;
                assert(t[k] == x);
            }
        }
        assert forall|a: int, b: int| 0 <= a < b < t.len() implies (#[trigger] t[a]).username != (#[trigger] t[b]).username by {
            if b == s.len() {
                if s[a].username == name {
                    assert(account(s, name, s[a]));
                }
            } else {
                assert(s[a].username != s[b].username);
            }
        }
        lemma_max_below(s);
        assert forall|x: UserView| #[trigger] s.contains(x) implies x.user_id < u.user_id by {
            let k = choose|k: int| 0 <= k < s.len() && s[k] == x;
            law_ids_fresh(s, k);
        }
        assert(one_changed(s, t, name, u));
    }
}

proof fn lemma_max_below(s: Seq<UserView>)
    requires
        forall|x: UserView| #[trigger] s.contains(x) ==> x.user_id < u64::MAX,
    ensures
        crate::users::max_id(s) < u64::MAX,
    decreases s.len(),
{
    if s.len() > 0 {
        let t = s.drop_last();
        assert forall|x: UserView| #[trigger] t.contains(x) implies x.user_id < u64::MAX by {
            let k = choose|k: int| 0 <= k < t.len() && t[k] == x;
            assert(s[k] == x);
            assert(s.contains(x));
        }
        lemma_max_below(t);
        assert(s.contains(s.last()));
    }
}

/// `USER LIST` shows the name, role and databases of every account, the lower
/// numbers first.
pub proof fn law_user_list_shows(
    n: Mnemosyne,
    conn_db: u16,
    now: u64,
    after: Mnemosyne,
    r: Result<ReplyView, ErrorView>,
    pushes: Seq<PushView>,
) -> (order: Seq<UserView>)
    requires
        did(n, NodeCommand::UserList, conn_db, now, after, r, pushes),
    ensures
        order.to_multiset() == n.argus.accounts().to_multiset(),
        forall|i: int, j: int| 0 <= i < j < order.len() ==> (#[trigger] order[i]).user_id <= (#[trigger] order[j]).user_id,
        r matches Ok(v) && v matches ReplyView::Users(l) && l.len() == order.len() && forall|i: int|
            0 <= i < l.len() ==> #[trigger] l[i] == (order[i].username, order[i].role, order[i].allowed_dbs),
{
    let s = n.argus.accounts();
    law_sort_keeps_items(s, id_leq());
    law_sort_ascending(s, id_leq());
    let order = by_id(s);
    assert forall|i: int, j: int| 0 <= i < j < order.len() implies (#[trigger] order[i]).user_id <= (#[trigger] order[j]).user_id by {
        let leq = id_leq();
        assert(leq(order[i], order[j]));
    }
    order
}

/// `USER INFO` tells an administrator of the account that is asked for, and
/// everybody else, or who asks for none, of their own.
pub proof fn law_user_info_tells(
    n: Mnemosyne,
    username: Option<String>,
    caller: Caller,
    conn_db: u16,
    now: u64,
    after: Mnemosyne,
    r: Result<ReplyView, ErrorView>,
    pushes: Seq<PushView>,
)
    requires
        one_each(n.argus.accounts()),
        did(n, NodeCommand::UserInfo { username, caller }, conn_db, now, after, r, pushes),
    ensures
        ({
            let s = n.argus.accounts();
            &&& caller.admin && username is Some ==> match r {
                Ok(v) => exists|u: UserView|
                    #[trigger] account(s, (username->0)@, u) && v == ReplyView::User(
                        u.username,
                        u.user_id,
                        u.role,
                        u.allowed_dbs,
                    ),
                Err(e) => forall|u: UserView| !#[trigger] account(s, (username->0)@, u),
            }
            &&& !caller.admin || username is None ==> match r {
                Ok(v) => exists|u: UserView|
                    #[trigger] s.contains(u) && u.user_id == caller.user_id && v == ReplyView::User(
                        u.username,
                        u.user_id,
                        u.role,
                        u.allowed_dbs,
                    ),
                Err(e) => forall|u: UserView| #[trigger] s.contains(u) ==> u.user_id != caller.user_id,
            }
            &&& after == n && pushes.len() == 0
        }),
{
    let s = n.argus.accounts();
    match username {
        Some(name) if caller.admin => {
            lemma_account_at(s, name@);
        },
        _ => {
            if r is Err {
                assert forall|u: UserView| #[trigger] s.contains(u) implies u.user_id != caller.user_id by {
                    let k = choose|k: int| 0 <= k < s.len() && s[k] == u;
                    assert(s[k].user_id != caller.user_id);
                }
            }
        },
    }
}

/// A token that is taken at some time is taken at every time before its end,
/// with the same claims, and refused as too old from its end on. Its number
/// has not been revoked; once it is, the token is refused.
pub proof fn law_token_lasts_until_its_end(
    secret: Seq<u8>,
    revoked: Seq<u64>,
    token: Seq<u8>,
    now: u64,
    at: u64,
    others: Seq<u64>,
)
    requires
        check_token(secret, revoked, token, now) is Ok,
    ensures
        ({
            let c = check_token(secret, revoked, token, now)->Ok_0;
            &&& now < c.exp
            &&& !revoked.contains(c.jti)
            &&& at >= c.exp ==> check_token(secret, others, token, at) == Err::<ClaimsView, AuthError>(AuthError::Expired)
            &&& at < c.exp && others.contains(c.jti) ==> check_token(secret, others, token, at) == Err::<
                ClaimsView,
                AuthError,
            >(AuthError::Revoked)
            &&& at < c.exp && !others.contains(c.jti) ==> check_token(secret, others, token, at) == Ok::<
                ClaimsView,
                AuthError,
            >(c)
        }),
{
}

/// Revoking a token that is taken has it refused from then on, and leaves every
/// token with another number as it was.
pub proof fn law_revoke_token_ends_it(
    n: Mnemosyne,
    token: String,
    conn_db: u16,
    now: u64,
    after: Mnemosyne,
    r: Result<ReplyView, ErrorView>,
    pushes: Seq<PushView>,
    at: u64,
)
    requires
        did(n, NodeCommand::RevokeToken { token }, conn_db, now, after, r, pushes),
    ensures
        ({
            let b = vstd::utf8::encode_utf8(token@);
            let before = check_token(n.argus.key(), n.argus.revoked(), b, (now / 1000) as u64);
            &&& r is Ok <==> before is Ok
            &&& r is Ok ==> check_token(after.argus.key(), after.argus.revoked(), b, at) is Err
            &&& r is Err ==> after.argus.revoked() == n.argus.revoked()
            &&& after.argus.key() == n.argus.key() && after.argus.accounts() == n.argus.accounts() && after.store
                == n.store
        }),
{
    let b = vstd::utf8::encode_utf8(token@);
    let before = check_token(n.argus.key(), n.argus.revoked(), b, (now / 1000) as u64);
    if before is Ok {
        let c = before->Ok_0;
        law_token_lasts_until_its_end(n.argus.key(), n.argus.revoked(), b, (now / 1000) as u64, at, after.argus.revoked());
        crate::argus::law_revoked_is_refused(n.argus.key(), n.argus.revoked(), c.jti, b, at);
    }
}

/// The claims of a session are those of the account at the time: it begins now,
/// ends after the time that sessions last, and carries the number, role and
/// databases of the account.
pub proof fn law_session_claims(accounts: Seq<UserView>, uid: u64, now: u64, ttl: u64, jti: u64, c: ClaimsView)
    requires
        is_session(accounts, uid, now, ttl, jti, c),
    ensures
        c.iat == now,
        c.exp == now + ttl,
        c.jti == jti,
        exists|u: UserView|
            #[trigger] accounts.contains(u) && u.user_id == c.user_id && u.user_id == uid && u.role == c.role && u.allowed_dbs
                == c.allowed_dbs,
{
}

/// A password is right just where the key that is derived from it with the salt
/// of the account is the account's.
pub proof fn law_password_must_fit(s: Seq<UserView>, name: Seq<char>, password: Seq<char>, u: UserView)
    requires
        one_each(s),
        account(s, name, u),
        crate::digits::b64url_bytes(vstd::utf8::encode_utf8(u.salt)) is Some,
        crate::digits::b64url_bytes(vstd::utf8::encode_utf8(u.hash)) is Some,
    ensures
        ({
            let salt = crate::digits::b64url_bytes(vstd::utf8::encode_utf8(u.salt))->0;
            let key = crate::digits::b64url_bytes(vstd::utf8::encode_utf8(u.hash))->0;
            &&& checked(s, name, password) is Ok <==> crate::crypto::pbkdf2_of(
                vstd::utf8::encode_utf8(password),
                salt,
                100000,
                32,
            ) == key
            &&& checked(s, name, password) matches Ok(id) ==> id == u.user_id
            &&& checked(s, name, password) matches Err(e) ==> e == UserError::InvalidCredentials
        }),
{
    lemma_account_at(s, name);
}

} // verus!
