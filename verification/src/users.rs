//! User accounts: names, derived password keys, roles and databases.

use vstd::prelude::*;

use crate::crypto::{b64url_decode, b64url_encode, constant_time_eq, pbkdf2_of, pbkdf2_sha256, random_bytes};
use crate::digits::{b64url_bytes, b64url_of, law_b64url_reads_back};
use crate::order::{law_sort_ascending, law_sort_keeps_items, stable_insert, stable_sort};
use crate::proto::CmdId;
use crate::rbac::{lets_into, permitted, Role, NO_DATABASE};
use crate::text::str_eq;

verus! {

/// Rounds of key derivation.
pub const ITERATIONS: u32 = 100000;

pub const SALT_LEN: usize = 16;

/// Bytes of a derived key.
pub const DK_LEN: usize = 32;

/// One account.
#[derive(Debug)]
pub struct UserRecord {
    pub user_id: u64,
    pub username: String,
    /// The salt in URL-safe base64.
    pub salt: String,
    /// The derived key in URL-safe base64.
    pub hash: String,
    /// `admin`, `readwrite` or `readonly`.
    pub role: String,
    /// The databases that the user may use; none listed stands for all.
    pub allowed_dbs: Vec<u16>,
}

/// What an account says.
pub struct UserView {
    pub user_id: u64,
    pub username: Seq<char>,
    pub salt: Seq<char>,
    pub hash: Seq<char>,
    pub role: Seq<char>,
    pub allowed_dbs: Seq<u16>,
}

impl View for UserRecord {
    type V = UserView;

    open spec fn view(&self) -> UserView {
        UserView {
            user_id: self.user_id,
            username: self.username@,
            salt: self.salt@,
            hash: self.hash@,
            role: self.role@,
            allowed_dbs: self.allowed_dbs@,
        }
    }
}

impl Clone for UserRecord {
    fn clone(&self) -> (r: Self)
        ensures
            r@ == self@,
    {
        UserRecord {
            user_id: self.user_id,
            username: self.username.clone(),
            salt: self.salt.clone(),
            hash: self.hash.clone(),
            role: self.role.clone(),
            allowed_dbs: copy_dbs(&self.allowed_dbs),
        }
    }
}

/// A copy of a list of databases.
pub fn copy_dbs(d: &[u16]) -> (r: Vec<u16>)
    ensures
        r@ == d@,
{
    vstd::slice::slice_to_vec(d)
}

/// What went wrong with an account.
#[derive(Debug, Clone, Copy, PartialEq, Eq, Structural)]
pub enum UserError {
    /// Nobody of that name can sign in.
    UnknownUser,
    /// There is no account of that name to change.
    NoSuchUser,
    LastAdminDeleted,
    LastAdminDemoted,
    CorruptSalt,
    CorruptHash,
    InvalidCredentials,
}

impl UserError {
    /// The text of the error.
    pub open spec fn text(self) -> Seq<char> {
        match self {
            UserError::UnknownUser => "unknown user"@,
            UserError::NoSuchUser => "unknown user"@,
            UserError::LastAdminDeleted => "cannot delete the last admin account"@,
            UserError::LastAdminDemoted => "cannot demote the last admin account"@,
            UserError::CorruptSalt => "corrupt salt"@,
            UserError::CorruptHash => "corrupt hash"@,
            UserError::InvalidCredentials => "invalid credentials"@,
        }
    }

    /// The text of the error.
    pub fn message(self) -> (r: &'static str)
        ensures
            r@ == self.text(),
    {
        match self {
            UserError::UnknownUser => "unknown user",
            UserError::NoSuchUser => "unknown user",
            UserError::LastAdminDeleted => "cannot delete the last admin account",
            UserError::LastAdminDemoted => "cannot demote the last admin account",
            UserError::CorruptSalt => "corrupt salt",
            UserError::CorruptHash => "corrupt hash",
            UserError::InvalidCredentials => "invalid credentials",
        }
    }

    /// The text of the error where it names the account.
    pub open spec fn text_for(self, username: Seq<char>) -> Seq<char> {
        match self {
            UserError::NoSuchUser => "unknown user '"@ + username + "'"@,
            _ => self.text(),
        }
    }

    /// The text of the error where it names the account.
    pub fn message_for(self, username: &str) -> (r: String)
        ensures
            r@ == self.text_for(username@),
    {
        match self {
            UserError::NoSuchUser => {
                let mut s = "unknown user '".to_string();
                s.append(username);
                s.append("'");
                s
            },
            _ => self.message().to_string(),
        }
    }
}

/// What a list of accounts says.
pub open spec fn user_views(s: Seq<UserRecord>) -> Seq<UserView> {
    s.map_values(|u: UserRecord| u@)
}

/// `i` is the place of the account of this name, or the length.
pub open spec fn is_place(s: Seq<UserView>, name: Seq<char>, i: int) -> bool {
    &&& 0 <= i <= s.len()
    &&& forall|j: int| 0 <= j < i ==> (#[trigger] s[j]).username != name
    &&& i < s.len() ==> s[i].username == name
}

/// The place of the account of this name, or the length.
pub open spec fn place(s: Seq<UserView>, name: Seq<char>) -> int {
    choose|i: int| is_place(s, name, i)
}

proof fn lemma_place_is(s: Seq<UserView>, name: Seq<char>, i: int)
    requires
        is_place(s, name, i),
    ensures
        place(s, name) == i,
{
    let k = place(s, name);
    assert(is_place(s, name, k));
    if k < i {
        assert(s[k].username != name);
    } else if i < k {
        assert(s[i].username != name);
    }
}

/// Whether there is an account of this name.
pub open spec fn known(s: Seq<UserView>, name: Seq<char>) -> bool {
    place(s, name) < s.len()
}

/// No name occurs twice.
pub open spec fn names_distinct(s: Seq<UserView>) -> bool {
    forall|i: int, j: int| 0 <= i < j < s.len() ==> (#[trigger] s[i]).username != (#[trigger] s[j]).username
}

/// The highest number of an account, zero where there is none.
pub open spec fn max_id(s: Seq<UserView>) -> u64
    decreases s.len(),
{
    if s.len() == 0 {
        0
    } else if s.last().user_id > max_id(s.drop_last()) {
        s.last().user_id
    } else {
        max_id(s.drop_last())
    }
}

/// How many accounts are administrators.
pub open spec fn admin_count(s: Seq<UserView>) -> nat
    decreases s.len(),
{
    if s.len() == 0 {
        0
    } else {
        admin_count(s.drop_last()) + if s.last().role == "admin"@ { 1nat } else { 0nat }
    }
}

/// The key derived from a password and a salt.
pub open spec fn derived(password: Seq<char>, salt: Seq<u8>) -> Seq<u8> {
    pbkdf2_of(vstd::utf8::encode_utf8(password), salt, ITERATIONS, DK_LEN)
}

/// The account's salt and hash fit a password and a salt.
pub open spec fn keyed(u: UserView, password: Seq<char>, salt: Seq<u8>) -> bool {
    &&& vstd::utf8::encode_utf8(u.salt) == b64url_of(salt)
    &&& vstd::utf8::encode_utf8(u.hash) == b64url_of(derived(password, salt))
}

/// The account that is made for a new name: the next number, all databases,
/// and the role asked for, or `admin` for the first account.
pub open spec fn is_account(
    u: UserView,
    s: Seq<UserView>,
    name: Seq<char>,
    password: Seq<char>,
    role: Seq<char>,
    salt: Seq<u8>,
) -> bool {
    &&& keyed(u, password, salt)
    &&& u.username == name
    &&& max_id(s) < u64::MAX ==> u.user_id == max_id(s) + 1
    &&& u.role == if s.len() == 0 { "admin"@ } else { role }
    &&& u.allowed_dbs == Seq::<u16>::empty()
}

/// The accounts after an account was made or, where the name is taken,
/// given a new password and role. The first account is an administrator.
pub open spec fn with_user(s: Seq<UserView>, u: UserView, role: Seq<char>) -> Seq<UserView> {
    let i = place(s, u.username);
    if i < s.len() {
        s.update(i, UserView { salt: u.salt, hash: u.hash, role, ..s[i] })
    } else {
        s.push(u)
    }
}

/// Whether a name and a password fit an account: its number, or why not.
pub open spec fn checked(s: Seq<UserView>, name: Seq<char>, password: Seq<char>) -> Result<u64, UserError> {
    if !known(s, name) {
        Err(UserError::UnknownUser)
    } else {
        let u = s[place(s, name)];
        match b64url_bytes(vstd::utf8::encode_utf8(u.salt)) {
            None => Err(UserError::CorruptSalt),
            Some(salt) => match b64url_bytes(vstd::utf8::encode_utf8(u.hash)) {
                None => Err(UserError::CorruptHash),
                Some(key) => if derived(password, salt) == key {
                    Ok(u.user_id)
                } else {
                    Err(UserError::InvalidCredentials)
                },
            },
        }
    }
}

/// A list of databases with one more, in order.
pub open spec fn with_db(d: Seq<u16>, db: u16) -> Seq<u16> {
    if d.contains(db) {
        d
    } else {
        sorted_dbs(d.push(db))
    }
}

/// Databases in ascending order.
pub open spec fn sorted_dbs(d: Seq<u16>) -> Seq<u16> {
    stable_sort(d, |a: u16, b: u16| a <= b)
}

/// A list of databases without one. An empty list, which stands for all, stays
/// empty; a list that loses its last database is not left empty.
pub open spec fn without_db(d: Seq<u16>, db: u16) -> Seq<u16> {
    if d.len() > 0 && d.filter(other_than(db)).len() == 0 {
        seq![NO_DATABASE]
    } else {
        d.filter(other_than(db))
    }
}

/// Every database but one.
pub open spec fn other_than(db: u16) -> spec_fn(u16) -> bool {
    |x: u16| x != db
}

/// Accounts in the order of their numbers.
pub open spec fn by_id(s: Seq<UserView>) -> Seq<UserView> {
    stable_sort(s, id_leq())
}

pub open spec fn id_leq() -> spec_fn(UserView, UserView) -> bool {
    |a: UserView, b: UserView| a.user_id <= b.user_id
}

/// The accounts.
pub struct UsersDb {
    users: Vec<UserRecord>,
}

impl View for UsersDb {
    type V = Seq<UserView>;

    closed spec fn view(&self) -> Seq<UserView> {
        user_views(self.users@)
    }
}

/// The key derived from a password and a salt.
fn derive_key(password: &str, salt: &[u8]) -> (r: Vec<u8>)
    ensures
        r@ == derived(password@, salt@),
        r@.len() == DK_LEN,
{
    pbkdf2_sha256(password.as_bytes(), salt, ITERATIONS, DK_LEN)
}

impl UsersDb {
    pub open spec fn wf(&self) -> bool {
        names_distinct(self@)
    }

    /// No accounts.
    pub fn in_memory() -> (db: Self)
        ensures
            db.wf(),
            db@ == Seq::<UserView>::empty(),
    {
        let db = UsersDb { users: Vec::new() };
        assert(db@ =~= Seq::<UserView>::empty());
        db
    }

    /// The accounts of a list; of two with the same name the later one counts.
    pub fn from_records(records: Vec<UserRecord>) -> (db: Self)
        ensures
            db.wf(),
            db@ == gathered(user_views(records@)),
    {
        let mut db = UsersDb::in_memory();
        let mut i: usize = 0;
        let ghost all = user_views(records@);
        while i < records.len()
            invariant
                i <= records.len(),
                all == user_views(records@),
                db.wf(),
                db@ == gathered(all.take(i as int)),
            decreases records.len() - i,
        {
            assert(all.take(i + 1).drop_last() =~= all.take(i as int));
            let ghost before = db@;
            let k: usize = db.find(&records[i].username);
            if k < db.users.len() {
                db.users.set(k, records[i].clone());
                assert(db@ =~= before.update(k as int, all[i as int]));
            } else {
                db.users.push(records[i].clone());
                assert(db@ =~= before.push(all[i as int]));
            }
            i = i + 1;
        }
        assert(all.take(all.len() as int) =~= all);
        db
    }

    /// All accounts, in no particular order.
    pub fn records(&self) -> (r: Vec<UserRecord>)
        ensures
            user_views(r@) == self@,
    {
        let mut r: Vec<UserRecord> = Vec::new();
        let mut i: usize = 0;
        while i < self.users.len()
            invariant
                i <= self.users.len(),
                r@.len() == i,
                forall|j: int| 0 <= j < i ==> (#[trigger] r@[j])@ == self.users@[j]@,
            decreases self.users.len() - i,
        {
            r.push(self.users[i].clone());
            i = i + 1;
        }
        assert(user_views(r@) =~= self@);
        r
    }

    fn find(&self, username: &str) -> (r: usize)
        ensures
            r <= self.users@.len(),
            self@.len() == self.users@.len(),
            is_place(self@, username@, r as int),
            r == place(self@, username@),
    {
        let mut i: usize = 0;
        while i < self.users.len()
            invariant
                i <= self.users.len(),
                forall|j: int| 0 <= j < i ==> (#[trigger] self@[j]).username != username@,
            decreases self.users.len() - i,
        {
            if str_eq(self.users[i].username.as_str(), username) {
                proof {
                    lemma_place_is(self@, username@, i as int);
                }
                return i;
            }
            i = i + 1;
        }
        proof {
            lemma_place_is(self@, username@, i as int);
        }
        i
    }

    fn count_admins(&self) -> (n: usize)
        ensures
            n == admin_count(self@),
    {
        let mut n: usize = 0;
        let mut i: usize = 0;
        while i < self.users.len()
            invariant
                i <= self.users.len(),
                n <= i,
                n == admin_count(self@.take(i as int)),
            decreases self.users.len() - i,
        {
            assert(self@.take(i + 1).drop_last() =~= self@.take(i as int));
            if str_eq(self.users[i].role.as_str(), "admin") {
                n = n + 1;
            }
            i = i + 1;
        }
        assert(self@.take(self@.len() as int) =~= self@);
        n
    }

    fn highest_id(&self) -> (m: u64)
        ensures
            m == max_id(self@),
    {
        let mut m: u64 = 0;
        let mut i: usize = 0;
        while i < self.users.len()
            invariant
                i <= self.users.len(),
                m == max_id(self@.take(i as int)),
            decreases self.users.len() - i,
        {
            assert(self@.take(i + 1).drop_last() =~= self@.take(i as int));
            if self.users[i].user_id > m {
                m = self.users[i].user_id;
            }
            i = i + 1;
        }
        assert(self@.take(self@.len() as int) =~= self@);
        m
    }

    /// Makes an account with the given salt, or gives the account of that
    /// name a new password and role. The first account is always an
    /// administrator. Returns the account's number.
    pub fn create_user_with(&mut self, username: &str, password: &str, role: &str, salt: &[u8]) -> (uid: u64)
        requires
            old(self).wf(),
            salt@.len() <= usize::MAX / 4,
            known(old(self)@, username@) || max_id(old(self)@) < u64::MAX,
        ensures
            final(self).wf(),
            exists|u: UserView|
                is_account(u, old(self)@, username@, password@, role@, salt@) && final(self)@ == #[trigger] with_user(
                    old(self)@,
                    u,
                    role@,
                ),
            known(final(self)@, username@),
            uid == final(self)@[place(final(self)@, username@)].user_id,
            uid == (if known(old(self)@, username@) {
                old(self)@[place(old(self)@, username@)].user_id
            } else {
                (max_id(old(self)@) + 1) as u64
            }),
            checked(final(self)@, username@, password@) == Ok::<u64, UserError>(uid),
    {
        let dk = derive_key(password, salt);
        let salt_text = b64url_encode(salt);
        let hash_text = b64url_encode(&dk);
        proof {
            law_b64url_reads_back(salt@);
            law_b64url_reads_back(dk@);
        }
        let ghost before = self@;
        let i: usize = self.find(username);
        let next: u64 = if i < self.users.len() { 0 } else { self.highest_id() + 1 };
        let effective = if self.users.len() == 0 { "admin" } else { role };
        let ghost u = UserView {
            user_id: (max_id(before) + 1) as u64,
            username: username@,
            salt: salt_text@,
            hash: hash_text@,
            role: effective@,
            allowed_dbs: Seq::empty(),
        };
        assert(is_account(u, before, username@, password@, role@, salt@));
        if i < self.users.len() {
            let uid: u64 = self.users[i].user_id;
            let record = UserRecord {
                user_id: uid,
                username: self.users[i].username.clone(),
                salt: salt_text,
                hash: hash_text,
                role: role.to_owned(),
                allowed_dbs: copy_dbs(&self.users[i].allowed_dbs),
            };
            self.users.set(i, record);
            proof {
                assert(self@ =~= with_user(before, u, role@));
                assert(is_place(self@, username@, i as int));
                lemma_place_is(self@, username@, i as int);
            }
            uid
        } else {
            let record = UserRecord {
                user_id: next,
                username: username.to_owned(),
                salt: salt_text,
                hash: hash_text,
                role: effective.to_owned(),
                allowed_dbs: Vec::new(),
            };
            assert(record@.allowed_dbs =~= Seq::<u16>::empty());
            self.users.push(record);
            proof {
                assert(self@ =~= before.push(u));
                assert(self@ == with_user(before, u, role@));
                assert(is_place(self@, username@, i as int));
                lemma_place_is(self@, username@, i as int);
            }
            next
        }
    }
}

/// A list of accounts in which the later one of a name replaces the earlier.
pub open spec fn gathered(s: Seq<UserView>) -> Seq<UserView>
    decreases s.len(),
{
    if s.len() == 0 {
        s
    } else {
        let t = gathered(s.drop_last());
        let i = place(t, s.last().username);
        if i < t.len() {
            t.update(i, s.last())
        } else {
            t.push(s.last())
        }
    }
}

/// The accounts without one.
pub open spec fn without_user(s: Seq<UserView>, name: Seq<char>) -> Seq<UserView> {
    s.remove(place(s, name))
}

/// The accounts with the role of one changed.
pub open spec fn with_role(s: Seq<UserView>, name: Seq<char>, role: Seq<char>) -> Seq<UserView> {
    let i = place(s, name);
    s.update(i, UserView { role, ..s[i] })
}

/// The accounts with the databases of one changed.
pub open spec fn with_dbs(s: Seq<UserView>, name: Seq<char>, dbs: Seq<u16>) -> Seq<UserView> {
    let i = place(s, name);
    s.update(i, UserView { allowed_dbs: dbs, ..s[i] })
}

/// Why an account may not be removed, if so.
pub open spec fn delete_refused(s: Seq<UserView>, name: Seq<char>) -> Option<UserError> {
    if !known(s, name) {
        Some(UserError::NoSuchUser)
    } else if s[place(s, name)].role == "admin"@ && admin_count(s) <= 1 {
        Some(UserError::LastAdminDeleted)
    } else {
        None
    }
}

/// Why an account may not be given a role, if so.
pub open spec fn role_refused(s: Seq<UserView>, name: Seq<char>, role: Seq<char>) -> Option<UserError> {
    if !known(s, name) {
        Some(UserError::NoSuchUser)
    } else if s[place(s, name)].role == "admin"@ && role != "admin"@ && admin_count(s) <= 1 {
        Some(UserError::LastAdminDemoted)
    } else {
        None
    }
}

proof fn lemma_admins_push(s: Seq<UserView>, u: UserView)
    ensures
        admin_count(s.push(u)) == admin_count(s) + if u.role == "admin"@ { 1nat } else { 0nat },
{
    assert(s.push(u).drop_last() =~= s);
}

proof fn lemma_admins_update(s: Seq<UserView>, i: int, u: UserView)
    requires
        0 <= i < s.len(),
    ensures
        admin_count(s.update(i, u)) + (if s[i].role == "admin"@ { 1nat } else { 0nat }) == admin_count(s) + (if u.role
            == "admin"@ { 1nat } else { 0nat }),
    decreases s.len(),
{
    let t = s.update(i, u);
    if i == s.len() - 1 {
        assert(t.drop_last() =~= s.drop_last());
    } else {
        lemma_admins_update(s.drop_last(), i, u);
        assert(t.drop_last() =~= s.drop_last().update(i, u));
        assert(t.last() == s.last());
    }
}

pub proof fn lemma_admins_remove(s: Seq<UserView>, i: int)
    requires
        0 <= i < s.len(),
    ensures
        admin_count(s.remove(i)) + (if s[i].role == "admin"@ { 1nat } else { 0nat }) == admin_count(s),
    decreases s.len(),
{
    let t = s.remove(i);
    if i == s.len() - 1 {
        assert(t =~= s.drop_last());
    } else {
        lemma_admins_remove(s.drop_last(), i);
        assert(t.drop_last() =~= s.drop_last().remove(i));
        assert(t.last() == s.last());
    }
}

/// Every name has its place.
pub proof fn lemma_place_exists(s: Seq<UserView>, name: Seq<char>)
    ensures
        is_place(s, name, place(s, name)),
    decreases s.len(),
{
    if s.len() == 0 {
        assert(is_place(s, name, 0));
    } else {
        let t = s.drop_last();
        lemma_place_exists(t, name);
        assert(forall|j: int| 0 <= j < t.len() ==> #[trigger] s[j] == t[j]);
        let i = place(t, name);
        if i < t.len() {
            assert(is_place(s, name, i));
        } else if s.last().username == name {
            assert(is_place(s, name, s.len() - 1));
        } else {
            assert(is_place(s, name, s.len() as int));
        }
    }
}

/// Removing accounts and changing roles never takes the last administrator
/// away. (Making an account anew under the name of the last administrator,
/// with another role, does.)
pub proof fn law_last_admin_stays(s: Seq<UserView>, name: Seq<char>, role: Seq<char>)
    requires
        admin_count(s) >= 1,
    ensures
        delete_refused(s, name) is None ==> admin_count(without_user(s, name)) >= 1,
        role_refused(s, name, role) is None ==> admin_count(with_role(s, name, role)) >= 1,
{
    lemma_place_exists(s, name);
    let i = place(s, name);
    if i < s.len() {
        lemma_admins_remove(s, i);
        lemma_admins_update(s, i, UserView { role, ..s[i] });
    }
}

/// The first account is an administrator, whatever role was asked for.
pub proof fn law_first_user_is_admin(u: UserView, name: Seq<char>, password: Seq<char>, role: Seq<char>, salt: Seq<u8>)
    requires
        is_account(u, Seq::empty(), name, password, role, salt),
    ensures
        admin_count(with_user(Seq::empty(), u, role)) == 1,
{
    lemma_place_exists(Seq::empty(), name);
    lemma_admins_push(Seq::empty(), u);
}

/// A new account gets a number that no account has.
pub proof fn law_ids_fresh(s: Seq<UserView>, i: int)
    requires
        0 <= i < s.len(),
    ensures
        s[i].user_id <= max_id(s),
    decreases s.len(),
{
    if i < s.len() - 1 {
        law_ids_fresh(s.drop_last(), i);
    }
}

/// The databases stand in ascending order.
pub open spec fn in_order(d: Seq<u16>) -> bool {
    forall|i: int, j: int| 0 <= i < j < d.len() ==> d[i] <= d[j]
}

proof fn lemma_filter_in_order(d: Seq<u16>, db: u16)
    requires
        in_order(d),
    ensures
        in_order(d.filter(other_than(db))),
        forall|i: int|
            0 <= i < d.filter(other_than(db)).len() ==> exists|j: int|
                0 <= j < d.len() && d[j] == #[trigger] d.filter(other_than(db))[i],
    decreases d.len(),
{
    let keep = other_than(db);
    if d.len() == 0 {
        assert(d.filter(keep) =~= d);
    } else {
        let t = d.drop_last();
        let x = d.last();
        lemma_filter_in_order(t, db);
        assert(d =~= t.push(x));
        t.lemma_filter_push(x, keep);
        let f = d.filter(keep);
        let ft = t.filter(keep);
        assert forall|i: int| 0 <= i < f.len() implies exists|j: int| 0 <= j < d.len() && d[j] == #[trigger] f[i] by {
            if i < ft.len() {
                let j = choose|j: int| 0 <= j < t.len() && t[j] == ft[i];
                assert(d[j] == f[i]);
            } else {
                assert(d[d.len() - 1] == f[i]);
            }
        }
        assert forall|i: int, j: int| 0 <= i < j < f.len() implies f[i] <= f[j] by {
            if j < ft.len() {
                assert(ft[i] <= ft[j]);
            } else {
                let k = choose|k: int| 0 <= k < t.len() && t[k] == ft[i];
                assert(d[k] <= d[d.len() - 1]);
            }
        }
    }
}

proof fn lemma_filter_holds(d: Seq<u16>, db: u16, other: u16)
    ensures
        d.filter(other_than(db)).contains(other) <==> d.contains(other) && other != db,
{
    let keep = other_than(db);
    if d.filter(keep).contains(other) {
        d.lemma_filter_contains_rev(keep, other);
        let i = choose|i: int| 0 <= i < d.filter(keep).len() && d.filter(keep)[i] == other;
        d.lemma_filter_pred(keep, i);
    }
    if d.contains(other) && other != db {
        let i = choose|i: int| 0 <= i < d.len() && d[i] == other;
        d.lemma_filter_contains(keep, i);
    }
}

/// Granting a database lists it, keeps the others, and keeps an ordered list
/// ordered; taking it back leaves the rest.
pub proof fn law_grant_and_revoke(d: Seq<u16>, db: u16, other: u16)
    ensures
        with_db(d, db).contains(db),
        db != NO_DATABASE ==> !without_db(d, db).contains(db),
        other != db ==> (with_db(d, db).contains(other) <==> d.contains(other)),
        other != db && other != NO_DATABASE ==> (without_db(d, db).contains(other) <==> d.contains(other)),
        in_order(d) ==> in_order(with_db(d, db)) && in_order(without_db(d, db)),
{
    broadcast use vstd::seq_lib::group_to_multiset_ensures;

    let leq = |a: u16, b: u16| a <= b;
    let e = d.push(db);
    law_sort_keeps_items(e, leq);
    law_sort_ascending(e, leq);
    assert forall|i: int, j: int| 0 <= i < j < sorted_dbs(e).len() implies sorted_dbs(e)[i] <= sorted_dbs(e)[j] by {
        assert(leq(sorted_dbs(e)[i], sorted_dbs(e)[j]));
    }
    if in_order(d) {
        lemma_filter_in_order(d, db);
    }
    assert(e[d.len() as int] == db);
    assert(e.contains(db));
    assert(e.to_multiset().count(db) > 0);
    assert(sorted_dbs(e).contains(db) <==> sorted_dbs(e).to_multiset().count(db) > 0);
    lemma_filter_holds(d, db, other);
    lemma_filter_holds(d, db, db);
    if other != db {
        if d.contains(other) {
            let i = choose|i: int| 0 <= i < d.len() && d[i] == other;
            assert(e[i] == other);
        }
        if e.contains(other) {
            let i = choose|i: int| 0 <= i < e.len() && e[i] == other;
            assert(d[i] == other);
        }
        assert(e.contains(other) <==> e.to_multiset().count(other) > 0);
        assert(sorted_dbs(e).contains(other) <==> sorted_dbs(e).to_multiset().count(other) > 0);
    }
    if d.len() > 0 && d.filter(other_than(db)).len() == 0 {
        if without_db(d, db).contains(other) {
            let i = choose|i: int| 0 <= i < without_db(d, db).len() && without_db(d, db)[i] == other;
        }
        if without_db(d, db).contains(db) {
            let i = choose|i: int| 0 <= i < without_db(d, db).len() && without_db(d, db)[i] == db;
        }
    }
}

/// Taking a database from an account with a list ends the access to it, for
/// whatever command, and leaves the access to every other as it was; granting
/// one opens it and leaves the access to every other. An account without a
/// list keeps all databases.
pub proof fn law_revoke_ends_access(role: Role, cmd: CmdId, d: Seq<u16>, db: u16, other: u16)
    requires
        role != Role::Admin,
    ensures
        d.len() > 0 && db != NO_DATABASE ==> !permitted(role, cmd, db, without_db(d, db)),
        d.len() > 0 && other != db && other != NO_DATABASE ==> permitted(role, cmd, other, without_db(d, db))
            == permitted(role, cmd, other, d),
        d.len() == 0 ==> without_db(d, db) == d,
        lets_into(with_db(d, db), db),
        d.len() > 0 && other != db ==> permitted(role, cmd, other, with_db(d, db)) == permitted(role, cmd, other, d),
{
    law_grant_and_revoke(d, db, other);
    assert(with_db(d, db).len() > 0) by {
        let i = choose|i: int| 0 <= i < with_db(d, db).len() && with_db(d, db)[i] == db;
    }
    if d.len() == 0 {
        assert(d.filter(other_than(db)).len() == 0) by {
            if d.filter(other_than(db)).len() > 0 {
                lemma_filter_holds(d, db, d.filter(other_than(db))[0]);
                assert(d.filter(other_than(db)).contains(d.filter(other_than(db))[0]));
            }
        }
        assert(without_db(d, db) =~= d);
    }
}

/// A list of databases without a number.
fn dbs_without(d: &Vec<u16>, db: u16) -> (kept: Vec<u16>)
    ensures
        kept@ == d@.filter(other_than(db)),
{
    let ghost keep = other_than(db);
    let mut kept: Vec<u16> = Vec::new();
    let mut k: usize = 0;
    assert(d@.take(0).filter(keep) =~= Seq::empty());
    while k < d.len()
        invariant
            k <= d@.len(),
            keep == other_than(db),
            kept@ == d@.take(k as int).filter(keep),
        decreases d@.len() - k,
    {
        let x: u16 = d[k];
        proof {
            assert(d@.take(k + 1) =~= d@.take(k as int).push(d@[k as int]));
            Seq::lemma_filter_push(d@.take(k as int), d@[k as int], keep);
        }
        if x != db {
            kept.push(x);
        }
        k = k + 1;
    }
    assert(d@.take(d@.len() as int) =~= d@);
    kept
}

fn has_db(d: &Vec<u16>, db: u16) -> (r: bool)
    ensures
        r == d@.contains(db),
{
    let mut i: usize = 0;
    while i < d.len()
        invariant
            i <= d.len(),
            forall|j: int| 0 <= j < i ==> d@[j] != db,
        decreases d.len() - i,
    {
        if d[i] == db {
            return true;
        }
        i = i + 1;
    }
    false
}

fn insert_db(d: &mut Vec<u16>, db: u16)
    ensures
        final(d)@ == stable_insert(old(d)@, db, |a: u16, b: u16| a <= b),
{
    let ghost leq = |a: u16, b: u16| a <= b;
    let ghost all = d@;
    let mut i: usize = d.len();
    assert(all.subrange(all.len() as int, all.len() as int) =~= Seq::empty());
    assert(all.take(all.len() as int) =~= all);
    assert(stable_insert(all, db, leq) + Seq::empty() =~= stable_insert(all, db, leq));
    while i > 0 && d[i - 1] > db
        invariant
            i <= d.len(),
            d@ == all,
            leq == (|a: u16, b: u16| a <= b),
            stable_insert(all, db, leq) == stable_insert(all.take(i as int), db, leq) + all.subrange(
                i as int,
                all.len() as int,
            ),
        decreases i,
    {
        proof {
            let t = all.take(i as int);
            assert(t.drop_last() =~= all.take(i - 1));
            assert(stable_insert(t, db, leq) == stable_insert(t.drop_last(), db, leq).push(t.last()));
            assert(stable_insert(all.take(i - 1), db, leq).push(t.last()) + all.subrange(i as int, all.len() as int)
                =~= stable_insert(all.take(i - 1), db, leq) + all.subrange(i - 1, all.len() as int));
        }
        i = i - 1;
    }
    proof {
        let t = all.take(i as int);
        assert(stable_insert(t, db, leq) == t.push(db));
    }
    d.insert(i, db);
    assert(d@ =~= all.take(i as int).push(db) + all.subrange(i as int, all.len() as int));
}

fn sort_dbs(d: &Vec<u16>) -> (r: Vec<u16>)
    ensures
        r@ == sorted_dbs(d@),
{
    let mut r: Vec<u16> = Vec::new();
    let mut i: usize = 0;
    assert(r@ =~= sorted_dbs(d@.take(0)));
    while i < d.len()
        invariant
            i <= d.len(),
            r@ == sorted_dbs(d@.take(i as int)),
        decreases d.len() - i,
    {
        assert(d@.take(i + 1).drop_last() =~= d@.take(i as int));
        insert_db(&mut r, d[i]);
        i = i + 1;
    }
    assert(d@.take(d@.len() as int) =~= d@);
    r
}

fn insert_record(s: &mut Vec<UserRecord>, x: UserRecord)
    ensures
        user_views(final(s)@) == stable_insert(user_views(old(s)@), x@, id_leq()),
{
    let ghost all = user_views(s@);
    let ghost item = x@;
    let mut i: usize = s.len();
    assert(all.subrange(all.len() as int, all.len() as int) =~= Seq::empty());
    assert(all.take(all.len() as int) =~= all);
    assert(stable_insert(all, item, id_leq()) + Seq::empty() =~= stable_insert(all, item, id_leq()));
    while i > 0 && s[i - 1].user_id > x.user_id
        invariant
            i <= s.len(),
            s@ == old(s)@,
            all == user_views(s@),
            item == x@,
            stable_insert(all, item, id_leq()) == stable_insert(all.take(i as int), item, id_leq()) + all.subrange(
                i as int,
                all.len() as int,
            ),
        decreases i,
    {
        proof {
            let t = all.take(i as int);
            assert(t.last() == s@[i - 1]@);
            assert(t.drop_last() =~= all.take(i - 1));
            assert(stable_insert(t, item, id_leq()) == stable_insert(t.drop_last(), item, id_leq()).push(t.last()));
            assert(stable_insert(all.take(i - 1), item, id_leq()).push(t.last()) + all.subrange(
                i as int,
                all.len() as int,
            ) =~= stable_insert(all.take(i - 1), item, id_leq()) + all.subrange(i - 1, all.len() as int));
        }
        i = i - 1;
    }
    proof {
        let t = all.take(i as int);
        if i > 0 {
            assert(t.last() == s@[i - 1]@);
        }
        assert(stable_insert(t, item, id_leq()) == t.push(item));
    }
    s.insert(i, x);
    assert(user_views(s@) =~= all.take(i as int).push(item) + all.subrange(i as int, all.len() as int));
}

impl UsersDb {
    /// Makes an account with a random salt, or gives the account of that name
    /// a new password and role. The first account is always an administrator.
    pub fn create_user(&mut self, username: &str, password: &str, role: &str) -> (r: Result<u64, UserError>)
        requires
            old(self).wf(),
            known(old(self)@, username@) || max_id(old(self)@) < u64::MAX,
        ensures
            final(self).wf(),
            r matches Ok(uid) && checked(final(self)@, username@, password@) == Ok::<u64, UserError>(uid) && uid == (
            if known(old(self)@, username@) {
                old(self)@[place(old(self)@, username@)].user_id
            } else {
                (max_id(old(self)@) + 1) as u64
            }),
            exists|u: UserView, salt: Seq<u8>|
                salt.len() == SALT_LEN && #[trigger] is_account(u, old(self)@, username@, password@, role@, salt)
                    && final(self)@ == with_user(old(self)@, u, role@),
    {
        let salt = random_bytes(SALT_LEN);
        Ok(self.create_user_with(username, password, role, &salt))
    }

    /// Whether another account can be made under this name: the name is taken
    /// already, or there is a number left.
    pub fn can_create(&self, username: &str) -> (r: bool)
        ensures
            r == (known(self@, username@) || max_id(self@) < u64::MAX),
    {
        self.find(username) < self.users.len() || self.highest_id() < u64::MAX
    }

    /// Removes an account. The last administrator cannot be removed.
    pub fn delete_user(&mut self, username: &str) -> (r: Result<(), UserError>)
        requires
            old(self).wf(),
        ensures
            final(self).wf(),
            match delete_refused(old(self)@, username@) {
                Some(e) => r == Err::<(), UserError>(e) && *final(self) == *old(self),
                None => r is Ok && final(self)@ == without_user(old(self)@, username@),
            },
    {
        let i: usize = self.find(username);
        if i == self.users.len() {
            return Err(UserError::NoSuchUser);
        }
        if str_eq(self.users[i].role.as_str(), "admin") && self.count_admins() <= 1 {
            return Err(UserError::LastAdminDeleted);
        }
        let ghost before = self@;
        let gone = self.users.remove(i);
        proof {
            assert(self@ =~= before.remove(i as int));
            assert forall|a: int, b: int| 0 <= a < b < self@.len() implies (#[trigger] self@[a]).username != (#[trigger] self@[b]).username by {
                let a2 = if a < i { a } else { a + 1 };
                let b2 = if b < i { b } else { b + 1 };
                assert(before[a2].username != before[b2].username);
            }
        }
        Ok(())
    }

    /// Changes a role. The last administrator cannot be given a lower one.
    pub fn set_role(&mut self, username: &str, role: &str) -> (r: Result<(), UserError>)
        requires
            old(self).wf(),
        ensures
            final(self).wf(),
            match role_refused(old(self)@, username@, role@) {
                Some(e) => r == Err::<(), UserError>(e) && *final(self) == *old(self),
                None => r is Ok && final(self)@ == with_role(old(self)@, username@, role@),
            },
    {
        let i: usize = self.find(username);
        if i == self.users.len() {
            return Err(UserError::NoSuchUser);
        }
        if str_eq(self.users[i].role.as_str(), "admin") && !str_eq(role, "admin") && self.count_admins() <= 1 {
            return Err(UserError::LastAdminDemoted);
        }
        let ghost before = self@;
        self.users[i].role = role.to_owned();
        assert(self@ =~= with_role(before, username@, role@));
        Ok(())
    }

    /// Lets a user into a database. A user who had all databases is held to
    /// the listed ones from then on.
    pub fn grant_db(&mut self, username: &str, db_id: u16) -> (r: Result<(), UserError>)
        requires
            old(self).wf(),
        ensures
            final(self).wf(),
            if known(old(self)@, username@) {
                r is Ok && final(self)@ == with_dbs(
                    old(self)@,
                    username@,
                    with_db(old(self)@[place(old(self)@, username@)].allowed_dbs, db_id),
                )
            } else {
                r == Err::<(), UserError>(UserError::NoSuchUser) && *final(self) == *old(self)
            },
    {
        let i: usize = self.find(username);
        if i == self.users.len() {
            return Err(UserError::NoSuchUser);
        }
        let ghost before = self@;
        if !has_db(&self.users[i].allowed_dbs, db_id) {
            let mut dbs = copy_dbs(&self.users[i].allowed_dbs);
            dbs.push(db_id);
            self.users[i].allowed_dbs = sort_dbs(&dbs);
        }
        assert(self@ =~= with_dbs(before, username@, with_db(before[i as int].allowed_dbs, db_id)));
        Ok(())
    }

    /// Takes a database from a user's list, after which the user cannot get
    /// into it any more. A user who is not held to listed databases keeps them
    /// all.
    pub fn revoke_db(&mut self, username: &str, db_id: u16) -> (r: Result<(), UserError>)
        requires
            old(self).wf(),
        ensures
            final(self).wf(),
            if known(old(self)@, username@) {
                r is Ok && final(self)@ == with_dbs(
                    old(self)@,
                    username@,
                    without_db(old(self)@[place(old(self)@, username@)].allowed_dbs, db_id),
                )
            } else {
                r == Err::<(), UserError>(UserError::NoSuchUser) && *final(self) == *old(self)
            },
    {
        let i: usize = self.find(username);
        if i == self.users.len() {
            return Err(UserError::NoSuchUser);
        }
        let ghost before = self@;
        let ghost d = self.users@[i as int].allowed_dbs@;
        let mut kept: Vec<u16> = dbs_without(&self.users[i].allowed_dbs, db_id);
        if kept.len() == 0 && self.users[i].allowed_dbs.len() > 0 {
            kept.push(NO_DATABASE);
            assert(kept@ =~= seq![NO_DATABASE]);
        }
        self.users[i].allowed_dbs = kept;
        assert(self@ =~= with_dbs(before, username@, without_db(d, db_id)));
        Ok(())
    }

    /// All accounts in the order of their numbers.
    pub fn list_users(&self) -> (r: Vec<UserRecord>)
        ensures
            user_views(r@) == by_id(self@),
    {
        let mut r: Vec<UserRecord> = Vec::new();
        let mut i: usize = 0;
        assert(user_views(r@) =~= by_id(self@.take(0)));
        while i < self.users.len()
            invariant
                i <= self.users.len(),
                user_views(r@) == by_id(self@.take(i as int)),
            decreases self.users.len() - i,
        {
            assert(self@.take(i + 1).drop_last() =~= self@.take(i as int));
            insert_record(&mut r, self.users[i].clone());
            i = i + 1;
        }
        assert(self@.take(self@.len() as int) =~= self@);
        r
    }

    /// The account with this number.
    pub fn get_user_by_id(&self, user_id: u64) -> (r: Option<UserRecord>)
        ensures
            match r {
                Some(u) => u@.user_id == user_id && self@.contains(u@),
                None => forall|i: int| 0 <= i < self@.len() ==> (#[trigger] self@[i]).user_id != user_id,
            },
    {
        let mut i: usize = 0;
        while i < self.users.len()
            invariant
                i <= self.users.len(),
                forall|j: int| 0 <= j < i ==> (#[trigger] self@[j]).user_id != user_id,
            decreases self.users.len() - i,
        {
            if self.users[i].user_id == user_id {
                assert(self@[i as int] == self.users@[i as int]@);
                return Some(self.users[i].clone());
            }
            i = i + 1;
        }
        None
    }

    /// The account of this name.
    pub fn get_user(&self, username: &str) -> (r: Option<UserRecord>)
        ensures
            match r {
                Some(u) => known(self@, username@) && u@ == self@[place(self@, username@)],
                None => !known(self@, username@),
            },
    {
        let i: usize = self.find(username);
        if i < self.users.len() {
            Some(self.users[i].clone())
        } else {
            None
        }
    }

    /// Checks a password. Returns the account's number.
    pub fn verify(&self, username: &str, password: &str) -> (r: Result<u64, UserError>)
        ensures
            r == checked(self@, username@, password@),
    {
        let i: usize = self.find(username);
        if i == self.users.len() {
            return Err(UserError::UnknownUser);
        }
        let salt = match b64url_decode(self.users[i].salt.as_str().as_bytes()) {
            None => return Err(UserError::CorruptSalt),
            Some(b) => b,
        };
        let key = match b64url_decode(self.users[i].hash.as_str().as_bytes()) {
            None => return Err(UserError::CorruptHash),
            Some(b) => b,
        };
        let computed = derive_key(password, &salt);
        if constant_time_eq(&computed, &key) {
            Ok(self.users[i].user_id)
        } else {
            Err(UserError::InvalidCredentials)
        }
    }
}

} // verus!
