//! Argus issues and checks session tokens.
//!
//! A token is the base64 text of its claims in MessagePack, a dot, and the
//! base64 text of the HMAC-SHA256 tag over what stands before the dot.

use vstd::prelude::*;

use crate::crypto::{
    b64url_decode, b64url_encode, claims_bytes, constant_time_eq, decode_five, decode_four, decode_six, encode_claims,
    decode_map, five_claims, four_claims, hmac_sha256, hmac_sha256_of, map_fields, now_secs, random_u64, six_claims,
};
use crate::digits::{b64url_bytes, b64url_of, is_b64url_byte, law_b64url_reads_back};
use crate::named_claims::{announced, announces, claims_from, claims_of};
use crate::users::{
    by_id, checked, copy_dbs, delete_refused, is_account, known, max_id, names_distinct, place, role_refused, user_views,
    with_db, with_dbs, with_role, with_user, without_db, without_user, UserError, UserRecord, UserView, UsersDb, SALT_LEN,
};

verus! {

/// The most token numbers that are remembered as revoked.
pub const MAX_BLACKLIST: usize = 65536;

/// Seconds that a session lasts unless configured otherwise.
pub const DEFAULT_TTL_SECS: u64 = 86400;

/// What a token claims.
#[derive(Debug)]
pub struct Claims {
    pub user_id: u64,
    /// When the token expires, in seconds since 1970.
    pub exp: u64,
    /// When the token was issued, in seconds since 1970.
    pub iat: u64,
    /// A random number that tells tokens apart.
    pub jti: u64,
    pub role: String,
    /// Databases that may be used; none listed stands for all.
    pub allowed_dbs: Vec<u16>,
}

/// What claims say.
pub struct ClaimsView {
    pub user_id: u64,
    pub exp: u64,
    pub iat: u64,
    pub jti: u64,
    pub role: Seq<char>,
    pub allowed_dbs: Seq<u16>,
}

impl View for Claims {
    type V = ClaimsView;

    open spec fn view(&self) -> ClaimsView {
        ClaimsView {
            user_id: self.user_id,
            exp: self.exp,
            iat: self.iat,
            jti: self.jti,
            role: self.role@,
            allowed_dbs: self.allowed_dbs@,
        }
    }
}

impl Clone for Claims {
    fn clone(&self) -> (r: Self)
        ensures
            r@ == self@,
    {
        Claims {
            user_id: self.user_id,
            exp: self.exp,
            iat: self.iat,
            jti: self.jti,
            role: self.role.clone(),
            allowed_dbs: copy_dbs(&self.allowed_dbs),
        }
    }
}

impl ClaimsView {
    /// The claims have expired at `now`.
    pub open spec fn expired(self, now: u64) -> bool {
        now >= self.exp
    }
}

impl Claims {
    /// Whether the claims have expired at `now`.
    pub fn is_expired_at(&self, now: u64) -> (r: bool)
        ensures
            r == self@.expired(now),
    {
        now >= self.exp
    }

    /// Whether the claims have expired by the system's clock.
    pub fn is_expired(&self) -> (r: bool)
        ensures
            exists|now: u64| r == #[trigger] self@.expired(now),
    {
        let now = now_secs();
        self.is_expired_at(now)
    }
}

/// Why a token is refused, or cannot be issued.
#[derive(Debug, Clone, Copy, PartialEq, Eq, Structural)]
pub enum AuthError {
    Malformed,
    BadSigEncoding,
    InvalidSignature,
    BadPayloadEncoding,
    BadClaims,
    Expired,
    Revoked,
    /// The claims could not be written.
    Unwritable,
    /// The token would expire beyond the range of times.
    TtlTooLong,
    MissingRecord,
    User(UserError),
}

impl AuthError {
    /// The text of the error.
    pub open spec fn text(self) -> Seq<char> {
        match self {
            AuthError::Malformed => "malformed token"@,
            AuthError::BadSigEncoding => "bad sig encoding"@,
            AuthError::InvalidSignature => "invalid token signature"@,
            AuthError::BadPayloadEncoding => "bad payload encoding"@,
            AuthError::BadClaims => "bad claims"@,
            AuthError::Expired => "token expired"@,
            AuthError::Revoked => "token revoked"@,
            AuthError::Unwritable => "claims cannot be written"@,
            AuthError::TtlTooLong => "token lifetime out of range"@,
            AuthError::MissingRecord => "user record missing after verify"@,
            AuthError::User(e) => e.text(),
        }
    }

    /// The text of the error.
    pub fn message(self) -> (r: &'static str)
        ensures
            r@ == self.text(),
    {
        match self {
            AuthError::Malformed => "malformed token",
            AuthError::BadSigEncoding => "bad sig encoding",
            AuthError::InvalidSignature => "invalid token signature",
            AuthError::BadPayloadEncoding => "bad payload encoding",
            AuthError::BadClaims => "bad claims",
            AuthError::Expired => "token expired",
            AuthError::Revoked => "token revoked",
            AuthError::Unwritable => "claims cannot be written",
            AuthError::TtlTooLong => "token lifetime out of range",
            AuthError::MissingRecord => "user record missing after verify",
            AuthError::User(e) => e.message(),
        }
    }
}

/// `i` is the place of the last dot.
pub open spec fn is_last_dot(b: Seq<u8>, i: int) -> bool {
    &&& 0 <= i < b.len()
    &&& b[i] == 0x2e
    &&& forall|j: int| i < j < b.len() ==> b[j] != 0x2e
}

/// The parts of a token before and behind its last dot.
pub open spec fn split_token(b: Seq<u8>) -> Option<(Seq<u8>, Seq<u8>)> {
    if exists|i: int| is_last_dot(b, i) {
        let i = choose|i: int| is_last_dot(b, i);
        Some((b.subrange(0, i), b.subrange(i + 1, b.len() as int)))
    } else {
        None
    }
}

proof fn lemma_split_at(b: Seq<u8>, i: int)
    requires
        is_last_dot(b, i),
    ensures
        split_token(b) == Some((b.subrange(0, i), b.subrange(i + 1, b.len() as int))),
{
    let k = choose|k: int| is_last_dot(b, k);
    if k < i {
        assert(b[i] != 0x2e);
    } else if i < k {
        assert(b[k] != 0x2e);
    }
}

/// The claims that bytes hold, written in turn or with their names. Old tokens
/// lack the databases, and still older ones the role: those count as an
/// administrator's, for all databases. A map in which a name comes twice holds
/// no claims, nor does one with a value that JSON does not have.
pub open spec fn read_claims(b: Seq<u8>) -> Option<ClaimsView> {
    match six_claims(b) {
        Some(c) => Some(
            ClaimsView { user_id: c.0, exp: c.1, iat: c.2, jti: c.3, role: c.4, allowed_dbs: c.5 },
        ),
        None => match five_claims(b) {
            Some(c) => Some(
                ClaimsView { user_id: c.0, exp: c.1, iat: c.2, jti: c.3, role: c.4, allowed_dbs: Seq::empty() },
            ),
            None => match four_claims(b) {
                Some(c) => Some(
                    ClaimsView {
                        user_id: c.0,
                        exp: c.1,
                        iat: c.2,
                        jti: c.3,
                        role: "admin"@,
                        allowed_dbs: Seq::empty(),
                    },
                ),
                None => match map_fields(b) {
                    Some(f) => if announced(b) == Some(f.len()) {
                        claims_of(f)
                    } else {
                        None
                    },
                    None => None,
                },
            },
        },
    }
}

/// Claims of six parts are what they say. Older ones of five parts are for all
/// databases, and of four parts an administrator's besides.
pub proof fn law_older_claims(b: Seq<u8>)
    ensures
        six_claims(b) matches Some(c) ==> read_claims(b) == Some(
            (ClaimsView { user_id: c.0, exp: c.1, iat: c.2, jti: c.3, role: c.4, allowed_dbs: c.5 }),
        ),
        six_claims(b) is None ==> (five_claims(b) matches Some(c) ==> (read_claims(b) matches Some(x) && x.user_id == c.0
            && x.exp == c.1 && x.iat == c.2 && x.jti == c.3 && x.role == c.4 && x.allowed_dbs.len() == 0)),
        six_claims(b) is None && five_claims(b) is None ==> (four_claims(b) matches Some(c) ==> (read_claims(b) matches Some(x)
            && x.user_id == c.0 && x.exp == c.1 && x.iat == c.2 && x.jti == c.3 && x.role == "admin"@ && x.allowed_dbs.len()
            == 0)),
{
}

/// A token is what stands before and behind its last dot: the claims, and the
/// tag that the secret gives them. Without a dot there is no token, and what is
/// said of the tag and the claims comes in this order.
pub proof fn law_token_parts(secret: Seq<u8>, revoked: Seq<u64>, payload: Seq<u8>, sig: Seq<u8>, other: Seq<u8>, now: u64)
    requires
        !sig.contains(0x2e),
        !other.contains(0x2e),
    ensures
        ({
            let r = check_token(secret, revoked, payload + seq![0x2eu8] + sig, now);
            &&& check_token(secret, revoked, other, now) == Err::<ClaimsView, AuthError>(AuthError::Malformed)
            &&& b64url_bytes(sig) is None ==> r == Err::<ClaimsView, AuthError>(AuthError::BadSigEncoding)
            &&& b64url_bytes(sig) matches Some(tag) ==> {
                &&& tag != hmac_sha256_of(secret, payload) ==> r == Err::<ClaimsView, AuthError>(AuthError::InvalidSignature)
                &&& tag == hmac_sha256_of(secret, payload) && b64url_bytes(payload) is None ==> r == Err::<
                    ClaimsView,
                    AuthError,
                >(AuthError::BadPayloadEncoding)
                &&& tag == hmac_sha256_of(secret, payload) ==> (b64url_bytes(payload) matches Some(b) ==> (read_claims(b) is None
                    ==> r == Err::<ClaimsView, AuthError>(AuthError::BadClaims)))
                &&& tag == hmac_sha256_of(secret, payload) ==> (b64url_bytes(payload) matches Some(b) ==> (read_claims(
                    b,
                ) matches Some(c) ==> (now < c.exp && !revoked.contains(c.jti) ==> r == Ok::<ClaimsView, AuthError>(c))))
            }
        }),
{
    let t = payload + seq![0x2eu8] + sig;
    let i = payload.len() as int;
    assert forall|j: int| i < j < t.len() implies t[j] != 0x2e by {
        assert(t[j] == sig[j - i - 1]);
        assert(sig.contains(sig[j - i - 1]));
    }
    assert(is_last_dot(t, i));
    lemma_split_at(t, i);
    assert(t.subrange(0, i) =~= payload);
    assert(t.subrange(i + 1, t.len() as int) =~= sig);
    if split_token(other) is Some {
        let k = choose|k: int| is_last_dot(other, k);
        assert(other.contains(other[k]));
    }
}

/// What becomes of the claims of a token whose signature is right.
pub open spec fn judged(c: ClaimsView, revoked: Seq<u64>, now: u64) -> Result<ClaimsView, AuthError> {
    if c.expired(now) {
        Err(AuthError::Expired)
    } else if revoked.contains(c.jti) {
        Err(AuthError::Revoked)
    } else {
        Ok(c)
    }
}

/// What checking a token at `now` gives: its claims, or why it is refused.
pub open spec fn check_token(secret: Seq<u8>, revoked: Seq<u64>, token: Seq<u8>, now: u64) -> Result<ClaimsView, AuthError> {
    match split_token(token) {
        None => Err(AuthError::Malformed),
        Some((payload, sig)) => match b64url_bytes(sig) {
            None => Err(AuthError::BadSigEncoding),
            Some(tag) => if hmac_sha256_of(secret, payload) != tag {
                Err(AuthError::InvalidSignature)
            } else {
                match b64url_bytes(payload) {
                    None => Err(AuthError::BadPayloadEncoding),
                    Some(bytes) => match read_claims(bytes) {
                        None => Err(AuthError::BadClaims),
                        Some(c) => judged(c, revoked, now),
                    },
                }
            },
        },
    }
}

/// The bytes of the token that carries written claims.
pub open spec fn signed(secret: Seq<u8>, claims: Seq<u8>) -> Seq<u8> {
    let payload = b64url_of(claims);
    payload + seq![0x2eu8] + b64url_of(hmac_sha256_of(secret, payload))
}

/// The bytes of the token that carries claims.
pub open spec fn token_of(secret: Seq<u8>, c: ClaimsView) -> Seq<u8> {
    signed(secret, claims_bytes(c.user_id, c.exp, c.iat, c.jti, c.role, c.allowed_dbs))
}

/// The claims are short enough to be written.
pub open spec fn writable(role: Seq<char>, allowed_dbs: Seq<u16>) -> bool {
    vstd::utf8::encode_utf8(role).len() <= u32::MAX && allowed_dbs.len() <= u32::MAX
}

/// Claims for a session of an account that begins at `now`.
pub open spec fn is_session(accounts: Seq<UserView>, uid: u64, now: u64, ttl: u64, jti: u64, c: ClaimsView) -> bool {
    &&& c.user_id == uid && c.iat == now && c.exp == now + ttl && c.jti == jti
    &&& exists|u: UserView|
        #[trigger] accounts.contains(u) && u.user_id == uid && c.role == u.role && c.allowed_dbs == u.allowed_dbs
}

/// Claims as they were written make a token: they could be written, and a text
/// can hold them.
pub open spec fn makes_token(written: Option<Seq<u8>>) -> bool {
    written is Some && written->0.len() <= usize::MAX / 4
}

/// Bytes are claims as they are written.
pub open spec fn is_written(c: ClaimsView, written: Option<Seq<u8>>) -> bool {
    written matches Some(b) ==> {
        &&& b == claims_bytes(c.user_id, c.exp, c.iat, c.jti, c.role, c.allowed_dbs)
        &&& writable(c.role, c.allowed_dbs) ==> read_claims(b) == Some(c)
    }
}

/// What bytes that may be missing hold.
pub open spec fn written_view(b: Option<Vec<u8>>) -> Option<Seq<u8>> {
    match b {
        Some(x) => Some(x@),
        None => None,
    }
}

/// The revoked numbers with one more; at the limit the older half is
/// forgotten.
pub open spec fn with_revoked(revoked: Seq<u64>, jti: u64) -> Seq<u64> {
    if revoked.len() >= MAX_BLACKLIST {
        revoked.skip(revoked.len() as int / 2).push(jti)
    } else {
        revoked.push(jti)
    }
}

/// A token whose number was revoked is refused, whatever its form and the
/// time.
pub proof fn law_revoked_is_refused(secret: Seq<u8>, revoked: Seq<u64>, jti: u64, token: Seq<u8>, now: u64)
    ensures
        with_revoked(revoked, jti).contains(jti),
        check_token(secret, with_revoked(revoked, jti), token, now) matches Ok(c) ==> c.jti != jti,
{
    let r = with_revoked(revoked, jti);
    assert(r[r.len() - 1] == jti);
}

/// The revoked numbers after more were revoked in turn.
pub open spec fn with_all_revoked(revoked: Seq<u64>, jtis: Seq<u64>) -> Seq<u64>
    decreases jtis.len(),
{
    if jtis.len() == 0 {
        revoked
    } else {
        with_revoked(with_all_revoked(revoked, jtis.drop_last()), jtis.last())
    }
}

proof fn lemma_revoked_place(revoked: Seq<u64>, jti: u64, later: Seq<u64>)
    requires
        revoked.len() <= MAX_BLACKLIST,
        later.len() <= MAX_BLACKLIST / 2,
    ensures
        with_all_revoked(with_revoked(revoked, jti), later).len() > later.len(),
        with_all_revoked(with_revoked(revoked, jti), later).len() <= MAX_BLACKLIST,
        with_all_revoked(with_revoked(revoked, jti), later)[with_all_revoked(
            with_revoked(revoked, jti),
            later,
        ).len() - 1 - later.len()] == jti,
    decreases later.len(),
{
    if later.len() > 0 {
        lemma_revoked_place(revoked, jti, later.drop_last());
    }
}

proof fn lemma_revoked_grows(revoked: Seq<u64>, jti: u64, later: Seq<u64>)
    requires
        revoked.len() + 1 + later.len() <= MAX_BLACKLIST,
    ensures
        with_all_revoked(with_revoked(revoked, jti), later).len() == revoked.len() + 1 + later.len(),
        with_all_revoked(with_revoked(revoked, jti), later)[revoked.len() as int] == jti,
    decreases later.len(),
{
    if later.len() > 0 {
        lemma_revoked_grows(revoked, jti, later.drop_last());
    }
}

/// A revocation lasts: the token is refused however many others are revoked
/// after it, as long as the list has room for all of them, and in any case for
/// half as many as the list can hold.
pub proof fn law_revocation_lasts(secret: Seq<u8>, revoked: Seq<u64>, jti: u64, later: Seq<u64>, token: Seq<u8>, now: u64)
    requires
        revoked.len() <= MAX_BLACKLIST,
        revoked.len() + 1 + later.len() <= MAX_BLACKLIST || later.len() <= MAX_BLACKLIST / 2,
    ensures
        with_all_revoked(with_revoked(revoked, jti), later).contains(jti),
        check_token(secret, with_all_revoked(with_revoked(revoked, jti), later), token, now) matches Ok(c) ==> c.jti
            != jti,
{
    if later.len() <= MAX_BLACKLIST / 2 {
        lemma_revoked_place(revoked, jti, later);
    } else {
        lemma_revoked_grows(revoked, jti, later);
    }
}

/// Revoking one token leaves tokens with other numbers valid.
pub proof fn law_revoke_leaves_others(secret: Seq<u8>, revoked: Seq<u64>, jti: u64, token: Seq<u8>, now: u64)
    requires
        check_token(secret, revoked, token, now) matches Ok(c) && c.jti != jti,
    ensures
        check_token(secret, with_revoked(revoked, jti), token, now) == check_token(secret, revoked, token, now),
{
    let c = check_token(secret, revoked, token, now)->Ok_0;
    let r = with_revoked(revoked, jti);
    if r.contains(c.jti) {
        let i = choose|i: int| 0 <= i < r.len() && r[i] == c.jti;
        let half = revoked.len() as int / 2;
        if revoked.len() >= MAX_BLACKLIST {
            assert(revoked[i + half] == c.jti);
        } else {
            assert(revoked[i] == c.jti);
        }
    }
}

/// A token that is refused for its time stays refused later.
pub proof fn law_expiry_is_lasting(secret: Seq<u8>, revoked: Seq<u64>, token: Seq<u8>, now: u64, later: u64)
    requires
        now <= later,
        check_token(secret, revoked, token, now) is Err,
    ensures
        check_token(secret, revoked, token, later) is Err,
{
}

proof fn lemma_encode_concat(a: Seq<char>, b: Seq<char>)
    ensures
        vstd::utf8::encode_utf8(a + b) == vstd::utf8::encode_utf8(a) + vstd::utf8::encode_utf8(b),
    decreases a.len(),
{
    if a.len() == 0 {
        assert(a + b =~= b);
    } else {
        lemma_encode_concat(a.drop_first(), b);
        assert((a + b).drop_first() =~= a.drop_first() + b);
        assert(vstd::utf8::encode_utf8(a + b) =~= vstd::utf8::encode_utf8(a) + vstd::utf8::encode_utf8(b));
    }
}

proof fn lemma_encode_dot()
    ensures
        vstd::utf8::encode_utf8("."@) == seq![0x2eu8],
{
    reveal_strlit(".");
    assert("."@ =~= seq!['.']);
    vstd::utf8::is_ascii_chars_encode_utf8("."@);
    assert('.' as u8 == 0x2eu8);
    assert(vstd::utf8::encode_utf8("."@) =~= seq![0x2eu8]);
}

/// The signer of tokens and the keeper of accounts.
pub struct Argus {
    secret: Vec<u8>,
    blacklist: Vec<u64>,
    token_ttl_secs: u64,
    users: UsersDb,
}

impl Argus {
    /// The key that tokens are signed with.
    pub closed spec fn key(&self) -> Seq<u8> {
        self.secret@
    }

    /// The numbers of revoked tokens, the oldest first.
    pub closed spec fn revoked(&self) -> Seq<u64> {
        self.blacklist@
    }

    /// Seconds that a session lasts.
    pub closed spec fn ttl(&self) -> u64 {
        self.token_ttl_secs
    }

    /// The accounts.
    pub closed spec fn accounts(&self) -> Seq<UserView> {
        self.users@
    }

    pub open spec fn wf(&self) -> bool {
        names_distinct(self.accounts()) && self.revoked().len() <= MAX_BLACKLIST
    }

    /// A signer without accounts.
    pub fn new(secret: &[u8]) -> (a: Self)
        ensures
            a.wf(),
            a.key() == secret@,
            a.revoked() == Seq::<u64>::empty(),
            a.ttl() == DEFAULT_TTL_SECS,
            a.accounts() == Seq::<UserView>::empty(),
    {
        Argus::with_users_db(secret, UsersDb::in_memory())
    }

    pub fn with_users_db(secret: &[u8], db: UsersDb) -> (a: Self)
        requires
            db.wf(),
        ensures
            a.wf(),
            a.key() == secret@,
            a.revoked() == Seq::<u64>::empty(),
            a.ttl() == DEFAULT_TTL_SECS,
            a.accounts() == db@,
    {
        Argus::with_config(secret, db, DEFAULT_TTL_SECS)
    }

    pub fn with_config(secret: &[u8], db: UsersDb, token_ttl_secs: u64) -> (a: Self)
        requires
            db.wf(),
        ensures
            a.wf(),
            a.key() == secret@,
            a.revoked() == Seq::<u64>::empty(),
            a.ttl() == token_ttl_secs,
            a.accounts() == db@,
    {
        Argus { secret: vstd::slice::slice_to_vec(secret), blacklist: Vec::new(), token_ttl_secs, users: db }
    }

    /// The tag of `data` under the secret.
    pub fn sign(&self, data: &[u8]) -> (r: Result<Vec<u8>, AuthError>)
        ensures
            r matches Ok(tag) && tag@ == hmac_sha256_of(self.key(), data@),
    {
        Ok(hmac_sha256(&self.secret, data))
    }

    /// Whether `tag` is the tag of `message` under the secret.
    pub fn verify_cluster_tag(&self, message: &[u8], tag: &[u8]) -> (r: bool)
        ensures
            r == (hmac_sha256_of(self.key(), message@) == tag@),
    {
        match self.sign(message) {
            Ok(expected) => constant_time_eq(&expected, tag),
            Err(_) => false,
        }
    }

    /// Issues a token at `now` with the number `jti`. Before it expires, and
    /// unless its number is revoked, checking it gives its claims.
    pub fn issue_at(&self, user_id: u64, ttl_secs: u64, role: &str, allowed_dbs: &[u16], now: u64, jti: u64) -> (r: Result<(String, Claims), AuthError>)
        ensures
            match r {
                Ok((token, c)) => {
                    &&& now + ttl_secs <= u64::MAX
                    &&& c@ == (ClaimsView {
                        user_id,
                        exp: (now + ttl_secs) as u64,
                        iat: now,
                        jti,
                        role: role@,
                        allowed_dbs: allowed_dbs@,
                    })
                    &&& vstd::utf8::encode_utf8(token@) == token_of(self.key(), c@)
                    &&& forall|at: u64, revoked: Seq<u64>|
                        writable(role@, allowed_dbs@) && at < now + ttl_secs && !revoked.contains(jti)
                            ==> #[trigger] check_token(
                            self.key(),
                            revoked,
                            vstd::utf8::encode_utf8(token@),
                            at,
                        ) == Ok::<ClaimsView, AuthError>(c@)
                },
                Err(e) => e == AuthError::Unwritable || e == AuthError::TtlTooLong,
            },
            now + ttl_secs > u64::MAX <==> r == Err::<(String, Claims), AuthError>(AuthError::TtlTooLong),
    {
        let exp: u64 = match now.checked_add(ttl_secs) {
            Some(t) => t,
            None => return Err(AuthError::TtlTooLong),
        };
        let claims = Claims { user_id, exp, iat: now, jti, role: role.to_owned(), allowed_dbs: copy_dbs(allowed_dbs) };
        match self.token_from(encode_claims(user_id, exp, now, jti, role, allowed_dbs)) {
            Some(token) => Ok((token, claims)),
            None => Err(AuthError::Unwritable),
        }
    }

    /// The token that carries claims as they were written, if they could be.
    pub fn token_from(&self, written: Option<Vec<u8>>) -> (r: Option<String>)
        ensures
            r is Some <==> written is Some && written->0@.len() <= usize::MAX / 4,
            r matches Some(token) ==> {
                let b = written->0@;
                let t = vstd::utf8::encode_utf8(token@);
                &&& t == signed(self.key(), b)
                &&& forall|revoked: Seq<u64>, at: u64|
                    #[trigger] check_token(self.key(), revoked, t, at) == match read_claims(b) {
                        None => Err::<ClaimsView, AuthError>(AuthError::BadClaims),
                        Some(c) => judged(c, revoked, at),
                    }
            },
    {
        let payload = match written {
            Some(b) => b,
            None => return None,
        };
        if payload.len() > usize::MAX / 4 {
            return None;
        }
        let payload_text = b64url_encode(&payload);
        let tag = hmac_sha256(&self.secret, payload_text.as_str().as_bytes());
        let sig_text = b64url_encode(&tag);
        let ghost p = vstd::utf8::encode_utf8(payload_text@);
        let ghost s = vstd::utf8::encode_utf8(sig_text@);
        let ghost pt = payload_text@;
        let ghost st = sig_text@;
        let mut token = payload_text;
        token.append(".");
        token.append(sig_text.as_str());
        proof {
            law_b64url_reads_back(payload@);
            law_b64url_reads_back(tag@);
            lemma_encode_concat(pt, "."@);
            lemma_encode_concat(pt + "."@, st);
            lemma_encode_dot();
            let t = vstd::utf8::encode_utf8(token@);
            assert(t =~= p + seq![0x2eu8] + s);
            assert(is_last_dot(t, p.len() as int)) by {
                assert forall|j: int| p.len() < j < t.len() implies t[j] != 0x2e by {
                    assert(t[j] == s[j - p.len() - 1]);
                    assert(is_b64url_byte(s[j - p.len() - 1]));
                }
            }
            lemma_split_at(t, p.len() as int);
            assert(t.subrange(0, p.len() as int) =~= p);
            assert(t.subrange((p.len() + 1) as int, t.len() as int) =~= s);
        }
        Some(token)
    }

    /// Issues a token and returns its claims with it.
    pub fn issue_with_claims(&self, user_id: u64, ttl_secs: u64, role: &str, allowed_dbs: &[u16]) -> (r: Result<(String, Claims), AuthError>)
        ensures
            match r {
                Ok((token, c)) => {
                    &&& c@.user_id == user_id && c@.role == role@ && c@.allowed_dbs == allowed_dbs@
                    &&& c@.exp == c@.iat + ttl_secs
                    &&& vstd::utf8::encode_utf8(token@) == token_of(self.key(), c@)
                    &&& forall|at: u64, revoked: Seq<u64>|
                        writable(role@, allowed_dbs@) && at < c@.exp && !revoked.contains(c@.jti)
                            ==> #[trigger] check_token(
                            self.key(),
                            revoked,
                            vstd::utf8::encode_utf8(token@),
                            at,
                        ) == Ok::<ClaimsView, AuthError>(c@)
                },
                Err(e) => e == AuthError::Unwritable || e == AuthError::TtlTooLong && ttl_secs > 0,
            },
    {
        let now = now_secs();
        let jti = random_u64();
        self.issue_at(user_id, ttl_secs, role, allowed_dbs, now, jti)
    }

    /// Issues an administrator's token for all databases.
    pub fn issue(&self, user_id: u64, ttl_secs: u64) -> (r: Result<String, AuthError>)
        ensures
            match r {
                Ok(token) => exists|c: ClaimsView|
                    {
                        &&& vstd::utf8::encode_utf8(token@) == #[trigger] token_of(self.key(), c)
                        &&& c.user_id == user_id && c.exp == c.iat + ttl_secs && c.role == "admin"@
                            && c.allowed_dbs == Seq::<u16>::empty()
                        &&& forall|at: u64, revoked: Seq<u64>|
                            at < c.exp && !revoked.contains(c.jti) ==> #[trigger] check_token(
                                self.key(),
                                revoked,
                                vstd::utf8::encode_utf8(token@),
                                at,
                            ) == Ok::<ClaimsView, AuthError>(c)
                    },
                Err(e) => e == AuthError::Unwritable || e == AuthError::TtlTooLong && ttl_secs > 0,
            },
    {
        let none: Vec<u16> = Vec::new();
        proof {
            assert(none@ =~= Seq::<u16>::empty());
            reveal_strlit("admin");
            assert(vstd::utf8::is_ascii_chars("admin"@));
            vstd::utf8::is_ascii_chars_encode_utf8("admin"@);
        }
        match self.issue_with_claims(user_id, ttl_secs, "admin", &none) {
            Ok((token, c)) => {
                assert(vstd::utf8::encode_utf8(token@) == token_of(self.key(), c@));
                Ok(token)
            },
            Err(e) => Err(e),
        }
    }

    /// Checks a token at `now`.
    pub fn verify_at(&self, token: &str, now: u64) -> (r: Result<Claims, AuthError>)
        ensures
            match check_token(self.key(), self.revoked(), vstd::utf8::encode_utf8(token@), now) {
                Ok(c) => r matches Ok(x) && x@ == c,
                Err(e) => r == Err::<Claims, AuthError>(e),
            },
    {
        let b = token.as_bytes();
        let mut i: usize = b.len();
        while i > 0 && b[i - 1] != 0x2e
            invariant
                i <= b.len(),
                forall|j: int| i <= j < b.len() ==> b@[j] != 0x2e,
            decreases i,
        {
            i = i - 1;
        }
        if i == 0 {
            assert(forall|k: int| !is_last_dot(b@, k));
            return Err(AuthError::Malformed);
        }
        proof {
            assert(is_last_dot(b@, i - 1));
            lemma_split_at(b@, i - 1);
        }
        let payload_text = vstd::slice::slice_subrange(b, 0, i - 1);
        let sig_text = vstd::slice::slice_subrange(b, i, b.len());
        let expected = hmac_sha256(&self.secret, payload_text);
        let provided = match b64url_decode(sig_text) {
            Some(s) => s,
            None => return Err(AuthError::BadSigEncoding),
        };
        if !constant_time_eq(&expected, &provided) {
            return Err(AuthError::InvalidSignature);
        }
        let payload = match b64url_decode(payload_text) {
            Some(p) => p,
            None => return Err(AuthError::BadPayloadEncoding),
        };
        let claims = match decode_claims(&payload) {
            Some(c) => c,
            None => return Err(AuthError::BadClaims),
        };
        self.judge(claims, now)
    }

    /// Takes claims whose signature is right, unless they are over or
    /// revoked.
    pub fn judge(&self, claims: Claims, now: u64) -> (r: Result<Claims, AuthError>)
        ensures
            match judged(claims@, self.revoked(), now) {
                Ok(c) => r matches Ok(x) && x@ == c,
                Err(e) => r == Err::<Claims, AuthError>(e),
            },
    {
        if claims.is_expired_at(now) {
            return Err(AuthError::Expired);
        }
        if self.is_revoked(claims.jti) {
            return Err(AuthError::Revoked);
        }
        Ok(claims)
    }

    fn is_revoked(&self, jti: u64) -> (r: bool)
        ensures
            r == self.revoked().contains(jti),
    {
        let mut i: usize = 0;
        while i < self.blacklist.len()
            invariant
                i <= self.blacklist.len(),
                forall|j: int| 0 <= j < i ==> self.blacklist@[j] != jti,
            decreases self.blacklist.len() - i,
        {
            if self.blacklist[i] == jti {
                return true;
            }
            i = i + 1;
        }
        false
    }

    /// Checks a token by the system's clock.
    pub fn verify(&self, token: &str) -> (r: Result<Claims, AuthError>)
        ensures
            exists|now: u64|
                match #[trigger] check_token(self.key(), self.revoked(), vstd::utf8::encode_utf8(token@), now) {
                    Ok(c) => r matches Ok(x) && x@ == c,
                    Err(e) => r == Err::<Claims, AuthError>(e),
                },
    {
        let now = now_secs();
        self.verify_at(token, now)
    }

    /// Revokes a token that is valid at `now`.
    pub fn revoke_at(&mut self, token: &str, now: u64) -> (r: Result<(), AuthError>)
        requires
            old(self).wf(),
        ensures
            final(self).wf(),
            final(self).key() == old(self).key(),
            final(self).ttl() == old(self).ttl(),
            final(self).accounts() == old(self).accounts(),
            match check_token(old(self).key(), old(self).revoked(), vstd::utf8::encode_utf8(token@), now) {
                Ok(c) => r is Ok && final(self).revoked() == with_revoked(old(self).revoked(), c.jti),
                Err(e) => r == Err::<(), AuthError>(e) && final(self).revoked() == old(self).revoked(),
            },
    {
        let claims = match self.verify_at(token, now) {
            Ok(c) => c,
            Err(e) => return Err(e),
        };
        let ghost before = self.blacklist@;
        if self.blacklist.len() >= MAX_BLACKLIST {
            let half: usize = self.blacklist.len() / 2;
            let kept = self.blacklist.split_off(half);
            self.blacklist = kept;
            assert(self.blacklist@ =~= before.skip(half as int));
        }
        self.blacklist.push(claims.jti);
        Ok(())
    }

    /// Revokes a token that is valid by the system's clock.
    pub fn revoke(&mut self, token: &str) -> (r: Result<(), AuthError>)
        requires
            old(self).wf(),
        ensures
            final(self).wf(),
            final(self).key() == old(self).key(),
            final(self).ttl() == old(self).ttl(),
            final(self).accounts() == old(self).accounts(),
            exists|now: u64|
                match #[trigger] check_token(old(self).key(), old(self).revoked(), vstd::utf8::encode_utf8(token@), now) {
                    Ok(c) => r is Ok && final(self).revoked() == with_revoked(old(self).revoked(), c.jti),
                    Err(e) => r == Err::<(), AuthError>(e) && final(self).revoked() == old(self).revoked(),
                },
    {
        let now = now_secs();
        self.revoke_at(token, now)
    }

    /// Checks a password and makes the claims of a session that begins at
    /// `now` and has the number `jti`.
    pub fn session_claims(&self, username: &str, password: &str, now: u64, jti: u64) -> (r: Result<Claims, AuthError>)
        ensures
            match checked(self.accounts(), username@, password@) {
                Err(e) => r == Err::<Claims, AuthError>(AuthError::User(e)),
                Ok(uid) => if now + self.ttl() > u64::MAX {
                    r == Err::<Claims, AuthError>(AuthError::TtlTooLong)
                } else {
                    r matches Ok(c) && is_session(self.accounts(), uid, now, self.ttl(), jti, c@)
                },
            },
    {
        let uid: u64 = match self.users.verify(username, password) {
            Ok(id) => id,
            Err(e) => return Err(AuthError::User(e)),
        };
        let exp: u64 = match now.checked_add(self.token_ttl_secs) {
            Some(t) => t,
            None => return Err(AuthError::TtlTooLong),
        };
        match self.users.get_user_by_id(uid) {
            None => {
                proof {
                    crate::users::lemma_place_exists(self.users@, username@);
                    assert(self.users@[place(self.users@, username@)].user_id == uid);
                }
                Err(AuthError::MissingRecord)
            },
            Some(u) => Ok(Claims { user_id: uid, exp, iat: now, jti, role: u.role, allowed_dbs: u.allowed_dbs }),
        }
    }

    /// Claims as bytes; none where there is no memory for them.
    pub(crate) fn write_claims(c: &Claims) -> (written: Option<Vec<u8>>)
        ensures
            is_written(c@, written_view(written)),
    {
        encode_claims(c.user_id, c.exp, c.iat, c.jti, c.role.as_str(), &c.allowed_dbs)
    }

    /// The token for claims, given the claims as they were written. Refused
    /// only where they could not be written.
    pub fn token_for(&self, claims: Claims, written: Option<Vec<u8>>) -> (r: Result<(String, Claims), AuthError>)
        ensures
            match r {
                Ok((token, c)) => {
                    &&& makes_token(written_view(written))
                    &&& c@ == claims@
                    &&& vstd::utf8::encode_utf8(token@) == signed(self.key(), written->0@)
                    &&& forall|revoked: Seq<u64>, at: u64|
                        #[trigger] check_token(self.key(), revoked, vstd::utf8::encode_utf8(token@), at)
                            == match read_claims(written->0@) {
                            None => Err::<ClaimsView, AuthError>(AuthError::BadClaims),
                            Some(x) => judged(x, revoked, at),
                        }
                },
                Err(e) => !makes_token(written_view(written)) && e == AuthError::Unwritable,
            },
    {
        match self.token_from(written) {
            Some(token) => Ok((token, claims)),
            None => Err(AuthError::Unwritable),
        }
    }

    /// Checks a password and issues a token for the account, at `now` and
    /// with the number `jti`. With a right password and a time in range, it
    /// fails only where the claims cannot be written for want of memory.
    pub fn auth_user_at(&self, username: &str, password: &str, now: u64, jti: u64) -> (r: Result<(String, Claims), AuthError>)
        ensures
            match checked(self.accounts(), username@, password@) {
                Err(e) => r == Err::<(String, Claims), AuthError>(AuthError::User(e)),
                Ok(uid) => {
                    &&& now + self.ttl() > u64::MAX <==> r == Err::<(String, Claims), AuthError>(AuthError::TtlTooLong)
                    &&& now + self.ttl() <= u64::MAX ==> exists|c: ClaimsView, written: Option<Seq<u8>>|
                        #[trigger] is_written(c, written) && is_session(
                            self.accounts(),
                            uid,
                            now,
                            self.ttl(),
                            jti,
                            c,
                        ) && if makes_token(written) {
                            r matches Ok((_, x)) && x@ == c
                        } else {
                            r == Err::<(String, Claims), AuthError>(AuthError::Unwritable)
                        }
                    &&& r matches Ok((token, c)) ==> {
                        &&& is_session(self.accounts(), uid, now, self.ttl(), jti, c@)
                        &&& vstd::utf8::encode_utf8(token@) == token_of(self.key(), c@)
                        &&& forall|at: u64, revoked: Seq<u64>|
                            writable(c@.role, c@.allowed_dbs) && at < c@.exp && !revoked.contains(jti)
                                ==> #[trigger] check_token(
                                self.key(),
                                revoked,
                                vstd::utf8::encode_utf8(token@),
                                at,
                            ) == Ok::<ClaimsView, AuthError>(c@)
                    }
                },
            },
    {
        match self.session_claims(username, password, now, jti) {
            Ok(claims) => {
                let written = Self::write_claims(&claims);
                assert(is_written(claims@, written_view(written)));
                self.token_for(claims, written)
            },
            Err(e) => Err(e),
        }
    }

    /// Checks a password and issues a token for the account.
    pub fn auth_user(&self, username: &str, password: &str) -> (r: Result<(String, Claims), AuthError>)
        ensures
            match checked(self.accounts(), username@, password@) {
                Err(e) => r == Err::<(String, Claims), AuthError>(AuthError::User(e)),
                Ok(uid) => match r {
                    Ok((token, c)) => {
                        &&& c@.user_id == uid && c@.exp == c@.iat + self.ttl()
                        &&& exists|u: UserView|
                            #[trigger] self.accounts().contains(u) && u.user_id == uid && c@.role == u.role
                                && c@.allowed_dbs == u.allowed_dbs
                        &&& vstd::utf8::encode_utf8(token@) == token_of(self.key(), c@)
                        &&& forall|at: u64, revoked: Seq<u64>|
                            writable(c@.role, c@.allowed_dbs) && at < c@.exp && !revoked.contains(c@.jti)
                                ==> #[trigger] check_token(
                                self.key(),
                                revoked,
                                vstd::utf8::encode_utf8(token@),
                                at,
                            ) == Ok::<ClaimsView, AuthError>(c@)
                    },
                    Err(e) => e == AuthError::Unwritable || e == AuthError::TtlTooLong && self.ttl() > 0,
                },
            },
    {
        let now = now_secs();
        let jti = random_u64();
        self.auth_user_at(username, password, now, jti)
    }
}

impl Argus {
    /// Whether another account can be made under this name.
    pub fn can_create(&self, username: &str) -> (r: bool)
        ensures
            r == (known(self.accounts(), username@) || max_id(self.accounts()) < u64::MAX),
    {
        self.users.can_create(username)
    }

    /// Makes an account, or gives the account of that name a new password and
    /// role. The first account is always an administrator.
    pub fn create_user(&mut self, username: &str, password: &str, role: &str) -> (r: Result<u64, UserError>)
        requires
            old(self).wf(),
            known(old(self).accounts(), username@) || max_id(old(self).accounts()) < u64::MAX,
        ensures
            final(self).wf(),
            final(self).key() == old(self).key(),
            final(self).ttl() == old(self).ttl(),
            final(self).revoked() == old(self).revoked(),
            r matches Ok(uid) && checked(final(self).accounts(), username@, password@) == Ok::<u64, UserError>(uid)
                && uid == (if known(old(self).accounts(), username@) {
                old(self).accounts()[place(old(self).accounts(), username@)].user_id
            } else {
                (max_id(old(self).accounts()) + 1) as u64
            }),
            exists|u: UserView, salt: Seq<u8>|
                salt.len() == SALT_LEN && #[trigger] is_account(
                    u,
                    old(self).accounts(),
                    username@,
                    password@,
                    role@,
                    salt,
                ) && final(self).accounts() == with_user(old(self).accounts(), u, role@),
    {
        self.users.create_user(username, password, role)
    }

    /// Removes an account. The last administrator cannot be removed.
    pub fn delete_user(&mut self, username: &str) -> (r: Result<(), UserError>)
        requires
            old(self).wf(),
        ensures
            final(self).wf(),
            final(self).key() == old(self).key(),
            final(self).ttl() == old(self).ttl(),
            final(self).revoked() == old(self).revoked(),
            match delete_refused(old(self).accounts(), username@) {
                Some(e) => r == Err::<(), UserError>(e) && final(self).accounts() == old(self).accounts(),
                None => r is Ok && final(self).accounts() == without_user(old(self).accounts(), username@),
            },
    {
        self.users.delete_user(username)
    }

    /// Changes a role. The last administrator cannot be given a lower one.
    pub fn set_user_role(&mut self, username: &str, role: &str) -> (r: Result<(), UserError>)
        requires
            old(self).wf(),
        ensures
            final(self).wf(),
            final(self).key() == old(self).key(),
            final(self).ttl() == old(self).ttl(),
            final(self).revoked() == old(self).revoked(),
            match role_refused(old(self).accounts(), username@, role@) {
                Some(e) => r == Err::<(), UserError>(e) && final(self).accounts() == old(self).accounts(),
                None => r is Ok && final(self).accounts() == with_role(old(self).accounts(), username@, role@),
            },
    {
        self.users.set_role(username, role)
    }

    /// Lets a user into a database.
    pub fn grant_db_access(&mut self, username: &str, db_id: u16) -> (r: Result<(), UserError>)
        requires
            old(self).wf(),
        ensures
            final(self).wf(),
            final(self).key() == old(self).key(),
            final(self).ttl() == old(self).ttl(),
            final(self).revoked() == old(self).revoked(),
            if known(old(self).accounts(), username@) {
                r is Ok && final(self).accounts() == with_dbs(
                    old(self).accounts(),
                    username@,
                    with_db(old(self).accounts()[place(old(self).accounts(), username@)].allowed_dbs, db_id),
                )
            } else {
                r == Err::<(), UserError>(UserError::NoSuchUser) && final(self).accounts() == old(self).accounts()
            },
    {
        self.users.grant_db(username, db_id)
    }

    /// Takes a database from a user's list. A user who is not held to listed
    /// databases keeps them all.
    pub fn revoke_db_access(&mut self, username: &str, db_id: u16) -> (r: Result<(), UserError>)
        requires
            old(self).wf(),
        ensures
            final(self).wf(),
            final(self).key() == old(self).key(),
            final(self).ttl() == old(self).ttl(),
            final(self).revoked() == old(self).revoked(),
            if known(old(self).accounts(), username@) {
                r is Ok && final(self).accounts() == with_dbs(
                    old(self).accounts(),
                    username@,
                    without_db(old(self).accounts()[place(old(self).accounts(), username@)].allowed_dbs, db_id),
                )
            } else {
                r == Err::<(), UserError>(UserError::NoSuchUser) && final(self).accounts() == old(self).accounts()
            },
    {
        self.users.revoke_db(username, db_id)
    }

    /// Name, role and databases of every account, in the order of their
    /// numbers. Derived keys stay inside.
    pub fn list_users(&self) -> (r: Vec<(String, String, Vec<u16>)>)
        ensures
            listed_views(r@) == by_id(self.accounts()).map_values(
                |u: UserView| (u.username, u.role, u.allowed_dbs),
            ),
    {
        let users = self.users.list_users();
        let mut r: Vec<(String, String, Vec<u16>)> = Vec::new();
        let mut i: usize = 0;
        while i < users.len()
            invariant
                i <= users.len(),
                r@.len() == i,
                forall|j: int| 0 <= j < i ==> (#[trigger] r@[j]).0@ == users@[j].username@ && r@[j].1@ == users@[j].role@
                    && r@[j].2@ == users@[j].allowed_dbs@,
            decreases users.len() - i,
        {
            r.push((users[i].username.clone(), users[i].role.clone(), copy_dbs(&users[i].allowed_dbs)));
            i = i + 1;
        }
        proof {
            let all = user_views(users@);
            assert forall|j: int| 0 <= j < r@.len() implies #[trigger] listed_views(r@)[j] == (
                all[j].username,
                all[j].role,
                all[j].allowed_dbs,
            ) by {
                assert(all[j] == users@[j]@);
                assert(r@[j].0@ == users@[j].username@);
            }
            assert(listed_views(r@) =~= all.map_values(|u: UserView| (u.username, u.role, u.allowed_dbs)));
        }
        r
    }

    /// Number, role and databases of the account of this name.
    pub fn get_user(&self, username: &str) -> (r: Option<(u64, String, Vec<u16>)>)
        ensures
            match r {
                Some(x) => {
                    let u = self.accounts()[place(self.accounts(), username@)];
                    known(self.accounts(), username@) && x.0 == u.user_id && x.1@ == u.role && x.2@ == u.allowed_dbs
                },
                None => !known(self.accounts(), username@),
            },
    {
        match self.users.get_user(username) {
            Some(u) => Some((u.user_id, u.role, u.allowed_dbs)),
            None => None,
        }
    }

    /// Role and databases of the account with this number.
    pub fn get_user_by_id(&self, user_id: u64) -> (r: Option<(String, Vec<u16>)>)
        ensures
            match r {
                Some(x) => exists|u: UserView|
                    #[trigger] self.accounts().contains(u) && u.user_id == user_id && x.0@ == u.role && x.1@
                        == u.allowed_dbs,
                None => forall|i: int| 0 <= i < self.accounts().len() ==> (#[trigger] self.accounts()[i]).user_id != user_id,
            },
    {
        match self.users.get_user_by_id(user_id) {
            Some(u) => {
                assert(self.accounts().contains(u@));
                Some((u.role, u.allowed_dbs))
            },
            None => None,
        }
    }

    /// Name, number, role and databases of the account with this number.
    pub fn account_of(&self, user_id: u64) -> (r: Option<(String, u64, String, Vec<u16>)>)
        ensures
            match r {
                Some(x) => exists|u: UserView|
                    #[trigger] self.accounts().contains(u) && u.user_id == user_id && x.0@ == u.username && x.1 == user_id
                        && x.2@ == u.role && x.3@ == u.allowed_dbs,
                None => forall|i: int| 0 <= i < self.accounts().len() ==> (#[trigger] self.accounts()[i]).user_id != user_id,
            },
    {
        match self.users.get_user_by_id(user_id) {
            Some(u) => {
                assert(self.accounts().contains(u@));
                Some((u.username, user_id, u.role, u.allowed_dbs))
            },
            None => None,
        }
    }

    /// All accounts, in no particular order.
    pub fn records(&self) -> (r: Vec<UserRecord>)
        ensures
            user_views(r@) == self.accounts(),
    {
        self.users.records()
    }
}

/// What a list of names, roles and databases says.
pub open spec fn listed_views(s: Seq<(String, String, Vec<u16>)>) -> Seq<(Seq<char>, Seq<char>, Seq<u16>)> {
    s.map_values(|x: (String, String, Vec<u16>)| (x.0@, x.1@, x.2@))
}

/// The claims that bytes hold.
fn decode_claims(b: &[u8]) -> (r: Option<Claims>)
    ensures
        match r {
            Some(c) => read_claims(b@) == Some(c@),
            None => read_claims(b@) is None,
        },
{
    if let Some(c) = decode_six(b) {
        return Some(Claims { user_id: c.0, exp: c.1, iat: c.2, jti: c.3, role: c.4, allowed_dbs: c.5 });
    }
    let none: Vec<u16> = Vec::new();
    assert(none@ =~= Seq::<u16>::empty());
    if let Some(c) = decode_five(b) {
        return Some(Claims { user_id: c.0, exp: c.1, iat: c.2, jti: c.3, role: c.4, allowed_dbs: none });
    }
    if let Some(c) = decode_four(b) {
        return Some(
            Claims { user_id: c.0, exp: c.1, iat: c.2, jti: c.3, role: "admin".to_string(), allowed_dbs: none },
        );
    }
    match decode_map(b) {
        Some(f) => if announces(b, f.len()) {
            claims_from(&f)
        } else {
            None
        },
        None => None,
    }
}

} // verus!
