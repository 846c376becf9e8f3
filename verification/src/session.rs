//! A client's connection: who it is, which database it is in, and what
//! becomes of each frame.

use vstd::prelude::*;

use crate::argus::{
    check_token, is_session, is_written, makes_token, signed, token_of, writable, written_view, Argus, AuthError, Claims,
    ClaimsView,
};
use crate::crypto::{decode_bytes, decode_pair, decode_text, msgpack_bytes, msgpack_pair, msgpack_text, now_secs, random_u64};
use crate::dbs::{resolved, selected, DbRegistry};
use crate::iris::{slot_of, Iris, RouteResult};
use crate::mnemosyne::{did, Caller, Mnemosyne, NodeCommand};
use crate::proto::{CmdId, PushView};
use crate::rbac::{can_execute, permitted, Role};
use crate::reply::ReplyView;
use crate::text::{decimal, u64_text};
use crate::users::checked;
use crate::value::ErrorView;

verus! {

/// What became of an attempt to sign in.
#[derive(Debug)]
pub enum SignIn {
    /// The text of the refusal.
    Refused(String),
    /// A token was right.
    Known(Claims),
    /// A password was right, and here is a token.
    Issued(String, Claims),
}

/// A token that was issued for claims as they were written. It is good until
/// it expires, unless it is revoked.
pub open spec fn is_issued(a: Argus, token: Seq<char>, c: ClaimsView) -> bool {
    &&& vstd::utf8::encode_utf8(token) == token_of(a.key(), c)
    &&& forall|at: u64, revoked: Seq<u64>|
        writable(c.role, c.allowed_dbs) && at < c.exp && !revoked.contains(c.jti) ==> #[trigger] check_token(
            a.key(),
            revoked,
            vstd::utf8::encode_utf8(token),
            at,
        ) == Ok::<ClaimsView, AuthError>(c)
}

/// The outcome of a right password, given the claims of the session as they
/// were written.
pub open spec fn claims_outcome(a: Argus, c: ClaimsView, written: Option<Seq<u8>>, r: SignIn) -> bool {
    if makes_token(written) {
        r matches SignIn::Issued(token, x) && x@ == c && vstd::utf8::encode_utf8(token@) == signed(a.key(), written->0)
    } else {
        r matches SignIn::Refused(t) && t@ == "AUTH failed: "@ + AuthError::Unwritable.text()
    }
}

/// The outcome where a name and a password were given.
pub open spec fn password_outcome(a: Argus, user: Seq<char>, pass: Seq<char>, now: u64, jti: u64, r: SignIn) -> bool {
    match checked(a.accounts(), user, pass) {
        Err(e) => r matches SignIn::Refused(t) && t@ == "AUTH failed: "@ + e.text(),
        Ok(uid) => if now + a.ttl() > u64::MAX {
            r matches SignIn::Refused(t) && t@ == "AUTH failed: "@ + AuthError::TtlTooLong.text()
        } else {
            &&& exists|c: ClaimsView, written: Option<Seq<u8>>|
                #[trigger] is_written(c, written) && is_session(a.accounts(), uid, now, a.ttl(), jti, c) && claims_outcome(
                    a,
                    c,
                    written,
                    r,
                )
            &&& r matches SignIn::Issued(token, c) ==> is_session(a.accounts(), uid, now, a.ttl(), jti, c@) && is_issued(
                a,
                token@,
                c@,
            )
        },
    }
}

/// Answers a right password, given the claims of the session as they were
/// written: a token, or a refusal where they could not be.
pub fn answer_claims(a: &Argus, claims: Claims, written: Option<Vec<u8>>) -> (r: SignIn)
    ensures
        claims_outcome(*a, claims@, written_view(written), r),
        is_written(claims@, written_view(written)) ==> (r matches SignIn::Issued(token, c) ==> is_issued(*a, token@, c@)),
{
    match a.token_for(claims, written) {
        Ok((token, c)) => SignIn::Issued(token, c),
        Err(e) => auth_failed(e),
    }
}

/// What becomes of a first frame, given what its payload says as a text and as
/// a pair of texts: a token is tried, then a name with a password.
pub open spec fn signed_in(
    a: Argus,
    cmd: CmdId,
    text: Option<Seq<char>>,
    pair: Option<(Seq<char>, Seq<char>)>,
    now: u64,
    jti: u64,
    r: SignIn,
) -> bool {
    if cmd != CmdId::Auth {
        r matches SignIn::Refused(t) && t@ == "NOAUTH authentication required"@
    } else if text is Some && check_token(a.key(), a.revoked(), vstd::utf8::encode_utf8(text->0), now) is Ok {
        r matches SignIn::Known(c) && c@ == check_token(a.key(), a.revoked(), vstd::utf8::encode_utf8(text->0), now)->Ok_0
    } else {
        match pair {
            Some((user, pass)) => password_outcome(a, user, pass, now, jti, r),
            None => r matches SignIn::Refused(t) && t@ == "AUTH: malformed payload"@,
        }
    }
}

fn auth_failed(e: AuthError) -> (r: SignIn)
    ensures
        r matches SignIn::Refused(t) && t@ == "AUTH failed: "@ + e.text(),
{
    let mut s = "AUTH failed: ".to_string();
    s.append(e.message());
    SignIn::Refused(s)
}

/// Signs in with what the payload says, at `now` and with the number `jti`
/// for a new token.
pub fn sign_in(a: &Argus, cmd: CmdId, text: Option<String>, pair: Option<(String, String)>, now: u64, jti: u64) -> (r: SignIn)
    ensures
        signed_in(
            *a,
            cmd,
            match text {
                Some(t) => Some(t@),
                None => None,
            },
            match pair {
                Some((u, p)) => Some((u@, p@)),
                None => None,
            },
            now,
            jti,
            r,
        ),
{
    if cmd != CmdId::Auth {
        return SignIn::Refused("NOAUTH authentication required".to_string());
    }
    if let Some(token) = text {
        if let Ok(claims) = a.verify_at(token.as_str(), now) {
            return SignIn::Known(claims);
        }
    }
    match pair {
        Some((user, pass)) => match a.session_claims(user.as_str(), pass.as_str(), now, jti) {
            Ok(claims) => {
                let written = Argus::write_claims(&claims);
                assert(is_written(claims@, written_view(written)));
                answer_claims(a, claims, written)
            },
            Err(e) => auth_failed(e),
        },
        None => SignIn::Refused("AUTH: malformed payload".to_string()),
    }
}

/// Signs in with the payload of a frame, at `now` and with the number `jti`
/// for a new token.
pub fn handle_auth_at(a: &Argus, cmd: CmdId, payload: &[u8], now: u64, jti: u64) -> (r: SignIn)
    ensures
        signed_in(*a, cmd, msgpack_text(payload@), msgpack_pair(payload@), now, jti, r),
{
    sign_in(a, cmd, decode_text(payload), decode_pair(payload), now, jti)
}

/// Signs in with the payload of a frame, by the system's clock.
pub fn handle_auth_frame(a: &Argus, cmd: CmdId, payload: &[u8]) -> (r: SignIn)
    ensures
        exists|now: u64, jti: u64|
            #[trigger] signed_in(*a, cmd, msgpack_text(payload@), msgpack_pair(payload@), now, jti, r),
{
    let now: u64 = now_secs();
    let jti: u64 = random_u64();
    handle_auth_at(a, cmd, payload, now, jti)
}

/// Commands whose payload is the key and nothing else, as far as routing is
/// concerned.
pub open spec fn bare_key(cmd: CmdId) -> bool {
    cmd == CmdId::Get || cmd == CmdId::Exists || cmd == CmdId::Ttl || cmd == CmdId::Expire || cmd == CmdId::HGetAll || cmd
        == CmdId::LPop || cmd == CmdId::RPop || cmd == CmdId::ZCard || cmd == CmdId::Incr || cmd == CmdId::Decr || cmd
        == CmdId::MemoryUsage || cmd == CmdId::Type
}

/// Commands whose request holds the key, or several of which the first counts.
pub open spec fn keyed(cmd: CmdId) -> bool {
    cmd == CmdId::SetKey || cmd == CmdId::Del || cmd == CmdId::HGet || cmd == CmdId::HSet || cmd == CmdId::HDel || cmd
        == CmdId::LPush || cmd == CmdId::RPush || cmd == CmdId::LRange || cmd == CmdId::ZAdd || cmd == CmdId::ZRank || cmd
        == CmdId::ZRange || cmd == CmdId::ZRangeByScore || cmd == CmdId::ZRem || cmd == CmdId::IncrBy || cmd
        == CmdId::DecrBy || cmd == CmdId::IncrByFloat || cmd == CmdId::GetSet || cmd == CmdId::JsonGet || cmd
        == CmdId::JsonExists || cmd == CmdId::JsonType || cmd == CmdId::JsonSet || cmd == CmdId::JsonDel || cmd
        == CmdId::JsonArrAppend || cmd == CmdId::JsonNumIncrBy || cmd == CmdId::MGet || cmd == CmdId::MSet
}

/// The key by which a command is routed.
pub open spec fn routed_by(cmd: CmdId, bare: Option<Seq<u8>>, first: Option<Seq<u8>>) -> Option<Seq<u8>> {
    if bare_key(cmd) {
        bare
    } else if keyed(cmd) {
        first
    } else {
        None
    }
}

/// What bytes that may be missing hold.
pub open spec fn bytes_view(b: Option<Vec<u8>>) -> Option<Seq<u8>> {
    match b {
        Some(x) => Some(x@),
        None => None,
    }
}

/// The key by which a command is routed: `bare` is the payload read as a key,
/// `first` the first key of the request, as far as they could be read.
pub fn pick_key(cmd: CmdId, bare: Option<Vec<u8>>, first: Option<Vec<u8>>) -> (r: Option<Vec<u8>>)
    ensures
        bytes_view(r) == routed_by(cmd, bytes_view(bare), bytes_view(first)),
{
    match cmd {
        CmdId::Get | CmdId::Exists | CmdId::Ttl | CmdId::Expire | CmdId::HGetAll | CmdId::LPop | CmdId::RPop | CmdId::ZCard
        | CmdId::Incr | CmdId::Decr | CmdId::MemoryUsage | CmdId::Type => bare,
        CmdId::SetKey | CmdId::Del | CmdId::HGet | CmdId::HSet | CmdId::HDel | CmdId::LPush | CmdId::RPush | CmdId::LRange
        | CmdId::ZAdd | CmdId::ZRank | CmdId::ZRange | CmdId::ZRangeByScore | CmdId::ZRem | CmdId::IncrBy | CmdId::DecrBy
        | CmdId::IncrByFloat | CmdId::GetSet | CmdId::JsonGet | CmdId::JsonExists | CmdId::JsonType | CmdId::JsonSet
        | CmdId::JsonDel | CmdId::JsonArrAppend | CmdId::JsonNumIncrBy | CmdId::MGet | CmdId::MSet => first,
        _ => None,
    }
}

/// The key by which a frame is routed. `first` is the first key of its
/// request, as far as it could be read.
pub fn extract_primary_key(cmd: CmdId, payload: &[u8], first: Option<Vec<u8>>) -> (r: Option<Vec<u8>>)
    ensures
        bytes_view(r) == routed_by(cmd, msgpack_bytes(payload@), bytes_view(first)),
{
    pick_key(cmd, decode_bytes(payload), first)
}

/// What a connection is.
#[derive(Debug)]
pub struct Session {
    pub authenticated: bool,
    /// The active database.
    pub db: u16,
    pub role: Role,
    /// Databases that may be used; none listed stands for all.
    pub allowed_dbs: Vec<u16>,
    pub user_id: u64,
}

/// What to do with a frame.
#[derive(Debug)]
pub enum Step {
    /// Answer with an error.
    Refuse(String),
    /// Answer with a text.
    Say(String),
    /// The key is served elsewhere.
    Moved { slot: u16, node_id: u64, addr: String },
    /// Run the command; the key goes into the records.
    Run(Option<Vec<u8>>),
}

/// The text of a denial.
pub open spec fn denial(role: Role, cmd: CmdId, db: u16) -> Seq<char> {
    "DENIED: role '"@ + role.name() + "' may not execute "@ + cmd.text() + " on database "@ + decimal(db as nat)
}

/// A request to change the database, as it was read: a name and a number, or
/// why it could not be.
pub open spec fn select_view(s: Result<(String, u16), String>) -> Result<(Seq<char>, u16), Seq<char>> {
    match s {
        Ok((name, id)) => Ok((name@, id)),
        Err(e) => Err(e@),
    }
}

/// Commands that may name the database that they are about.
pub open spec fn names_database(cmd: CmdId) -> bool {
    cmd == CmdId::FlushDb || cmd == CmdId::DbSize
}

/// The database that a command is about: the one that it names, by a name or a
/// number, else the connection's. A name that is not known is answered with an
/// error whatever the database.
pub open spec fn target_of(names: Map<Seq<char>, u16>, cmd: CmdId, named: (Seq<char>, Option<u16>), db: u16) -> u16 {
    if names_database(cmd) {
        match resolved(names, named.0, named.1, db) {
            Ok(id) => id,
            Err(_) => db,
        }
    } else {
        db
    }
}

/// What becomes of a frame of a connection that has signed in: a command that
/// it may not run on the database that the command is about is denied, `SELECT`
/// among them on the database that the connection is in; `SELECT` changes the
/// database, and a command whose key lives elsewhere is sent there.
pub open spec fn steered(
    before: Session,
    iris: Iris,
    names: Map<Seq<char>, u16>,
    max: u16,
    cmd: CmdId,
    select: Result<(Seq<char>, u16), Seq<char>>,
    named: (Seq<char>, Option<u16>),
    key: Option<Seq<u8>>,
    after: Session,
    r: Step,
) -> bool {
    let target = target_of(names, cmd, named, before.db);
    if !permitted(before.role, cmd, target, before.allowed_dbs@) {
        after == before && (r matches Step::Refuse(t) && t@ == denial(before.role, cmd, target))
    } else if cmd == CmdId::Select {
        match select {
            Err(e) => after == before && (r matches Step::Refuse(t) && t@ == "SELECT: bad payload: "@ + e),
            Ok((name, id)) => match selected(names, name, id, max) {
                Ok(db) => after == (Session { db, ..before }) && (r matches Step::Say(t) && t@ == "OK"@),
                Err(e) => after == before && (r matches Step::Refuse(t) && t@ == e),
            },
        }
    } else {
        after == before && match key {
            Some(k) => match iris.owners()[slot_of(k) as int] {
                Some(o) => r matches Step::Moved { slot, node_id, addr } && slot == slot_of(k) && node_id == o.0 && addr@
                    == o.1,
                None => r matches Step::Run(x) && bytes_view(x) == key,
            },
            None => r matches Step::Run(x) && x is None,
        }
    }
}

/// A connection that has signed in with claims.
pub open spec fn entered(before: Session, c: ClaimsView, after: Session) -> bool {
    &&& after.authenticated
    &&& after.db == before.db
    &&& after.role == Role::named(c.role)
    &&& after.allowed_dbs@ == c.allowed_dbs
    &&& after.user_id == c.user_id
}

/// What becomes of a frame of a connection that has not signed in.
pub open spec fn greeted(before: Session, outcome: SignIn, after: Session, r: Step) -> bool {
    match outcome {
        SignIn::Refused(t) => after == before && (r matches Step::Refuse(x) && x@ == t@),
        SignIn::Known(c) => entered(before, c@, after) && (r matches Step::Say(x) && x@ == "OK"@),
        SignIn::Issued(token, c) => entered(before, c@, after) && (r matches Step::Say(x) && x@ == token@),
    }
}

impl Session {
    /// A connection before it has signed in: it may hardly do anything.
    pub fn new(default_database: u16) -> (r: Session)
        ensures
            !r.authenticated,
            r.db == default_database,
            r.role == Role::ReadOnly,
            r.allowed_dbs@.len() == 0,
            r.user_id == 0,
    {
        Session { authenticated: false, db: default_database, role: Role::ReadOnly, allowed_dbs: Vec::new(), user_id: 0 }
    }

    /// Who the connection speaks for.
    pub fn caller(&self) -> (r: Caller)
        ensures
            r == (Caller { user_id: self.user_id, admin: self.role == Role::Admin }),
    {
        Caller { user_id: self.user_id, admin: self.role == Role::Admin }
    }

    fn enter(&mut self, c: Claims)
        ensures
            entered(*old(self), c@, *final(self)),
    {
        self.authenticated = true;
        self.role = Role::from_str(c.role.as_str());
        self.user_id = c.user_id;
        self.allowed_dbs = c.allowed_dbs;
    }

    /// Takes the outcome of an attempt to sign in.
    pub fn greet(&mut self, outcome: SignIn) -> (r: Step)
        requires
            !old(self).authenticated,
        ensures
            greeted(*old(self), outcome, *final(self), r),
    {
        match outcome {
            SignIn::Refused(t) => Step::Refuse(t),
            SignIn::Known(c) => {
                self.enter(c);
                Step::Say("OK".to_string())
            },
            SignIn::Issued(token, c) => {
                self.enter(c);
                Step::Say(token)
            },
        }
    }

    /// The text of a denial where the connection may not run a command on a
    /// database.
    fn denied(&self, cmd: CmdId, db: u16) -> (r: Option<String>)
        ensures
            match r {
                Some(t) => !permitted(self.role, cmd, db, self.allowed_dbs@) && t@ == denial(self.role, cmd, db),
                None => permitted(self.role, cmd, db, self.allowed_dbs@),
            },
    {
        if can_execute(self.role, cmd, db, &self.allowed_dbs) {
            return None;
        }
        let mut s = "DENIED: role '".to_string();
        s.append(self.role.as_str());
        s.append("' may not execute ");
        s.append(cmd.name());
        s.append(" on database ");
        let n = u64_text(db as u64);
        s.append(n.as_str());
        Some(s)
    }

    /// The text of a denial where the connection may not run a command on the
    /// database that the command is about.
    pub fn denied_target(&self, dbs: &DbRegistry, cmd: CmdId, named: &(String, Option<u16>)) -> (r: Option<String>)
        requires
            dbs.wf(),
        ensures
            ({
                let target = target_of(dbs.map(), cmd, (named.0@, named.1), self.db);
                match r {
                    Some(t) => !permitted(self.role, cmd, target, self.allowed_dbs@) && t@ == denial(self.role, cmd, target),
                    None => permitted(self.role, cmd, target, self.allowed_dbs@),
                }
            }),
    {
        let target: u16 = match cmd {
            CmdId::FlushDb | CmdId::DbSize => match dbs.resolve(named.0.as_str(), named.1, self.db) {
                Ok(id) => id,
                Err(_) => self.db,
            },
            _ => self.db,
        };
        self.denied(cmd, target)
    }

    /// Decides on a frame of a connection that has signed in. `named` is the
    /// database that the command names, by a name or a number, if it names one.
    pub fn steer(
        &mut self,
        iris: &Iris,
        dbs: &DbRegistry,
        max_databases: u16,
        cmd: CmdId,
        select: Result<(String, u16), String>,
        named: (String, Option<u16>),
        key: Option<Vec<u8>>,
    ) -> (r: Step)
        requires
            old(self).authenticated,
            iris.wf(),
            dbs.wf(),
            max_databases > 0,
        ensures
            steered(
                *old(self),
                *iris,
                dbs.map(),
                max_databases,
                cmd,
                select_view(select),
                (named.0@, named.1),
                bytes_view(key),
                *final(self),
                r,
            ),
    {
        if let Some(t) = self.denied_target(dbs, cmd, &named) {
            return Step::Refuse(t);
        }
        if cmd == CmdId::Select {
            return match select {
                Err(e) => {
                    let mut s = "SELECT: bad payload: ".to_string();
                    s.append(e.as_str());
                    Step::Refuse(s)
                },
                Ok((name, id)) => match dbs.select(name.as_str(), id, max_databases) {
                    Ok(db) => {
                        self.db = db;
                        Step::Say("OK".to_string())
                    },
                    Err(e) => Step::Refuse(e),
                },
            };
        }
        match key {
            None => Step::Run(None),
            Some(k) => match iris.route(&k) {
                RouteResult::Moved { slot, node_id, addr } => Step::Moved { slot, node_id, addr },
                RouteResult::Local(_) => Step::Run(Some(k)),
            },
        }
    }

    /// Decides on a frame at `now`, in seconds; `jti` is the number for a new
    /// token.
    pub fn on_frame(
        &mut self,
        argus: &Argus,
        iris: &Iris,
        dbs: &DbRegistry,
        max_databases: u16,
        cmd: CmdId,
        payload: &[u8],
        select: Result<(String, u16), String>,
        named: (String, Option<u16>),
        first: Option<Vec<u8>>,
        now: u64,
        jti: u64,
    ) -> (r: Step)
        requires
            iris.wf(),
            dbs.wf(),
            max_databases > 0,
        ensures
            stepped(
                *old(self),
                *argus,
                *iris,
                dbs.map(),
                max_databases,
                cmd,
                payload@,
                select_view(select),
                (named.0@, named.1),
                bytes_view(first),
                now,
                jti,
                *final(self),
                r,
            ),
    {
        if !self.authenticated {
            let outcome = handle_auth_at(argus, cmd, payload, now, jti);
            let ghost o = outcome;
            let r = self.greet(outcome);
            assert(signed_in(*argus, cmd, msgpack_text(payload@), msgpack_pair(payload@), now, jti, o));
            return r;
        }
        let key = extract_primary_key(cmd, payload, first);
        self.steer(iris, dbs, max_databases, cmd, select, named, key)
    }
}

/// What becomes of a frame.
pub open spec fn stepped(
    before: Session,
    argus: Argus,
    iris: Iris,
    names: Map<Seq<char>, u16>,
    max: u16,
    cmd: CmdId,
    payload: Seq<u8>,
    select: Result<(Seq<char>, u16), Seq<char>>,
    named: (Seq<char>, Option<u16>),
    first: Option<Seq<u8>>,
    now: u64,
    jti: u64,
    after: Session,
    r: Step,
) -> bool {
    if before.authenticated {
        steered(before, iris, names, max, cmd, select, named, routed_by(cmd, msgpack_bytes(payload), first), after, r)
    } else {
        exists|o: SignIn|
            #[trigger] signed_in(argus, cmd, msgpack_text(payload), msgpack_pair(payload), now, jti, o) && greeted(
                before,
                o,
                after,
                r,
            )
    }
}

/// A command runs only for a connection that has signed in, with a role and
/// databases that permit it on the database that the command is about.
pub proof fn law_only_permitted_commands_run(
    before: Session,
    argus: Argus,
    iris: Iris,
    names: Map<Seq<char>, u16>,
    max: u16,
    cmd: CmdId,
    payload: Seq<u8>,
    select: Result<(Seq<char>, u16), Seq<char>>,
    named: (Seq<char>, Option<u16>),
    first: Option<Seq<u8>>,
    now: u64,
    jti: u64,
    after: Session,
    r: Step,
)
    requires
        stepped(before, argus, iris, names, max, cmd, payload, select, named, first, now, jti, after, r),
        r is Run,
    ensures
        before.authenticated,
        permitted(before.role, cmd, target_of(names, cmd, named, before.db), before.allowed_dbs@),
        after == before,
{
}

/// Until a connection has signed in, every command but the one to sign in is
/// answered with a demand to do so, and nothing changes.
pub proof fn law_strangers_are_told_to_sign_in(
    before: Session,
    argus: Argus,
    iris: Iris,
    names: Map<Seq<char>, u16>,
    max: u16,
    cmd: CmdId,
    payload: Seq<u8>,
    select: Result<(Seq<char>, u16), Seq<char>>,
    named: (Seq<char>, Option<u16>),
    first: Option<Seq<u8>>,
    now: u64,
    jti: u64,
    after: Session,
    r: Step,
)
    requires
        stepped(before, argus, iris, names, max, cmd, payload, select, named, first, now, jti, after, r),
        !before.authenticated,
        cmd != CmdId::Auth,
    ensures
        after == before,
        r matches Step::Refuse(t) && t@ == "NOAUTH authentication required"@,
{
}

/// A connection is in no database that does not exist: `SELECT` goes to one
/// in range or nowhere, only where the connection may run it, and nothing else
/// changes the database.
pub proof fn law_database_stays_in_range(
    before: Session,
    argus: Argus,
    iris: Iris,
    names: Map<Seq<char>, u16>,
    max: u16,
    cmd: CmdId,
    payload: Seq<u8>,
    select: Result<(Seq<char>, u16), Seq<char>>,
    named: (Seq<char>, Option<u16>),
    first: Option<Seq<u8>>,
    now: u64,
    jti: u64,
    after: Session,
    r: Step,
)
    requires
        stepped(before, argus, iris, names, max, cmd, payload, select, named, first, now, jti, after, r),
        before.db < max,
    ensures
        after.db < max,
        after.db != before.db ==> before.authenticated && cmd == CmdId::Select && permitted(
            before.role,
            cmd,
            before.db,
            before.allowed_dbs@,
        ),
{
}

/// A database is emptied only for a connection that may empty it, whether the
/// command names it or the connection is in it.
pub proof fn law_only_permitted_databases_are_emptied(
    before: Session,
    argus: Argus,
    iris: Iris,
    max: u16,
    payload: Seq<u8>,
    select: Result<(Seq<char>, u16), Seq<char>>,
    name: String,
    db_id: Option<u16>,
    sync: bool,
    first: Option<Seq<u8>>,
    now: u64,
    jti: u64,
    after: Session,
    step: Step,
    node: Mnemosyne,
    at: u64,
    node_after: Mnemosyne,
    r: Result<ReplyView, ErrorView>,
    pushes: Seq<PushView>,
)
    requires
        stepped(
            before,
            argus,
            iris,
            node.dbs.map(),
            max,
            CmdId::FlushDb,
            payload,
            select,
            (name@, db_id),
            first,
            now,
            jti,
            after,
            step,
        ),
        step is Run,
        did(node, NodeCommand::FlushDb { name, db_id, sync }, before.db, at, node_after, r, pushes),
    ensures
        node_after.store@ == node.store@ || exists|id: u16|
            permitted(before.role, CmdId::FlushDb, id, before.allowed_dbs@) && node_after.store@
                == #[trigger] node.store@.flushed(id),
{
}

} // verus!
