//! Herold registers nodes that join the cluster, and makes join tokens.

use vstd::prelude::*;

use crate::crypto::{b64_encode, random_bytes};
use crate::digits::b64_of;
use crate::moirai::{keeper_views, listed, KeeperInfo, KeeperView};
use crate::pool::wrap;
use crate::text::{hex_of, hex_of_bytes, split_at_last, str_eq};

verus! {

/// What a joining node says of itself.
#[derive(Debug)]
pub struct RegisterPayload {
    pub node_id: String,
    /// `keeper` or `read-replica`.
    pub role: String,
    /// The bytes that the node adds to the pool.
    pub grant_bytes: u64,
    pub replication_addr: String,
    pub join_token: String,
}

/// What a registration says.
pub struct RegisterView {
    pub node_id: Seq<char>,
    pub role: Seq<char>,
    pub grant_bytes: u64,
    pub replication_addr: Seq<char>,
    pub join_token: Seq<char>,
}

impl View for RegisterPayload {
    type V = RegisterView;

    open spec fn view(&self) -> RegisterView {
        RegisterView {
            node_id: self.node_id@,
            role: self.role@,
            grant_bytes: self.grant_bytes,
            replication_addr: self.replication_addr@,
            join_token: self.join_token@,
        }
    }
}

/// The answer to a joining node.
#[derive(Debug)]
pub struct RegisterAck {
    pub accepted: bool,
    pub message: String,
    pub assigned_id: u64,
}

/// What the answer to a joining node says.
pub struct AckView {
    pub accepted: bool,
    pub message: Seq<char>,
    pub assigned_id: u64,
}

impl View for RegisterAck {
    type V = AckView;

    open spec fn view(&self) -> AckView {
        AckView { accepted: self.accepted, message: self.message@, assigned_id: self.assigned_id }
    }
}

/// The number of the node itself.
pub const GOD_NODE_ID: u64 = 1;

/// What a registry holds: the token that it asks for, the keepers, and the
/// number that the next node gets.
#[verifier::ext_equal]
pub struct RegistryView {
    pub token: Seq<char>,
    pub registered: Seq<KeeperView>,
    pub next: u64,
}

impl RegistryView {
    /// The next number is one that the node itself does not have and that no
    /// keeper in the list reaches.
    pub open spec fn numbered(self) -> bool {
        &&& self.next > GOD_NODE_ID
        &&& forall|i: int| 0 <= i < self.registered.len() ==> (#[trigger] self.registered[i]).node_id < self.next
    }

    /// A registration carries the right token.
    pub open spec fn takes(self, p: RegisterView) -> bool {
        p.join_token == self.token
    }

    /// A registration adds a keeper.
    pub open spec fn adds(self, p: RegisterView) -> bool {
        self.takes(p) && p.role == "keeper"@ && !listed(self.registered, self.next)
    }

    /// The answer to a registration.
    pub open spec fn answer(self, p: RegisterView) -> AckView {
        if self.takes(p) {
            AckView { accepted: true, message: "OK"@, assigned_id: self.next }
        } else {
            AckView { accepted: false, message: "invalid join token"@, assigned_id: 0 }
        }
    }

    /// The registry after a registration. Numbers wrap round at 2^64.
    pub open spec fn with(self, p: RegisterView) -> RegistryView {
        RegistryView {
            token: self.token,
            registered: if self.adds(p) {
                self.registered.push(
                    KeeperView {
                        node_id: self.next,
                        node_name: p.node_id,
                        addr: p.replication_addr,
                        pool_bytes: p.grant_bytes,
                        used_bytes: 0,
                    },
                )
            } else {
                self.registered
            },
            next: if self.takes(p) {
                wrap(self.next + 1)
            } else {
                self.next
            },
        }
    }

    /// The limit of the pool after a registration.
    pub open spec fn limit(self, p: RegisterView, pool_max: u64) -> u64 {
        if self.adds(p) {
            wrap(pool_max + p.grant_bytes)
        } else {
            pool_max
        }
    }

    /// The registry after registrations in turn.
    pub open spec fn after(self, history: Seq<RegisterView>) -> RegistryView
        decreases history.len(),
    {
        if history.len() == 0 {
            self
        } else {
            self.after(history.drop_last()).with(history.last())
        }
    }

    /// The answer to the registration at a place in a history.
    pub open spec fn answer_at(self, history: Seq<RegisterView>, i: int) -> AckView {
        self.after(history.take(i)).answer(history[i])
    }

    /// How many registrations of a history carry the right token.
    pub open spec fn taken(self, history: Seq<RegisterView>) -> nat
        decreases history.len(),
    {
        if history.len() == 0 {
            0
        } else {
            self.taken(history.drop_last()) + if self.takes(history.last()) {
                1nat
            } else {
                0
            }
        }
    }
}

proof fn lemma_after(r: RegistryView, history: Seq<RegisterView>)
    requires
        r.next + r.taken(history) <= u64::MAX,
    ensures
        r.after(history).token == r.token,
        r.after(history).next == r.next + r.taken(history),
        r.numbered() ==> r.after(history).numbered(),
    decreases history.len(),
{
    if history.len() > 0 {
        let before = r.after(history.drop_last());
        lemma_after(r, history.drop_last());
        if r.numbered() {
            let s = r.after(history).registered;
            assert forall|i: int| 0 <= i < s.len() implies (#[trigger] s[i]).node_id < r.after(history).next by {
                if i < before.registered.len() {
                    assert(s[i] == before.registered[i]);
                }
            }
        }
    }
}

proof fn lemma_taken_grows(r: RegistryView, history: Seq<RegisterView>, i: int)
    requires
        0 <= i <= history.len(),
    ensures
        r.taken(history.take(i)) <= r.taken(history),
        i < history.len() && r.takes(history[i]) ==> r.taken(history.take(i)) < r.taken(history),
    decreases history.len() - i,
{
    if i < history.len() {
        lemma_taken_grows(r, history, i + 1);
        assert(history.take(i + 1).drop_last() =~= history.take(i));
        assert(history.take(i + 1).last() == history[i]);
    } else {
        assert(history.take(i) =~= history);
    }
}

/// Every node that a new registry takes gets a number that is not the node's
/// own and that no node got before, through any registrations, refused ones
/// among them, until the numbers are used up.
pub proof fn law_numbers_are_new(r: RegistryView, history: Seq<RegisterView>, i: int, j: int)
    requires
        r.next == GOD_NODE_ID + 1,
        r.next + r.taken(history) <= u64::MAX + 1,
        0 <= i < history.len(),
        0 <= j < history.len(),
    ensures
        r.answer_at(history, i).accepted == (history[i].join_token == r.token),
        !r.answer_at(history, i).accepted ==> r.answer_at(history, i).assigned_id == 0,
        r.answer_at(history, i).accepted ==> r.answer_at(history, i).assigned_id >= 2,
        i < j && r.answer_at(history, i).accepted && r.answer_at(history, j).accepted ==> r.answer_at(
            history,
            i,
        ).assigned_id < r.answer_at(history, j).assigned_id,
{
    lemma_token_stays(r, history.take(i));
    lemma_token_stays(r, history.take(j));
    lemma_taken_grows(r, history, i);
    lemma_taken_grows(r, history, j);
    if r.takes(history[i]) {
        lemma_after(r, history.take(i));
        if i < j && r.takes(history[j]) {
            lemma_after(r, history.take(j));
            lemma_taken_grows(r, history.take(j), i);
            assert(history.take(j).take(i) =~= history.take(i));
        }
    }
}

proof fn lemma_token_stays(r: RegistryView, history: Seq<RegisterView>)
    ensures
        r.after(history).token == r.token,
    decreases history.len(),
{
    if history.len() > 0 {
        lemma_token_stays(r, history.drop_last());
    }
}

/// In a registry that lists only keepers that it numbered itself, a keeper with
/// the right token is always added, and with it its bytes; nothing else changes
/// the list or the limit.
pub proof fn law_keepers_are_added(r: RegistryView, history: Seq<RegisterView>, p: RegisterView, pool_max: u64)
    requires
        r.numbered(),
        r.next + r.taken(history) <= u64::MAX,
    ensures
        ({
            let now = r.after(history);
            let joins = p.join_token == r.token && p.role == "keeper"@;
            &&& now.numbered()
            &&& now.with(p).registered == if joins {
                now.registered.push(
                    KeeperView {
                        node_id: now.answer(p).assigned_id,
                        node_name: p.node_id,
                        addr: p.replication_addr,
                        pool_bytes: p.grant_bytes,
                        used_bytes: 0,
                    },
                )
            } else {
                now.registered
            }
            &&& now.limit(p, pool_max) == if joins {
                wrap(pool_max + p.grant_bytes)
            } else {
                pool_max
            }
        }),
{
    lemma_after(r, history);
    let now = r.after(history);
    if listed(now.registered, now.next) {
        let i = choose|i: int| 0 <= i < now.registered.len() && (#[trigger] now.registered[i]).node_id == now.next;
        assert(now.registered[i].node_id < now.next);
    }
}

/// The nodes that registered.
#[derive(Debug)]
pub struct HeroldRegistry {
    join_token: String,
    keepers: Vec<KeeperInfo>,
    next_id: u64,
}

impl View for HeroldRegistry {
    type V = RegistryView;

    closed spec fn view(&self) -> RegistryView {
        RegistryView { token: self.join_token@, registered: keeper_views(self.keepers@), next: self.next_id }
    }
}

impl HeroldRegistry {
    /// Starts with the keepers that are known already. Numbers are handed out
    /// from the one behind the node's own.
    pub fn new(join_token: String, keepers: Vec<KeeperInfo>) -> (r: HeroldRegistry)
        ensures
            r@ == (RegistryView {
                token: join_token@,
                registered: keeper_views(keepers@),
                next: (GOD_NODE_ID + 1) as u64,
            }),
            keepers@.len() == 0 ==> r@.numbered(),
    {
        HeroldRegistry { join_token, keepers, next_id: 2 }
    }

    /// Takes a registration. A wrong token is refused. A keeper is listed and
    /// adds its bytes to the limit of the pool, unless one of the same number
    /// is listed already. Numbers and the limit wrap round at 2^64.
    pub fn handle_register(&mut self, payload: &RegisterPayload, pool_max: u64) -> (r: (RegisterAck, u64))
        ensures
            final(self)@ == old(self)@.with(payload@),
            r.0@ == old(self)@.answer(payload@),
            r.1 == old(self)@.limit(payload@, pool_max),
            old(self)@.numbered() && old(self)@.next < u64::MAX ==> final(self)@.numbered(),
    {
        if !str_eq(payload.join_token.as_str(), self.join_token.as_str()) {
            return (RegisterAck { accepted: false, message: "invalid join token".to_string(), assigned_id: 0 }, pool_max);
        }
        let assigned_id: u64 = self.next_id;
        self.next_id = self.next_id.wrapping_add(1);
        let mut limit: u64 = pool_max;
        if str_eq(payload.role.as_str(), "keeper") {
            let ghost ks = keeper_views(self.keepers@);
            let mut i: usize = 0;
            while i < self.keepers.len() && self.keepers[i].node_id != assigned_id
                invariant
                    i <= self.keepers@.len(),
                    ks == keeper_views(self.keepers@),
                    forall|j: int| 0 <= j < i ==> (#[trigger] ks[j]).node_id != assigned_id,
                decreases self.keepers@.len() - i,
            {
                assert(ks[i as int].node_id == self.keepers@[i as int].node_id);
                i = i + 1;
            }
            if i == self.keepers.len() {
                let info = KeeperInfo {
                    node_id: assigned_id,
                    node_name: payload.node_id.clone(),
                    addr: payload.replication_addr.clone(),
                    pool_bytes: payload.grant_bytes,
                    used_bytes: 0,
                };
                self.keepers.push(info);
                assert(keeper_views(self.keepers@) =~= ks.push(info@));
                limit = pool_max.wrapping_add(payload.grant_bytes);
            } else {
                assert(ks[i as int].node_id == assigned_id);
            }
        }
        (RegisterAck { accepted: true, message: "OK".to_string(), assigned_id }, limit)
    }

    /// The nodes that registered.
    pub fn keepers(&self) -> (r: &Vec<KeeperInfo>)
        ensures
            keeper_views(r@) == self@.registered,
    {
        &self.keepers
    }
}

/// A join token for 16 random bytes.
pub open spec fn join_token_of(bytes: Seq<u8>) -> Seq<char> {
    "mneme_tok_"@ + hex_of(bytes)
}

/// The join token for given bytes.
pub fn join_token_from(bytes: &[u8]) -> (r: String)
    ensures
        r@ == join_token_of(bytes@),
{
    let mut s = "mneme_tok_".to_string();
    let h = hex_of_bytes(bytes);
    s.append(h.as_str());
    s
}

/// A fresh join token: a fixed prefix and 16 random bytes in hexadecimal.
pub fn generate_join_token() -> (r: String)
    ensures
        exists|b: Seq<u8>| b.len() == 16 && r@ == #[trigger] join_token_of(b),
{
    let b = random_bytes(16);
    join_token_from(b.as_slice())
}

/// All that a new node needs to join: the certificate of the authority in
/// base64, the secret of the cluster, and the join token, with colons between
/// them.
pub open spec fn bundle_of(ca: Seq<u8>, secret: Seq<char>, token: Seq<char>) -> Seq<char> {
    b64_of(ca) + ":"@ + secret + ":"@ + token
}

/// All that a new node needs to join.
pub fn join_bundle(ca: &[u8], secret: &str, token: &str) -> (r: String)
    requires
        ca@.len() <= usize::MAX / 4,
    ensures
        r@ == bundle_of(ca@, secret@, token@),
{
    let mut s = b64_encode(ca);
    s.append(":");
    s.append(secret);
    s.append(":");
    s.append(token);
    s
}

/// The parts of a bundle can be told apart again, as long as neither the
/// secret nor the token holds a colon.
pub proof fn law_bundle_splits(ca: Seq<u8>, secret: Seq<char>, token: Seq<char>)
    requires
        !secret.contains(':'),
        !token.contains(':'),
    ensures
        split_at_last(bundle_of(ca, secret, token), ':') == Some((b64_of(ca) + ":"@ + secret, token)),
        split_at_last(b64_of(ca) + ":"@ + secret, ':') == Some((b64_of(ca), secret)),
{
    reveal_strlit(":");
    assert(":"@ =~= seq![':']);
    crate::text::lemma_split_behind(b64_of(ca) + ":"@ + secret, ':', token);
    crate::text::lemma_split_behind(b64_of(ca), ':', secret);
    assert(bundle_of(ca, secret, token) =~= (b64_of(ca) + ":"@ + secret).push(':') + token);
    assert(b64_of(ca) + ":"@ + secret =~= b64_of(ca).push(':') + secret);
}

/// The answer to a node that registers with the core: refused for a wrong
/// token, else accepted under the number `id` that belongs to its name.
pub fn register_answer(payload: &Result<RegisterPayload, String>, expected_token: &str, id: u64) -> (r: RegisterAck)
    ensures
        r@ == match payload {
            Err(e) => AckView { accepted: false, message: "decode error: "@ + e@, assigned_id: 0 },
            Ok(p) => if p.join_token@ == expected_token@ {
                AckView { accepted: true, message: "OK"@, assigned_id: id }
            } else {
                AckView { accepted: false, message: "invalid join_token"@, assigned_id: 0 }
            },
        },
        r@ == joined(
            match payload {
                Ok(p) => Some(p.join_token@),
                Err(_) => None,
            },
            expected_token@,
            id,
            r@.message,
        ),
{
    match payload {
        Err(e) => {
            let mut s = "decode error: ".to_string();
            s.append(e.as_str());
            RegisterAck { accepted: false, message: s, assigned_id: 0 }
        },
        Ok(p) => if str_eq(p.join_token.as_str(), expected_token) {
            RegisterAck { accepted: true, message: "OK".to_string(), assigned_id: id }
        } else {
            RegisterAck { accepted: false, message: "invalid join_token".to_string(), assigned_id: 0 }
        },
    }
}

/// The answer to a node that registers with a token, if it could be read.
pub open spec fn joined(token: Option<Seq<char>>, expected: Seq<char>, id: u64, message: Seq<char>) -> AckView {
    if token == Some(expected) {
        AckView { accepted: true, message, assigned_id: id }
    } else {
        AckView { accepted: false, message, assigned_id: 0 }
    }
}

/// A node joins with the right token and no other, and only then gets its
/// number.
pub proof fn law_right_token_joins(token: Seq<char>, expected: Seq<char>, id: u64, message: Seq<char>)
    ensures
        joined(Some(expected), expected, id, message).accepted,
        joined(Some(expected), expected, id, message).assigned_id == id,
        token != expected ==> !joined(Some(token), expected, id, message).accepted && joined(
            Some(token),
            expected,
            id,
            message,
        ).assigned_id == 0,
        !joined(None, expected, id, message).accepted,
{
}

} // verus!
