//! What commands on whole databases answer: going through their keys, counting
//! and removing them, and naming databases.

use vstd::prelude::*;

use crate::assoc::{lemma_assoc_at, lemma_assoc_item};
use crate::bytes::{lex_less, lex_less_at};
use crate::commands::DataCommand;
use crate::dbs::{in_use, selected};
use crate::key_laws::{gives, missing, said};
use crate::listing::{is_listing, law_listing_unique, listing};
use crate::mnemosyne::{did, Mnemosyne, NodeCommand};
use crate::pattern::key_matches;
use crate::pool::{all_db_keys, db_key, db_keys, db_prefix, in_db, law_databases_isolated, scanned};
use crate::proto::PushView;
use crate::reply::ReplyView;
use crate::store::StoreView;
use crate::value::ErrorView;

verus! {

/// The store holds a key of a database, whether or not its time is over.
pub open spec fn kept(s: StoreView, db_id: u16, key: Seq<u8>) -> bool {
    s.map.contains_key(seq![(db_id / 256) as u8, (db_id % 256) as u8] + key)
}

/// The key is kept and its time is not over.
pub open spec fn there(s: StoreView, db_id: u16, key: Seq<u8>, now: u64) -> bool {
    kept(s, db_id, key) && {
        let end = s.map[seq![(db_id / 256) as u8, (db_id % 256) as u8] + key].expires_at_ms;
        end == 0 || now < end
    }
}

/// `GET` finds the keys that are there, and no others.
pub proof fn law_get_finds_what_is_there(s: StoreView, db_id: u16, key: Vec<u8>, now: u64)
    ensures
        there(s, db_id, key@, now) <==> !missing(s, db_id, key, now),
        there(s, db_id, key@, now) ==> gives(
            s,
            db_id,
            key,
            now,
            s.map[seq![(db_id / 256) as u8, (db_id % 256) as u8] + key@].value,
        ),
{
}

/// Byte strings in ascending order, each once: of any two the one that comes
/// first is how the other begins, or has the smaller byte where they first
/// differ.
pub open spec fn in_byte_order(all: Seq<Seq<u8>>) -> bool {
    forall|i: int, j: int| 0 <= i < j < all.len() ==> #[trigger] first_of(all[i], all[j])
}

/// `a` is how `b` begins, or has the smaller byte where they first differ.
pub open spec fn first_of(a: Seq<u8>, b: Seq<u8>) -> bool {
    ||| a.len() < b.len() && b.take(a.len() as int) == a
    ||| exists|n: int| 0 <= n < a.len() && n < b.len() && #[trigger] a.take(n) == b.take(n) && a[n] < b[n]
}

proof fn lemma_first_of(a: Seq<u8>, b: Seq<u8>)
    requires
        first_of(a, b),
    ensures
        lex_less(a, b),
{
    if a.len() < b.len() && b.take(a.len() as int) == a {
        assert forall|j: int| 0 <= j < a.len() implies a[j] == b[j] by {
            assert(b.take(a.len() as int)[j] == b[j]);
        }
        assert(lex_less_at(a, b, a.len() as int));
    } else {
        let n = choose|n: int| 0 <= n < a.len() && n < b.len() && #[trigger] a.take(n) == b.take(n) && a[n] < b[n];
        assert forall|j: int| 0 <= j < n implies a[j] == b[j] by {
            assert(a.take(n)[j] == a[j]);
            assert(b.take(n)[j] == b[j]);
        }
        assert(lex_less_at(a, b, n));
    }
}

/// `all` holds the keys of a database that are there and match a pattern, each
/// once, in the order of their bytes.
pub open spec fn are_keys(
    all: Seq<Seq<u8>>,
    s: StoreView,
    db_id: u16,
    pattern: Option<Seq<u8>>,
    now: u64,
) -> bool {
    &&& in_byte_order(all)
    &&& forall|k: Seq<u8>| #[trigger] all.contains(k) <==> there(s, db_id, k, now) && key_matches(k, pattern)
}

proof fn lemma_are_keys(all: Seq<Seq<u8>>, s: StoreView, db_id: u16, pattern: Option<Seq<u8>>, now: u64)
    requires
        are_keys(all, s, db_id, pattern, now),
    ensures
        is_listing(all, scanned(s.map, db_id, pattern, now)),
        listing(scanned(s.map, db_id, pattern, now)) == all,
{
    let p = scanned(s.map, db_id, pattern, now);
    assert forall|i: int, j: int| 0 <= i < j < all.len() implies lex_less(#[trigger] all[i], #[trigger] all[j]) by {
        assert(first_of(all[i], all[j]));
        lemma_first_of(all[i], all[j]);
    }
    assert forall|k: Seq<u8>| #[trigger] all.contains(k) <==> p(k) by {
        assert(db_key(db_id, k) == seq![(db_id / 256) as u8, (db_id % 256) as u8] + k);
    }
    assert(is_listing(all, p));
    law_listing_unique(all, listing(p), p);
}

/// `SCAN` shows the keys that are there and match, in the order of their bytes:
/// from the cursor on as many as asked for, at least one and at most a
/// thousand. The cursor that it answers is where the next page begins, or 0
/// where this was the last.
pub proof fn law_scan_shows(
    s: StoreView,
    db_id: u16,
    cursor: u64,
    pattern: Option<String>,
    count: u64,
    now: u64,
    all: Seq<Seq<u8>>,
    size: int,
)
    requires
        are_keys(
            all,
            s,
            db_id,
            match pattern {
                Some(p) => Some(vstd::utf8::encode_utf8(p@)),
                None => None,
            },
            now,
        ),
        count == 0 ==> size == 1,
        1 <= count <= 1000 ==> size == count,
        count > 1000 ==> size == 1000,
    ensures
        ({
            let r = said(s, DataCommand::Scan { cursor, pattern, count }, db_id, now);
            &&& cursor >= all.len() ==> r == Ok::<ReplyView, ErrorView>(ReplyView::Page(0, Seq::empty()))
            &&& cursor < all.len() <= cursor + size ==> r == Ok::<ReplyView, ErrorView>(
                ReplyView::Page(0, all.skip(cursor as int)),
            )
            &&& cursor + size < all.len() ==> r == Ok::<ReplyView, ErrorView>(
                ReplyView::Page(cursor + size, all.subrange(cursor as int, cursor + size)),
            )
        }),
{
    let p = match pattern {
        Some(p) => Some(vstd::utf8::encode_utf8(p@)),
        None => None,
    };
    lemma_are_keys(all, s, db_id, p, now);
    if cursor < all.len() {
        assert(all.skip(cursor as int) =~= all.subrange(cursor as int, all.len() as int));
    }
}

/// The keys of a pool that belong to a database, given as its users know them.
proof fn lemma_keys_of_database(all: Seq<Seq<u8>>, db_id: u16, keys: Set<Seq<u8>>)
    requires
        forall|i: int, j: int| 0 <= i < j < all.len() ==> #[trigger] all[i] != #[trigger] all[j],
        forall|k: Seq<u8>| #[trigger] all.contains(k) <==> keys.contains(db_key(db_id, k)),
        forall|k: Seq<u8>| #[trigger] keys.contains(k) ==> in_db(k, db_id),
    ensures
        keys.len() == all.len(),
{
    let full = all.map_values(|u: Seq<u8>| db_key(db_id, u));
    assert(full.len() == all.len());
    assert(full.no_duplicates()) by {
        assert forall|i: int, j: int| 0 <= i < full.len() && 0 <= j < full.len() && i != j implies full[i] != full[j] by {
            law_databases_isolated(db_id, all[i], db_id, all[j]);
            if i < j {
                assert(all[i] != all[j]);
            } else {
                assert(all[j] != all[i]);
            }
        }
    }
    assert forall|k: Seq<u8>| #[trigger] full.to_set().contains(k) <==> keys.contains(k) by {
        if full.to_set().contains(k) {
            let i = choose|i: int| 0 <= i < full.len() && full[i] == k;
            assert(all.contains(all[i]));
        }
        if keys.contains(k) {
            assert(in_db(k, db_id));
            let u = k.subrange(2, k.len() as int);
            assert(k.subrange(0, 2) == db_prefix(db_id));
            assert(k =~= k.subrange(0, 2) + u);
            assert(k == db_key(db_id, u));
            assert(all.contains(u));
            let i = choose|i: int| 0 <= i < all.len() && all[i] == u;
            assert(full[i] == k);
        }
    }
    assert(full.to_set() =~= keys);
    full.unique_seq_to_set();
}

/// `DBSIZE` counts the keys that are there: as many as `SCAN` without a pattern
/// shows. The database is the one that the command names, else the number that
/// it gives, else the connection's.
pub proof fn law_dbsize_counts(
    n: Mnemosyne,
    name: String,
    explicit: Option<u16>,
    conn_db: u16,
    now: u64,
    after: Mnemosyne,
    r: Result<ReplyView, ErrorView>,
    pushes: Seq<PushView>,
    id: u16,
    all: Seq<Seq<u8>>,
)
    requires
        did(n, NodeCommand::DbSize { name, db_id: explicit }, conn_db, now, after, r, pushes),
        means(n, name@, explicit, conn_db, id),
        are_keys(all, n.store@, id, None, now),
        all.len() <= u64::MAX,
    ensures
        r == Ok::<ReplyView, ErrorView>(ReplyView::Count(all.len() as int)),
        after == n,
        pushes.len() == 0,
{
    lemma_are_keys(all, n.store@, id, None, now);
    let keys = db_keys(n.store@.map, id, now);
    assert forall|i: int, j: int| 0 <= i < j < all.len() implies #[trigger] all[i] != #[trigger] all[j] by {
        assert(lex_less(all[i], all[j]));
        crate::bytes::lemma_lex_asymmetric(all[i], all[j]);
    }
    assert forall|k: Seq<u8>| #[trigger] all.contains(k) <==> keys.contains(db_key(id, k)) by {
        law_databases_isolated(id, k, id, k);
    }
    lemma_keys_of_database(all, id, keys);
}

/// The database that a command means: a name goes before a number, and a number
/// before the database of the connection.
pub open spec fn means(n: Mnemosyne, name: Seq<char>, explicit: Option<u16>, conn_db: u16, id: u16) -> bool {
    if name.len() > 0 {
        n.dbs.map().contains_key(name) && n.dbs.map()[name] == id
    } else {
        match explicit {
            Some(x) => x == id,
            None => conn_db == id,
        }
    }
}

/// `FLUSHDB` removes every key of the database that the command means, those
/// whose time is over too, and answers how many they were. The keys of other
/// databases are left. If it is to be replicated, it is as the removal of the
/// empty key of that database.
pub proof fn law_flushdb_empties(
    n: Mnemosyne,
    name: String,
    explicit: Option<u16>,
    sync: bool,
    conn_db: u16,
    now: u64,
    after: Mnemosyne,
    r: Result<ReplyView, ErrorView>,
    pushes: Seq<PushView>,
    id: u16,
    all: Seq<Seq<u8>>,
    key: Seq<u8>,
    other: u16,
)
    requires
        did(n, NodeCommand::FlushDb { name, db_id: explicit, sync }, conn_db, now, after, r, pushes),
        means(n, name@, explicit, conn_db, id),
        forall|i: int, j: int| 0 <= i < j < all.len() ==> #[trigger] all[i] != #[trigger] all[j],
        forall|k: Seq<u8>| #[trigger] all.contains(k) <==> kept(n.store@, id, k),
        all.len() <= u64::MAX,
    ensures
        r == Ok::<ReplyView, ErrorView>(ReplyView::Count(all.len() as int)),
        !kept(after.store@, id, key),
        other != id ==> {
            &&& kept(after.store@, other, key) <==> kept(n.store@, other, key)
            &&& there(after.store@, other, key, now) <==> there(n.store@, other, key, now)
            &&& kept(n.store@, other, key) ==> after.store@.map[seq![
                (other / 256) as u8,
                (other % 256) as u8,
            ] + key] == n.store@.map[seq![(other / 256) as u8, (other % 256) as u8] + key]
        },
        after.dbs == n.dbs && after.argus == n.argus && after.settings == n.settings,
        !sync ==> pushes.len() == 0,
        sync ==> pushes.len() == 1 && pushes[0] == PushView::tombstone(
            seq![(id / 256) as u8, (id % 256) as u8],
            0,
            id,
        ),
{
    let m = n.store@.map;
    let keys = all_db_keys(m, id);
    assert forall|k: Seq<u8>| #[trigger] all.contains(k) <==> keys.contains(db_key(id, k)) by {
        law_databases_isolated(id, k, id, k);
        assert(kept(n.store@, id, k) <==> m.contains_key(db_key(id, k)));
    }
    lemma_keys_of_database(all, id, keys);
    law_databases_isolated(id, key, id, key);
    law_databases_isolated(other, key, id, key);
    assert(db_key(id, key) == seq![(id / 256) as u8, (id % 256) as u8] + key);
    assert(db_key(other, key) == seq![(other / 256) as u8, (other % 256) as u8] + key);
    assert(db_key(id, Seq::empty()) =~= seq![(id / 256) as u8, (id % 256) as u8]);
}

/// A name that nobody gave is answered with an error, and nothing happens.
pub proof fn law_unknown_name_is_refused(
    n: Mnemosyne,
    name: String,
    explicit: Option<u16>,
    sync: bool,
    conn_db: u16,
    now: u64,
    after: Mnemosyne,
    r: Result<ReplyView, ErrorView>,
    pushes: Seq<PushView>,
)
    requires
        name@.len() > 0,
        !n.dbs.map().contains_key(name@),
        did(n, NodeCommand::FlushDb { name, db_id: explicit, sync }, conn_db, now, after, r, pushes) || did(
            n,
            NodeCommand::DbSize { name, db_id: explicit },
            conn_db,
            now,
            after,
            r,
            pushes,
        ),
    ensures
        r == Err::<ReplyView, ErrorView>(ErrorView::Protocol("unknown database name '"@ + name@ + "'"@)),
        after == n,
        pushes.len() == 0,
{
}

/// `DB-CREATE` without a number takes the lowest from 1 on that has no name;
/// with one it takes that, if it is below the number of databases. From then on
/// the name means that database, and the other names mean what they meant.
/// An empty name, a name that is taken and a number out of range are refused.
pub proof fn law_db_create_names(
    n: Mnemosyne,
    name: String,
    explicit: Option<u16>,
    conn_db: u16,
    now: u64,
    after: Mnemosyne,
    r: Result<ReplyView, ErrorView>,
    pushes: Seq<PushView>,
    other: Seq<char>,
)
    requires
        did(n, NodeCommand::DbCreate { name, db_id: explicit }, conn_db, now, after, r, pushes),
    ensures
        ({
            let max = n.settings.max_databases;
            let was = n.dbs.map();
            &&& name@.len() == 0 || was.contains_key(name@) ==> r is Err
            &&& name@.len() > 0 && !was.contains_key(name@) && explicit is Some ==> (r is Ok <==> explicit->0 < max)
            &&& name@.len() > 0 && !was.contains_key(name@) && explicit is None && r is Err ==> forall|j: u16|
                1 <= j < max ==> #[trigger] has_name(was, j)
            &&& r matches Ok(v) ==> {
                &&& v matches ReplyView::Db(what, id)
                &&& what == name@
                &&& id < max
                &&& means(after, name@, None, conn_db, id)
                &&& explicit matches Some(x) ==> id == x
                &&& explicit is None ==> id >= 1
                &&& explicit is None && was.contains_key(other) ==> was[other] != id
                &&& explicit is None ==> forall|j: u16|
                    1 <= j < id ==> #[trigger] has_name(was, j)
            }
            &&& r is Err ==> after.dbs.map() == was
            &&& other != name@ ==> (after.dbs.map().contains_key(other) <==> was.contains_key(other))
            &&& other != name@ && was.contains_key(other) ==> after.dbs.map()[other] == was[other]
            &&& after.store == n.store && pushes.len() == 0
        }),
{
    let was = n.dbs.map();
    assert forall|j: u16| #[trigger] has_name(was, j) <==> in_use(was, j) by {}
    match r {
        Ok(ReplyView::Db(what, id)) => {
            assert forall|j: u16| explicit is None && 1 <= j < id implies #[trigger] has_name(was, j) by {
                assert(in_use(was, j));
            }
        },
        _ => {
            assert forall|j: u16|
                name@.len() > 0 && !was.contains_key(name@) && explicit is None && 1 <= j
                    < n.settings.max_databases implies #[trigger] has_name(was, j) by {
                assert(in_use(was, j));
            }
        },
    }
}

/// Some name stands for a number.
pub open spec fn has_name(names: Map<Seq<char>, u16>, id: u16) -> bool {
    exists|name: Seq<char>| #[trigger] names.contains_key(name) && names[name] == id
}

/// `DB-DROP` answers the number that the name stood for and forgets the name.
/// The other names and all keys stay.
pub proof fn law_db_drop_forgets(
    n: Mnemosyne,
    name: String,
    conn_db: u16,
    now: u64,
    after: Mnemosyne,
    r: Result<ReplyView, ErrorView>,
    pushes: Seq<PushView>,
    other: Seq<char>,
)
    requires
        did(n, NodeCommand::DbDrop { name }, conn_db, now, after, r, pushes),
    ensures
        n.dbs.map().contains_key(name@) ==> r == Ok::<ReplyView, ErrorView>(
            ReplyView::Count(n.dbs.map()[name@] as int),
        ),
        !n.dbs.map().contains_key(name@) ==> r is Err,
        !after.dbs.map().contains_key(name@),
        other != name@ ==> (after.dbs.map().contains_key(other) <==> n.dbs.map().contains_key(other)),
        other != name@ && n.dbs.map().contains_key(other) ==> after.dbs.map()[other] == n.dbs.map()[other],
        after.store == n.store && pushes.len() == 0,
{
}

/// `DB-LIST` shows every name with the number that it stands for, the lower
/// numbers first.
pub proof fn law_db_list_shows(
    n: Mnemosyne,
    conn_db: u16,
    now: u64,
    after: Mnemosyne,
    r: Result<ReplyView, ErrorView>,
    pushes: Seq<PushView>,
    name: Seq<char>,
    id: u16,
)
    requires
        did(n, NodeCommand::DbList, conn_db, now, after, r, pushes),
    ensures
        r matches Ok(v) && v matches ReplyView::Dbs(l) && {
            &&& l.contains((name, id)) <==> n.dbs.map().contains_key(name) && n.dbs.map()[name] == id
            &&& forall|i: int, j: int| 0 <= i < j < l.len() ==> (#[trigger] l[i]).1 <= (#[trigger] l[j]).1
            &&& forall|i: int, j: int| 0 <= i < j < l.len() ==> (#[trigger] l[i]).0 != (#[trigger] l[j]).0
        },
        after == n,
{
    let l = r->Ok_0->Dbs_0;
    if l.contains((name, id)) {
        let i = choose|i: int| 0 <= i < l.len() && l[i] == (name, id);
        lemma_assoc_at(l, i);
    }
    if n.dbs.map().contains_key(name) {
        let i = lemma_assoc_item(l, name);
        lemma_assoc_at(l, i);
        assert(l.contains(l[i]));
    }
}

/// `SELECT` takes a name before a number and changes to a database just where
/// its number is below the number of databases.
pub proof fn law_select_changes(names: Map<Seq<char>, u16>, name: Seq<char>, db_id: u16, max: u16)
    ensures
        name.len() == 0 ==> (selected(names, name, db_id, max) is Ok <==> db_id < max),
        name.len() == 0 && db_id < max ==> selected(names, name, db_id, max) == Ok::<u16, Seq<char>>(db_id),
        name.len() > 0 ==> (selected(names, name, db_id, max) is Ok <==> names.contains_key(name) && names[name] < max),
        name.len() > 0 && names.contains_key(name) && names[name] < max ==> selected(names, name, db_id, max) == Ok::<
            u16,
            Seq<char>,
        >(names[name]),
{
}

} // verus!
