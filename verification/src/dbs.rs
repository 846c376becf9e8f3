//! The names of databases.

use vstd::prelude::*;

use crate::assoc::{
    assoc, distinct_keys, lemma_assoc_at, lemma_assoc_item, lemma_assoc_push, lemma_assoc_remove,
};
use crate::text::{decimal, str_eq, u64_text};
use crate::value::{ErrorView, MnemeError};

verus! {

/// A database and its name.
#[derive(Debug)]
pub struct DbInfo {
    pub name: String,
    pub id: u16,
}

/// What names of databases say.
pub open spec fn db_views(s: Seq<DbInfo>) -> Seq<(Seq<char>, u16)> {
    s.map_values(|d: DbInfo| (d.name@, d.id))
}

/// The names of databases. Several names may stand for the same one.
#[derive(Debug)]
pub struct DbRegistry {
    names: Vec<DbInfo>,
}

/// Some name stands for the database.
pub open spec fn in_use(m: Map<Seq<char>, u16>, id: u16) -> bool {
    exists|n: Seq<char>| #[trigger] m.contains_key(n) && m[n] == id
}

/// The lowest number from 1 on and below `max` that no name stands for.
pub open spec fn is_next_free(m: Map<Seq<char>, u16>, max: u16, id: u16) -> bool {
    &&& 1 <= id < max
    &&& !in_use(m, id)
    &&& forall|j: u16| 1 <= j < id ==> #[trigger] in_use(m, j)
}

/// Every number from 1 on and below `max` has a name.
pub open spec fn all_in_use(m: Map<Seq<char>, u16>, max: u16) -> bool {
    forall|j: u16| 1 <= j < max ==> #[trigger] in_use(m, j)
}

/// The errors in words.
pub open spec fn unknown_name(name: Seq<char>) -> Seq<char> {
    "unknown database name '"@ + name + "'"@
}

pub open spec fn name_exists(name: Seq<char>) -> Seq<char> {
    "DB-CREATE: name '"@ + name + "' already exists"@
}

pub open spec fn id_out_of_range(id: u16, max: u16) -> Seq<char> {
    "DB-CREATE: id "@ + decimal(id as nat) + " out of range (0.."@ + decimal((max - 1) as nat) + ")"@
}

pub open spec fn name_not_found(name: Seq<char>) -> Seq<char> {
    "DB-DROP: name '"@ + name + "' not found"@
}

pub open spec fn index_out_of_range(max: u16) -> Seq<char> {
    "ERR DB index out of range (0.."@ + decimal((max - 1) as nat) + ")"@
}

fn quoted(before: &str, name: &str, after: &str) -> (r: String)
    ensures
        r@ == before@ + name@ + after@,
{
    let mut s = before.to_string();
    s.append(name);
    s.append(after);
    s
}

impl DbRegistry {
    /// The numbers by name.
    pub closed spec fn map(&self) -> Map<Seq<char>, u16> {
        assoc(db_views(self.names@))
    }

    pub closed spec fn wf(&self) -> bool {
        distinct_keys(db_views(self.names@))
    }

    pub fn new() -> (r: DbRegistry)
        ensures
            r.wf(),
            r.map() == Map::<Seq<char>, u16>::empty(),
    {
        let r = DbRegistry { names: Vec::new() };
        assert(db_views(r.names@) =~= Seq::empty());
        r
    }

    /// The place of a name, or the number of names.
    fn find(&self, name: &str) -> (i: usize)
        requires
            self.wf(),
        ensures
            i <= self.names@.len(),
            i < self.names@.len() ==> self.names@[i as int].name@ == name@ && self.map().contains_key(name@)
                && self.map()[name@] == self.names@[i as int].id,
            i == self.names@.len() ==> !self.map().contains_key(name@) && forall|j: int|
                0 <= j < self.names@.len() ==> (#[trigger] db_views(self.names@)[j]).0 != name@,
    {
        let ghost vs = db_views(self.names@);
        let mut i: usize = 0;
        while i < self.names.len()
            invariant
                i <= self.names@.len(),
                vs == db_views(self.names@),
                self.wf(),
                forall|j: int| 0 <= j < i ==> (#[trigger] vs[j]).0 != name@,
            decreases self.names@.len() - i,
        {
            assert(vs[i as int].0 == self.names@[i as int].name@);
            if str_eq(self.names[i].name.as_str(), name) {
                proof {
                    lemma_assoc_at(vs, i as int);
                }
                return i;
            }
            i = i + 1;
        }
        proof {
            if assoc(vs).contains_key(name@) {
                let j = lemma_assoc_item(vs, name@);
                assert(vs[j].0 == name@);
            }
        }
        i
    }

    /// The number that a name stands for.
    pub fn get(&self, name: &str) -> (r: Option<u16>)
        requires
            self.wf(),
        ensures
            r == (if self.map().contains_key(name@) {
                Some(self.map()[name@])
            } else {
                None
            }),
    {
        let i: usize = self.find(name);
        if i < self.names.len() {
            Some(self.names[i].id)
        } else {
            None
        }
    }

    /// Takes a name, unless it is known already.
    pub fn seed(&mut self, name: String, id: u16)
        requires
            old(self).wf(),
        ensures
            final(self).wf(),
            final(self).map() == (if old(self).map().contains_key(name@) {
                old(self).map()
            } else {
                old(self).map().insert(name@, id)
            }),
    {
        let i: usize = self.find(name.as_str());
        if i == self.names.len() {
            let ghost vs = db_views(self.names@);
            let ghost n = name@;
            self.names.push(DbInfo { name, id });
            proof {
                lemma_assoc_push(vs, n, id);
                assert(db_views(self.names@) =~= vs.push((n, id)));
            }
        }
    }

    /// The database that a command means: that of a name where one is given,
    /// else that of a number, else the connection's.
    pub fn resolve(&self, name: &str, explicit: Option<u16>, conn_db: u16) -> (r: Result<u16, MnemeError>)
        requires
            self.wf(),
        ensures
            match resolved(self.map(), name@, explicit, conn_db) {
                Ok(id) => r == Ok::<u16, MnemeError>(id),
                Err(e) => r matches Err(x) && x@ == e,
            },
    {
        let n: usize = name.unicode_len();
        if n > 0 {
            match self.get(name) {
                Some(id) => Ok(id),
                None => Err(MnemeError::Protocol(quoted("unknown database name '", name, "'"))),
            }
        } else {
            match explicit {
                Some(id) => Ok(id),
                None => Ok(conn_db),
            }
        }
    }

    /// The database that a connection changes to, or the text of the refusal.
    pub fn select(&self, name: &str, db_id: u16, max_databases: u16) -> (r: Result<u16, String>)
        requires
            self.wf(),
            max_databases > 0,
        ensures
            match selected(self.map(), name@, db_id, max_databases) {
                Ok(id) => r matches Ok(x) && x == id,
                Err(e) => r matches Err(x) && x@ == e,
            },
    {
        let n: usize = name.unicode_len();
        let id: u16 = if n > 0 {
            match self.get(name) {
                Some(id) => id,
                None => {
                    return Err(quoted("ERR unknown database name '", name, "'"));
                },
            }
        } else {
            db_id
        };
        if id >= max_databases {
            let last = u64_text((max_databases - 1) as u64);
            Err(quoted("ERR DB index out of range (0..", last.as_str(), ")"))
        } else {
            Ok(id)
        }
    }

    /// Whether some name stands for a database.
    fn uses(&self, id: u16) -> (r: bool)
        requires
            self.wf(),
        ensures
            r == in_use(self.map(), id),
    {
        let ghost vs = db_views(self.names@);
        let mut i: usize = 0;
        while i < self.names.len()
            invariant
                i <= self.names@.len(),
                vs == db_views(self.names@),
                self.wf(),
                forall|j: int| 0 <= j < i ==> (#[trigger] vs[j]).1 != id,
            decreases self.names@.len() - i,
        {
            assert(vs[i as int].1 == self.names@[i as int].id);
            if self.names[i].id == id {
                proof {
                    lemma_assoc_at(vs, i as int);
                    assert(self.map().contains_key(vs[i as int].0));
                }
                return true;
            }
            i = i + 1;
        }
        proof {
            if in_use(self.map(), id) {
                let n = choose|n: Seq<char>| #[trigger] self.map().contains_key(n) && self.map()[n] == id;
                let j = lemma_assoc_item(vs, n);
                lemma_assoc_at(vs, j);
                assert(vs[j].1 == id);
            }
        }
        false
    }

    /// The lowest number from 1 on and below `max` that no name stands for.
    fn next_free(&self, max: u16) -> (r: Option<u16>)
        requires
            self.wf(),
        ensures
            match r {
                Some(id) => is_next_free(self.map(), max, id),
                None => all_in_use(self.map(), max),
            },
    {
        let mut id: u16 = 1;
        while id < max
            invariant
                1 <= id,
                id <= max || max < 1,
                self.wf(),
                forall|j: u16| 1 <= j < id ==> #[trigger] in_use(self.map(), j),
            decreases max - id,
        {
            if !self.uses(id) {
                return Some(id);
            }
            id = id + 1;
        }
        None
    }

    /// Gives a database a name: the database asked for, or the next that has
    /// none. Refused for no name, a name that is known, a number out of range,
    /// and when every database has a name.
    pub fn create(&mut self, name: &str, explicit: Option<u16>, max_databases: u16) -> (r: Result<u16, MnemeError>)
        requires
            old(self).wf(),
            max_databases > 0,
        ensures
            final(self).wf(),
            r is Err ==> final(self).map() == old(self).map(),
            r matches Ok(id) ==> final(self).map() == old(self).map().insert(name@, id),
            created(old(self).map(), name@, explicit, max_databases, match r {
                Ok(id) => Ok(id),
                Err(e) => Err(e@),
            }),
    {
        let n: usize = name.unicode_len();
        if n == 0 {
            return Err(MnemeError::Protocol("DB-CREATE: name must not be empty".to_string()));
        }
        let i: usize = self.find(name);
        if i < self.names.len() {
            return Err(MnemeError::Protocol(quoted("DB-CREATE: name '", name, "' already exists")));
        }
        let id: u16 = match explicit {
            Some(id) => {
                if id >= max_databases {
                    let a = u64_text(id as u64);
                    let b = u64_text((max_databases - 1) as u64);
                    let mut s = "DB-CREATE: id ".to_string();
                    s.append(a.as_str());
                    s.append(" out of range (0..");
                    s.append(b.as_str());
                    s.append(")");
                    return Err(MnemeError::Protocol(s));
                }
                id
            },
            None => match self.next_free(max_databases) {
                Some(id) => id,
                None => {
                    return Err(MnemeError::Protocol("DB-CREATE: all database IDs are in use".to_string()));
                },
            },
        };
        let ghost vs = db_views(self.names@);
        self.names.push(DbInfo { name: name.to_string(), id });
        proof {
            lemma_assoc_push(vs, name@, id);
            assert(db_views(self.names@) =~= vs.push((name@, id)));
        }
        Ok(id)
    }

    /// Forgets a name. The database keeps its keys.
    pub fn drop_name(&mut self, name: &str) -> (r: Result<u16, MnemeError>)
        requires
            old(self).wf(),
        ensures
            final(self).wf(),
            final(self).map() == old(self).map().remove(name@),
            if old(self).map().contains_key(name@) {
                r == Ok::<u16, MnemeError>(old(self).map()[name@])
            } else {
                r matches Err(e) && e@ == ErrorView::Protocol(name_not_found(name@))
            },
    {
        let i: usize = self.find(name);
        if i == self.names.len() {
            assert(self.map().remove(name@) =~= self.map());
            return Err(MnemeError::Protocol(quoted("DB-DROP: name '", name, "' not found")));
        }
        let ghost vs = db_views(self.names@);
        let d = self.names.remove(i);
        proof {
            assert(vs[i as int].0 == name@);
            lemma_assoc_remove(vs, i as int);
            assert(db_views(self.names@) =~= vs.remove(i as int));
        }
        Ok(d.id)
    }

    /// The names with their numbers, by number. Names of the same database
    /// come in any order.
    pub fn list(&self) -> (r: Vec<DbInfo>)
        requires
            self.wf(),
        ensures
            by_id(db_views(r@)),
            distinct_keys(db_views(r@)),
            assoc(db_views(r@)) == self.map(),
    {
        let mut out: Vec<DbInfo> = Vec::new();
        let mut i: usize = 0;
        let ghost vs = db_views(self.names@);
        assert(db_views(out@) =~= vs.take(0));
        while i < self.names.len()
            invariant
                i <= self.names@.len(),
                vs == db_views(self.names@),
                distinct_keys(vs),
                by_id(db_views(out@)),
                distinct_keys(db_views(out@)),
                assoc(db_views(out@)) == assoc(vs.take(i as int)),
            decreases self.names@.len() - i,
        {
            let id: u16 = self.names[i].id;
            let ghost name = self.names@[i as int].name@;
            let ghost before = db_views(out@);
            let mut at: usize = 0;
            while at < out.len() && out[at].id <= id
                invariant
                    at <= out@.len(),
                    before == db_views(out@),
                    forall|j: int| 0 <= j < at ==> (#[trigger] before[j]).1 <= id,
                decreases out@.len() - at,
            {
                assert(before[at as int].1 == out@[at as int].id);
                at = at + 1;
            }
            proof {
                assert(vs.take(i + 1).drop_last() =~= vs.take(i as int));
                assert forall|j: int| 0 <= j < before.len() implies (#[trigger] before[j]).0 != name by {
                    if before[j].0 == name {
                        lemma_assoc_at(before, j);
                        let q = lemma_assoc_item(vs.take(i as int), name);
                        assert(vs[q].0 != vs[i as int].0);
                    }
                }
                if at < before.len() {
                    assert(before[at as int].1 == out@[at as int].id);
                }
                lemma_insert(before, at as int, name, id);
            }
            out.insert(at, DbInfo { name: self.names[i].name.clone(), id });
            assert(db_views(out@) =~= before.insert(at as int, (name, id)));
            i = i + 1;
        }
        assert(vs.take(i as int) =~= vs);
        out
    }
}

/// The list goes by number.
pub open spec fn by_id(s: Seq<(Seq<char>, u16)>) -> bool {
    forall|i: int, j: int| 0 <= i < j < s.len() ==> (#[trigger] s[i]).1 <= (#[trigger] s[j]).1
}

proof fn lemma_insert(s: Seq<(Seq<char>, u16)>, at: int, name: Seq<char>, id: u16)
    requires
        0 <= at <= s.len(),
        by_id(s),
        distinct_keys(s),
        forall|j: int| 0 <= j < s.len() ==> (#[trigger] s[j]).0 != name,
        forall|j: int| 0 <= j < at ==> (#[trigger] s[j]).1 <= id,
        at < s.len() ==> id < s[at].1,
    ensures
        by_id(s.insert(at, (name, id))),
        distinct_keys(s.insert(at, (name, id))),
        assoc(s.insert(at, (name, id))) == assoc(s).insert(name, id),
    decreases s.len(),
{
    let t = s.insert(at, (name, id));
    assert forall|i: int, j: int| 0 <= i < j < t.len() implies (#[trigger] t[i]).1 <= (#[trigger] t[j]).1 && t[i].0
        != t[j].0 by {
        let x = if i < at {
            i
        } else {
            i - 1
        };
        let y = if j < at {
            j
        } else {
            j - 1
        };
        if i != at && j != at {
            assert(s[x].1 <= s[y].1);
            assert(s[x].0 != s[y].0);
        } else if i == at {
            assert(s[y].0 != name);
            if y > at {
                assert(s[at].1 <= s[y].1);
            }
        } else {
            assert(s[x].0 != name);
        }
    }
    if at == s.len() {
        assert(t =~= s.push((name, id)));
        lemma_assoc_push(s, name, id);
    } else {
        let u = s.drop_last();
        assert(t.drop_last() =~= u.insert(at, (name, id)));
        assert(t.last() == s.last());
        assert forall|j: int| 0 <= j < u.len() implies (#[trigger] u[j]).0 != name by {
            assert(s[j].0 != name);
        }
        assert forall|j: int| 0 <= j < at implies (#[trigger] u[j]).1 <= id by {
            assert(s[j].1 <= id);
        }
        if at < u.len() {
            assert(u[at] == s[at]);
        }
        lemma_insert(u, at, name, id);
        assert(s[s.len() - 1].0 != name);
        assert(assoc(t) =~= assoc(s).insert(name, id));
    }
}

/// The numbers by name after a list of names was taken in turn: a name that is
/// known stays as it is.
pub open spec fn seeded(m: Map<Seq<char>, u16>, list: Seq<(Seq<char>, u16)>) -> Map<Seq<char>, u16>
    decreases list.len(),
{
    if list.len() == 0 {
        m
    } else {
        let n = seeded(m, list.drop_last());
        if n.contains_key(list.last().0) {
            n
        } else {
            n.insert(list.last().0, list.last().1)
        }
    }
}

/// Names that are known are not changed by names that come later.
pub proof fn law_known_names_stay(m: Map<Seq<char>, u16>, list: Seq<(Seq<char>, u16)>, name: Seq<char>)
    requires
        m.contains_key(name),
    ensures
        seeded(m, list).contains_key(name),
        seeded(m, list)[name] == m[name],
    decreases list.len(),
{
    if list.len() > 0 {
        law_known_names_stay(m, list.drop_last(), name);
    }
}

impl DbRegistry {
    /// Takes a list of names in turn.
    pub fn seed_all(&mut self, list: Vec<DbInfo>)
        requires
            old(self).wf(),
        ensures
            final(self).wf(),
            final(self).map() == seeded(old(self).map(), db_views(list@)),
    {
        let ghost vs = db_views(list@);
        let mut i: usize = 0;
        while i < list.len()
            invariant
                i <= list@.len(),
                vs == db_views(list@),
                self.wf(),
                self.map() == seeded(old(self).map(), vs.take(i as int)),
            decreases list@.len() - i,
        {
            assert(vs.take(i + 1).drop_last() =~= vs.take(i as int));
            assert(vs.take(i + 1).last() == (list@[i as int].name@, list@[i as int].id));
            self.seed(list[i].name.clone(), list[i].id);
            i = i + 1;
        }
        assert(vs.take(i as int) =~= vs);
    }
}

/// The database that a command means.
pub open spec fn resolved(m: Map<Seq<char>, u16>, name: Seq<char>, explicit: Option<u16>, conn_db: u16) -> Result<u16, ErrorView> {
    if name.len() > 0 {
        if m.contains_key(name) {
            Ok(m[name])
        } else {
            Err(ErrorView::Protocol(unknown_name(name)))
        }
    } else {
        match explicit {
            Some(id) => Ok(id),
            None => Ok(conn_db),
        }
    }
}

/// The database that a connection changes to.
pub open spec fn selected(m: Map<Seq<char>, u16>, name: Seq<char>, db_id: u16, max: u16) -> Result<u16, Seq<char>> {
    if name.len() > 0 && !m.contains_key(name) {
        Err("ERR unknown database name '"@ + name + "'"@)
    } else {
        let id = if name.len() > 0 {
            m[name]
        } else {
            db_id
        };
        if id >= max {
            Err(index_out_of_range(max))
        } else {
            Ok(id)
        }
    }
}

/// What comes of giving a database a name.
pub open spec fn created(
    m: Map<Seq<char>, u16>,
    name: Seq<char>,
    explicit: Option<u16>,
    max: u16,
    r: Result<u16, ErrorView>,
) -> bool {
    if name.len() == 0 {
        r == Err::<u16, ErrorView>(ErrorView::Protocol("DB-CREATE: name must not be empty"@))
    } else if m.contains_key(name) {
        r == Err::<u16, ErrorView>(ErrorView::Protocol(name_exists(name)))
    } else {
        match explicit {
            Some(id) => if id >= max {
                r == Err::<u16, ErrorView>(ErrorView::Protocol(id_out_of_range(id, max)))
            } else {
                r == Ok::<u16, ErrorView>(id)
            },
            None => match r {
                Ok(id) => is_next_free(m, max, id),
                Err(e) => all_in_use(m, max) && e == ErrorView::Protocol("DB-CREATE: all database IDs are in use"@),
            },
        }
    }
}

/// A name that was given stands for its database until it is forgotten, and
/// the other names are left alone.
pub proof fn law_named_then_forgotten(m: Map<Seq<char>, u16>, name: Seq<char>, id: u16, conn_db: u16, other: Seq<char>)
    requires
        name.len() > 0,
        !m.contains_key(name),
    ensures
        resolved(m.insert(name, id), name, None, conn_db) == Ok::<u16, ErrorView>(id),
        other != name ==> resolved(m.insert(name, id), other, None, conn_db) == resolved(m, other, None, conn_db),
        m.insert(name, id).remove(name) == m,
        resolved(m.remove(name), name, None, conn_db) == Err::<u16, ErrorView>(ErrorView::Protocol(unknown_name(name))),
{
    assert(m.insert(name, id).remove(name) =~= m);
}

} // verus!
