//! Claims that were written with their names, as a MessagePack map.

use vstd::prelude::*;

use crate::argus::{Claims, ClaimsView};
use crate::crypto::{field_views, FieldParts, FieldView};
use crate::text::str_eq;

verus! {

/// How many pairs a MessagePack map announces.
pub open spec fn announced(b: Seq<u8>) -> Option<nat> {
    if b.len() >= 1 && 0x80 <= b[0] <= 0x8f {
        Some((b[0] - 0x80) as nat)
    } else if b.len() >= 3 && b[0] == 0xde {
        Some((b[1] * 0x100 + b[2]) as nat)
    } else if b.len() >= 5 && b[0] == 0xdf {
        Some((b[1] * 0x100_0000 + b[2] * 0x1_0000 + b[3] * 0x100 + b[4]) as nat)
    } else {
        None
    }
}

/// Whether a MessagePack map announces `n` pairs.
pub fn announces(b: &[u8], n: usize) -> (r: bool)
    ensures
        r == (announced(b@) == Some(n as nat)),
{
    let count: u64 = if b.len() >= 1 && 0x80 <= b[0] && b[0] <= 0x8f {
        (b[0] - 0x80) as u64
    } else if b.len() >= 3 && b[0] == 0xde {
        b[1] as u64 * 0x100 + b[2] as u64
    } else if b.len() >= 5 && b[0] == 0xdf {
        b[1] as u64 * 0x100_0000 + b[2] as u64 * 0x1_0000 + b[3] as u64 * 0x100 + b[4] as u64
    } else {
        return false;
    };
    count == n as u64
}

/// The field of a name.
pub open spec fn field_of(fields: Seq<FieldView>, name: Seq<char>) -> Option<FieldView>
    decreases fields.len(),
{
    if fields.len() == 0 {
        None
    } else if fields.last().0 == name {
        Some(fields.last())
    } else {
        field_of(fields.drop_last(), name)
    }
}

/// The number under a name.
pub open spec fn number_of(fields: Seq<FieldView>, name: Seq<char>) -> Option<u64> {
    match field_of(fields, name) {
        Some(f) => f.1,
        None => None,
    }
}

/// The role: a text, or an administrator's where none is named.
pub open spec fn role_of(fields: Seq<FieldView>) -> Option<Seq<char>> {
    match field_of(fields, "role"@) {
        Some(f) => f.2,
        None => Some("admin"@),
    }
}

/// All are numbers that a database can have.
pub open spec fn are_dbs(l: Seq<Option<u64>>) -> bool {
    forall|i: int| 0 <= i < l.len() ==> ((#[trigger] l[i]) matches Some(n) && n <= u16::MAX)
}

/// The databases: a list of numbers, or an empty one where none is named.
pub open spec fn dbs_of(fields: Seq<FieldView>) -> Option<Seq<u16>> {
    match field_of(fields, "allowed_dbs"@) {
        Some(f) => match f.3 {
            Some(l) => if are_dbs(l) {
                Some(l.map_values(|n: Option<u64>| n->0 as u16))
            } else {
                None
            },
            None => None,
        },
        None => Some(Seq::empty()),
    }
}

/// The claims that fields name.
pub open spec fn claims_of(fields: Seq<FieldView>) -> Option<ClaimsView> {
    match (
        number_of(fields, "user_id"@),
        number_of(fields, "exp"@),
        number_of(fields, "iat"@),
        number_of(fields, "jti"@),
        role_of(fields),
        dbs_of(fields),
    ) {
        (Some(user_id), Some(exp), Some(iat), Some(jti), Some(role), Some(allowed_dbs)) => Some(
            ClaimsView { user_id, exp, iat, jti, role, allowed_dbs },
        ),
        _ => None,
    }
}

/// The place of a name.
fn find_field(fields: &Vec<FieldParts>, name: &str) -> (r: Option<usize>)
    ensures
        match r {
            Some(i) => i < fields@.len() && field_of(field_views(fields@), name@) == Some(
                field_views(fields@)[i as int],
            ),
            None => field_of(field_views(fields@), name@) is None,
        },
{
    let ghost all = field_views(fields@);
    let mut found: Option<usize> = None;
    let mut i: usize = 0;
    while i < fields.len()
        invariant
            i <= fields@.len(),
            all == field_views(fields@),
            match found {
                Some(k) => k < fields@.len() && field_of(all.take(i as int), name@) == Some(all[k as int]),
                None => field_of(all.take(i as int), name@) is None,
            },
        decreases fields@.len() - i,
    {
        proof {
            assert(all.take(i + 1).drop_last() =~= all.take(i as int));
            assert(all.take(i + 1).last() == all[i as int]);
        }
        if str_eq(fields[i].0.as_str(), name) {
            found = Some(i);
        }
        i = i + 1;
    }
    assert(all.take(all.len() as int) =~= all);
    found
}

fn find_number(fields: &Vec<FieldParts>, name: &str) -> (r: Option<u64>)
    ensures
        r == number_of(field_views(fields@), name@),
{
    match find_field(fields, name) {
        Some(i) => fields[i].1,
        None => None,
    }
}

fn find_role(fields: &Vec<FieldParts>) -> (r: Option<String>)
    ensures
        match r {
            Some(t) => role_of(field_views(fields@)) == Some(t@),
            None => role_of(field_views(fields@)) is None,
        },
{
    match find_field(fields, "role") {
        Some(i) => match &fields[i].2 {
            Some(t) => Some(t.clone()),
            None => None,
        },
        None => Some("admin".to_string()),
    }
}

fn find_dbs(fields: &Vec<FieldParts>) -> (r: Option<Vec<u16>>)
    ensures
        match r {
            Some(d) => dbs_of(field_views(fields@)) == Some(d@),
            None => dbs_of(field_views(fields@)) is None,
        },
{
    let mut out: Vec<u16> = Vec::new();
    match find_field(fields, "allowed_dbs") {
        None => {
            assert(out@ =~= Seq::<u16>::empty());
            Some(out)
        },
        Some(k) => match &fields[k].3 {
            None => None,
            Some(l) => {
                let mut i: usize = 0;
                while i < l.len()
                    invariant
                        i <= l@.len(),
                        are_dbs(l@.take(i as int)),
                        out@ == l@.take(i as int).map_values(|n: Option<u64>| n->0 as u16),
                        field_views(fields@)[k as int].3 == Some(l@),
                        field_of(field_views(fields@), "allowed_dbs"@) == Some(
                            field_views(fields@)[k as int],
                        ),
                    decreases l@.len() - i,
                {
                    match l[i] {
                        Some(n) if n <= 65535 => {
                            out.push(n as u16);
                        },
                        _ => {
                            assert(!are_dbs(l@)) by {
                                assert(l@[i as int] == l[i as int]);
                            }
                            return None;
                        },
                    }
                    proof {
                        let next = l@.take(i + 1);
                        assert(next =~= l@.take(i as int).push(l@[i as int]));
                        assert(are_dbs(next)) by {
                            assert forall|j: int| 0 <= j < next.len() implies ((#[trigger] next[j]) matches Some(n) && n
                                <= u16::MAX) by {
                                if j < i {
                                    assert(next[j] == l@.take(i as int)[j]);
                                }
                            }
                        }
                        assert(out@ =~= next.map_values(|n: Option<u64>| n->0 as u16));
                    }
                    i = i + 1;
                }
                assert(l@.take(l@.len() as int) =~= l@);
                Some(out)
            },
        },
    }
}

/// The claims that fields name, if they name all that is needed.
pub fn claims_from(fields: &Vec<FieldParts>) -> (r: Option<Claims>)
    ensures
        match r {
            Some(c) => claims_of(field_views(fields@)) == Some(c@),
            None => claims_of(field_views(fields@)) is None,
        },
{
    match (
        find_number(fields, "user_id"),
        find_number(fields, "exp"),
        find_number(fields, "iat"),
        find_number(fields, "jti"),
        find_role(fields),
        find_dbs(fields),
    ) {
        (Some(user_id), Some(exp), Some(iat), Some(jti), Some(role), Some(allowed_dbs)) => Some(
            Claims { user_id, exp, iat, jti, role, allowed_dbs },
        ),
        _ => None,
    }
}

/// Claims by name need the four numbers. The role is a text, and an
/// administrator's where it is not named; the databases are a list of numbers
/// that databases can have, and all of them where they are not named.
pub proof fn law_named_claims(fields: Seq<FieldView>, name: Seq<char>, f: FieldView)
    ensures
        claims_of(fields) matches Some(c) ==> {
            &&& number_of(fields, "user_id"@) == Some(c.user_id)
            &&& number_of(fields, "exp"@) == Some(c.exp)
            &&& number_of(fields, "iat"@) == Some(c.iat)
            &&& number_of(fields, "jti"@) == Some(c.jti)
            &&& (forall|i: int| 0 <= i < fields.len() ==> (#[trigger] fields[i]).0 != "role"@) ==> c.role == "admin"@
            &&& (forall|i: int| 0 <= i < fields.len() ==> (#[trigger] fields[i]).0 != "allowed_dbs"@) ==> c.allowed_dbs.len() == 0
        },
        number_of(fields.push(f), f.0) == f.1,
        name != f.0 ==> number_of(fields.push(f), name) == number_of(fields, name),
        (forall|i: int| 0 <= i < fields.len() ==> (#[trigger] fields[i]).0 != name) ==> number_of(fields, name) is None,
        number_of(fields, "user_id"@) is None || number_of(fields, "exp"@) is None || number_of(fields, "iat"@) is None
            || number_of(fields, "jti"@) is None ==> claims_of(fields) is None,
{
    assert(fields.push(f).drop_last() =~= fields);
    lemma_not_named(fields, "role"@);
    lemma_not_named(fields, "allowed_dbs"@);
    lemma_not_named(fields, name);
}

proof fn lemma_not_named(fields: Seq<FieldView>, name: Seq<char>)
    ensures
        (forall|i: int| 0 <= i < fields.len() ==> (#[trigger] fields[i]).0 != name) ==> field_of(fields, name) is None,
    decreases fields.len(),
{
    if fields.len() > 0 && forall|i: int| 0 <= i < fields.len() ==> (#[trigger] fields[i]).0 != name {
        let t = fields.drop_last();
        assert forall|i: int| 0 <= i < t.len() implies (#[trigger] t[i]).0 != name by {
            assert(fields[i].0 != name);
        }
        assert(fields[fields.len() - 1].0 != name);
        lemma_not_named(t, name);
    }
}

} // verus!
