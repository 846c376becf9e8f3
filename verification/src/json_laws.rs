//! What commands on JSON documents and floating-point sums do, told by what
//! other commands answer.

use vstd::prelude::*;

use crate::commands::DataCommand;
use crate::json::{appended, FloatSum};
use crate::key_laws::{after, gives, missing, said};
use crate::reply::ReplyView;
use crate::store::StoreView;
use crate::text::{is_white, trim_end, trimmed};
use crate::value::{ErrorView, MnemeError, ValueView};

verus! {

/// The key has the same time left in both.
pub open spec fn same_end(s: StoreView, t: StoreView, db_id: u16, key: Vec<u8>, now: u64) -> bool {
    said(t, DataCommand::Ttl { key }, db_id, now) == said(s, DataCommand::Ttl { key }, db_id, now)
}

/// Setting a place of a document leaves the changed document under its key, or
/// a new one where there was none; an error of the change leaves everything. It
/// needs room, and a key of another form is left alone.
pub proof fn law_json_set_leaves(
    s: StoreView,
    db_id: u16,
    key: Vec<u8>,
    changed: Result<String, MnemeError>,
    made: Result<String, MnemeError>,
    now: u64,
    v: ValueView,
)
    ensures
        ({
            let c = DataCommand::JsonSet { key, changed, made };
            let t = after(s, c, db_id, now);
            let r = said(s, c, db_id, now);
            &&& s.used >= s.limit ==> t == s && r == Err::<ReplyView, ErrorView>(ErrorView::OutOfMemory)
            &&& s.used < s.limit && missing(s, db_id, key, now) ==> match made {
                Ok(d) => gives(t, db_id, key, now, ValueView::Json(d@)) && r is Ok && said(
                    t,
                    DataCommand::Ttl { key },
                    db_id,
                    now,
                ) == Ok::<ReplyView, ErrorView>(ReplyView::Number(-1)),
                Err(e) => missing(t, db_id, key, now) && r == Err::<ReplyView, ErrorView>(e@),
            }
            &&& s.used < s.limit && gives(s, db_id, key, now, v) && v is Json ==> match changed {
                Ok(d) => gives(t, db_id, key, now, ValueView::Json(d@)) && r is Ok && same_end(s, t, db_id, key, now),
                Err(e) => t == s && r == Err::<ReplyView, ErrorView>(e@),
            }
            &&& s.used < s.limit && gives(s, db_id, key, now, v) && !(v is Json) ==> t == s && r is Err
        }),
{
}

/// Removing from a document, appending to one of its arrays and adding to one
/// of its numbers leave the changed document under the key with the same end.
/// Where there is no document, nothing was removed, and the others find no key.
pub proof fn law_json_change_leaves(
    s: StoreView,
    db_id: u16,
    key: Vec<u8>,
    removed: Result<(String, bool), MnemeError>,
    grown: Result<String, MnemeError>,
    summed: Result<(String, u64), MnemeError>,
    now: u64,
    v: ValueView,
)
    ensures
        ({
            let del = DataCommand::JsonDel { key, changed: removed };
            let app = DataCommand::JsonArrAppend { key, changed: grown };
            let num = DataCommand::JsonNumIncrBy { key, changed: summed };
            &&& missing(s, db_id, key, now) ==> {
                &&& said(s, del, db_id, now) == Ok::<ReplyView, ErrorView>(ReplyView::Flag(false))
                &&& said(s, app, db_id, now) == Err::<ReplyView, ErrorView>(ErrorView::KeyNotFound)
                &&& said(s, num, db_id, now) == Err::<ReplyView, ErrorView>(ErrorView::KeyNotFound)
                &&& missing(after(s, del, db_id, now), db_id, key, now)
                &&& missing(after(s, app, db_id, now), db_id, key, now)
                &&& missing(after(s, num, db_id, now), db_id, key, now)
            }
            &&& gives(s, db_id, key, now, v) && v is Json ==> {
                &&& match removed {
                    Ok((d, b)) => said(s, del, db_id, now) == Ok::<ReplyView, ErrorView>(ReplyView::Flag(b)) && gives(
                        after(s, del, db_id, now),
                        db_id,
                        key,
                        now,
                        ValueView::Json(d@),
                    ) && same_end(s, after(s, del, db_id, now), db_id, key, now),
                    Err(e) => after(s, del, db_id, now) == s && said(s, del, db_id, now) == Err::<ReplyView, ErrorView>(e@),
                }
                &&& match grown {
                    Ok(d) => said(s, app, db_id, now) is Ok && gives(
                        after(s, app, db_id, now),
                        db_id,
                        key,
                        now,
                        ValueView::Json(d@),
                    ) && same_end(s, after(s, app, db_id, now), db_id, key, now),
                    Err(e) => after(s, app, db_id, now) == s && said(s, app, db_id, now) == Err::<ReplyView, ErrorView>(e@),
                }
                &&& match summed {
                    Ok((d, bits)) => said(s, num, db_id, now) == Ok::<ReplyView, ErrorView>(ReplyView::Score(bits)) && gives(
                        after(s, num, db_id, now),
                        db_id,
                        key,
                        now,
                        ValueView::Json(d@),
                    ) && same_end(s, after(s, num, db_id, now), db_id, key, now),
                    Err(e) => after(s, num, db_id, now) == s && said(s, num, db_id, now) == Err::<ReplyView, ErrorView>(e@),
                }
            }
            &&& gives(s, db_id, key, now, v) && !(v is Json) ==> {
                &&& said(s, del, db_id, now) is Err && after(s, del, db_id, now) == s
                &&& said(s, app, db_id, now) is Err && after(s, app, db_id, now) == s
                &&& said(s, num, db_id, now) is Err && after(s, num, db_id, now) == s
            }
        }),
{
}

/// Asking for a place of a document answers what its text says; a place is
/// there just where the document is and holds it. Nothing changes.
pub proof fn law_json_ask_answers(
    s: StoreView,
    db_id: u16,
    key: Vec<u8>,
    says: Result<String, MnemeError>,
    found: bool,
    now: u64,
    v: ValueView,
)
    ensures
        ({
            let get = DataCommand::JsonGet { key, said: says };
            let kind = DataCommand::JsonType { key, said: says };
            let has = DataCommand::JsonExists { key, found };
            &&& after(s, get, db_id, now) == s && after(s, kind, db_id, now) == s && after(s, has, db_id, now) == s
            &&& missing(s, db_id, key, now) ==> {
                &&& said(s, get, db_id, now) == Err::<ReplyView, ErrorView>(ErrorView::KeyNotFound)
                &&& said(s, kind, db_id, now) == Err::<ReplyView, ErrorView>(ErrorView::KeyNotFound)
                &&& said(s, has, db_id, now) == Ok::<ReplyView, ErrorView>(ReplyView::Flag(false))
            }
            &&& gives(s, db_id, key, now, v) && v is Json ==> {
                let text: Result<ReplyView, ErrorView> = match says {
                    Ok(x) => Ok(ReplyView::Text(x@)),
                    Err(e) => Err(e@),
                };
                &&& said(s, get, db_id, now) == text
                &&& said(s, kind, db_id, now) == text
                &&& said(s, has, db_id, now) == Ok::<ReplyView, ErrorView>(ReplyView::Flag(found))
            }
            &&& gives(s, db_id, key, now, v) && !(v is Json) ==> {
                &&& said(s, get, db_id, now) is Err
                &&& said(s, kind, db_id, now) is Err
                &&& said(s, has, db_id, now) == Ok::<ReplyView, ErrorView>(ReplyView::Flag(false))
            }
        }),
{
}

/// Adding a floating-point number answers the sum. A missing key counts from
/// the number itself and keeps its whole part; a text keeps the sum as text, a
/// counter its whole part, each with the same end. Any other value, and a text
/// that is no number, is left alone.
pub proof fn law_incrbyfloat_adds(
    s: StoreView,
    db_id: u16,
    key: Vec<u8>,
    delta_bits: u64,
    delta_int: i64,
    sum: Option<FloatSum>,
    now: u64,
    v: ValueView,
)
    ensures
        ({
            let c = DataCommand::IncrByFloat { key, delta_bits, delta_int, sum };
            let t = after(s, c, db_id, now);
            let r = said(s, c, db_id, now);
            &&& missing(s, db_id, key, now) ==> r == Ok::<ReplyView, ErrorView>(ReplyView::Score(delta_bits)) && gives(
                t,
                db_id,
                key,
                now,
                ValueView::Counter(delta_int),
            )
            &&& gives(s, db_id, key, now, v) && (v is String || v is Counter) && sum is Some ==> {
                let x = sum->0;
                &&& r == Ok::<ReplyView, ErrorView>(ReplyView::Score(x.bits))
                &&& v is String ==> gives(t, db_id, key, now, ValueView::String(x.text@))
                &&& v is Counter ==> gives(t, db_id, key, now, ValueView::Counter(x.int))
                &&& same_end(s, t, db_id, key, now)
            }
            &&& gives(s, db_id, key, now, v) && (sum is None || !(v is String) && !(v is Counter)) ==> r is Err && t == s
        }),
{
}

proof fn lemma_trim_kept(s: Seq<char>)
    requires
        s.len() > 0,
        !is_white(s[0]),
        !is_white(s.last()),
    ensures
        trimmed(s) == s,
{
}

/// A value goes behind the items of an array, with a comma between; into an
/// array without items it goes alone. What is no array is refused.
pub proof fn law_append_goes_last(inner: Seq<char>, value: Seq<char>, other: Seq<char>)
    requires
        other.len() > 0,
        other[0] != '[',
        !is_white(other[0]),
        !is_white(other.last()),
    ensures
        (exists|i: int| 0 <= i < inner.len() && !is_white(#[trigger] inner[i])) ==> appended(seq!['['] + inner + seq![']'], value)
            == Ok::<Seq<char>, ErrorView>(seq!['['] + inner + seq![','] + value + seq![']']),
        (forall|i: int| 0 <= i < inner.len() ==> is_white(#[trigger] inner[i])) ==> appended(
            seq!['['] + inner + seq![']'],
            value,
        ) == Ok::<Seq<char>, ErrorView>(seq!['['] + value + seq![']']),
        appended(other, value) is Err,
{
    reveal_strlit("[");
    reveal_strlit("]");
    reveal_strlit(",");
    let s = seq!['['] + inner + seq![']'];
    assert(s[0] == '[' && s.last() == ']');
    lemma_trim_kept(s);
    lemma_trim_kept(other);
    assert(s.subrange(1, s.len() - 1) =~= inner);
    lemma_blank(inner);
    assert("["@ + inner + ","@ + value + "]"@ =~= seq!['['] + inner + seq![','] + value + seq![']']);
    assert("["@ + value + "]"@ =~= seq!['['] + value + seq![']']);
}

proof fn lemma_blank(s: Seq<char>)
    ensures
        trimmed(s).len() == 0 <==> forall|i: int| 0 <= i < s.len() ==> is_white(#[trigger] s[i]),
    decreases s.len(),
{
    if s.len() > 0 {
        if is_white(s[0]) {
            let t = s.drop_first();
            lemma_blank(t);
            assert(trimmed(s) == trimmed(t));
            if forall|i: int| 0 <= i < t.len() ==> is_white(#[trigger] t[i]) {
                assert forall|i: int| 0 <= i < s.len() implies is_white(#[trigger] s[i]) by {
                    if i > 0 {
                        assert(is_white(t[i - 1]));
                    }
                }
            }
            if forall|i: int| 0 <= i < s.len() ==> is_white(#[trigger] s[i]) {
                assert forall|i: int| 0 <= i < t.len() implies is_white(#[trigger] t[i]) by {
                    assert(is_white(s[i + 1]));
                }
            }
        } else {
            lemma_end_kept(s);
        }
    }
}

proof fn lemma_end_kept(s: Seq<char>)
    requires
        s.len() > 0,
        !is_white(s[0]),
    ensures
        trim_end(s).len() > 0,
    decreases s.len(),
{
    if is_white(s.last()) {
        lemma_end_kept(s.drop_last());
    }
}

} // verus!
