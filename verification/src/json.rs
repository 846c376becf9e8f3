//! Commands on JSON documents and on floating-point numbers. What a path picks
//! out of a document, and sums of floating-point numbers, are worked out by
//! the caller on what `json_text` and `float_operand` show.

use vstd::prelude::*;

use crate::iris::{slot_of, Iris};
use crate::pool::{db_key, make_db_key};
use crate::reply::{answer, ok_str, Reply, ReplyView};
use crate::store::{lemma_put_back, Store, StoreView};
use crate::text::{trim, trimmed};
use crate::value::{Entry, EntryView, ErrorView, JsonDoc, MnemeError, Value, ValueView};

verus! {

/// What a text or an error says.
pub open spec fn text_view(r: Result<String, MnemeError>) -> Result<Seq<char>, ErrorView> {
    match r {
        Ok(t) => Ok(t@),
        Err(e) => Err(e@),
    }
}

/// What a text with an addition or an error says.
pub open spec fn pair_view<A>(r: Result<(String, A), MnemeError>) -> Result<(Seq<char>, A), ErrorView> {
    match r {
        Ok((t, a)) => Ok((t@, a)),
        Err(e) => Err(e@),
    }
}

/// An array in JSON with a value appended; an error for what is no array.
pub open spec fn appended(current: Seq<char>, value: Seq<char>) -> Result<Seq<char>, ErrorView> {
    let t = trimmed(current);
    if t.len() == 0 || t[0] != '[' {
        Err(ErrorView::WrongType("array"@, "object"@))
    } else {
        let inner = t.subrange(1, t.len() - 1);
        Ok(
            if trimmed(inner).len() == 0 {
                "["@ + value + "]"@
            } else {
                "["@ + inner + ","@ + value + "]"@
            },
        )
    }
}

/// The text is no array, or there is a byte at its end to take off, as there is
/// of every array.
pub open spec fn may_append(current: Seq<char>) -> bool {
    let t = trimmed(current);
    t.len() > 0 && t[0] == '[' ==> t.len() >= 2 && (t.last() as int) < 128
}

/// Whether the text is no array, or has a byte at its end to take off.
pub fn can_append(current: &str) -> (r: bool)
    ensures
        r == may_append(current@),
{
    let t = trim(current);
    let n: usize = t.unicode_len();
    n == 0 || t.get_char(0) != '[' || (n >= 2 && (t.get_char(n - 1) as u32) < 128)
}

/// An array in JSON with a value appended; an error for what is no array.
pub fn append_to_array(current: &str, value: &str) -> (r: Result<String, MnemeError>)
    requires
        may_append(current@),
    ensures
        text_view(r) == appended(current@, value@),
{
    let t = trim(current);
    let n: usize = t.unicode_len();
    if n == 0 || t.get_char(0) != '[' {
        return Err(MnemeError::WrongType { expected: "array", got: "object" });
    }
    let inner = t.substring_char(1, n - 1);
    let bare = trim(inner);
    let k: usize = bare.unicode_len();
    let mut s = "[".to_string();
    if k > 0 {
        s.append(inner);
        s.append(",");
    }
    s.append(value);
    s.append("]");
    Ok(s)
}

/// A sum of floating-point numbers: the bit pattern of the sum, the sum
/// without its fraction, and its text.
#[derive(Debug)]
pub struct FloatSum {
    pub bits: u64,
    pub int: i64,
    pub text: Vec<u8>,
}

/// What a sum of floating-point numbers says.
pub struct FloatSumView {
    pub bits: u64,
    pub int: i64,
    pub text: Seq<u8>,
}

/// What a sum that may be missing says.
pub open spec fn sum_view(s: Option<FloatSum>) -> Option<FloatSumView> {
    match s {
        Some(x) => Some(FloatSumView { bits: x.bits, int: x.int, text: x.text@ }),
        None => None,
    }
}

/// What a floating-point number is added to.
#[derive(Debug)]
pub enum FloatOperand {
    /// The key is not there: nothing is added to.
    Missing,
    Counter(i64),
    /// Text that may spell out a number.
    Text(Vec<u8>),
    /// A value of another type.
    Other,
}

impl StoreView {
    /// The JSON document of a key.
    pub open spec fn json_text(self, db_id: u16, key: Seq<u8>, now: u64) -> Option<Seq<char>> {
        match self.live(db_key(db_id, key), now) {
            Some(e) => match e.value {
                ValueView::Json(t) => Some(t),
                _ => None,
            },
            None => None,
        }
    }

    /// The answer to a question about a document, given what its text says.
    pub open spec fn json_ask(self, db_id: u16, key: Seq<u8>, said: Result<Seq<char>, ErrorView>, now: u64) -> Result<ReplyView, ErrorView> {
        match self.live(db_key(db_id, key), now) {
            None => Err(ErrorView::KeyNotFound),
            Some(e) => match e.value {
                ValueView::Json(_) => match said {
                    Ok(t) => Ok(ReplyView::Text(t)),
                    Err(x) => Err(x),
                },
                other => Err(ErrorView::WrongType("json"@, other.kind())),
            },
        }
    }

    pub open spec fn json_exists(self, db_id: u16, key: Seq<u8>, found: bool, now: u64) -> ReplyView {
        ReplyView::Flag(self.json_text(db_id, key, now) is Some && found)
    }

    /// A document changed, or made where there is none.
    pub open spec fn json_set(
        self,
        db_id: u16,
        key: Seq<u8>,
        changed: Result<Seq<char>, ErrorView>,
        made: Result<Seq<char>, ErrorView>,
        now: u64,
    ) -> (StoreView, Result<ReplyView, ErrorView>) {
        let k = db_key(db_id, key);
        if self.full() {
            (self, Err(ErrorView::OutOfMemory))
        } else {
            match self.live(k, now) {
                None => match made {
                    Ok(t) => (
                        self.put(k, EntryView::fresh(ValueView::Json(t), slot_of(key))),
                        Ok(ReplyView::Text("OK"@)),
                    ),
                    Err(x) => (self.removed(k), Err(x)),
                },
                Some(e) => match e.value {
                    ValueView::Json(_) => match changed {
                        Ok(t) => (
                            self.put(k, EntryView { value: ValueView::Json(t), ..e }),
                            Ok(ReplyView::Text("OK"@)),
                        ),
                        Err(x) => (self, Err(x)),
                    },
                    other => (self, Err(ErrorView::WrongType("json"@, other.kind()))),
                },
            }
        }
    }

    /// A document changed; `missing` is the answer where there is none.
    pub open spec fn json_change(
        self,
        db_id: u16,
        key: Seq<u8>,
        changed: Result<(Seq<char>, ReplyView), ErrorView>,
        missing: Result<ReplyView, ErrorView>,
        now: u64,
    ) -> (StoreView, Result<ReplyView, ErrorView>) {
        let k = db_key(db_id, key);
        match self.live(k, now) {
            None => (self.removed(k), missing),
            Some(e) => match e.value {
                ValueView::Json(_) => match changed {
                    Ok((t, said)) => (self.put(k, EntryView { value: ValueView::Json(t), ..e }), Ok(said)),
                    Err(x) => (self, Err(x)),
                },
                other => (self, Err(ErrorView::WrongType("json"@, other.kind()))),
            },
        }
    }

    /// Something removed from a document.
    pub open spec fn json_del(self, db_id: u16, key: Seq<u8>, changed: Result<(Seq<char>, bool), ErrorView>, now: u64) -> (
        StoreView,
        Result<ReplyView, ErrorView>,
    ) {
        self.json_change(
            db_id,
            key,
            match changed {
                Ok((t, b)) => Ok((t, ReplyView::Flag(b))),
                Err(x) => Err(x),
            },
            Ok(ReplyView::Flag(false)),
            now,
        )
    }

    /// An array of a document appended to.
    pub open spec fn json_arr_append(self, db_id: u16, key: Seq<u8>, changed: Result<Seq<char>, ErrorView>, now: u64) -> (
        StoreView,
        Result<ReplyView, ErrorView>,
    ) {
        self.json_change(
            db_id,
            key,
            match changed {
                Ok(t) => Ok((t, ReplyView::Text("OK"@))),
                Err(x) => Err(x),
            },
            Err(ErrorView::KeyNotFound),
            now,
        )
    }

    /// A number of a document added to.
    pub open spec fn json_num_incrby(self, db_id: u16, key: Seq<u8>, changed: Result<(Seq<char>, u64), ErrorView>, now: u64) -> (
        StoreView,
        Result<ReplyView, ErrorView>,
    ) {
        self.json_change(
            db_id,
            key,
            match changed {
                Ok((t, bits)) => Ok((t, ReplyView::Score(bits))),
                Err(x) => Err(x),
            },
            Err(ErrorView::KeyNotFound),
            now,
        )
    }

    /// A floating-point number added. `sum` is missing where the value spells
    /// out no number. Where there is no value, the number itself is the answer
    /// and its whole part is stored.
    pub open spec fn incrbyfloat(
        self,
        db_id: u16,
        key: Seq<u8>,
        delta_bits: u64,
        delta_int: i64,
        sum: Option<FloatSumView>,
        now: u64,
    ) -> (StoreView, Result<ReplyView, ErrorView>) {
        let k = db_key(db_id, key);
        match self.live(k, now) {
            None => (
                self.put(k, EntryView::fresh(ValueView::Counter(delta_int), slot_of(key))),
                Ok(ReplyView::Score(delta_bits)),
            ),
            Some(e) => {
                let text = e.value is String;
                if !text && !(e.value is Counter) || sum is None {
                    (self, Err(ErrorView::WrongType("number"@, e.value.kind())))
                } else {
                    let s = sum->0;
                    let v = if text {
                        ValueView::String(s.text)
                    } else {
                        ValueView::Counter(s.int)
                    };
                    (self.put(k, EntryView { value: v, ..e }), Ok(ReplyView::Score(s.bits)))
                }
            },
        }
    }
}

impl Store {
    /// The JSON document of a key.
    pub fn json_text(&self, db_id: u16, key: &[u8], now_ms: u64) -> (r: Option<String>)
        requires
            self.wf(),
        ensures
            match self@.json_text(db_id, key@, now_ms) {
                Some(t) => r matches Some(x) && x@ == t,
                None => r is None,
            },
    {
        let k = make_db_key(db_id, key);
        match self.pool.get(&k, now_ms) {
            None => None,
            Some(e) => match e.value {
                Value::Json(d) => Some(d.raw),
                _ => None,
            },
        }
    }

    /// The answer to a question about a document, given what its text says.
    pub fn json_ask(&self, db_id: u16, key: &[u8], said: Result<String, MnemeError>, now_ms: u64) -> (r: Result<Reply, MnemeError>)
        requires
            self.wf(),
        ensures
            answer(r) == self@.json_ask(db_id, key@, text_view(said), now_ms),
    {
        let k = make_db_key(db_id, key);
        match self.pool.get(&k, now_ms) {
            None => Err(MnemeError::KeyNotFound),
            Some(e) => match &e.value {
                Value::Json(_) => match said {
                    Ok(t) => Ok(Reply::Text(t)),
                    Err(x) => Err(x),
                },
                other => Err(MnemeError::WrongType { expected: "json", got: other.kind() }),
            },
        }
    }

    pub fn json_exists(&self, db_id: u16, key: &[u8], found: bool, now_ms: u64) -> (r: Reply)
        requires
            self.wf(),
        ensures
            r@ == self@.json_exists(db_id, key@, found, now_ms),
    {
        let doc = self.json_text(db_id, key, now_ms);
        Reply::Flag(doc.is_some() && found)
    }

    /// A document changed, or made where there is none.
    pub fn json_set(&mut self, db_id: u16, key: &[u8], changed: Result<String, MnemeError>, made: Result<String, MnemeError>, now_ms: u64) -> (r: Result<
        Reply,
        MnemeError,
    >)
        requires
            old(self).wf(),
        ensures
            final(self).wf(),
            (final(self)@, answer(r)) == old(self)@.json_set(db_id, key@, text_view(changed), text_view(made), now_ms),
    {
        proof {
            lemma_put_back(self@, db_key(db_id, key@));
        }
        if self.pool.is_full() {
            return Err(MnemeError::OutOfMemory);
        }
        let slot: u16 = Iris::slot_for(key);
        let k = make_db_key(db_id, key);
        match self.take(&k, now_ms) {
            Some(mut e) => {
                let r = match &e.value {
                    Value::Json(_) => match changed {
                        Ok(t) => {
                            e.value = Value::Json(JsonDoc { raw: t });
                            ok_str()
                        },
                        Err(x) => Err(x),
                    },
                    other => Err(MnemeError::WrongType { expected: "json", got: other.kind() }),
                };
                self.put(k, e);
                r
            },
            None => match made {
                Ok(t) => {
                    self.put(k, Entry::new(Value::Json(JsonDoc { raw: t }), slot));
                    ok_str()
                },
                Err(x) => Err(x),
            },
        }
    }

    fn json_change(&mut self, db_id: u16, key: &[u8], changed: Result<(String, Reply), MnemeError>, missing: Result<Reply, MnemeError>, now_ms: u64) -> (r: Result<
        Reply,
        MnemeError,
    >)
        requires
            old(self).wf(),
        ensures
            final(self).wf(),
            (final(self)@, answer(r)) == old(self)@.json_change(
                db_id,
                key@,
                match changed {
                    Ok((t, x)) => Ok((t@, x@)),
                    Err(x) => Err(x@),
                },
                answer(missing),
                now_ms,
            ),
    {
        proof {
            lemma_put_back(self@, db_key(db_id, key@));
        }
        let k = make_db_key(db_id, key);
        match self.take(&k, now_ms) {
            Some(mut e) => {
                let r = match &e.value {
                    Value::Json(_) => match changed {
                        Ok((t, said)) => {
                            e.value = Value::Json(JsonDoc { raw: t });
                            Ok(said)
                        },
                        Err(x) => Err(x),
                    },
                    other => Err(MnemeError::WrongType { expected: "json", got: other.kind() }),
                };
                self.put(k, e);
                r
            },
            None => missing,
        }
    }

    /// Something removed from a document: its new text, and whether there was
    /// anything to remove.
    pub fn json_del(&mut self, db_id: u16, key: &[u8], changed: Result<(String, bool), MnemeError>, now_ms: u64) -> (r: Result<
        Reply,
        MnemeError,
    >)
        requires
            old(self).wf(),
        ensures
            final(self).wf(),
            (final(self)@, answer(r)) == old(self)@.json_del(db_id, key@, pair_view(changed), now_ms),
    {
        let c: Result<(String, Reply), MnemeError> = match changed {
            Ok((t, b)) => Ok((t, Reply::Flag(b))),
            Err(x) => Err(x),
        };
        self.json_change(db_id, key, c, Ok(Reply::Flag(false)), now_ms)
    }

    /// An array of a document appended to: the document's new text.
    pub fn json_arr_append(&mut self, db_id: u16, key: &[u8], changed: Result<String, MnemeError>, now_ms: u64) -> (r: Result<
        Reply,
        MnemeError,
    >)
        requires
            old(self).wf(),
        ensures
            final(self).wf(),
            (final(self)@, answer(r)) == old(self)@.json_arr_append(db_id, key@, text_view(changed), now_ms),
    {
        let c: Result<(String, Reply), MnemeError> = match changed {
            Ok(t) => Ok((t, Reply::Text("OK".to_string()))),
            Err(x) => Err(x),
        };
        self.json_change(db_id, key, c, Err(MnemeError::KeyNotFound), now_ms)
    }

    /// A number of a document added to: the document's new text, and the bit
    /// pattern of the number.
    pub fn json_num_incrby(&mut self, db_id: u16, key: &[u8], changed: Result<(String, u64), MnemeError>, now_ms: u64) -> (r: Result<
        Reply,
        MnemeError,
    >)
        requires
            old(self).wf(),
        ensures
            final(self).wf(),
            (final(self)@, answer(r)) == old(self)@.json_num_incrby(db_id, key@, pair_view(changed), now_ms),
    {
        let c: Result<(String, Reply), MnemeError> = match changed {
            Ok((t, bits)) => Ok((t, Reply::Score(bits))),
            Err(x) => Err(x),
        };
        self.json_change(db_id, key, c, Err(MnemeError::KeyNotFound), now_ms)
    }

    /// What a floating-point number is to be added to.
    pub fn float_operand(&self, db_id: u16, key: &[u8], now_ms: u64) -> (r: FloatOperand)
        requires
            self.wf(),
        ensures
            match self@.live(db_key(db_id, key@), now_ms) {
                None => r is Missing,
                Some(e) => match e.value {
                    ValueView::Counter(n) => r == FloatOperand::Counter(n),
                    ValueView::String(b) => r matches FloatOperand::Text(t) && t@ == b,
                    _ => r is Other,
                },
            },
    {
        let k = make_db_key(db_id, key);
        match self.pool.get(&k, now_ms) {
            None => FloatOperand::Missing,
            Some(e) => match e.value {
                Value::Counter(n) => FloatOperand::Counter(n),
                Value::String(b) => FloatOperand::Text(b),
                _ => FloatOperand::Other,
            },
        }
    }

    /// A floating-point number added.
    pub fn incrbyfloat(&mut self, db_id: u16, key: &[u8], delta_bits: u64, delta_int: i64, sum: Option<FloatSum>, now_ms: u64) -> (r: Result<
        Reply,
        MnemeError,
    >)
        requires
            old(self).wf(),
        ensures
            final(self).wf(),
            (final(self)@, answer(r)) == old(self)@.incrbyfloat(db_id, key@, delta_bits, delta_int, sum_view(sum), now_ms),
    {
        proof {
            lemma_put_back(self@, db_key(db_id, key@));
        }
        let slot: u16 = Iris::slot_for(key);
        let k = make_db_key(db_id, key);
        match self.take(&k, now_ms) {
            Some(mut e) => {
                let got = e.value.kind();
                let r = match (&e.value, sum) {
                    (Value::String(_), Some(s)) => {
                        e.value = Value::String(s.text);
                        Ok(Reply::Score(s.bits))
                    },
                    (Value::Counter(_), Some(s)) => {
                        e.value = Value::Counter(s.int);
                        Ok(Reply::Score(s.bits))
                    },
                    _ => Err(MnemeError::WrongType { expected: "number", got }),
                };
                self.put(k, e);
                r
            },
            None => {
                self.put(k, Entry::new(Value::Counter(delta_int), slot));
                Ok(Reply::Score(delta_bits))
            },
        }
    }
}

/// What was appended stands last in the array.
pub proof fn law_appended_last(current: Seq<char>, value: Seq<char>)
    requires
        may_append(current),
        appended(current, value) is Ok,
    ensures
        appended(current, value)->Ok_0.last() == ']',
        appended(current, value)->Ok_0.drop_last().len() >= value.len(),
        appended(current, value)->Ok_0.drop_last().skip(
            appended(current, value)->Ok_0.len() - 1 - value.len(),
        ) == value,
{
    reveal_strlit("]");
    let r = appended(current, value)->Ok_0;
    assert(r.drop_last().skip(r.len() - 1 - value.len()) =~= value);
}

} // verus!
