//! Aoide is the write-ahead log of a keeper.
//!
//! A record is a header of 28 bytes (sequence number, expiry, key length, value
//! length and checksum, little-endian), the key, the value, and zeros up to a
//! multiple of 4096 bytes. Expiry 0 stands for never. Reading the log back
//! stops at the first place that holds no valid record.

use vstd::prelude::*;

use crate::bytes::copy_bytes;
use crate::codec::{
    get_le, law_le_round_trip, le_bytes, le_value, lemma_byte_ranges, lemma_le_len, lemma_le_zero,
    put_le,
};
use crate::text::{decimal, u64_text};

verus! {

pub const ENTRY_HEADER_SIZE: usize = 28;

pub const BLOCK_SIZE: usize = 4096;

/// The longest key that is read back.
pub const MAX_KEY_BYTES: usize = 512;

/// The longest value that is read back.
pub const MAX_VAL_BYTES: usize = 10485760;

/// One step of the checksum's shift register: shift right, and subtract the
/// mirrored generator polynomial 0x1edc6f41 when a one was shifted out.
pub open spec fn crc32c_bit(crc: u32) -> u32 {
    if crc & 1 != 0 {
        (crc >> 1) ^ 0x82f63b78
    } else {
        crc >> 1
    }
}

/// `n` steps of the shift register.
pub open spec fn crc32c_bits(crc: u32, n: nat) -> u32
    decreases n,
{
    if n == 0 {
        crc
    } else {
        crc32c_bit(crc32c_bits(crc, (n - 1) as nat))
    }
}

/// The register after all of `data`, starting from all ones: each byte enters
/// at the bottom and is followed by eight steps.
pub open spec fn crc32c_register(data: Seq<u8>) -> u32
    decreases data.len(),
{
    if data.len() == 0 {
        0xffff_ffff
    } else {
        crc32c_bits(crc32c_register(data.drop_last()) ^ (data.last() as u32), 8)
    }
}

/// The CRC-32C checksum of bytes: the register, inverted.
#[verifier::opaque]
pub open spec fn crc32c_of(data: Seq<u8>) -> u32 {
    crc32c_register(data) ^ 0xffff_ffff
}

/// The checksum of bytes from the crate `crc` with the algorithm
/// `CRC_32_ISCSI`: polynomial 0x1edc6f41, mirrored, from all ones and
/// inverted at the end.
#[verifier::external_body]
fn crc32c(data: &[u8]) -> (r: u32)
    ensures
        r == crc32c_of(data@),
{
    crc::Crc::<u32>::new(&crc::CRC_32_ISCSI).checksum(data)
}

/// `n` rounded up to a multiple of `align`.
pub open spec fn rounded_up(n: int, align: int) -> int {
    (n + align - 1) / align * align
}

/// `n` rounded up to a multiple of the block size.
pub open spec fn align_up_spec(n: int) -> int {
    rounded_up(n, 4096)
}

/// The bytes that a record takes in the log.
pub open spec fn record_span(key_len: nat, val_len: nat) -> int {
    align_up_spec((28 + key_len + val_len) as int)
}

/// The least multiple of `align` that is not below `n`.
pub fn align_up(n: u128, align: u128) -> (r: u128)
    requires
        align > 0,
        n + align - 1 <= u128::MAX,
    ensures
        r == rounded_up(n as int, align as int),
        r % align == 0,
        n <= r < n + align,
{
    let k: u128 = (n + (align - 1)) / align;
    proof {
        let a = align as int;
        let x = n + (align - 1);
        vstd::arithmetic::div_mod::lemma_fundamental_div_mod(x, a);
        vstd::arithmetic::mul::lemma_mul_is_commutative(a, x / a);
        vstd::arithmetic::div_mod::lemma_mod_multiples_basic(x / a, a);
        assert(0 <= (x / a) * a <= x);
    }
    k * align
}

/// A record of the log.
#[derive(Debug)]
pub struct WalRecord {
    pub seq: u64,
    pub expires_at_ms: u64,
    pub key: Vec<u8>,
    pub value: Vec<u8>,
}

/// What a record of the log says.
pub struct WalView {
    pub seq: u64,
    pub expires_at_ms: u64,
    pub key: Seq<u8>,
    pub value: Seq<u8>,
}

impl View for WalRecord {
    type V = WalView;

    open spec fn view(&self) -> WalView {
        WalView {
            seq: self.seq,
            expires_at_ms: self.expires_at_ms,
            key: self.key@,
            value: self.value@,
        }
    }
}

/// What a list of records says.
pub open spec fn wal_views(s: Seq<WalRecord>) -> Seq<WalView> {
    s.map_values(|r: WalRecord| r@)
}

impl WalView {
    /// Bytes of the record without padding.
    pub open spec fn size(self) -> int {
        (28 + self.key.len() + self.value.len()) as int
    }

    /// The header.
    pub open spec fn header(self) -> Seq<u8> {
        le_bytes(self.seq as nat, 8) + le_bytes(self.expires_at_ms as nat, 8) + le_bytes(self.key.len(), 4) + le_bytes(
            self.value.len(),
            4,
        ) + le_bytes(crc32c_of(self.key + self.value) as nat, 4)
    }

    /// The bytes that stand for the record in the log.
    pub open spec fn bytes(self) -> Seq<u8> {
        self.header() + self.key + self.value + Seq::new(
            (align_up_spec(self.size()) - self.size()) as nat,
            |i: int| 0u8,
        )
    }

    /// The record is one that can be read back: its lengths stay within the
    /// limits, and it does not look like the end of the log.
    pub open spec fn readable(self) -> bool {
        &&& self.key.len() <= MAX_KEY_BYTES
        &&& self.value.len() <= MAX_VAL_BYTES
        &&& !(self.seq == 0 && self.key.len() == 0)
    }
}

/// The sequence number in the header at a place of the log.
pub open spec fn seq_at(log: Seq<u8>, o: int) -> nat {
    le_value(log.subrange(o, o + 8))
}

/// The expiry in the header at a place of the log.
pub open spec fn expiry_at(log: Seq<u8>, o: int) -> nat {
    le_value(log.subrange(o + 8, o + 16))
}

/// The key length in the header at a place of the log.
pub open spec fn key_len_at(log: Seq<u8>, o: int) -> nat {
    le_value(log.subrange(o + 16, o + 20))
}

/// The value length in the header at a place of the log.
pub open spec fn val_len_at(log: Seq<u8>, o: int) -> nat {
    le_value(log.subrange(o + 20, o + 24))
}

/// The checksum in the header at a place of the log.
pub open spec fn crc_at(log: Seq<u8>, o: int) -> nat {
    le_value(log.subrange(o + 24, o + 28))
}

/// The bytes that the record at a place takes in the log.
pub open spec fn span_at(log: Seq<u8>, o: int) -> int {
    record_span(key_len_at(log, o), val_len_at(log, o))
}

/// What stands at a place of the log.
#[derive(Debug, Clone, Copy, PartialEq, Eq, Structural)]
pub enum Found {
    /// A valid record.
    Record,
    /// Nothing more to read: no record, a damaged one, or one that the log ends
    /// within.
    End,
}

/// What stands at place `o` of the log.
pub open spec fn found_at(log: Seq<u8>, o: int) -> Found {
    if o + 28 > log.len() {
        Found::End
    } else if seq_at(log, o) == 0 && key_len_at(log, o) == 0 {
        Found::End
    } else if key_len_at(log, o) > MAX_KEY_BYTES || val_len_at(log, o) > MAX_VAL_BYTES {
        Found::End
    } else if o + span_at(log, o) > log.len() {
        Found::End
    } else if crc32c_of(log.subrange(o + 28, o + 28 + key_len_at(log, o) + val_len_at(log, o))) != crc_at(log, o) {
        Found::End
    } else {
        Found::Record
    }
}

/// The record at place `o` of the log.
pub open spec fn record_at(log: Seq<u8>, o: int) -> WalView {
    let k = key_len_at(log, o);
    let v = val_len_at(log, o);
    WalView {
        seq: seq_at(log, o) as u64,
        expires_at_ms: expiry_at(log, o) as u64,
        key: log.subrange(o + 28, o + 28 + k),
        value: log.subrange(o + 28 + k, o + 28 + k + v),
    }
}

/// The records of the log from place `o` on, and what ended them.
pub open spec fn replayed_from(log: Seq<u8>, o: int) -> (Seq<WalView>, Found)
    decreases log.len() - o,
{
    if found_at(log, o) == Found::Record && o >= 0 && span_at(log, o) > 0 {
        let (rest, end) = replayed_from(log, o + span_at(log, o));
        (seq![record_at(log, o)] + rest, end)
    } else {
        (Seq::empty(), found_at(log, o))
    }
}

/// Where the next record would be written, going by the headers alone.
pub open spec fn end_from(log: Seq<u8>, o: int) -> int
    decreases
            (if o < log.len() {
                log.len() - o
            } else {
                0
            }),
{
    if o < 0 || o + 28 > log.len() || (seq_at(log, o) == 0 && key_len_at(log, o) == 0) || span_at(log, o) <= 0 {
        o
    } else {
        end_from(log, o + span_at(log, o))
    }
}

/// The bytes of records, one behind the other.
pub open spec fn log_of(rs: Seq<WalView>) -> Seq<u8>
    decreases rs.len(),
{
    if rs.len() == 0 {
        Seq::empty()
    } else {
        log_of(rs.drop_last()) + rs.last().bytes()
    }
}

proof fn lemma_header(r: WalView)
    ensures
        r.header().len() == 28,
        r.header().subrange(0, 8) == le_bytes(r.seq as nat, 8),
        r.header().subrange(8, 16) == le_bytes(r.expires_at_ms as nat, 8),
        r.header().subrange(16, 20) == le_bytes(r.key.len(), 4),
        r.header().subrange(20, 24) == le_bytes(r.value.len(), 4),
        r.header().subrange(24, 28) == le_bytes(crc32c_of(r.key + r.value) as nat, 4),
{
    let crc = crc32c_of(r.key + r.value);
    lemma_le_len(r.seq as nat, 8);
    lemma_le_len(r.expires_at_ms as nat, 8);
    lemma_le_len(r.key.len(), 4);
    lemma_le_len(r.value.len(), 4);
    lemma_le_len(crc as nat, 4);
    let h = r.header();
    assert(h.subrange(0, 8) =~= le_bytes(r.seq as nat, 8));
    assert(h.subrange(8, 16) =~= le_bytes(r.expires_at_ms as nat, 8));
    assert(h.subrange(16, 20) =~= le_bytes(r.key.len(), 4));
    assert(h.subrange(20, 24) =~= le_bytes(r.value.len(), 4));
    assert(h.subrange(24, 28) =~= le_bytes(crc as nat, 4));
}

proof fn lemma_align(n: int)
    requires
        n >= 0,
    ensures
        n <= align_up_spec(n) < n + 4096,
        align_up_spec(n) % 4096 == 0,
{
}

/// A record that was written at a place is found there.
proof fn lemma_record_found(a: Seq<u8>, r: WalView, b: Seq<u8>)
    requires
        r.readable(),
    ensures
        found_at(a + r.bytes() + b, a.len() as int) == Found::Record,
        span_at(a + r.bytes() + b, a.len() as int) == r.bytes().len(),
        r.bytes().len() == align_up_spec(r.size()),
        r.bytes().len() > 0,
        record_at(a + r.bytes() + b, a.len() as int) == r,
{
    let log = a + r.bytes() + b;
    let o = a.len() as int;
    lemma_byte_ranges();
    law_le_round_trip(r.seq as nat, 8);
    law_le_round_trip(r.expires_at_ms as nat, 8);
    law_le_round_trip(r.key.len(), 4);
    law_le_round_trip(r.value.len(), 4);
    law_le_round_trip(crc32c_of(r.key + r.value) as nat, 4);
    lemma_header(r);
    lemma_align(r.size());
    let h = r.header();
    assert(log.subrange(o, o + 8) =~= h.subrange(0, 8));
    assert(log.subrange(o + 8, o + 16) =~= h.subrange(8, 16));
    assert(log.subrange(o + 16, o + 20) =~= h.subrange(16, 20));
    assert(log.subrange(o + 20, o + 24) =~= h.subrange(20, 24));
    assert(log.subrange(o + 24, o + 28) =~= h.subrange(24, 28));
    let k = r.key.len() as int;
    let v = r.value.len() as int;
    assert(key_len_at(log, o) == k);
    assert(val_len_at(log, o) == v);
    assert(log.subrange(o + 28, o + 28 + k + v) =~= r.key + r.value);
    assert(log.subrange(o + 28, o + 28 + k) =~= r.key);
    assert(log.subrange(o + 28 + k, o + 28 + k + v) =~= r.value);
}

proof fn lemma_replay_at(a: Seq<u8>, rs: Seq<WalView>, tail: Seq<u8>)
    requires
        forall|i: int| 0 <= i < rs.len() ==> (#[trigger] rs[i]).readable(),
    ensures
        replayed_from(a + log_of(rs) + tail, a.len() as int) == (
            rs + replayed_from(a + log_of(rs) + tail, (a + log_of(rs)).len() as int).0,
            replayed_from(a + log_of(rs) + tail, (a + log_of(rs)).len() as int).1,
        ),
        end_from(a + log_of(rs) + tail, a.len() as int) == end_from(
            a + log_of(rs) + tail,
            (a + log_of(rs)).len() as int,
        ),
    decreases rs.len(),
{
    let log = a + log_of(rs) + tail;
    if rs.len() == 0 {
        assert(a + log_of(rs) =~= a);
        assert(rs + replayed_from(log, a.len() as int).0 =~= replayed_from(log, a.len() as int).0);
    } else {
        let t = rs.drop_last();
        let r = rs.last();
        let mid = a + log_of(t);
        assert(a + log_of(rs) =~= mid + r.bytes());
        let tail2 = r.bytes() + tail;
        assert(log =~= a + log_of(t) + tail2);
        assert forall|i: int| 0 <= i < t.len() implies (#[trigger] t[i]).readable() by {
            assert(rs[i].readable());
        }
        lemma_replay_at(a, t, tail2);
        assert(rs[rs.len() - 1].readable());
        lemma_record_found(mid, r, tail);
        assert(log =~= mid + r.bytes() + tail);
        let o = mid.len() as int;
        let o2 = o + r.bytes().len();
        assert(replayed_from(log, o) == (seq![record_at(log, o)] + replayed_from(log, o2).0, replayed_from(log, o2).1));
        assert(t + (seq![r] + replayed_from(log, o2).0) =~= rs + replayed_from(log, o2).0);
        assert(!(seq_at(log, o) == 0 && key_len_at(log, o) == 0));
        assert(end_from(log, o) == end_from(log, o2));
    }
}

/// Reading a log back gives the records that were written, in order, provided
/// that what follows them does not look like another record; and the next
/// record goes behind them.
pub proof fn law_replay_gives_back(rs: Seq<WalView>, tail: Seq<u8>)
    requires
        forall|i: int| 0 <= i < rs.len() ==> (#[trigger] rs[i]).readable(),
        tail.len() < 28 || (seq_at(tail, 0) == 0 && key_len_at(tail, 0) == 0),
    ensures
        replayed_from(log_of(rs) + tail, 0) == (rs, Found::End),
        end_from(log_of(rs) + tail, 0) == log_of(rs).len(),
{
    let a = Seq::<u8>::empty();
    lemma_replay_at(a, rs, tail);
    let log = log_of(rs) + tail;
    assert(a + log_of(rs) + tail =~= log);
    assert(a + log_of(rs) =~= log_of(rs));
    let o = log_of(rs).len() as int;
    if tail.len() >= 28 {
        assert(log.subrange(o, o + 8) =~= tail.subrange(0, 8));
        assert(log.subrange(o + 16, o + 20) =~= tail.subrange(16, 20));
    }
    assert(rs + Seq::<WalView>::empty() =~= rs);
}

/// Reading a log back stops at the first record that is damaged, whose lengths
/// are out of range, or that the log ends within, and gives the records before
/// it.
pub proof fn law_replay_stops_at_damage(rs: Seq<WalView>, tail: Seq<u8>)
    requires
        forall|i: int| 0 <= i < rs.len() ==> (#[trigger] rs[i]).readable(),
        found_at(log_of(rs) + tail, log_of(rs).len() as int) == Found::End,
    ensures
        replayed_from(log_of(rs) + tail, 0) == (rs, Found::End),
{
    lemma_replay_at(Seq::empty(), rs, tail);
    assert(Seq::<u8>::empty() + log_of(rs) + tail =~= log_of(rs) + tail);
    assert(Seq::<u8>::empty() + log_of(rs) =~= log_of(rs));
    assert(rs + Seq::<WalView>::empty() =~= rs);
}

/// Space that was set aside but not written reads as the end of the log.
pub proof fn law_zeros_end_the_log(n: nat)
    ensures
        replayed_from(Seq::new(n, |i: int| 0u8), 0) == (Seq::<WalView>::empty(), Found::End),
        end_from(Seq::new(n, |i: int| 0u8), 0) == 0,
{
    let log = Seq::new(n, |i: int| 0u8);
    if n >= 28 {
        lemma_le_zero(log.subrange(0, 8));
        lemma_le_zero(log.subrange(16, 20));
    }
}

/// A record that does not fit into the log.
#[derive(Debug, Clone, Copy, PartialEq, Eq, Structural)]
pub struct WalFull {
    pub offset: u64,
    pub max_bytes: u64,
}

impl WalFull {
    /// The text of the error.
    pub open spec fn text(self) -> Seq<char> {
        "WAL full: offset="@ + decimal(self.offset as nat) + " max="@ + decimal(self.max_bytes as nat)
    }

    /// The text of the error.
    pub fn message(self) -> (r: String)
        ensures
            r@ == self.text(),
    {
        let mut s = "WAL full: offset=".to_string();
        s.append(u64_text(self.offset).as_str());
        s.append(" max=");
        s.append(u64_text(self.max_bytes).as_str());
        s
    }
}

/// The bytes of a record, padded to whole blocks.
pub fn record_bytes(seq: u64, expires_at_ms: u64, key: &[u8], value: &[u8]) -> (r: Vec<u8>)
    requires
        record_span(key@.len(), value@.len()) <= usize::MAX,
    ensures
        r@ == (WalView { seq, expires_at_ms, key: key@, value: value@ }).bytes(),
        r@.len() == record_span(key@.len(), value@.len()),
{
    let ghost rec = WalView { seq, expires_at_ms, key: key@, value: value@ };
    let mut body: Vec<u8> = copy_bytes(key);
    let mut tail: Vec<u8> = copy_bytes(value);
    body.append(&mut tail);
    let crc = crc32c(body.as_slice());
    let mut out: Vec<u8> = Vec::new();
    put_le(&mut out, seq, 8);
    put_le(&mut out, expires_at_ms, 8);
    put_le(&mut out, key.len() as u64, 4);
    put_le(&mut out, value.len() as u64, 4);
    put_le(&mut out, crc as u64, 4);
    proof {
        lemma_header(rec);
        lemma_align(rec.size());
    }
    assert(out@ =~= rec.header());
    out.append(&mut body);
    assert(out@ =~= rec.header() + rec.key + rec.value);
    let size: usize = out.len();
    let total: usize = align_up(size as u128, BLOCK_SIZE as u128) as usize;
    while out.len() < total
        invariant
            size <= out@.len() <= total,
            rec.size() == size,
            total == align_up_spec(rec.size()),
            out@ == rec.header() + rec.key + rec.value + Seq::new((out@.len() - size) as nat, |i: int| 0u8),
        decreases total - out@.len(),
    {
        let ghost before = out@;
        out.push(0);
        assert(out@ =~= rec.header() + rec.key + rec.value + Seq::new((out@.len() - size) as nat, |i: int| 0u8));
    }
    out
}

/// What stands at a place of the log.
fn find(log: &[u8], o: usize) -> (r: Found)
    requires
        o <= log@.len(),
    ensures
        r == found_at(log@, o as int),
{
    let total: usize = log.len();
    if total - o < ENTRY_HEADER_SIZE {
        return Found::End;
    }
    let seq = get_le(log, o, 8);
    let key_len = get_le(log, o + 16, 4) as usize;
    let val_len = get_le(log, o + 20, 4) as usize;
    let crc = get_le(log, o + 24, 4);
    proof {
        lemma_byte_ranges();
    }
    if seq == 0 && key_len == 0 {
        return Found::End;
    }
    if key_len > MAX_KEY_BYTES || val_len > MAX_VAL_BYTES {
        return Found::End;
    }
    let size: usize = ENTRY_HEADER_SIZE + key_len + val_len;
    let span: usize = align_up(size as u128, BLOCK_SIZE as u128) as usize;
    proof {
        lemma_align(size as int);
    }
    if total - o < span {
        return Found::End;
    }
    let body = vstd::slice::slice_subrange(log, o + ENTRY_HEADER_SIZE, o + size);
    if crc32c(body) as u64 != crc {
        Found::End
    } else {
        Found::Record
    }
}

/// Reads the records of a log in order, up to the first place that holds no
/// whole record with the right checksum. The second part says that they ended
/// there.
pub fn replay(log: &[u8]) -> (r: (Vec<WalRecord>, Found))
    ensures
        wal_views(r.0@) == replayed_from(log@, 0).0,
        r.1 == replayed_from(log@, 0).1,
        r.1 == Found::End,
{
    let mut out: Vec<WalRecord> = Vec::new();
    let mut o: usize = 0;
    let mut found = find(log, o);
    proof {
        assert(wal_views(out@) + replayed_from(log@, 0).0 =~= replayed_from(log@, 0).0);
    }
    while found == Found::Record
        invariant
            o <= log@.len(),
            found == found_at(log@, o as int),
            replayed_from(log@, 0).0 == wal_views(out@) + replayed_from(log@, o as int).0,
            replayed_from(log@, 0).1 == replayed_from(log@, o as int).1,
        decreases log@.len() - o,
    {
        let total: usize = log.len();
        let seq = get_le(log, o, 8);
        let expires_at_ms = get_le(log, o + 8, 8);
        let key_len = get_le(log, o + 16, 4) as usize;
        let val_len = get_le(log, o + 20, 4) as usize;
        proof {
            lemma_byte_ranges();
        }
        let size: usize = ENTRY_HEADER_SIZE + key_len + val_len;
        let span: usize = align_up(size as u128, BLOCK_SIZE as u128) as usize;
        proof {
            lemma_align(size as int);
        }
        let k0: usize = o + ENTRY_HEADER_SIZE;
        let key = copy_bytes(vstd::slice::slice_subrange(log, k0, k0 + key_len));
        let value = copy_bytes(vstd::slice::slice_subrange(log, k0 + key_len, k0 + key_len + val_len));
        let ghost before = out@;
        let record = WalRecord { seq, expires_at_ms, key, value };
        proof {
            assert(record@ == record_at(log@, o as int));
        }
        out.push(record);
        proof {
            let next = replayed_from(log@, o + span);
            assert(replayed_from(log@, o as int) == (seq![record_at(log@, o as int)] + next.0, next.1));
            assert(wal_views(out@) =~= wal_views(before).push(record_at(log@, o as int)));
            assert(wal_views(out@) + next.0 =~= wal_views(before) + (seq![record_at(log@, o as int)] + next.0));
        }
        o = o + span;
        found = find(log, o);
    }
    proof {
        assert(wal_views(out@) + Seq::<WalView>::empty() =~= wal_views(out@));
    }
    (out, found)
}

/// Where the next record goes, going by the headers alone.
pub fn find_end_offset(log: &[u8]) -> (r: u64)
    requires
        log@.len() <= i64::MAX,
    ensures
        r == end_from(log@, 0),
{
    let len: usize = log.len();
    let total: u64 = len as u64;
    let mut o: u64 = 0;
    while o <= total && total - o >= ENTRY_HEADER_SIZE as u64
        invariant_except_break
            end_from(log@, 0) == end_from(log@, o as int),
        invariant
            total == len,
            len == log@.len(),
            total <= i64::MAX,
            o <= total + 0x3_0000_0000,
        ensures
            end_from(log@, 0) == o,
        decreases total + 0x3_0000_0000 - o,
    {
        let at: usize = o as usize;
        let seq = get_le(log, at, 8);
        let key_len = get_le(log, at + 16, 4);
        let val_len = get_le(log, at + 20, 4);
        proof {
            lemma_byte_ranges();
        }
        if seq == 0 && key_len == 0 {
            break;
        }
        let size: u64 = ENTRY_HEADER_SIZE as u64 + key_len + val_len;
        proof {
            lemma_align(size as int);
        }
        o = o + align_up(size as u128, BLOCK_SIZE as u128) as u64;
    }
    o
}

/// The write position in the log. The file itself lives outside: a record is
/// first turned into bytes, and the position moves on once they are written.
#[derive(Debug, Clone, Copy, PartialEq, Eq, Structural)]
pub struct Aoide {
    pub offset: u64,
    pub max_bytes: u64,
}

impl Aoide {
    /// Starts behind the records that a log already holds.
    pub fn open(log: &[u8], max_bytes: u64) -> (r: Aoide)
        requires
            log@.len() <= i64::MAX,
        ensures
            r.offset == end_from(log@, 0),
            r.max_bytes == max_bytes,
    {
        Aoide { offset: find_end_offset(log), max_bytes }
    }

    /// Space is set aside for a file that is still shorter than the limit.
    pub fn wants_space(&self, file_len: u64) -> (r: bool)
        ensures
            r == (file_len < self.max_bytes),
    {
        file_len < self.max_bytes
    }

    /// The bytes of a record for the current position, and the position.
    /// Refused when they would not fit below the limit.
    pub fn append(&self, seq: u64, expires_at_ms: u64, key: &[u8], value: &[u8]) -> (r: Result<(u64, Vec<u8>), WalFull>)
        requires
            record_span(key@.len(), value@.len()) <= usize::MAX,
        ensures
            r is Err <==> self.offset + record_span(key@.len(), value@.len()) > self.max_bytes,
            r matches Ok(w) ==> w.0 == self.offset && w.1@ == (WalView {
                seq,
                expires_at_ms,
                key: key@,
                value: value@,
            }).bytes() && self.offset + w.1@.len() <= self.max_bytes,
            r matches Err(e) ==> e == (WalFull { offset: self.offset, max_bytes: self.max_bytes }),
    {
        let size: u128 = ENTRY_HEADER_SIZE as u128 + key.len() as u128 + value.len() as u128;
        let span: u128 = align_up(size, BLOCK_SIZE as u128);
        if self.offset as u128 + span > self.max_bytes as u128 {
            Err(WalFull { offset: self.offset, max_bytes: self.max_bytes })
        } else {
            Ok((self.offset, record_bytes(seq, expires_at_ms, key, value)))
        }
    }

    /// The bytes of a record have been written at the current position.
    pub fn written(&mut self, len: u64)
        requires
            old(self).offset + len <= u64::MAX,
        ensures
            final(self).offset == old(self).offset + len,
            final(self).max_bytes == old(self).max_bytes,
    {
        self.offset = self.offset + len;
    }

    pub fn offset(&self) -> (r: u64)
        ensures
            r == self.offset,
    {
        self.offset
    }

    /// At least `percent` of the log is in use. A log without room counts as
    /// in use once anything was written to it.
    pub fn needs_rotation(&self, percent: u64) -> (r: bool)
        ensures
            r == if self.max_bytes == 0 {
                self.offset > 0
            } else {
                self.offset * 100 >= percent * self.max_bytes
            },
            r == is_filled(self.offset, self.max_bytes, percent),
    {
        if self.max_bytes == 0 {
            self.offset > 0
        } else {
            proof {
                assert(percent * self.max_bytes <= 0xffff_ffff_ffff_ffff * 0xffff_ffff_ffff_ffff) by (nonlinear_arith)
                    requires
                        percent <= 0xffff_ffff_ffff_ffff,
                        self.max_bytes <= 0xffff_ffff_ffff_ffff,
                ;
            }
            self.offset as u128 * 100 >= percent as u128 * self.max_bytes as u128
        }
    }
}

/// A record that was appended to a log and written at the end of it is read
/// back last, and the next one goes behind it.
pub proof fn law_append_then_replay(rs: Seq<WalView>, r: WalView, tail: Seq<u8>)
    requires
        forall|i: int| 0 <= i < rs.len() ==> (#[trigger] rs[i]).readable(),
        r.readable(),
        tail.len() < 28 || (seq_at(tail, 0) == 0 && key_len_at(tail, 0) == 0),
    ensures
        replayed_from(log_of(rs) + r.bytes() + tail, 0) == (rs.push(r), Found::End),
        end_from(log_of(rs) + r.bytes() + tail, 0) == log_of(rs).len() + r.bytes().len(),
{
    assert(rs.push(r).drop_last() =~= rs);
    law_replay_gives_back(rs.push(r), tail);
}

/// Where things stand in a record of the log: its number and its end in eight
/// bytes each, the lengths of key and value and the checksum of both in four
/// each, then key and value, and zeros up to a multiple of 4096.
pub proof fn law_record_layout(r: WalView)
    ensures
        ({
            let b = r.bytes();
            let k = r.key.len() as int;
            let v = r.value.len() as int;
            &&& b.len() % 4096 == 0
            &&& 28 + k + v <= b.len() < 28 + k + v + 4096
            &&& b.subrange(0, 8) == le_bytes(r.seq as nat, 8)
            &&& b.subrange(8, 16) == le_bytes(r.expires_at_ms as nat, 8)
            &&& b.subrange(16, 20) == le_bytes(r.key.len(), 4)
            &&& b.subrange(20, 24) == le_bytes(r.value.len(), 4)
            &&& b.subrange(24, 28) == le_bytes(crc32c_of(r.key + r.value) as nat, 4)
            &&& b.subrange(28, 28 + k) == r.key
            &&& b.subrange(28 + k, 28 + k + v) == r.value
            &&& forall|i: int| 28 + k + v <= i < b.len() ==> b[i] == 0
        }),
        r.readable() <==> r.key.len() <= 512 && r.value.len() <= 10 * 1024 * 1024 && (r.seq != 0 || r.key.len() > 0),
{
    lemma_le_len(r.seq as nat, 8);
    lemma_le_len(r.expires_at_ms as nat, 8);
    lemma_le_len(r.key.len(), 4);
    lemma_le_len(r.value.len(), 4);
    lemma_le_len(crc32c_of(r.key + r.value) as nat, 4);
    let b = r.bytes();
    let k = r.key.len() as int;
    let v = r.value.len() as int;
    assert(r.header().len() == 28);
    assert(b.subrange(0, 8) =~= le_bytes(r.seq as nat, 8));
    assert(b.subrange(8, 16) =~= le_bytes(r.expires_at_ms as nat, 8));
    assert(b.subrange(16, 20) =~= le_bytes(r.key.len(), 4));
    assert(b.subrange(20, 24) =~= le_bytes(r.value.len(), 4));
    assert(b.subrange(24, 28) =~= le_bytes(crc32c_of(r.key + r.value) as nat, 4));
    assert(b.subrange(28, 28 + k) =~= r.key);
    assert(b.subrange(28 + k, 28 + k + v) =~= r.value);
}

/// At least `percent` of a log of `max` bytes is in use.
pub open spec fn is_filled(offset: u64, max: u64, percent: u64) -> bool {
    if max == 0 {
        offset > 0
    } else {
        offset * 100 >= percent * max
    }
}

/// A log is filled by a hundred percent when it is full, and not before, and
/// stays filled as it grows. An empty one with room is filled by no percent but
/// zero.
pub proof fn law_filled_by_percent(offset: u64, max: u64, percent: u64, later: u64)
    requires
        max > 0,
    ensures
        is_filled(offset, max, 100) <==> offset >= max,
        is_filled(offset, max, percent) && offset <= later ==> is_filled(later, max, percent),
        is_filled(0, max, percent) <==> percent == 0,
        is_filled(offset, 0, percent) <==> offset > 0,
{
    assert(100 * max == max * 100);
    if percent > 0 {
        assert(percent * max > 0) by (nonlinear_arith)
            requires
                percent > 0,
                max > 0,
        ;
    } else {
        assert(percent * max == 0) by (nonlinear_arith)
            requires
                percent == 0,
        ;
    }
}

} // verus!
