//! Oneiros is the cold store of a keeper: which of its rows are still good,
//! and how a row is packed for the disk.

use vstd::prelude::*;

use crate::bytes::{copy_bytes, views};
use crate::store::recovered_views;
use crate::value::{Value, ValueView};

verus! {

/// What a frame of compressed data holds; none where it is damaged.
pub uninterp spec fn unzstd_of(data: Seq<u8>) -> Option<Seq<u8>>;

/// Compresses bytes with the crate `zstd` at a level (`zstd::encode_all`). What
/// comes out is not described, except that it holds the bytes that went in. No
/// bytes come out where the compressor reports an error.
#[verifier::external_body]
fn zstd_encode(data: &[u8], level: i32) -> (r: Option<Vec<u8>>)
    ensures
        r matches Some(c) ==> unzstd_of(c@) == Some(data@),
{
    zstd::encode_all(data, level).ok()
}

/// Decompresses bytes with the crate `zstd` (`zstd::decode_all`). What comes
/// out depends on the bytes alone; nothing comes out of damaged ones.
#[verifier::external_body]
fn zstd_decode(data: &[u8]) -> (r: Option<Vec<u8>>)
    ensures
        match unzstd_of(data@) {
            Some(d) => r matches Some(x) && x@ == d,
            None => r is None,
        },
{
    zstd::decode_all(data).ok()
}

/// Why a row cannot be packed or unpacked.
#[derive(Debug, Clone, Copy, PartialEq, Eq, Structural)]
pub enum ColdError {
    Compress,
    Decompress,
}

impl ColdError {
    pub open spec fn text(self) -> Seq<char> {
        match self {
            ColdError::Compress => "Oneiros compress"@,
            ColdError::Decompress => "Oneiros decompress"@,
        }
    }

    pub fn message(self) -> (r: &'static str)
        ensures
            r@ == self.text(),
    {
        match self {
            ColdError::Compress => "Oneiros compress",
            ColdError::Decompress => "Oneiros decompress",
        }
    }
}

/// The level that rows are compressed at.
pub const COMPRESSION_LEVEL: i32 = 3;

/// Packs the bytes of a row for the disk. Unpacking gives them back.
pub fn pack(record: &[u8]) -> (r: Result<Vec<u8>, ColdError>)
    ensures
        match r {
            Ok(p) => unzstd_of(p@) == Some(record@),
            Err(e) => e == ColdError::Compress,
        },
{
    match zstd_encode(record, COMPRESSION_LEVEL) {
        Some(p) => Ok(p),
        None => Err(ColdError::Compress),
    }
}

/// The bytes of a row that was packed for the disk.
pub fn unpack(packed: &[u8]) -> (r: Result<Vec<u8>, ColdError>)
    ensures
        match unzstd_of(packed@) {
            Some(d) => r matches Ok(x) && x@ == d,
            None => r == Err::<Vec<u8>, ColdError>(ColdError::Decompress),
        },
{
    match zstd_decode(packed) {
        Some(d) => Ok(d),
        None => Err(ColdError::Decompress),
    }
}

/// The time of a row is over.
pub open spec fn stale(expires_at_ms: u64, now: u64) -> bool {
    expires_at_ms != 0 && expires_at_ms <= now
}

/// Whether the time of a row is over.
pub fn is_stale(expires_at_ms: u64, now_ms: u64) -> (r: bool)
    ensures
        r == stale(expires_at_ms, now_ms),
{
    expires_at_ms != 0 && expires_at_ms <= now_ms
}

/// The value of a row that was found, unless its time is over.
pub fn visible(found: Option<(Value, u64, u16)>, now_ms: u64) -> (r: Option<Value>)
    ensures
        match found {
            Some((v, at, _)) => if stale(at, now_ms) {
                r is None
            } else {
                r matches Some(x) && x@ == v@
            },
            None => r is None,
        },
{
    match found {
        None => None,
        Some((v, at, _slot)) => if is_stale(at, now_ms) {
            None
        } else {
            Some(v)
        },
    }
}

/// The rows whose time is not over, in order.
pub open spec fn live_rows(s: Seq<(Seq<u8>, ValueView, u64, u16)>, now: u64) -> Seq<(Seq<u8>, ValueView, u64, u16)> {
    s.filter(|r: (Seq<u8>, ValueView, u64, u16)| !stale(r.2, now))
}

/// The rows whose time is over, in order.
pub open spec fn stale_rows(s: Seq<(Seq<u8>, ValueView, u64, u16)>, now: u64) -> Seq<(Seq<u8>, ValueView, u64, u16)> {
    s.filter(|r: (Seq<u8>, ValueView, u64, u16)| stale(r.2, now))
}

/// The keys of rows.
pub open spec fn row_keys(s: Seq<(Seq<u8>, ValueView, u64, u16)>) -> Seq<Seq<u8>> {
    s.map_values(|r: (Seq<u8>, ValueView, u64, u16)| r.0)
}

/// The rows whose time is not over, in order.
pub fn scan(rows: Vec<(Vec<u8>, Value, u64, u16)>, now_ms: u64) -> (r: Vec<(Vec<u8>, Value, u64, u16)>)
    ensures
        recovered_views(r@) == live_rows(recovered_views(rows@), now_ms),
{
    let ghost all = recovered_views(rows@);
    let ghost keep = |r: (Seq<u8>, ValueView, u64, u16)| !stale(r.2, now_ms);
    let mut out: Vec<(Vec<u8>, Value, u64, u16)> = Vec::new();
    let mut i: usize = 0;
    assert(recovered_views(out@) =~= all.take(0).filter(keep));
    while i < rows.len()
        invariant
            i <= rows@.len(),
            all == recovered_views(rows@),
            keep == (|r: (Seq<u8>, ValueView, u64, u16)| !stale(r.2, now_ms)),
            recovered_views(out@) == all.take(i as int).filter(keep),
        decreases rows@.len() - i,
    {
        proof {
            assert(all.take(i + 1) =~= all.take(i as int).push(all[i as int]));
            all.take(i as int).lemma_filter_push(all[i as int], keep);
        }
        if !is_stale(rows[i].2, now_ms) {
            let ghost before = out@;
            out.push((copy_bytes(&rows[i].0), rows[i].1.clone(), rows[i].2, rows[i].3));
            assert(recovered_views(out@) =~= recovered_views(before).push(all[i as int]));
        }
        i = i + 1;
    }
    assert(all.take(i as int) =~= all);
    out
}

/// The keys of the rows whose time is over, in order.
pub fn expired_keys(rows: &Vec<(Vec<u8>, Value, u64, u16)>, now_ms: u64) -> (r: Vec<Vec<u8>>)
    ensures
        views(r@) == row_keys(stale_rows(recovered_views(rows@), now_ms)),
{
    let ghost all = recovered_views(rows@);
    let ghost drop = |r: (Seq<u8>, ValueView, u64, u16)| stale(r.2, now_ms);
    let mut out: Vec<Vec<u8>> = Vec::new();
    let mut i: usize = 0;
    assert(views(out@) =~= row_keys(all.take(0).filter(drop)));
    while i < rows.len()
        invariant
            i <= rows@.len(),
            all == recovered_views(rows@),
            drop == (|r: (Seq<u8>, ValueView, u64, u16)| stale(r.2, now_ms)),
            views(out@) == row_keys(all.take(i as int).filter(drop)),
        decreases rows@.len() - i,
    {
        let ghost had = all.take(i as int).filter(drop);
        proof {
            assert(all.take(i + 1) =~= all.take(i as int).push(all[i as int]));
            all.take(i as int).lemma_filter_push(all[i as int], drop);
        }
        if is_stale(rows[i].2, now_ms) {
            let ghost before = out@;
            out.push(copy_bytes(&rows[i].0));
            assert(views(out@) =~= views(before).push(all[i as int].0));
            assert(row_keys(had.push(all[i as int])) =~= row_keys(had).push(all[i as int].0));
        }
        i = i + 1;
    }
    assert(all.take(i as int) =~= all);
    out
}

/// Every row is either live or stale, and purging the stale ones leaves what a
/// scan shows.
pub proof fn law_scan_and_purge(s: Seq<(Seq<u8>, ValueView, u64, u16)>, now: u64)
    ensures
        live_rows(s, now).len() + stale_rows(s, now).len() == s.len(),
        live_rows(live_rows(s, now), now) == live_rows(s, now),
        stale_rows(live_rows(s, now), now).len() == 0,
    decreases s.len(),
{
    let keep = |r: (Seq<u8>, ValueView, u64, u16)| !stale(r.2, now);
    let drop = |r: (Seq<u8>, ValueView, u64, u16)| stale(r.2, now);
    if s.len() == 0 {
        assert(s.filter(keep) =~= s);
        assert(s.filter(drop) =~= s);
    } else {
        let t = s.drop_last();
        law_scan_and_purge(t, now);
        assert(s =~= t.push(s.last()));
        t.lemma_filter_push(s.last(), keep);
        t.lemma_filter_push(s.last(), drop);
        t.filter(keep).lemma_filter_push(s.last(), keep);
        t.filter(keep).lemma_filter_push(s.last(), drop);
    }
}

/// A row is shown as long as it has no end or its end is still to come, and is
/// purged from its end on.
pub proof fn law_rows_last_until_their_end(s: Seq<(Seq<u8>, ValueView, u64, u16)>, now: u64, r: (Seq<u8>, ValueView, u64, u16))
    ensures
        live_rows(s, now).contains(r) <==> s.contains(r) && (r.2 == 0 || now < r.2),
        stale_rows(s, now).contains(r) <==> s.contains(r) && r.2 > 0 && r.2 <= now,
        stale(r.2, now) <==> r.2 > 0 && r.2 <= now,
{
    let keep = |x: (Seq<u8>, ValueView, u64, u16)| !stale(x.2, now);
    let drop = |x: (Seq<u8>, ValueView, u64, u16)| stale(x.2, now);
    lemma_filtered(s, keep, r);
    lemma_filtered(s, drop, r);
}

proof fn lemma_filtered<A>(s: Seq<A>, p: spec_fn(A) -> bool, x: A)
    ensures
        s.filter(p).contains(x) <==> s.contains(x) && p(x),
{
    let t = s.filter(p);
    if t.contains(x) {
        let i = choose|i: int| 0 <= i < t.len() && t[i] == x;
        s.lemma_filter_pred(p, i);
        s.lemma_filter_contains_rev(p, x);
    }
    if s.contains(x) && p(x) {
        let i = choose|i: int| 0 <= i < s.len() && s[i] == x;
        s.lemma_filter_contains(p, i);
    }
}

} // verus!
