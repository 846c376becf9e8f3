//! Melete makes snapshots of all entries and reads them back.

use vstd::prelude::*;

use crate::assoc::{assoc, distinct_keys, lemma_assoc_push, lemma_assoc_update};
use crate::bytes::{bytes_eq, copy_bytes};
use crate::text::{decimal, u64_text};
use crate::value::{Entry, EntryView, Value, ValueView};

verus! {

/// The version of the snapshot format.
pub const SNAP_VERSION: u8 = 1;

/// One entry of a snapshot.
#[derive(Debug)]
pub struct SnapEntry {
    pub key: Vec<u8>,
    pub value: Value,
    /// When the entry expires, in milliseconds since 1970; 0 for never.
    pub expires_at_ms: u64,
    pub lfu_counter: u8,
    pub slot: u16,
}

/// What an entry of a snapshot says.
pub struct SnapView {
    pub key: Seq<u8>,
    pub value: ValueView,
    pub expires_at_ms: u64,
    pub lfu_counter: u8,
    pub slot: u16,
}

impl View for SnapEntry {
    type V = SnapView;

    open spec fn view(&self) -> SnapView {
        SnapView {
            key: self.key@,
            value: self.value@,
            expires_at_ms: self.expires_at_ms,
            lfu_counter: self.lfu_counter,
            slot: self.slot,
        }
    }
}

impl Clone for SnapEntry {
    fn clone(&self) -> (r: Self)
        ensures
            r@ == self@,
    {
        SnapEntry {
            key: copy_bytes(&self.key),
            value: self.value.clone(),
            expires_at_ms: self.expires_at_ms,
            lfu_counter: self.lfu_counter,
            slot: self.slot,
        }
    }
}

/// What the entries of a snapshot say.
pub open spec fn snap_views(s: Seq<SnapEntry>) -> Seq<SnapView> {
    s.map_values(|e: SnapEntry| e@)
}

/// What entries with their keys say.
pub open spec fn keyed_views(s: Seq<(Vec<u8>, Entry)>) -> Seq<(Seq<u8>, EntryView)> {
    s.map_values(|e: (Vec<u8>, Entry)| (e.0@, e.1@))
}

/// The snapshot of an entry.
pub open spec fn snap_of(key: Seq<u8>, e: EntryView) -> SnapView {
    SnapView { key, value: e.value, expires_at_ms: e.expires_at_ms, lfu_counter: e.lfu_counter, slot: e.slot }
}

/// The entry that a snapshot was made of.
pub open spec fn entry_of(s: SnapView) -> EntryView {
    EntryView { value: s.value, slot: s.slot, expires_at_ms: s.expires_at_ms, lfu_counter: s.lfu_counter }
}

/// The snapshots of entries, in order.
pub open spec fn snaps_of(s: Seq<(Seq<u8>, EntryView)>) -> Seq<SnapView> {
    s.map_values(|e: (Seq<u8>, EntryView)| snap_of(e.0, e.1))
}

/// The entries by key. Of two with the same key the later one counts.
pub open spec fn gathered(s: Seq<SnapView>) -> Map<Seq<u8>, EntryView>
    decreases s.len(),
{
    if s.len() == 0 {
        Map::empty()
    } else {
        gathered(s.drop_last()).insert(s.last().key, entry_of(s.last()))
    }
}

/// What stands at the head of a snapshot.
#[derive(Debug, Clone, Copy, PartialEq, Eq, Structural)]
pub struct SnapHeader {
    pub version: u8,
    pub created_at_ms: u64,
    pub entry_count: u64,
}

/// Why a snapshot cannot be read.
#[derive(Debug, Clone, Copy, PartialEq, Eq, Structural)]
pub enum SnapError {
    UnsupportedVersion(u8),
    /// The entry at this place is missing or damaged.
    BadEntry(u64),
}

impl SnapError {
    pub open spec fn text(self) -> Seq<char> {
        match self {
            SnapError::UnsupportedVersion(v) => "unsupported snapshot version "@ + decimal(v as nat) + " (expected 1)"@,
            SnapError::BadEntry(i) => "snap read entry "@ + decimal(i as nat),
        }
    }

    pub fn message(self) -> (r: String)
        ensures
            r@ == self.text(),
    {
        match self {
            SnapError::UnsupportedVersion(v) => {
                let mut s = "unsupported snapshot version ".to_string();
                let n = u64_text(v as u64);
                s.append(n.as_str());
                s.append(" (expected 1)");
                s
            },
            SnapError::BadEntry(i) => {
                let mut s = "snap read entry ".to_string();
                let n = u64_text(i);
                s.append(n.as_str());
                s
            },
        }
    }
}

/// What came out of reading the entries behind a header: each, or none where
/// one is damaged.
pub open spec fn read_views(s: Seq<Option<SnapEntry>>) -> Seq<Option<SnapView>> {
    s.map_values(
        |e: Option<SnapEntry>|
            match e {
                Some(x) => Some(x@),
                None => None,
            },
    )
}

/// The first of `count` entries that is missing or damaged.
pub open spec fn first_bad(read: Seq<Option<SnapView>>, count: int) -> int
    decreases count,
{
    if count <= 0 {
        0
    } else {
        let b = first_bad(read, count - 1);
        if b < count - 1 {
            b
        } else if count - 1 < read.len() && read[count - 1] is Some {
            count
        } else {
            count - 1
        }
    }
}

/// What a snapshot gives: its entries and when it was made.
pub open spec fn loaded(h: SnapHeader, read: Seq<Option<SnapView>>) -> Result<(Seq<SnapView>, u64), SnapError> {
    let bad = first_bad(read, h.entry_count as int);
    if h.version != SNAP_VERSION {
        Err(SnapError::UnsupportedVersion(h.version))
    } else if bad < h.entry_count {
        Err(SnapError::BadEntry(bad as u64))
    } else {
        Ok((Seq::new(h.entry_count as nat, |i: int| read[i]->0), h.created_at_ms))
    }
}

proof fn lemma_first_bad(read: Seq<Option<SnapView>>, count: int, b: int)
    requires
        0 <= b <= count,
        forall|i: int| 0 <= i < b ==> i < read.len() && (#[trigger] read[i]) is Some,
        b < count ==> (b >= read.len() || read[b] is None),
    ensures
        first_bad(read, count) == b,
    decreases count,
{
    if count > 0 {
        if b < count {
            lemma_first_bad(read, count - 1, b);
        } else {
            lemma_first_bad(read, count - 1, count - 1);
            assert(read[count - 1] is Some);
        }
    }
}

/// Makes and reads snapshots.
pub struct Melete;

impl Melete {
    /// The snapshot of entries: its head and its entries in order.
    pub fn save(entries: &Vec<(Vec<u8>, Entry)>, now_ms: u64) -> (r: (SnapHeader, Vec<SnapEntry>))
        ensures
            r.0 == (SnapHeader {
                version: SNAP_VERSION,
                created_at_ms: now_ms,
                entry_count: entries@.len() as u64,
            }),
            snap_views(r.1@) == snaps_of(keyed_views(entries@)),
            r.1@.len() == entries@.len(),
    {
        let ghost all = keyed_views(entries@);
        let mut out: Vec<SnapEntry> = Vec::new();
        let mut i: usize = 0;
        while i < entries.len()
            invariant
                i <= entries@.len(),
                all == keyed_views(entries@),
                out@.len() == i,
                forall|j: int| 0 <= j < i ==> (#[trigger] out@[j])@ == snap_of(all[j].0, all[j].1),
            decreases entries@.len() - i,
        {
            let e = entries[i].1.clone();
            out.push(
                SnapEntry {
                    key: copy_bytes(&entries[i].0),
                    value: e.value,
                    expires_at_ms: e.expires_at_ms,
                    lfu_counter: e.lfu_counter,
                    slot: e.slot,
                },
            );
            i = i + 1;
        }
        assert(snap_views(out@) =~= snaps_of(all));
        (SnapHeader { version: SNAP_VERSION, created_at_ms: now_ms, entry_count: entries.len() as u64 }, out)
    }

    /// The entries of a snapshot and when it was made, given what came out of
    /// reading the entries behind its head.
    pub fn load(header: &SnapHeader, read: &Vec<Option<SnapEntry>>) -> (r: Result<(Vec<SnapEntry>, u64), SnapError>)
        ensures
            match loaded(*header, read_views(read@)) {
                Ok((s, at)) => r matches Ok(x) && snap_views(x.0@) == s && x.1 == at,
                Err(e) => r == Err::<(Vec<SnapEntry>, u64), SnapError>(e),
            },
    {
        if header.version != SNAP_VERSION {
            return Err(SnapError::UnsupportedVersion(header.version));
        }
        let ghost views = read_views(read@);
        let mut out: Vec<SnapEntry> = Vec::new();
        let mut i: u64 = 0;
        while i < header.entry_count
            invariant
                header.version == SNAP_VERSION,
                i <= header.entry_count,
                i <= read@.len(),
                views == read_views(read@),
                out@.len() == i,
                forall|j: int| 0 <= j < i ==> (#[trigger] views[j]) is Some,
                forall|j: int| 0 <= j < i ==> views[j] == Some((#[trigger] out@[j])@),
            decreases header.entry_count - i,
        {
            if i >= read.len() as u64 {
                proof {
                    lemma_first_bad(views, header.entry_count as int, i as int);
                }
                return Err(SnapError::BadEntry(i));
            }
            match &read[i as usize] {
                None => {
                    proof {
                        assert(views[i as int] is None);
                        lemma_first_bad(views, header.entry_count as int, i as int);
                    }
                    return Err(SnapError::BadEntry(i));
                },
                Some(e) => {
                    assert(views[i as int] == Some(e@));
                    out.push(e.clone());
                },
            }
            i = i + 1;
        }
        proof {
            lemma_first_bad(views, header.entry_count as int, i as int);
            assert(snap_views(out@) =~= Seq::new(header.entry_count as nat, |i: int| views[i]->0));
        }
        Ok((out, header.created_at_ms))
    }

    /// The entries of a snapshot by key. Of two with the same key the later one
    /// counts.
    pub fn into_map(entries: &Vec<SnapEntry>) -> (r: Vec<(Vec<u8>, Entry)>)
        ensures
            distinct_keys(keyed_views(r@)),
            assoc(keyed_views(r@)) == gathered(snap_views(entries@)),
    {
        let ghost all = snap_views(entries@);
        let mut out: Vec<(Vec<u8>, Entry)> = Vec::new();
        let mut i: usize = 0;
        assert(assoc(keyed_views(out@)) =~= gathered(all.take(0)));
        while i < entries.len()
            invariant
                i <= entries@.len(),
                all == snap_views(entries@),
                distinct_keys(keyed_views(out@)),
                assoc(keyed_views(out@)) == gathered(all.take(i as int)),
            decreases entries@.len() - i,
        {
            let s = &entries[i];
            let e = Entry {
                value: s.value.clone(),
                slot: s.slot,
                expires_at_ms: s.expires_at_ms,
                lfu_counter: s.lfu_counter,
            };
            let ghost before = out@;
            let mut j: usize = 0;
            while j < out.len() && !bytes_eq(&out[j].0, &s.key)
                invariant
                    j <= out@.len(),
                    out@ == before,
                    forall|a: int| 0 <= a < j ==> (#[trigger] out@[a]).0@ != s.key@,
                decreases out@.len() - j,
            {
                j = j + 1;
            }
            proof {
                assert(all.take(i + 1).drop_last() =~= all.take(i as int));
                assert(all.take(i + 1).last() == s@);
            }
            if j < out.len() {
                out.set(j, (copy_bytes(&s.key), e));
                proof {
                    assert(keyed_views(out@) =~= keyed_views(before).update(j as int, (s.key@, e@)));
                    assert(keyed_views(before)[j as int].0 == s.key@);
                    lemma_assoc_update(keyed_views(before), j as int, e@);
                }
            } else {
                out.push((copy_bytes(&s.key), e));
                proof {
                    assert(keyed_views(out@) =~= keyed_views(before).push((s.key@, e@)));
                    assert forall|a: int| 0 <= a < keyed_views(before).len() implies (#[trigger] keyed_views(before)[a]).0 != s.key@ by {
                        assert(before[a].0@ != s.key@);
                    }
                    lemma_assoc_push(keyed_views(before), s.key@, e@);
                }
            }
            i = i + 1;
        }
        assert(all.take(i as int) =~= all);
        out
    }
}

/// Reading a snapshot back gives the entries that it was made of.
pub proof fn law_snapshot_round_trip(entries: Seq<(Seq<u8>, EntryView)>, now: u64)
    requires
        entries.len() <= u64::MAX,
    ensures
        loaded(
            SnapHeader { version: SNAP_VERSION, created_at_ms: now, entry_count: entries.len() as u64 },
            snaps_of(entries).map_values(|s: SnapView| Some(s)),
        ) == Ok::<(Seq<SnapView>, u64), SnapError>((snaps_of(entries), now)),
        gathered(snaps_of(entries)) == assoc(entries),
{
    let read = snaps_of(entries).map_values(|s: SnapView| Some(s));
    lemma_first_bad(read, entries.len() as int, entries.len() as int);
    assert(Seq::new(entries.len(), |i: int| read[i]->0) =~= snaps_of(entries));
    lemma_gathered(entries);
}

proof fn lemma_gathered(entries: Seq<(Seq<u8>, EntryView)>)
    ensures
        gathered(snaps_of(entries)) == assoc(entries),
    decreases entries.len(),
{
    if entries.len() > 0 {
        lemma_gathered(entries.drop_last());
        assert(snaps_of(entries).drop_last() =~= snaps_of(entries.drop_last()));
        assert(entry_of(snaps_of(entries).last()) == entries.last().1);
    }
}

/// A snapshot is loaded just where it is of version 1 and all its entries can
/// be read, and then gives them in order; otherwise the first entry that is
/// missing or damaged is named.
pub proof fn law_snapshot_needs_all(h: SnapHeader, read: Seq<Option<SnapView>>, i: int)
    requires
        0 <= i < h.entry_count,
    ensures
        h.version != 1 ==> loaded(h, read) == Err::<(Seq<SnapView>, u64), SnapError>(SnapError::UnsupportedVersion(h.version)),
        h.version == 1 ==> match loaded(h, read) {
            Ok((entries, at)) => at == h.created_at_ms && entries.len() == h.entry_count && i < read.len() && read[i]
                == Some(entries[i]),
            Err(e) => e matches SnapError::BadEntry(b) && b < h.entry_count && (b >= read.len() || read[b as int] is None)
                && (i < b ==> i < read.len() && read[i] is Some),
        },
{
    lemma_first_bad_is(read, h.entry_count as int);
}

proof fn lemma_first_bad_is(read: Seq<Option<SnapView>>, count: int)
    requires
        count >= 0,
    ensures
        0 <= first_bad(read, count) <= count,
        forall|j: int| 0 <= j < first_bad(read, count) ==> j < read.len() && (#[trigger] read[j]) is Some,
        first_bad(read, count) < count ==> first_bad(read, count) >= read.len() || read[first_bad(read, count)] is None,
    decreases count,
{
    if count > 0 {
        lemma_first_bad_is(read, count - 1);
    }
}

} // verus!
