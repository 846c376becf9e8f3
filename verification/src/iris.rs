//! Iris routes keys to slots: CRC16-CCITT of the key (or of its hash tag)
//! modulo 16384 gives the slot, and a table says which node owns each slot.

use std::collections::HashMap;

use vstd::prelude::*;

verus! {

broadcast use vstd::std_specs::hash::group_hash_axioms;

pub const NUM_SLOTS: u16 = 16384;

/// The node that owns a slot.
#[derive(Debug, Clone)]
pub struct SlotOwner {
    pub node_id: u64,
    /// Address that clients are redirected to.
    pub addr: String,
}

impl View for SlotOwner {
    type V = (u64, Seq<char>);

    open spec fn view(&self) -> (u64, Seq<char>) {
        (self.node_id, self.addr@)
    }
}

/// Where a key has to be served.
#[derive(Debug)]
pub enum RouteResult {
    /// This node owns the slot.
    Local(u16),
    /// Another node owns the slot: the client is redirected there.
    Moved { slot: u16, node_id: u64, addr: String },
}

/// One step of the shift register: shift left, and subtract the generator
/// polynomial 0x1021 when a one was shifted out.
pub open spec fn crc16_bit(crc: u16) -> u16 {
    if crc & 0x8000 != 0 {
        (crc << 1) ^ 0x1021
    } else {
        crc << 1
    }
}

/// `n` steps of the shift register.
pub open spec fn crc16_bits(crc: u16, n: nat) -> u16
    decreases n,
{
    if n == 0 {
        crc
    } else {
        crc16_bit(crc16_bits(crc, (n - 1) as nat))
    }
}

/// The register after all of `data`, starting from zero: each byte enters at
/// the top and is followed by eight steps.
pub open spec fn crc16_spec(data: Seq<u8>) -> u16
    decreases data.len(),
{
    if data.len() == 0 {
        0
    } else {
        crc16_bits(crc16_spec(data.drop_last()) ^ ((data.last() as u16) << 8), 8)
    }
}

/// Two byte strings of one length added without carry.
pub open spec fn xored(a: Seq<u8>, b: Seq<u8>) -> Seq<u8> {
    Seq::new(a.len(), |i: int| a[i] ^ b[i])
}

/// A number as two bytes, the higher first.
pub open spec fn be_pair(n: u16) -> Seq<u8> {
    seq![(n / 256) as u8, (n % 256) as u8]
}

proof fn lemma_bits_linear(x: u16, y: u16, n: nat)
    ensures
        crc16_bits(x ^ y, n) == crc16_bits(x, n) ^ crc16_bits(y, n),
    decreases n,
{
    if n > 0 {
        lemma_bits_linear(x, y, (n - 1) as nat);
        let a = crc16_bits(x, (n - 1) as nat);
        let b = crc16_bits(y, (n - 1) as nat);
        assert(crc16_bit(a ^ b) == crc16_bit(a) ^ crc16_bit(b)) by (bit_vector);
    }
}

proof fn lemma_low_byte_shifts(lo: u16, n: nat)
    requires
        lo < 256,
        n <= 8,
    ensures
        crc16_bits(lo, n) == lo << (n as u16),
    decreases n,
{
    if n == 0 {
        assert(lo << 0u16 == lo) by (bit_vector);
    } else {
        lemma_low_byte_shifts(lo, (n - 1) as nat);
        let m = (n - 1) as u16;
        assert((lo << m) & 0x8000 == 0 && (lo << m) << 1u16 == lo << ((m + 1) as u16)) by (bit_vector)
            requires
                lo < 256,
                m < 8,
        ;
    }
}

/// The checksum is linear: that of the sum of two byte strings of one length,
/// taken without carry, is the sum of their checksums.
pub proof fn law_crc16_is_linear(a: Seq<u8>, b: Seq<u8>)
    requires
        a.len() == b.len(),
    ensures
        crc16_spec(xored(a, b)) == crc16_spec(a) ^ crc16_spec(b),
    decreases a.len(),
{
    if a.len() == 0 {
        assert(0u16 ^ 0u16 == 0) by (bit_vector);
    } else {
        let a0 = a.drop_last();
        let b0 = b.drop_last();
        law_crc16_is_linear(a0, b0);
        assert(xored(a, b).drop_last() =~= xored(a0, b0));
        let p = crc16_spec(a0);
        let q = crc16_spec(b0);
        let x = a.last();
        let y = b.last();
        assert((p ^ q) ^ (((x ^ y) as u16) << 8u16) == (p ^ ((x as u16) << 8u16)) ^ (q ^ ((y as u16) << 8u16)))
            by (bit_vector);
        lemma_bits_linear(p ^ ((x as u16) << 8u16), q ^ ((y as u16) << 8u16), 8);
    }
}

/// The checksum is a remainder: bytes with their own checksum behind them have
/// the checksum zero.
pub proof fn law_crc16_leaves_no_remainder(d: Seq<u8>)
    ensures
        crc16_spec(d + be_pair(crc16_spec(d))) == 0,
{
    let c = crc16_spec(d);
    let hi = (c / 256) as u8;
    let lo = (c % 256) as u8;
    let one = d.push(hi);
    let two = one.push(lo);
    assert(d + be_pair(c) =~= two);
    assert(one.drop_last() =~= d);
    assert(two.drop_last() =~= one);
    let low = c % 256;
    assert(c ^ ((((c / 256) as u8) as u16) << 8u16) == c % 256 && ((c % 256) as u8) as u16 == c % 256) by (bit_vector);
    lemma_low_byte_shifts(low, 8);
    assert(one.last() == hi && two.last() == lo);
    assert(crc16_spec(one) == crc16_bits(low, 8));
    assert(crc16_spec(one) == low << 8u16);
    assert((low << 8u16) ^ (low << 8u16) == 0) by (bit_vector);
    assert(crc16_spec(two) == crc16_bits(0, 8));
    lemma_low_byte_shifts(0, 8);
    assert(0u16 << 8u16 == 0) by (bit_vector);
}

/// No bytes have the checksum zero, and the byte one has that of the generator
/// polynomial without its highest term.
pub proof fn law_crc16_generator()
    ensures
        crc16_spec(Seq::empty()) == 0,
        crc16_spec(seq![1u8]) == 0x1021,
{
    let one = seq![1u8];
    assert(one.drop_last() =~= Seq::empty());
    assert(0u16 ^ ((1u8 as u16) << 8u16) == 0x0100) by (bit_vector);
    lemma_shifts_up(7);
    assert(crc16_bit(0x8000) == 0x1021) by (bit_vector);
}

proof fn lemma_shifts_up(n: nat)
    requires
        n <= 7,
    ensures
        crc16_bits(0x0100, n) == 0x0100u16 << (n as u16),
        n == 7 ==> crc16_bits(0x0100, n) == 0x8000,
    decreases n,
{
    assert(0x0100u16 << 0u16 == 0x0100 && 0x0100u16 << 7u16 == 0x8000) by (bit_vector);
    if n > 0 {
        lemma_shifts_up((n - 1) as nat);
        let m = (n - 1) as u16;
        assert((0x0100u16 << m) & 0x8000 == 0 && (0x0100u16 << m) << 1u16 == 0x0100u16 << ((m + 1) as u16)) by (bit_vector)
            requires
                m < 7,
        ;
    }
}

/// The first `{` of `key` and the first `}` behind it, with something between
/// them: the key's hash tag.
pub open spec fn is_hash_tag(key: Seq<u8>, open: int, close: int) -> bool {
    &&& 0 <= open < close < key.len()
    &&& key[open] == 0x7b
    &&& key[close] == 0x7d
    &&& forall|i: int| 0 <= i < open ==> key[i] != 0x7b
    &&& forall|i: int| open < i < close ==> key[i] != 0x7d
    &&& open + 1 < close
}

/// The part of a key that decides its slot.
pub open spec fn hashed_part(key: Seq<u8>) -> Seq<u8> {
    if exists|open: int, close: int| is_hash_tag(key, open, close) {
        let (open, close) = choose|open: int, close: int| is_hash_tag(key, open, close);
        key.subrange(open + 1, close)
    } else {
        key
    }
}

/// The slot of a key.
pub open spec fn slot_of(key: Seq<u8>) -> u16 {
    (crc16_spec(hashed_part(key)) % 16384) as u16
}

proof fn lemma_hash_tag_unique(key: Seq<u8>, o1: int, c1: int, o2: int, c2: int)
    requires
        is_hash_tag(key, o1, c1),
        is_hash_tag(key, o2, c2),
    ensures
        o1 == o2,
        c1 == c2,
{
    if o1 < o2 {
        assert(key[o1] != 0x7b);
    } else if o2 < o1 {
        assert(key[o2] != 0x7b);
    }
    if c1 < c2 {
        assert(key[c1] != 0x7d);
    } else if c2 < c1 {
        assert(key[c2] != 0x7d);
    }
}

/// Keys that carry the same hash tag have the same slot.
pub proof fn law_same_tag_same_slot(k1: Seq<u8>, o1: int, c1: int, k2: Seq<u8>, o2: int, c2: int)
    requires
        is_hash_tag(k1, o1, c1),
        is_hash_tag(k2, o2, c2),
        k1.subrange(o1 + 1, c1) == k2.subrange(o2 + 1, c2),
    ensures
        slot_of(k1) == slot_of(k2),
{
    let (a1, b1) = choose|open: int, close: int| is_hash_tag(k1, open, close);
    lemma_hash_tag_unique(k1, o1, c1, a1, b1);
    let (a2, b2) = choose|open: int, close: int| is_hash_tag(k2, open, close);
    lemma_hash_tag_unique(k2, o2, c2, a2, b2);
}

/// What stands in the first pair of braces decides the slot alone, whatever
/// stands around it.
pub proof fn law_tag_decides(pre: Seq<u8>, tag: Seq<u8>, post: Seq<u8>)
    requires
        !pre.contains(0x7b),
        tag.len() > 0,
        !tag.contains(0x7d),
    ensures
        slot_of(pre + seq![0x7bu8] + tag + seq![0x7du8] + post) == crc16_spec(tag) % 16384,
{
    let key = pre + seq![0x7bu8] + tag + seq![0x7du8] + post;
    let o = pre.len() as int;
    let c = o + 1 + tag.len();
    assert(key.subrange(o + 1, c) =~= tag);
    assert forall|i: int| 0 <= i < o implies key[i] != 0x7b by {
        assert(key[i] == pre[i]);
        assert(pre.contains(pre[i]));
    }
    assert forall|i: int| o < i < c implies key[i] != 0x7d by {
        assert(key[i] == tag[i - o - 1]);
        assert(tag.contains(tag[i - o - 1]));
    }
    assert(is_hash_tag(key, o, c));
    let (a, b) = choose|open: int, close: int| is_hash_tag(key, open, close);
    lemma_hash_tag_unique(key, o, c, a, b);
}

/// A key without braces is hashed as a whole, and so is one whose first brace
/// is not closed, or closed at once.
pub proof fn law_untagged_is_hashed_whole(pre: Seq<u8>, rest: Seq<u8>, post: Seq<u8>)
    requires
        !pre.contains(0x7b),
        !rest.contains(0x7d),
    ensures
        slot_of(pre) == crc16_spec(pre) % 16384,
        slot_of(pre + seq![0x7bu8] + rest) == crc16_spec(pre + seq![0x7bu8] + rest) % 16384,
        slot_of(pre + seq![0x7bu8, 0x7du8] + post) == crc16_spec(pre + seq![0x7bu8, 0x7du8] + post) % 16384,
{
    let o = pre.len() as int;
    assert forall|i: int| 0 <= i < o implies pre[i] != 0x7b by {
        assert(pre.contains(pre[i]));
    }
    let open = pre + seq![0x7bu8] + rest;
    assert forall|a: int, b: int| !is_hash_tag(open, a, b) by {
        if is_hash_tag(open, a, b) {
            assert(open[o] == 0x7b);
            if a < o {
                assert(open[a] == pre[a]);
            }
            assert(open[b] == rest[b - o - 1]);
            assert(rest.contains(rest[b - o - 1]));
        }
    }
    let empty = pre + seq![0x7bu8, 0x7du8] + post;
    assert forall|a: int, b: int| !is_hash_tag(empty, a, b) by {
        if is_hash_tag(empty, a, b) {
            assert(empty[o] == 0x7b);
            assert(empty[o + 1] == 0x7d);
            if a < o {
                assert(empty[a] == pre[a]);
            }
        }
    }
    assert forall|a: int, b: int| !is_hash_tag(pre, a, b) by {}
}

/// Every key has one of the 16384 slots.
pub proof fn law_slot_in_range(key: Seq<u8>)
    ensures
        slot_of(key) < NUM_SLOTS,
{
}

/// CRC16-CCITT with polynomial 0x1021, starting from zero.
pub fn crc16_ccitt(data: &[u8]) -> (crc: u16)
    ensures
        crc == crc16_spec(data@),
{
    let mut crc: u16 = 0;
    let mut i: usize = 0;
    while i < data.len()
        invariant
            i <= data.len(),
            crc == crc16_spec(data@.take(i as int)),
        decreases data.len() - i,
    {
        let ghost before = crc ^ ((data@[i as int] as u16) << 8);
        crc = crc ^ ((data[i] as u16) << 8);
        let mut n: u8 = 0;
        while n < 8
            invariant
                n <= 8,
                crc == crc16_bits(before, n as nat),
            decreases 8 - n,
        {
            if crc & 0x8000 != 0 {
                crc = (crc << 1) ^ 0x1021;
            } else {
                crc = crc << 1;
            }
            n = n + 1;
        }
        proof {
            let next = data@.take(i + 1);
            assert(next.drop_last() =~= data@.take(i as int));
            assert(next.last() == data@[i as int]);
        }
        i = i + 1;
    }
    proof {
        assert(data@.take(data@.len() as int) =~= data@);
    }
    crc
}

/// The bytes that decide the slot of `key`: for `prefix{tag}suffix` with a
/// non-empty tag these are the tag, otherwise the whole key.
pub fn extract_hash_tag(key: &[u8]) -> (part: &[u8])
    ensures
        part@ == hashed_part(key@),
{
    let mut open: usize = 0;
    while open < key.len() && key[open] != 0x7b
        invariant
            open <= key.len(),
            forall|i: int| 0 <= i < open ==> key@[i] != 0x7b,
        decreases key.len() - open,
    {
        open = open + 1;
    }
    if open == key.len() {
        return key;
    }
    let mut close: usize = open + 1;
    while close < key.len() && key[close] != 0x7d
        invariant
            open < close <= key.len(),
            forall|i: int| open < i < close ==> key@[i] != 0x7d,
        decreases key.len() - close,
    {
        close = close + 1;
    }
    if close == key.len() || close == open + 1 {
        proof {
            if exists|o: int, c: int| is_hash_tag(key@, o, c) {
                let (o, c) = choose|o: int, c: int| is_hash_tag(key@, o, c);
                assert(key@[o] == 0x7b);
                if o > open {
                    assert(key@[open as int] != 0x7b);
                }
                assert(o == open);
                if close < key@.len() && c > close {
                    assert(key@[close as int] != 0x7d);
                }
            }
        }
        return key;
    }
    proof {
        assert(is_hash_tag(key@, open as int, close as int));
        let (o, c) = choose|o: int, c: int| is_hash_tag(key@, o, c);
        lemma_hash_tag_unique(key@, open as int, close as int, o, c);
    }
    vstd::slice::slice_subrange(key, open + 1, close)
}

/// The slot table of one node.
pub struct Iris {
    local_node_id: u64,
    /// Owner of each slot; `None` stands for the local node.
    table: Vec<Option<SlotOwner>>,
}

/// What a table entry says.
pub open spec fn owner_view(owner: Option<SlotOwner>) -> Option<(u64, Seq<char>)> {
    match owner {
        Some(o) => Some(o@),
        None => None,
    }
}

/// The table with the slots from `start` to `end` given to an owner.
pub open spec fn with_range(
    owners: Seq<Option<(u64, Seq<char>)>>,
    start: int,
    end: int,
    owner: Option<(u64, Seq<char>)>,
) -> Seq<Option<(u64, Seq<char>)>> {
    Seq::new(
        owners.len(),
        |s: int|
            if start <= s <= end {
                owner
            } else {
                owners[s]
            },
    )
}

/// Giving slots away gives the first and the last of them and all between, and
/// no other; giving them back undoes it where they were the node's own.
pub proof fn law_slots_are_given(
    owners: Seq<Option<(u64, Seq<char>)>>,
    start: int,
    end: int,
    owner: Option<(u64, Seq<char>)>,
    s: int,
)
    requires
        0 <= start <= end < owners.len(),
        0 <= s < owners.len(),
    ensures
        with_range(owners, start, end, owner).len() == owners.len(),
        with_range(owners, start, end, owner)[start] == owner,
        with_range(owners, start, end, owner)[end] == owner,
        start <= s && s <= end ==> with_range(owners, start, end, owner)[s] == owner,
        s < start || s > end ==> with_range(owners, start, end, owner)[s] == owners[s],
        (forall|i: int| start <= i <= end ==> (#[trigger] owners[i]) is None) ==> with_range(
            with_range(owners, start, end, owner),
            start,
            end,
            None,
        ) == owners,
{
    if forall|i: int| start <= i <= end ==> (#[trigger] owners[i]) is None {
        assert(with_range(with_range(owners, start, end, owner), start, end, None) =~= owners);
    }
}

impl Iris {
    /// The node whose table this is.
    pub closed spec fn node(&self) -> u64 {
        self.local_node_id
    }

    /// For each slot the remote owner, or `None` where the local node owns it.
    pub closed spec fn owners(&self) -> Seq<Option<(u64, Seq<char>)>> {
        Seq::new(self.table@.len(), |i: int| owner_view(self.table@[i]))
    }

    /// There is an entry for each slot.
    pub open spec fn wf(&self) -> bool {
        self.owners().len() == NUM_SLOTS
    }

    /// The node that a slot table snapshot names for slot `s`.
    pub open spec fn owner_id(&self, s: int) -> u64 {
        match self.owners()[s] {
            Some(o) => o.0,
            None => self.node(),
        }
    }

    /// A table in which `local_node_id` owns all slots.
    pub fn new(local_node_id: u64) -> (iris: Self)
        ensures
            iris.wf(),
            iris.node() == local_node_id,
            forall|s: int| 0 <= s < NUM_SLOTS ==> iris.owners()[s] is None,
    {
        let mut table: Vec<Option<SlotOwner>> = Vec::new();
        let mut i: u16 = 0;
        while i < NUM_SLOTS
            invariant
                i <= NUM_SLOTS,
                table@.len() == i,
                forall|s: int| 0 <= s < i ==> table@[s] is None,
            decreases NUM_SLOTS - i,
        {
            table.push(None);
            i = i + 1;
        }
        Iris { local_node_id, table }
    }

    /// The slot of `key`; a hash tag in it takes the place of the whole key.
    pub fn slot_for(key: &[u8]) -> (slot: u16)
        ensures
            slot == slot_of(key@),
            slot < NUM_SLOTS,
    {
        crc16_ccitt(extract_hash_tag(key)) % NUM_SLOTS
    }

    /// Where `key` is served: here, or at the owner of its slot.
    pub fn route(&self, key: &[u8]) -> (r: RouteResult)
        requires
            self.wf(),
        ensures
            match self.owners()[slot_of(key@) as int] {
                None => r == RouteResult::Local(slot_of(key@)),
                Some(o) => r matches RouteResult::Moved { slot, node_id, addr }
                    && slot == slot_of(key@) && node_id == o.0 && addr@ == o.1,
            },
    {
        let slot = Self::slot_for(key);
        match &self.table[slot as usize] {
            None => RouteResult::Local(slot),
            Some(owner) => RouteResult::Moved {
                slot,
                node_id: owner.node_id,
                addr: owner.addr.clone(),
            },
        }
    }

    /// Gives the slots `start..=end` to a remote node.
    pub fn assign_range(&mut self, node_id: u64, addr: &str, start: u16, end: u16)
        requires
            old(self).wf(),
            start <= end ==> end < NUM_SLOTS,
        ensures
            final(self).wf(),
            final(self).node() == old(self).node(),
            forall|s: int| 0 <= s < NUM_SLOTS ==> #[trigger] final(self).owners()[s] == (
                if start <= s <= end { Some((node_id, addr@)) } else { old(self).owners()[s] }),
            final(self).owners() == with_range(old(self).owners(), start as int, end as int, Some((node_id, addr@))),
    {
        let mut slot: u32 = start as u32;
        while slot <= end as u32
            invariant
                self.wf(),
                self.node() == old(self).node(),
                start <= end ==> start <= slot <= end + 1 <= NUM_SLOTS,
                start > end ==> slot == start,
                forall|s: int| 0 <= s < NUM_SLOTS ==> #[trigger] self.owners()[s] == (
                    if start <= s < slot { Some((node_id, addr@)) } else { old(self).owners()[s] }),
            decreases end + 1 - slot,
        {
            let ghost before = self.owners();
            self.table[slot as usize] = Some(SlotOwner { node_id, addr: addr.to_owned() });
            assert(self.owners() =~= before.update(slot as int, Some((node_id, addr@))));
            slot = slot + 1;
        }
    }

    /// Gives the slots `start..=end` back to the local node.
    pub fn reclaim_range(&mut self, start: u16, end: u16)
        requires
            old(self).wf(),
            start <= end ==> end < NUM_SLOTS,
        ensures
            final(self).wf(),
            final(self).node() == old(self).node(),
            forall|s: int| 0 <= s < NUM_SLOTS ==> #[trigger] final(self).owners()[s] == (
                if start <= s <= end { None } else { old(self).owners()[s] }),
            final(self).owners() == with_range(old(self).owners(), start as int, end as int, None),
    {
        let mut slot: u32 = start as u32;
        while slot <= end as u32
            invariant
                self.wf(),
                self.node() == old(self).node(),
                start <= end ==> start <= slot <= end + 1 <= NUM_SLOTS,
                start > end ==> slot == start,
                forall|s: int| 0 <= s < NUM_SLOTS ==> #[trigger] self.owners()[s] == (
                    if start <= s < slot { None } else { old(self).owners()[s] }),
            decreases end + 1 - slot,
        {
            let ghost before = self.owners();
            self.table[slot as usize] = None;
            assert(self.owners() =~= before.update(slot as int, None));
            slot = slot + 1;
        }
    }

    /// The slots that the local node owns, in ascending order.
    pub fn local_slots(&self) -> (slots: Vec<u16>)
        requires
            self.wf(),
        ensures
            forall|s: u16| slots@.contains(s) <==> s < NUM_SLOTS && self.owners()[s as int] is None,
            forall|i: int, j: int| 0 <= i < j < slots@.len() ==> slots@[i] < slots@[j],
    {
        let mut slots: Vec<u16> = Vec::new();
        let mut slot: u16 = 0;
        while slot < NUM_SLOTS
            invariant
                self.wf(),
                slot <= NUM_SLOTS,
                forall|s: u16| slots@.contains(s) <==> s < slot && self.owners()[s as int] is None,
                forall|i: int| 0 <= i < slots@.len() ==> slots@[i] < slot,
                forall|i: int, j: int| 0 <= i < j < slots@.len() ==> slots@[i] < slots@[j],
            decreases NUM_SLOTS - slot,
        {
            let ghost before = slots@;
            assert(self.owners()[slot as int] == owner_view(self.table@[slot as int]));
            if self.table[slot as usize].is_none() {
                slots.push(slot);
                assert forall|s: u16| slots@.contains(s) <==> s < slot + 1 && self.owners()[s as int] is None by {
                    if before.contains(s) {
                        let i = choose|i: int| 0 <= i < before.len() && before[i] == s;
                        assert(slots@[i] == s);
                    }
                    if s == slot {
                        assert(slots@[before.len() as int] == s);
                    }
                    if slots@.contains(s) && s != slot {
                        let i = choose|i: int| 0 <= i < slots@.len() && slots@[i] == s;
                        assert(before[i] == s);
                    }
                }
            }
            slot = slot + 1;
        }
        slots
    }

    /// Snapshot of the table: the owning node of every slot.
    pub fn slot_table(&self) -> (m: HashMap<u16, u64>)
        requires
            self.wf(),
        ensures
            forall|s: u16| m@.contains_key(s) <==> s < NUM_SLOTS,
            forall|s: u16| s < NUM_SLOTS ==> #[trigger] m@[s] == self.owner_id(s as int),
            m@.len() == NUM_SLOTS,
    {
        let mut m: HashMap<u16, u64> = HashMap::new();
        let mut slot: u16 = 0;
        while slot < NUM_SLOTS
            invariant
                self.wf(),
                slot <= NUM_SLOTS,
                m@.dom().finite(),
                m@.len() == slot,
                forall|s: u16| m@.contains_key(s) <==> s < slot,
                forall|s: u16| s < slot ==> #[trigger] m@[s] == self.owner_id(s as int),
            decreases NUM_SLOTS - slot,
        {
            assert(self.owners()[slot as int] == owner_view(self.table@[slot as int]));
            let node_id: u64 = match &self.table[slot as usize] {
                None => self.local_node_id,
                Some(owner) => owner.node_id,
            };
            m.insert(slot, node_id);
            slot = slot + 1;
        }
        m
    }

    pub fn local_node_id(&self) -> (id: u64)
        ensures
            id == self.node(),
    {
        self.local_node_id
    }
}

} // verus!
