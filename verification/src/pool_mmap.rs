//! A memory region of fixed size from which pieces are handed out in turn.
//!
//! Pieces start at multiples of 8 bytes and are never taken back.

use vstd::prelude::*;

verus! {

/// A piece of the region.
#[derive(Debug, Clone, Copy, PartialEq, Eq, Structural)]
pub struct PoolAlloc {
    /// Where the piece starts.
    pub offset: usize,
    /// Length of the piece in bytes.
    pub len: usize,
}

impl PoolAlloc {
    /// Two pieces share no byte.
    pub open spec fn apart(self, other: PoolAlloc) -> bool {
        self.offset + self.len <= other.offset || other.offset + other.len <= self.offset
    }
}

/// No region of the size asked for can be had.
#[derive(Debug, Clone, Copy, PartialEq, Eq, Structural)]
pub struct RegionRefused;

/// The region, and how much of it was handed out.
#[derive(Debug)]
pub struct MmapPool {
    data: Vec<u8>,
    cursor: usize,
}

/// A length rounded up to a multiple of 8.
pub open spec fn aligned_len(len: int) -> int {
    (len + 7) / 8 * 8
}

impl MmapPool {
    pub closed spec fn bytes(self) -> Seq<u8> {
        self.data@
    }

    pub closed spec fn taken(self) -> int {
        self.cursor as int
    }

    /// No more was handed out than there is.
    pub closed spec fn wf(self) -> bool {
        self.cursor <= self.data@.len()
    }

    /// The piece lies within what was handed out.
    pub open spec fn owns(self, alloc: PoolAlloc) -> bool {
        alloc.offset + alloc.len <= self.taken()
    }

    /// The bytes of a piece.
    pub open spec fn content(self, alloc: PoolAlloc) -> Seq<u8> {
        self.bytes().subrange(alloc.offset as int, alloc.offset + alloc.len)
    }

    /// A region of `capacity` zero bytes. Refused for no bytes, and for more
    /// than one object can have.
    pub fn new(capacity: usize) -> (r: Result<MmapPool, RegionRefused>)
        ensures
            r is Err <==> capacity == 0 || capacity > isize::MAX,
            r matches Ok(p) ==> {
                &&& p.wf()
                &&& p.bytes() == Seq::new(capacity as nat, |i: int| 0u8)
                &&& p.taken() == 0
            },
    {
        if capacity == 0 || capacity > isize::MAX as usize {
            return Err(RegionRefused);
        }
        let data: Vec<u8> = vec![0u8; capacity];
        assert(data@ =~= Seq::new(capacity as nat, |i: int| 0u8));
        Ok(MmapPool { data, cursor: 0 })
    }

    /// Hands out `len` bytes, if so many are left.
    pub fn allocate(&mut self, len: usize) -> (r: Option<PoolAlloc>)
        requires
            old(self).wf(),
            len + 7 <= usize::MAX,
        ensures
            final(self).wf(),
            final(self).bytes() == old(self).bytes(),
            r is None <==> old(self).taken() + aligned_len(len as int) > old(self).bytes().len(),
            r is None ==> final(self).taken() == old(self).taken(),
            r matches Some(a) ==> {
                &&& a.offset == old(self).taken()
                &&& a.len == len
                &&& final(self).taken() == old(self).taken() + aligned_len(len as int)
                &&& final(self).owns(a)
            },
    {
        let aligned: usize = (len + 7) / 8 * 8;
        if aligned > self.data.len() - self.cursor {
            return None;
        }
        let offset: usize = self.cursor;
        self.cursor = offset + aligned;
        Some(PoolAlloc { offset, len })
    }

    /// Says that a piece is no longer needed. The region keeps its bytes.
    pub fn free_hint(&mut self, alloc: &PoolAlloc)
        ensures
            *final(self) == *old(self),
    {
    }

    /// Writes bytes to the front of a piece.
    pub fn write(&mut self, alloc: &PoolAlloc, data: &[u8])
        requires
            old(self).wf(),
            old(self).owns(*alloc),
            data@.len() <= alloc.len,
        ensures
            final(self).wf(),
            final(self).taken() == old(self).taken(),
            final(self).bytes() == old(self).bytes().take(alloc.offset as int) + data@ + old(self).bytes().skip(
                alloc.offset + data@.len(),
            ),
    {
        let mut i: usize = 0;
        assert(self.data@ =~= old(self).data@.take(alloc.offset as int) + data@.take(0) + old(self).data@.skip(
            alloc.offset as int,
        ));
        while i < data.len()
            invariant
                i <= data@.len(),
                data@.len() <= alloc.len,
                alloc.offset + alloc.len <= self.cursor <= old(self).data@.len(),
                self.cursor == old(self).cursor,
                self.data@ == old(self).data@.take(alloc.offset as int) + data@.take(i as int) + old(self).data@.skip(
                    alloc.offset + i,
                ),
            decreases data@.len() - i,
        {
            let total: usize = self.data.len();
            self.data.set(alloc.offset + i, data[i]);
            i = i + 1;
            assert(self.data@ =~= old(self).data@.take(alloc.offset as int) + data@.take(i as int) + old(self).data@.skip(
                alloc.offset + i,
            ));
        }
        assert(data@.take(i as int) =~= data@);
    }

    /// The bytes of a piece.
    pub fn read(&self, alloc: &PoolAlloc) -> (r: &[u8])
        requires
            self.wf(),
            self.owns(*alloc),
        ensures
            r@ == self.content(*alloc),
    {
        vstd::slice::slice_subrange(self.data.as_slice(), alloc.offset, alloc.offset + alloc.len)
    }

    pub fn capacity(&self) -> (r: usize)
        ensures
            r == self.bytes().len(),
    {
        self.data.len()
    }

    pub fn used(&self) -> (r: usize)
        ensures
            r == self.taken(),
    {
        self.cursor
    }
}

/// What was written to the front of a piece is read back, and pieces that
/// share no byte with it keep theirs.
pub proof fn law_write_then_read(before: MmapPool, after: MmapPool, alloc: PoolAlloc, data: Seq<u8>, other: PoolAlloc)
    requires
        before.wf(),
        before.owns(alloc),
        before.owns(other),
        alloc.apart(other),
        data.len() <= alloc.len,
        after.bytes() == before.bytes().take(alloc.offset as int) + data + before.bytes().skip(
            alloc.offset + data.len(),
        ),
    ensures
        after.content(alloc).take(data.len() as int) == data,
        after.content(other) == before.content(other),
{
    assert(after.content(alloc).take(data.len() as int) =~= data);
    assert(after.content(other) =~= before.content(other));
}

/// A piece that is handed out shares no byte with one handed out before.
pub proof fn law_pieces_apart(before: MmapPool, earlier: PoolAlloc, a: PoolAlloc)
    requires
        before.owns(earlier),
        a.offset == before.taken(),
    ensures
        earlier.apart(a),
{
}

/// The room of a piece is the least multiple of eight that holds it.
pub proof fn law_pieces_are_aligned(len: int)
    requires
        len >= 0,
    ensures
        aligned_len(len) % 8 == 0,
        len <= aligned_len(len) < len + 8,
{
}

} // verus!
