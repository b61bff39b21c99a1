//! The lookup table of one segment: fixed-width entries in a region of fixed
//! capacity, entry `k` at byte `12 * k`.

use crate::arena::{arena_bytes, arena_new, arena_slice, arena_slice_mut};
use crate::config::Config;
use crate::error::LogError;
use vstd::bytes::{
    lemma_auto_spec_u32_to_from_le_bytes, lemma_auto_spec_u64_to_from_le_bytes,
    spec_u32_from_le_bytes, spec_u32_to_le_bytes, spec_u64_from_le_bytes, spec_u64_to_le_bytes,
    u32_from_le_bytes, u32_to_le_bytes, u64_from_le_bytes, u64_to_le_bytes,
};
use vstd::prelude::*;
use vstd::slice::{slice_subrange, slice_to_vec};

verus! {

/// Width in bytes of the relative offset of an entry.
pub const OFF_WIDTH: u64 = 4;

/// Width in bytes of the store position of an entry.
pub const POS_WIDTH: u64 = 8;

/// Width in bytes of an entry.
pub const ENT_WIDTH: u64 = 12;

/// An entry as it stands in the file: the relative offset in four
/// little-endian bytes, then the store position in eight.
pub open spec fn entry_bytes(off: u32, pos: u64) -> Seq<u8> {
    spec_u32_to_le_bytes(off) + spec_u64_to_le_bytes(pos)
}

/// The entry that the twelve bytes of slot `slot` spell.
pub open spec fn entry_at(bytes: Seq<u8>, slot: int) -> (u32, u64) {
    (
        spec_u32_from_le_bytes(bytes.subrange(12 * slot, 12 * slot + 4)),
        spec_u64_from_le_bytes(bytes.subrange(12 * slot + 4, 12 * slot + 12)),
    )
}

/// The entries that an image holds, slot by slot.
pub open spec fn decode_entries(image: Seq<u8>) -> Seq<(u32, u64)> {
    Seq::new(image.len() / 12, |slot: int| entry_at(image, slot))
}

/// The slot that `idx` asks for among `count` entries: the last one for
/// `-1`, else `idx` itself.
pub open spec fn index_slot(idx: int, count: nat) -> int {
    if idx == -1 {
        count - 1
    } else {
        idx
    }
}

/// What stops an index of capacity `capacity` from being opened over an
/// image of `image_len` bytes, if anything does.
pub open spec fn index_image_error(image_len: nat, capacity: u64) -> Option<LogError> {
    if capacity > usize::MAX || image_len > capacity {
        Some(LogError::CapacityExceeded)
    } else if image_len % 12 != 0 {
        Some(LogError::UnexpectedEof)
    } else {
        None
    }
}

/// An entry written behind an image of whole entries is decoded as it was
/// written, and the entries before it are decoded as before.
pub proof fn lemma_decode_after_write(image: Seq<u8>, off: u32, pos: u64)
    requires
        image.len() % 12 == 0,
    ensures
        entry_bytes(off, pos).len() == 12,
        decode_entries(image + entry_bytes(off, pos)) == decode_entries(image).push((off, pos)),
{
    lemma_auto_spec_u32_to_from_le_bytes();
    lemma_auto_spec_u64_to_from_le_bytes();
    let after = image + entry_bytes(off, pos);
    let count = (image.len() / 12) as int;
    assert(after.len() / 12 == count + 1);
    assert(after.subrange(12 * count, 12 * count + 4) =~= spec_u32_to_le_bytes(off));
    assert(after.subrange(12 * count + 4, 12 * count + 12) =~= spec_u64_to_le_bytes(pos));
    assert forall|slot: int| 0 <= slot < count implies entry_at(after, slot) == entry_at(
        image,
        slot,
    ) by {
        assert(after.subrange(12 * slot, 12 * slot + 4) =~= image.subrange(
            12 * slot,
            12 * slot + 4,
        ));
        assert(after.subrange(12 * slot + 4, 12 * slot + 12) =~= image.subrange(
            12 * slot + 4,
            12 * slot + 12,
        ));
    }
    assert(decode_entries(after) =~= decode_entries(image).push((off, pos)));
}

/// Decodes the entry in slot `slot` of an image.
pub(crate) fn decode_entry(image: &[u8], slot: usize) -> (entry: (u32, u64))
    requires
        12 * slot + 12 <= image@.len(),
    ensures
        entry == entry_at(image@, slot as int),
{
    assert(image@.len() == image.len() <= usize::MAX);
    let at: usize = slot * 12;
    let off: u32 = u32_from_le_bytes(slice_subrange(image, at, at + 4));
    let pos: u64 = u64_from_le_bytes(slice_subrange(image, at + 4, at + 12));
    (off, pos)
}

/// Copies `data` into `region` from `start` on; every other byte stays.
fn copy_into(region: &mut [u8], start: usize, data: &[u8])
    requires
        start + data@.len() <= old(region)@.len(),
    ensures
        final(region)@ == old(region)@.subrange(0, start as int) + data@ + old(region)@.subrange(
            start + data@.len(),
            old(region)@.len() as int,
        ),
{
    let n: usize = data.len();
    let room: usize = region.len();
    let mut k: usize = 0;
    while k < n
        invariant
            k <= n,
            n == data@.len(),
            region@.len() == old(region)@.len(),
            start + n <= region@.len() == room,
            forall|j: int| 0 <= j < start ==> region@[j] == old(region)@[j],
            forall|j: int| start <= j < start + k ==> region@[j] == data@[j - start],
            forall|j: int| start + k <= j < region@.len() ==> region@[j] == old(region)@[j],
        decreases n - k,
    {
        region[start + k] = data[k];
        k = k + 1;
    }
    assert(region@ =~= old(region)@.subrange(0, start as int) + data@ + old(region)@.subrange(
        start + data@.len(),
        old(region)@.len() as int,
    ));
}

/// The lookup table of one segment.
#[derive(Debug)]
pub struct Index {
    mmap: memmap2::MmapMut,
    size: u64,
    path: String,
}

impl View for Index {
    type V = Seq<(u32, u64)>;

    /// The entries written so far, in slot order.
    open spec fn view(&self) -> Seq<(u32, u64)> {
        decode_entries(self.spec_image())
    }
}

impl Index {
    /// The used part of the region is made of whole entries and lies inside it.
    pub closed spec fn wf(&self) -> bool {
        &&& self.size % 12 == 0
        &&& self.size <= arena_bytes(self.mmap).len()
        &&& arena_bytes(self.mmap).len() <= usize::MAX
    }

    /// The bytes in use: what the index file holds, cut to the used size.
    pub closed spec fn spec_image(&self) -> Seq<u8> {
        arena_bytes(self.mmap).subrange(0, self.size as int)
    }

    /// Number of bytes that the region can hold.
    pub closed spec fn spec_capacity(&self) -> nat {
        arena_bytes(self.mmap).len()
    }

    /// The name the index was opened under.
    pub closed spec fn spec_name(&self) -> Seq<char> {
        self.path@
    }

    /// The image is as long as its entries are wide, and fits the region.
    pub proof fn lemma_image_len(&self)
        requires
            self.wf(),
        ensures
            self.spec_image().len() == 12 * self@.len(),
            self.spec_image().len() <= self.spec_capacity(),
            self.spec_capacity() <= usize::MAX,
    {
    }

    /// Opens an index over `image`, the bytes that its file holds, in a region
    /// of `config.segment.max_index_bytes` bytes. An image that is longer than
    /// that, or that ends inside an entry, is refused; so is a capacity that
    /// cannot be addressed. Whether the region can be had is up to the machine.
    pub fn new(image: &[u8], config: &Config, path: String) -> (r: Result<Index, LogError>)
        ensures
            match r {
                Ok(index) => {
                    &&& index_image_error(image@.len(), config.segment.max_index_bytes) is None
                    &&& index.wf()
                    &&& index.spec_image() == image@
                    &&& index.spec_capacity() == config.segment.max_index_bytes
                    &&& index.spec_name() == path@
                },
                Err(e) => e == LogError::Io || index_image_error(
                    image@.len(),
                    config.segment.max_index_bytes,
                ) == Some(e),
            },
            index_image_error(image@.len(), config.segment.max_index_bytes) matches Some(e) ==> r
                == Err::<Index, LogError>(e),
    {
        let capacity: u64 = config.segment.max_index_bytes;
        if capacity > usize::MAX as u64 || image.len() as u64 > capacity {
            return Err(LogError::CapacityExceeded);
        }
        if image.len() % 12 != 0 {
            return Err(LogError::UnexpectedEof);
        }
        Index::with_arena(arena_new(capacity as usize), image, path)
    }

    /// Opens an index over `image` in the region `arena`, or passes on that
    /// the region could not be had. The region is the index's own from here
    /// on: for one that maps a file, that nothing else changes the file is
    /// owed by whoever mapped it.
    pub fn with_arena(
        arena: Result<memmap2::MmapMut, std::io::Error>,
        image: &[u8],
        path: String,
    ) -> (r: Result<Index, LogError>)
        ensures
            match arena {
                Err(_) => r == Err::<Index, LogError>(LogError::Io),
                Ok(m) => if image@.len() > arena_bytes(m).len() {
                    r == Err::<Index, LogError>(LogError::CapacityExceeded)
                } else if image@.len() % 12 != 0 {
                    r == Err::<Index, LogError>(LogError::UnexpectedEof)
                } else {
                    &&& r matches Ok(index)
                    &&& index.wf()
                    &&& index.spec_image() == image@
                    &&& index.spec_capacity() == arena_bytes(m).len()
                    &&& index.spec_name() == path@
                },
            },
    {
        match arena {
            Err(_) => Err(LogError::Io),
            Ok(m) => {
                let mut mmap = m;
                let room: usize = arena_slice(&mmap).len();
                if image.len() > room {
                    return Err(LogError::CapacityExceeded);
                }
                if image.len() % 12 != 0 {
                    return Err(LogError::UnexpectedEof);
                }
                copy_into(arena_slice_mut(&mut mmap), 0, image);
                let size: u64 = image.len() as u64;
                assert(arena_bytes(mmap).subrange(0, size as int) =~= image@);
                Ok(Index { mmap, size, path })
            },
        }
    }

    /// Number of bytes in use.
    pub fn size(&self) -> (n: u64)
        requires
            self.wf(),
        ensures
            n == self.spec_image().len(),
            n == 12 * self@.len(),
    {
        self.size
    }

    /// Number of bytes that the region can hold.
    pub fn capacity(&self) -> (n: u64)
        requires
            self.wf(),
        ensures
            n == self.spec_capacity(),
    {
        let room: usize = arena_slice(&self.mmap).len();
        room as u64
    }

    /// Forgets every entry; the region and the name stay.
    pub fn clear(&mut self)
        requires
            old(self).wf(),
        ensures
            final(self).wf(),
            final(self).spec_image() == Seq::<u8>::empty(),
            final(self)@ == Seq::<(u32, u64)>::empty(),
            final(self).spec_capacity() == old(self).spec_capacity(),
            final(self).spec_name() == old(self).spec_name(),
    {
        self.size = 0;
        assert(self.spec_image() =~= Seq::<u8>::empty());
        assert(self@ =~= Seq::<(u32, u64)>::empty());
    }

    /// Reads the entry in slot `idx`, or the last entry for `idx == -1`.
    /// Fails where that slot holds no entry.
    pub fn read(&self, idx: i64) -> (r: Result<(u32, u64), LogError>)
        requires
            self.wf(),
        ensures
            match r {
                Ok(entry) => {
                    &&& 0 <= index_slot(idx as int, self@.len()) < self@.len()
                    &&& entry == self@[index_slot(idx as int, self@.len())]
                },
                Err(e) => {
                    &&& e == LogError::NotFound
                    &&& !(0 <= index_slot(idx as int, self@.len()) < self@.len())
                },
            },
    {
        if self.size == 0 {
            return Err(LogError::NotFound);
        }
        let count: u64 = self.size / ENT_WIDTH;
        let slot: u64 = if idx == -1 {
            count - 1
        } else if idx < 0 {
            return Err(LogError::NotFound);
        } else {
            idx as u64
        };
        if slot >= count {
            return Err(LogError::NotFound);
        }
        let at: usize = (slot * ENT_WIDTH) as usize;
        let region = arena_slice(&self.mmap);
        let off_bytes = slice_subrange(region, at, at + OFF_WIDTH as usize);
        let pos_bytes = slice_subrange(region, at + OFF_WIDTH as usize, at + ENT_WIDTH as usize);
        assert(off_bytes@ =~= self.spec_image().subrange(12 * slot, 12 * slot + 4));
        assert(pos_bytes@ =~= self.spec_image().subrange(12 * slot + 4, 12 * slot + 12));
        Ok((u32_from_le_bytes(off_bytes), u64_from_le_bytes(pos_bytes)))
    }

    /// Writes the entry `(off, pos)` into the next free slot. Fails, and
    /// changes nothing, where the region has no room for one more entry.
    pub fn write(&mut self, off: u32, pos: u64) -> (r: Result<(), LogError>)
        requires
            old(self).wf(),
        ensures
            final(self).wf(),
            final(self).spec_capacity() == old(self).spec_capacity(),
            final(self).spec_name() == old(self).spec_name(),
            match r {
                Ok(()) => {
                    &&& old(self).spec_image().len() + 12 <= old(self).spec_capacity()
                    &&& final(self).spec_image() == old(self).spec_image() + entry_bytes(off, pos)
                    &&& final(self).spec_image().len() == old(self).spec_image().len() + 12
                    &&& final(self)@ == old(self)@.push((off, pos))
                },
                Err(e) => {
                    &&& e == LogError::CapacityExceeded
                    &&& old(self).spec_image().len() + 12 > old(self).spec_capacity()
                    &&& final(self).spec_image() == old(self).spec_image()
                    &&& final(self)@ == old(self)@
                },
            },
    {
        let room: usize = arena_slice(&self.mmap).len();
        if (room as u64) < ENT_WIDTH || self.size > room as u64 - ENT_WIDTH {
            return Err(LogError::CapacityExceeded);
        }
        let at: usize = self.size as usize;
        let off_bytes = u32_to_le_bytes(off);
        let pos_bytes = u64_to_le_bytes(pos);
        proof {
            lemma_auto_spec_u32_to_from_le_bytes();
            lemma_auto_spec_u64_to_from_le_bytes();
        }
        copy_into(arena_slice_mut(&mut self.mmap), at, off_bytes.as_slice());
        copy_into(arena_slice_mut(&mut self.mmap), at + OFF_WIDTH as usize, pos_bytes.as_slice());
        self.size = self.size + ENT_WIDTH;
        proof {
            assert(self.spec_image() =~= old(self).spec_image() + entry_bytes(off, pos));
            lemma_decode_after_write(old(self).spec_image(), off, pos);
        }
        Ok(())
    }

    /// The name the index was opened under.
    pub fn name(&self) -> (r: Result<String, LogError>)
        ensures
            r matches Ok(n) && n@ == self.spec_name(),
    {
        Ok(self.path.clone())
    }

    /// The bytes that the file of the index holds, cut to the used size.
    pub fn image(&self) -> (image: Vec<u8>)
        requires
            self.wf(),
        ensures
            image@ == self.spec_image(),
    {
        slice_to_vec(slice_subrange(arena_slice(&self.mmap), 0, self.size as usize))
    }

    /// Closes the index: hands back the bytes that its file must hold, cut to
    /// the used size, for the index to be opened again as it is now.
    pub fn close(&mut self) -> (r: Result<Vec<u8>, LogError>)
        requires
            old(self).wf(),
        ensures
            *final(self) == *old(self),
            r matches Ok(image) && image@ == old(self).spec_image(),
    {
        Ok(self.image())
    }
}

} // verus!
