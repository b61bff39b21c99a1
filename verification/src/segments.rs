//! One segment of the log: a store and an index over one range of offsets.

use crate::arena::{arena_bytes, arena_new};
use crate::config::Config;
use crate::error::LogError;
use crate::index::{
    decode_entries, decode_entry, entry_at, entry_bytes, index_image_error, Index,
};
use crate::record::Record;
use crate::store::{frame, frame_at, lemma_frame_after_append, store_has_room, Store};
use vstd::prelude::*;
use vstd::slice::slice_to_vec;

verus! {

/// What the two files of a segment hold.
#[derive(Clone, Debug, PartialEq, Eq)]
pub struct SegmentImage {
    /// The first offset that the segment may hold.
    pub base_offset: u64,
    /// The bytes of the store file.
    pub store: Vec<u8>,
    /// The bytes of the index file, cut to the used size.
    pub index: Vec<u8>,
}

/// A segment as its callers see it: what its two files hold, decoded, and
/// the range of offsets that it stands for.
pub struct SegmentView {
    /// The first offset that the segment may hold.
    pub base_offset: u64,
    /// The offset that the next record gets.
    pub next: u64,
    /// The entries of the index, in slot order.
    pub entries: Seq<(u32, u64)>,
    /// The bytes of the store.
    pub store: Seq<u8>,
    /// The store size from which the segment is full.
    pub max_store_bytes: u64,
    /// The index size from which the segment is full; the capacity of the index.
    pub max_index_bytes: u64,
}

impl SegmentView {
    /// The offset that the next record gets.
    pub open spec fn next_offset(self) -> int {
        self.next as int
    }

    /// Whether `offset` lies in the range of the segment.
    pub open spec fn contains(self, offset: int) -> bool {
        self.base_offset <= offset < self.next_offset()
    }

    /// The payload of the frame that the entry in slot `slot` points at, or
    /// `None` where it points at no whole frame.
    pub open spec fn slot_payload(self, slot: int) -> Option<Seq<u8>> {
        frame_at(self.store, self.entries[slot].1 as int)
    }

    /// What reading at `offset` gives: nothing is found outside the range
    /// and beyond the entries of the index; inside, the payload that the
    /// entry of the offset points at, or the end of the store where it
    /// points at no whole frame.
    pub open spec fn lookup(self, offset: int) -> Result<Seq<u8>, LogError> {
        if !self.contains(offset) || offset - self.base_offset >= self.entries.len() {
            Err(LogError::NotFound)
        } else {
            match self.slot_payload(offset - self.base_offset) {
                Some(payload) => Ok(payload),
                None => Err(LogError::UnexpectedEof),
            }
        }
    }

    /// The payload at `offset`, in a sound segment.
    pub open spec fn record(self, offset: int) -> Seq<u8> {
        self.slot_payload(offset - self.base_offset).unwrap()
    }

    /// Whether the segment is as appends leave it: it holds one entry for
    /// each offset of its range, and each points at a whole frame.
    pub open spec fn sound(self) -> bool {
        &&& self.next_offset() == self.base_offset + self.entries.len()
        &&& forall|slot: int|
            0 <= slot < self.entries.len() ==> (#[trigger] self.slot_payload(slot)) is Some
    }

    /// Number of bytes in the store.
    pub open spec fn store_len(self) -> nat {
        self.store.len()
    }

    /// Number of bytes in the index.
    pub open spec fn index_len(self) -> nat {
        12 * self.entries.len()
    }

    /// Whether the store or the index has reached its limit.
    pub open spec fn is_maxed(self) -> bool {
        self.store_len() >= self.max_store_bytes || self.index_len() >= self.max_index_bytes
    }

    /// Whether one more record with a payload of `payload_len` bytes can be
    /// taken: the store can still be addressed, the index has a free slot, the
    /// relative offset fits its four bytes, and an offset is left to follow.
    pub open spec fn has_room(self, payload_len: nat) -> bool {
        &&& store_has_room(self.store_len(), payload_len)
        &&& self.index_len() + 12 <= self.max_index_bytes
        &&& self.next_offset() - self.base_offset <= u32::MAX
        &&& self.next_offset() < u64::MAX
    }

    /// Whether the segment is full once one more record with a payload of
    /// `payload_len` bytes is in it.
    pub open spec fn maxed_after(self, payload_len: nat) -> bool {
        self.store_len() + 8 + payload_len >= self.max_store_bytes || self.index_len() + 12
            >= self.max_index_bytes
    }

    /// The segment with one more record: its frame behind the store, its
    /// entry, the relative offset and the position of the frame, in the next
    /// free slot of the index.
    pub open spec fn append(self, payload: Seq<u8>) -> SegmentView {
        SegmentView {
            next: (self.next + 1) as u64,
            entries: self.entries.push(
                ((self.next - self.base_offset) as u32, self.store.len() as u64),
            ),
            store: self.store + frame(payload),
            ..self
        }
    }

    /// The segment without its records.
    pub open spec fn emptied(self) -> SegmentView {
        SegmentView { next: self.base_offset, entries: Seq::empty(), store: Seq::empty(), ..self }
    }

    /// The fresh segment that follows this one.
    pub open spec fn successor(self) -> SegmentView {
        SegmentView {
            base_offset: self.next,
            next: self.next,
            entries: Seq::empty(),
            store: Seq::empty(),
            ..self
        }
    }
}

/// Whether slot `slot` of an index image holds that slot's own number and
/// the position of a whole frame of the store image.
pub open spec fn entry_ok(store: Seq<u8>, index: Seq<u8>, slot: int) -> bool {
    &&& entry_at(index, slot).0 == slot
    &&& frame_at(store, entry_at(index, slot).1 as int) is Some
}

/// Whether every entry of an index image is in its place and points at a
/// whole frame of the store image: what appends leave behind, and what
/// makes every offset of the segment readable.
pub open spec fn segment_image_valid(store: Seq<u8>, index: Seq<u8>) -> bool {
    forall|slot: int| 0 <= slot < index.len() / 12 ==> #[trigger] entry_ok(store, index, slot)
}

/// The next offset of a segment at `base_offset` with these entries: the one
/// behind the relative offset of the last entry, or `base_offset` without
/// entries.
pub open spec fn recovered_next(base_offset: u64, entries: Seq<(u32, u64)>) -> int {
    if entries.len() == 0 {
        base_offset as int
    } else {
        base_offset + entries.last().0 + 1
    }
}

/// The segment that the two images stand for.
pub open spec fn image_view(base_offset: u64, config: Config, store: Seq<u8>, index: Seq<u8>)
    -> SegmentView {
    SegmentView {
        base_offset,
        next: recovered_next(base_offset, decode_entries(index)) as u64,
        entries: decode_entries(index),
        store,
        max_store_bytes: config.segment.max_store_bytes,
        max_index_bytes: config.segment.max_index_bytes,
    }
}

/// What stops a segment from being opened at `base_offset` over an index
/// image, if anything does: an image that does not fit the index or ends
/// inside an entry, or a next offset that is no offset any more. What the
/// entries say is not looked at: a record whose entry is damaged fails when
/// it is read.
pub open spec fn segment_open_error(base_offset: u64, config: Config, index: Seq<u8>) -> Option<
    LogError,
> {
    if index_image_error(index.len(), config.segment.max_index_bytes) is Some {
        index_image_error(index.len(), config.segment.max_index_bytes)
    } else if recovered_next(base_offset, decode_entries(index)) > u64::MAX {
        Some(LogError::CapacityExceeded)
    } else {
        None
    }
}

/// A segment with one more record in it is full exactly where
/// [`SegmentView::maxed_after`] says so, and a full segment stays full: a
/// segment is full from the append on that takes its store or its index to
/// the limit, and not before.
pub proof fn lemma_maxed(segment: SegmentView, payload: Seq<u8>)
    requires
        payload.len() <= u64::MAX,
    ensures
        segment.append(payload).is_maxed() == segment.maxed_after(payload.len()),
        segment.is_maxed() ==> segment.append(payload).is_maxed(),
        !segment.maxed_after(payload.len()) ==> !segment.is_maxed(),
{
    lemma_frame_after_append(segment.store, payload);
}

/// In a sound segment every offset of the range reads as the payload of its
/// record.
pub proof fn lemma_sound_reads(segment: SegmentView, offset: int)
    requires
        segment.sound(),
        segment.contains(offset),
    ensures
        segment.lookup(offset) == Ok::<Seq<u8>, LogError>(segment.record(offset)),
{
    assert(segment.slot_payload(offset - segment.base_offset) is Some);
}

/// An append to a sound segment that has room leaves it sound; the payload
/// reads back at the offset it got, and every offset that was in the range
/// reads as before.
pub proof fn lemma_append_sound(segment: SegmentView, payload: Seq<u8>)
    requires
        segment.sound(),
        segment.has_room(payload.len()),
    ensures
        segment.append(payload).sound(),
        segment.append(payload).next_offset() == segment.next_offset() + 1,
        segment.append(payload).lookup(segment.next_offset()) == Ok::<Seq<u8>, LogError>(payload),
        forall|offset: int| #[trigger]
            segment.contains(offset) ==> segment.append(payload).lookup(offset) == segment.lookup(
                offset,
            ),
{
    let after = segment.append(payload);
    let count = segment.entries.len() as int;
    lemma_frame_after_append(segment.store, payload);
    assert forall|slot: int| 0 <= slot < count + 1 implies (#[trigger] after.slot_payload(
        slot,
    )) == (if slot < count {
        segment.slot_payload(slot)
    } else {
        Some(payload)
    }) by {
        if slot < count {
            assert(segment.slot_payload(slot) is Some);
        }
    }
    assert(after.slot_payload(count) == Some(payload));
    assert forall|offset: int| #[trigger] segment.contains(offset) implies after.lookup(offset)
        == segment.lookup(offset) by {
        assert(after.slot_payload(offset - segment.base_offset) == segment.slot_payload(
            offset - segment.base_offset,
        ));
    }
}

/// Images whose entries are all in their place and point at whole frames
/// stand for a sound segment.
pub proof fn lemma_valid_images(base_offset: u64, config: Config, store: Seq<u8>, index: Seq<u8>)
    requires
        segment_image_valid(store, index),
        segment_open_error(base_offset, config, index) is None,
    ensures
        image_view(base_offset, config, store, index).sound(),
{
    let view = image_view(base_offset, config, store, index);
    let count = (index.len() / 12) as int;
    if count > 0 {
        assert(entry_ok(store, index, count - 1));
    }
    assert forall|slot: int| 0 <= slot < view.entries.len() implies (#[trigger] view.slot_payload(
        slot,
    )) is Some by {
        assert(entry_ok(store, index, slot));
    }
}

/// One segment of the log.
#[derive(Debug)]
pub struct Segment {
    store: Store,
    index: Index,
    base_offset: u64,
    next_offset: u64,
    config: Config,
}

impl View for Segment {
    type V = SegmentView;

    /// The segment that the store and the index stand for.
    open spec fn view(&self) -> SegmentView {
        image_view(
            self.spec_base_offset(),
            self.spec_config(),
            self.store_image(),
            self.index_image(),
        )
    }
}

impl Segment {
    /// The first offset that the segment may hold.
    pub closed spec fn spec_base_offset(&self) -> u64 {
        self.base_offset
    }

    /// The configuration the segment was opened with.
    pub closed spec fn spec_config(&self) -> Config {
        self.config
    }

    /// The bytes of the store file.
    pub closed spec fn store_image(&self) -> Seq<u8> {
        self.store@
    }

    /// The bytes of the index file, cut to the used size.
    pub closed spec fn index_image(&self) -> Seq<u8> {
        self.index.spec_image()
    }

    /// The name the segment was opened under.
    pub closed spec fn spec_dir(&self) -> Seq<char> {
        self.store.spec_name()
    }

    /// Whether `image` is what the segment's two files hold.
    pub open spec fn closes_to(&self, image: SegmentImage) -> bool {
        &&& image.base_offset == self.spec_base_offset()
        &&& image.store@ == self.store_image()
        &&& image.index@ == self.index_image()
    }

    /// Store and index are in order, the index is as large as configured, and
    /// the next offset is the one behind the last entry.
    pub closed spec fn wf(&self) -> bool {
        &&& self.store.wf()
        &&& self.index.wf()
        &&& self.index.spec_name() == self.store.spec_name()
        &&& self.index.spec_capacity() == self.config.segment.max_index_bytes
        &&& self.store@.len() <= usize::MAX
        &&& self.next_offset == recovered_next(self.base_offset, self.index@)
    }

    /// What the images of a segment are known to satisfy.
    pub proof fn lemma_wf(&self)
        requires
            self.wf(),
        ensures
            segment_open_error(self.spec_base_offset(), self.spec_config(), self.index_image())
                is None,
            self.store_image().len() <= usize::MAX,
            self@.base_offset <= self@.next_offset() <= self@.base_offset + u32::MAX + 1,
            self@.index_len() == self.index_image().len(),
            self@.index_len() <= self@.max_index_bytes,
    {
        self.index.lemma_image_len();
    }

    /// What stops a segment from being opened at `base_offset` over what its
    /// index file holds, if anything does. No memory is asked for.
    pub fn check(base_offset: u64, config: Config, index_image: &[u8]) -> (r: Option<LogError>)
        ensures
            r == segment_open_error(base_offset, config, index_image@),
    {
        let capacity: u64 = config.segment.max_index_bytes;
        if capacity > usize::MAX as u64 || index_image.len() as u64 > capacity {
            return Some(LogError::CapacityExceeded);
        }
        if index_image.len() % 12 != 0 {
            return Some(LogError::UnexpectedEof);
        }
        let count: usize = index_image.len() / 12;
        if count > 0 {
            let (off, _) = decode_entry(index_image, count - 1);
            assert(decode_entries(index_image@).last() == entry_at(index_image@, count - 1));
            if off as u64 >= u64::MAX - base_offset {
                return Some(LogError::CapacityExceeded);
            }
        }
        None
    }

    /// Puts a segment together over images that nothing is wrong with, in
    /// the region `arena`.
    pub(crate) fn assemble(
        dir: &str,
        base_offset: u64,
        config: Config,
        store_image: &[u8],
        index_image: &[u8],
        arena: Result<memmap2::MmapMut, std::io::Error>,
    ) -> (r: Result<Segment, LogError>)
        requires
            segment_open_error(base_offset, config, index_image@) is None,
        ensures
            match arena {
                Err(_) => r == Err::<Segment, LogError>(LogError::Io),
                Ok(m) => if arena_bytes(m).len() != config.segment.max_index_bytes {
                    r == Err::<Segment, LogError>(LogError::CapacityExceeded)
                } else {
                    &&& r matches Ok(segment)
                    &&& segment.wf()
                    &&& segment.spec_base_offset() == base_offset
                    &&& segment.spec_config() == config
                    &&& segment.store_image() == store_image@
                    &&& segment.index_image() == index_image@
                    &&& segment.spec_dir() == dir@
                },
            },
    {
        let index = match Index::with_arena(arena, index_image, dir.to_owned()) {
            Ok(index) => index,
            Err(e) => {
                return Err(e);
            },
        };
        if index.capacity() != config.segment.max_index_bytes {
            return Err(LogError::CapacityExceeded);
        }
        let store = Store::new(slice_to_vec(store_image), dir.to_owned());
        let next_offset: u64 = match index.read(-1) {
            Ok((off, _)) => {
                assert(off == decode_entries(index_image@).last().0);
                base_offset + off as u64 + 1
            },
            Err(_) => base_offset,
        };
        Ok(Segment { store, index, base_offset, next_offset, config })
    }

    /// Opens a segment at `base_offset` over what its two files hold: over
    /// any store, and over any index of whole entries that fits the
    /// configured size. The next offset is the one behind the relative offset
    /// of the last entry, or `base_offset` for an index without entries. An
    /// index that does not fit is refused before memory is asked for; whether
    /// the memory for the index can then be had is up to the machine.
    pub fn new(
        dir: &str,
        base_offset: u64,
        config: Config,
        store_image: &[u8],
        index_image: &[u8],
    ) -> (r: Result<Segment, LogError>)
        ensures
            match r {
                Ok(segment) => {
                    &&& segment_open_error(base_offset, config, index_image@) is None
                    &&& segment.wf()
                    &&& segment.spec_base_offset() == base_offset
                    &&& segment.spec_config() == config
                    &&& segment.store_image() == store_image@
                    &&& segment.index_image() == index_image@
                    &&& segment.spec_dir() == dir@
                },
                Err(e) => e == LogError::Io || segment_open_error(base_offset, config, index_image@)
                    == Some(e),
            },
            segment_open_error(base_offset, config, index_image@) matches Some(e)
                ==> r == Err::<Segment, LogError>(e),
    {
        match Segment::check(base_offset, config, index_image) {
            Some(e) => Err(e),
            None => {
                let arena = arena_new(config.segment.max_index_bytes as usize);
                Segment::assemble(dir, base_offset, config, store_image, index_image, arena)
            },
        }
    }

    /// Opens a segment as [`Segment::new`] does, in the region `arena` in
    /// place of one asked for here: what is wrong with the index image comes
    /// first, then that the region could not be had, then that it is not of
    /// the configured size; and with none of these the segment opens.
    pub fn with_arena(
        dir: &str,
        base_offset: u64,
        config: Config,
        store_image: &[u8],
        index_image: &[u8],
        arena: Result<memmap2::MmapMut, std::io::Error>,
    ) -> (r: Result<Segment, LogError>)
        ensures
            match segment_open_error(base_offset, config, index_image@) {
                Some(e) => r == Err::<Segment, LogError>(e),
                None => match arena {
                    Err(_) => r == Err::<Segment, LogError>(LogError::Io),
                    Ok(m) => if arena_bytes(m).len() != config.segment.max_index_bytes {
                        r == Err::<Segment, LogError>(LogError::CapacityExceeded)
                    } else {
                        &&& r matches Ok(segment)
                        &&& segment.wf()
                        &&& segment.spec_base_offset() == base_offset
                        &&& segment.spec_config() == config
                        &&& segment.store_image() == store_image@
                        &&& segment.index_image() == index_image@
                        &&& segment.spec_dir() == dir@
                    },
                },
            },
    {
        match Segment::check(base_offset, config, index_image) {
            Some(e) => Err(e),
            None => Segment::assemble(dir, base_offset, config, store_image, index_image, arena),
        }
    }

    /// The first offset that the segment may hold.
    pub fn base_offset(&self) -> (n: u64)
        ensures
            n == self@.base_offset,
    {
        self.base_offset
    }

    /// The offset that the next record gets.
    pub fn next_offset(&self) -> (n: u64)
        requires
            self.wf(),
        ensures
            n == self@.next_offset(),
    {
        proof {
            self.index.lemma_image_len();
        }
        self.next_offset
    }

    /// Whether one more record with a payload of `payload_len` bytes can be taken.
    pub fn has_room(&self, payload_len: usize) -> (b: bool)
        requires
            self.wf(),
        ensures
            b == self@.has_room(payload_len as nat),
    {
        proof {
            self.index.lemma_image_len();
        }
        let held: u64 = self.store.size();
        let used: u64 = self.index.size();
        let room: u64 = self.index.capacity();
        held as usize <= usize::MAX - 8 && payload_len <= usize::MAX - 8 - held as usize && room
            - used >= 12 && self.next_offset - self.base_offset <= u32::MAX as u64
            && self.next_offset < u64::MAX
    }

    /// Whether the segment is full once one more record of `payload_len`
    /// bytes is in it.
    pub fn maxed_after(&self, payload_len: usize) -> (b: bool)
        requires
            self.wf(),
        ensures
            b == self@.maxed_after(payload_len as nat),
    {
        proof {
            self.index.lemma_image_len();
        }
        let held: u64 = self.store.size();
        let used: u64 = self.index.size();
        let max_store: u64 = self.config.segment.max_store_bytes;
        let max_index: u64 = self.config.segment.max_index_bytes;
        let store_full: bool = max_store < 8 || held >= max_store - 8 || payload_len as u64
            >= max_store - 8 - held;
        let index_full: bool = max_index < 12 || used >= max_index - 12;
        store_full || index_full
    }

    /// Appends `payload` as the record at the next offset: its frame goes to
    /// the store, its entry to the index, and the offset it got is returned.
    /// Fails, and changes nothing, where the segment has no room for it.
    pub fn append(&mut self, payload: &[u8]) -> (r: Result<u64, LogError>)
        requires
            old(self).wf(),
        ensures
            final(self).wf(),
            final(self).spec_base_offset() == old(self).spec_base_offset(),
            final(self).spec_config() == old(self).spec_config(),
            final(self).spec_dir() == old(self).spec_dir(),
            match r {
                Ok(offset) => {
                    &&& old(self)@.has_room(payload@.len())
                    &&& offset == old(self)@.next_offset()
                    &&& final(self)@ == old(self)@.append(payload@)
                    &&& final(self).store_image() == old(self).store_image() + frame(payload@)
                    &&& final(self).index_image() == old(self).index_image() + entry_bytes(
                        (offset - old(self)@.base_offset) as u32,
                        old(self).store_image().len() as u64,
                    )
                },
                Err(e) => {
                    &&& !old(self)@.has_room(payload@.len())
                    &&& e == LogError::CapacityExceeded
                    &&& final(self)@ == old(self)@
                    &&& final(self).store_image() == old(self).store_image()
                    &&& final(self).index_image() == old(self).index_image()
                },
            },
    {
        if !self.has_room(payload.len()) {
            return Err(LogError::CapacityExceeded);
        }
        proof {
            self.index.lemma_image_len();
            lemma_frame_after_append(self.store@, payload@);
        }
        let offset: u64 = self.next_offset;
        let relative: u32 = (offset - self.base_offset) as u32;
        let (_, pos) = match self.store.append(payload) {
            Ok(written) => written,
            Err(e) => {
                return Err(e);
            },
        };
        match self.index.write(relative, pos) {
            Ok(()) => {},
            Err(e) => {
                return Err(e);
            },
        }
        self.next_offset = offset + 1;
        proof {
            self.index.lemma_image_len();
            assert(self.index@.last() == (relative, pos));
        }
        Ok(offset)
    }

    /// Reads the payload of the record at `offset`: the entry in the slot of
    /// the offset gives the position, and the store the frame that stands
    /// there. Nothing is found outside the range of the segment and beyond
    /// the entries of its index; where the entry points at no whole frame,
    /// the store ends too early.
    pub fn read(&self, offset: u64) -> (r: Result<Vec<u8>, LogError>)
        requires
            self.wf(),
        ensures
            match r {
                Ok(payload) => self@.lookup(offset as int) == Ok::<Seq<u8>, LogError>(payload@),
                Err(e) => self@.lookup(offset as int) == Err::<Seq<u8>, LogError>(e),
            },
    {
        proof {
            self.index.lemma_image_len();
        }
        if offset < self.base_offset || offset >= self.next_offset {
            return Err(LogError::NotFound);
        }
        let relative: u64 = offset - self.base_offset;
        let pos: u64 = match self.index.read(relative as i64) {
            Ok((_, pos)) => pos,
            Err(e) => {
                return Err(e);
            },
        };
        self.store.read(pos)
    }

    /// Whether the store or the index has reached its configured limit.
    pub fn is_maxed(&self) -> (b: bool)
        requires
            self.wf(),
        ensures
            b == self@.is_maxed(),
    {
        proof {
            self.index.lemma_image_len();
        }
        self.store.size() >= self.config.segment.max_store_bytes || self.index.size()
            >= self.config.segment.max_index_bytes
    }

    /// The record as it is to be stored next: `record` with the offset that
    /// the next append hands out. What is appended is the serialised form of
    /// this record.
    pub fn stamp(&self, record: Record) -> (stamped: Record)
        requires
            self.wf(),
        ensures
            stamped.value == record.value,
            stamped.offset == self@.next_offset(),
    {
        proof {
            self.index.lemma_image_len();
        }
        Record { value: record.value, offset: self.next_offset }
    }

    /// What the two files of the segment hold.
    pub fn image(&self) -> (image: SegmentImage)
        requires
            self.wf(),
        ensures
            self.closes_to(image),
    {
        SegmentImage {
            base_offset: self.base_offset,
            store: self.store.image(),
            index: self.index.image(),
        }
    }

    /// Closes the segment, index first: hands back what its two files must
    /// hold for the segment to be opened again as it is now.
    pub fn close(&mut self) -> (r: Result<SegmentImage, LogError>)
        requires
            old(self).wf(),
        ensures
            *final(self) == *old(self),
            r matches Ok(image) && old(self).closes_to(image),
    {
        let index = match self.index.close() {
            Ok(index) => index,
            Err(e) => {
                return Err(e);
            },
        };
        let store = match self.store.close() {
            Ok(store) => store,
            Err(e) => {
                return Err(e);
            },
        };
        Ok(SegmentImage { base_offset: self.base_offset, store, index })
    }

    /// Removes the segment's records: closes it, then empties the store and
    /// the index, as deleting its two files does.
    pub fn remove(&mut self) -> (r: Result<(), LogError>)
        requires
            old(self).wf(),
        ensures
            final(self).wf(),
            final(self)@ == old(self)@.emptied(),
            final(self).spec_base_offset() == old(self).spec_base_offset(),
            final(self).spec_config() == old(self).spec_config(),
            final(self).spec_dir() == old(self).spec_dir(),
            r is Ok,
    {
        match self.close() {
            Ok(_) => {},
            Err(e) => {
                return Err(e);
            },
        }
        self.index.clear();
        self.store.clear();
        self.next_offset = self.base_offset;
        assert(self@.entries =~= Seq::<(u32, u64)>::empty());
        Ok(())
    }
}

} // verus!
