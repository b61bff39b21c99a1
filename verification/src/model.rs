//! The log as its callers see it: a sequence of segments, each a range of
//! offsets with what its two files hold. What the operations of a
//! [`Log`](crate::log::Log) do is said over this sequence, and so is what
//! holds of every log, and of every log that appends have built.

use crate::arena::arena_bytes;
use crate::config::{Config, SegmentConfig};
use crate::error::LogError;
use crate::index::decode_entries;
use crate::segments::{
    image_view, lemma_append_sound, lemma_sound_reads, lemma_valid_images, recovered_next,
    segment_image_valid, segment_open_error, SegmentImage, SegmentView,
};
use vstd::prelude::*;

verus! {

/// The limit that stands in for a configured limit of zero.
pub const DEFAULT_MAX_BYTES: u64 = 1024;

/// The configuration a log works with: a limit of zero becomes 1024.
pub open spec fn effective_config(config: Config) -> Config {
    Config {
        segment: SegmentConfig {
            max_store_bytes: if config.segment.max_store_bytes == 0 {
                DEFAULT_MAX_BYTES
            } else {
                config.segment.max_store_bytes
            },
            max_index_bytes: if config.segment.max_index_bytes == 0 {
                DEFAULT_MAX_BYTES
            } else {
                config.segment.max_index_bytes
            },
            initial_offset: config.segment.initial_offset,
        },
    }
}

/// A segment at `base_offset` that holds nothing yet.
pub open spec fn fresh_segment(base_offset: u64, config: Config) -> SegmentView {
    SegmentView {
        base_offset,
        next: base_offset,
        entries: Seq::empty(),
        store: Seq::empty(),
        max_store_bytes: config.segment.max_store_bytes,
        max_index_bytes: config.segment.max_index_bytes,
    }
}

/// Each segment ends no earlier than it begins, and begins where the one
/// before it ends. A log that starts fresh and grows by appends is so; a log
/// opened over the files of a directory is so where no segment is missing.
pub open spec fn log_contiguous(log: Seq<SegmentView>) -> bool {
    &&& forall|i: int|
        0 <= i < log.len() ==> (#[trigger] log[i]).base_offset <= log[i].next_offset()
    &&& forall|i: int, j: int|
        0 <= i && j == i + 1 && j < log.len() ==> (#[trigger] log[j]).base_offset == (
        #[trigger] log[i]).next_offset()
}

/// The log is contiguous and every segment is sound: what appends to a
/// fresh log leave, and what makes every offset of the log readable.
pub open spec fn log_sound(log: Seq<SegmentView>) -> bool {
    &&& log_contiguous(log)
    &&& forall|i: int| 0 <= i < log.len() ==> (#[trigger] log[i]).sound()
}

/// Every segment has the limits of `config`.
pub open spec fn log_uniform(log: Seq<SegmentView>, config: Config) -> bool {
    forall|i: int|
        0 <= i < log.len() ==> (#[trigger] log[i]).max_store_bytes
            == config.segment.max_store_bytes && log[i].max_index_bytes
            == config.segment.max_index_bytes
}

/// The lowest offset of the log: the base offset of its first segment, 0
/// for a log without segments.
pub open spec fn log_lowest(log: Seq<SegmentView>) -> int {
    if log.len() == 0 {
        0
    } else {
        log[0].base_offset as int
    }
}

/// The highest offset of the log: the one before the next offset of its
/// last segment. By convention it is 0 for a log without segments and for a
/// log whose next offset is 0; a log that holds no record yet and starts
/// above 0 reports the offset before its first.
pub open spec fn log_highest(log: Seq<SegmentView>) -> int {
    if log.len() == 0 || log.last().next_offset() == 0 {
        0
    } else {
        log.last().next_offset() - 1
    }
}

/// Whether `offset` lies in the range of some segment.
pub open spec fn log_holds(log: Seq<SegmentView>, offset: int) -> bool {
    exists|i: int| 0 <= i < log.len() && (#[trigger] log[i]).contains(offset)
}

/// The first segment from `from` on whose range holds `offset`; the number
/// of segments where none does.
pub open spec fn log_find(log: Seq<SegmentView>, offset: int, from: int) -> int
    decreases log.len() - from,
{
    if from >= log.len() || (0 <= from && log[from].contains(offset)) {
        from
    } else {
        log_find(log, offset, from + 1)
    }
}

/// What reading at `offset` gives: what the first segment whose range holds
/// the offset gives, and nothing where none does.
pub open spec fn log_lookup(log: Seq<SegmentView>, offset: int) -> Result<Seq<u8>, LogError> {
    if 0 <= log_find(log, offset, 0) < log.len() {
        log[log_find(log, offset, 0)].lookup(offset)
    } else {
        Err(LogError::NotFound)
    }
}

/// Whether the active segment can take a record of `payload_len` bytes.
pub open spec fn log_has_room(log: Seq<SegmentView>, payload_len: nat) -> bool {
    log.len() > 0 && log.last().has_room(payload_len)
}

/// Whether a record of `payload_len` bytes fills the active segment, so that
/// a new segment follows it.
pub open spec fn log_rotates(log: Seq<SegmentView>, payload_len: nat) -> bool {
    log.len() > 0 && log.last().maxed_after(payload_len)
}

/// The log after `payload` was appended: the active segment has one more
/// record and, where that fills it, a fresh segment follows at the next offset.
pub open spec fn log_append(log: Seq<SegmentView>, payload: Seq<u8>) -> Seq<SegmentView> {
    let grown = log.last().append(payload);
    let kept = log.update(log.len() - 1, grown);
    if grown.is_maxed() {
        kept.push(grown.successor())
    } else {
        kept
    }
}

/// Why a record of `payload_len` bytes is refused where it is: the log has
/// no segment, or the active segment has no room; or else the memory for the
/// index of the segment that would follow could not be had.
pub open spec fn append_refusal(log: Seq<SegmentView>, payload_len: nat) -> LogError {
    if log.len() == 0 {
        LogError::NotFound
    } else if !log.last().has_room(payload_len) {
        LogError::CapacityExceeded
    } else {
        LogError::Io
    }
}

/// What an append of `payload_len` bytes returns where `arena` is the region
/// for the index of the segment that may follow: the offset that was next;
/// or why the record is refused, where the region is looked at only if the
/// record fills the active segment.
pub open spec fn append_outcome(
    log: Seq<SegmentView>,
    config: Config,
    payload_len: nat,
    arena: Result<memmap2::MmapMut, std::io::Error>,
) -> Result<u64, LogError> {
    if log.len() == 0 {
        Err(LogError::NotFound)
    } else if !log.last().has_room(payload_len) {
        Err(LogError::CapacityExceeded)
    } else if log_rotates(log, payload_len) && region_fault(config, seq![arena], 0) is Some {
        Err(region_fault(config, seq![arena], 0).unwrap())
    } else {
        Ok(log.last().next_offset() as u64)
    }
}

/// Segments further back begin no earlier than segments further front end.
pub proof fn lemma_ordered(log: Seq<SegmentView>, i: int, j: int)
    requires
        log_contiguous(log),
        0 <= i < j < log.len(),
    ensures
        log[i].next_offset() <= log[j].base_offset,
    decreases j - i,
{
    if i + 1 < j {
        lemma_ordered(log, i, j - 1);
        assert(log[j].base_offset == log[j - 1].next_offset());
        assert(log[j - 1].base_offset <= log[j - 1].next_offset());
    } else {
        assert(log[j].base_offset == log[j - 1].next_offset());
    }
}

/// Where no segment from `from` up to segment `i` holds `offset` in its
/// range and segment `i` does, segment `i` is the one found.
pub proof fn lemma_find_first(log: Seq<SegmentView>, offset: int, from: int, i: int)
    requires
        0 <= from <= i < log.len(),
        log[i].contains(offset),
        forall|k: int| from <= k < i ==> !(#[trigger] log[k]).contains(offset),
    ensures
        log_find(log, offset, from) == i,
    decreases i - from,
{
    if from < i {
        lemma_find_first(log, offset, from + 1, i);
    }
}

/// Where no segment from `from` on holds `offset` in its range, none is found.
pub proof fn lemma_find_none(log: Seq<SegmentView>, offset: int, from: int)
    requires
        0 <= from <= log.len(),
        forall|k: int| from <= k < log.len() ==> !(#[trigger] log[k]).contains(offset),
    ensures
        log_find(log, offset, from) == log.len(),
    decreases log.len() - from,
{
    if from < log.len() {
        lemma_find_none(log, offset, from + 1);
    }
}

/// In a contiguous log at most one segment holds an offset in its range, so
/// what is read at an offset is what that segment gives.
pub proof fn lemma_found(log: Seq<SegmentView>, i: int, offset: int)
    requires
        log_contiguous(log),
        0 <= i < log.len(),
        log[i].contains(offset),
    ensures
        log_holds(log, offset),
        log_find(log, offset, 0) == i,
        log_lookup(log, offset) == log[i].lookup(offset),
{
    assert forall|k: int| 0 <= k < i implies !(#[trigger] log[k]).contains(offset) by {
        lemma_ordered(log, k, i);
    }
    lemma_find_first(log, offset, 0, i);
}

/// Whether truncation below `lowest` keeps a segment: it holds, or will
/// hold, an offset above `lowest`.
pub open spec fn outlives(segment: SegmentView, lowest: int) -> bool {
    segment.next_offset() > lowest + 1
}

/// The test that truncation below `lowest` puts to each segment.
pub open spec fn outliving(lowest: int) -> spec_fn(SegmentView) -> bool {
    |segment: SegmentView| outlives(segment, lowest)
}

/// The test that picks the segments that truncation below `lowest` removes.
pub open spec fn not_outliving(lowest: int) -> spec_fn(SegmentView) -> bool {
    |segment: SegmentView| !outlives(segment, lowest)
}

/// The log after truncation below `lowest`: the segments that outlive it,
/// in their order.
pub open spec fn log_truncate(log: Seq<SegmentView>, lowest: int) -> Seq<SegmentView> {
    log.filter(outliving(lowest))
}

/// The base offsets of the segments that truncation below `lowest` removes,
/// in their order.
pub open spec fn truncated_bases(log: Seq<SegmentView>, lowest: int) -> Seq<u64> {
    log.filter(not_outliving(lowest)).map_values(|segment: SegmentView| segment.base_offset)
}

/// Where a test fails on the first `k` items of a sequence and holds on all
/// others, filtering by it leaves the items from `k` on, and filtering by its
/// opposite leaves the first `k`.
pub proof fn lemma_filter_split<A>(
    s: Seq<A>,
    keep: spec_fn(A) -> bool,
    drop: spec_fn(A) -> bool,
    k: int,
)
    requires
        0 <= k <= s.len(),
        forall|a: A| #[trigger] drop(a) == !keep(a),
        forall|i: int| 0 <= i < k ==> !keep(#[trigger] s[i]),
        forall|i: int| k <= i < s.len() ==> keep(#[trigger] s[i]),
    ensures
        s.filter(keep) == s.subrange(k, s.len() as int),
        s.filter(drop) == s.subrange(0, k),
    decreases s.len(),
{
    reveal(Seq::filter);
    if s.len() == 0 {
        assert(s.filter(keep) =~= s.subrange(k, s.len() as int));
        assert(s.filter(drop) =~= s.subrange(0, k));
    } else {
        let front = s.drop_last();
        if k == s.len() {
            lemma_filter_split(front, keep, drop, k - 1);
            assert(!keep(s[k - 1]));
        } else {
            lemma_filter_split(front, keep, drop, k);
            assert(keep(s[s.len() - 1]));
        }
        assert(s.filter(keep) =~= s.subrange(k, s.len() as int));
        assert(s.filter(drop) =~= s.subrange(0, k));
    }
}

/// Filtering a sequence with one more item behind it: the item is kept
/// behind what was kept where the test holds of it, and left out where not.
pub proof fn lemma_filter_push<A>(s: Seq<A>, keep: spec_fn(A) -> bool, item: A)
    ensures
        s.push(item).filter(keep) == if keep(item) {
            s.filter(keep).push(item)
        } else {
            s.filter(keep)
        },
{
    reveal(Seq::filter);
    assert(s.push(item).drop_last() =~= s);
}

/// Truncation of a log with one more segment behind it: the segment is kept
/// behind what was kept where it outlives the truncation, and its base
/// offset stands behind those removed where it does not.
pub proof fn lemma_truncate_push(log: Seq<SegmentView>, lowest: int, segment: SegmentView)
    ensures
        log_truncate(log.push(segment), lowest) == if outlives(segment, lowest) {
            log_truncate(log, lowest).push(segment)
        } else {
            log_truncate(log, lowest)
        },
        truncated_bases(log.push(segment), lowest) == if outlives(segment, lowest) {
            truncated_bases(log, lowest)
        } else {
            truncated_bases(log, lowest).push(segment.base_offset)
        },
{
    lemma_filter_push(log, outliving(lowest), segment);
    lemma_filter_push(log, not_outliving(lowest), segment);
    assert(truncated_bases(log.push(segment), lowest) =~= if outlives(segment, lowest) {
        truncated_bases(log, lowest)
    } else {
        truncated_bases(log, lowest).push(segment.base_offset)
    });
}

/// What is wrong with image `i`, if anything: no segment can be opened over
/// its index.
pub open spec fn image_fault(config: Config, images: Seq<SegmentImage>, i: int) -> Option<
    LogError,
> {
    segment_open_error(images[i].base_offset, config, images[i].index@)
}

/// Whether a segment can be opened over every image.
pub open spec fn images_sound(config: Config, images: Seq<SegmentImage>) -> bool {
    forall|i: int| 0 <= i < images.len() ==> #[trigger] image_fault(config, images, i) is None
}

/// Whether image `i` is the first one with a fault, and `e` is that fault.
pub open spec fn first_fault(config: Config, images: Seq<SegmentImage>, i: int, e: LogError)
    -> bool {
    &&& 0 <= i < images.len()
    &&& image_fault(config, images, i) == Some(e)
    &&& forall|j: int| 0 <= j < i ==> #[trigger] image_fault(config, images, j) is None
}

/// Whether each image begins where the one before it ends.
pub open spec fn images_contiguous(images: Seq<SegmentImage>) -> bool {
    forall|i: int, j: int|
        0 <= i && j == i + 1 && j < images.len() ==> (#[trigger] images[j]).base_offset
            == recovered_next((#[trigger] images[i]).base_offset, decode_entries(images[i].index@))
}

/// Whether in every image each entry of the index is in its place and
/// points at a whole frame of the store.
pub open spec fn images_valid(images: Seq<SegmentImage>) -> bool {
    forall|i: int|
        0 <= i < images.len() ==> segment_image_valid(
            (#[trigger] images[i]).store@,
            images[i].index@,
        )
}

/// How many regions setup over `images` asks for: one for the index of each
/// image, or one for the fresh segment where there is neither a segment nor
/// an image.
pub open spec fn regions_needed(prev: Seq<SegmentView>, images: Seq<SegmentImage>) -> nat {
    if prev.len() + images.len() == 0 {
        1
    } else {
        images.len()
    }
}

/// What is wrong with region `i` of `arenas`, if anything: it is not there or
/// could not be had, or it is not of the configured size.
pub open spec fn region_fault(
    config: Config,
    arenas: Seq<Result<memmap2::MmapMut, std::io::Error>>,
    i: int,
) -> Option<LogError> {
    if i >= arenas.len() {
        Some(LogError::Io)
    } else {
        match arenas[i] {
            Err(_) => Some(LogError::Io),
            Ok(m) => if arena_bytes(m).len() != config.segment.max_index_bytes {
                Some(LogError::CapacityExceeded)
            } else {
                None
            },
        }
    }
}

/// Whether each of the first `count` regions was had and is of the
/// configured size.
pub open spec fn regions_sound(
    config: Config,
    arenas: Seq<Result<memmap2::MmapMut, std::io::Error>>,
    count: nat,
) -> bool {
    forall|i: int| 0 <= i < count ==> #[trigger] region_fault(config, arenas, i) is None
}

/// Whether region `i` is the first of the first `count` with a fault, and
/// `e` is that fault.
pub open spec fn first_region_fault(
    config: Config,
    arenas: Seq<Result<memmap2::MmapMut, std::io::Error>>,
    count: nat,
    i: int,
    e: LogError,
) -> bool {
    &&& 0 <= i < count
    &&& region_fault(config, arenas, i) == Some(e)
    &&& forall|j: int| 0 <= j < i ==> #[trigger] region_fault(config, arenas, j) is None
}

/// Where one of the first `upto` images has a fault, one of them is the
/// first to have one.
pub proof fn lemma_first_fault_below(config: Config, images: Seq<SegmentImage>, upto: int)
    requires
        0 <= upto <= images.len(),
        exists|j: int| 0 <= j < upto && (#[trigger] image_fault(config, images, j)) is Some,
    ensures
        exists|i: int, e: LogError| first_fault(config, images, i, e),
    decreases upto,
{
    if exists|j: int| 0 <= j < upto - 1 && (#[trigger] image_fault(config, images, j)) is Some {
        lemma_first_fault_below(config, images, upto - 1);
    } else {
        let last = upto - 1;
        assert(image_fault(config, images, last) is Some);
        assert(first_fault(config, images, last, image_fault(config, images, last).unwrap()));
    }
}

/// Images are sound, or one of them is the first with a fault: so setup
/// either finds nothing wrong with the images or fails with one error that
/// the images alone decide.
pub proof fn lemma_first_fault(config: Config, images: Seq<SegmentImage>)
    ensures
        images_sound(config, images) || exists|i: int, e: LogError|
            first_fault(config, images, i, e),
{
    if !images_sound(config, images) {
        lemma_first_fault_below(config, images, images.len() as int);
    }
}

/// Where one of the first `upto` regions has a fault, one of them is the
/// first to have one.
pub proof fn lemma_first_region_fault_below(
    config: Config,
    arenas: Seq<Result<memmap2::MmapMut, std::io::Error>>,
    count: nat,
    upto: int,
)
    requires
        0 <= upto <= count,
        exists|j: int| 0 <= j < upto && (#[trigger] region_fault(config, arenas, j)) is Some,
    ensures
        exists|i: int, e: LogError| first_region_fault(config, arenas, count, i, e),
    decreases upto,
{
    if exists|j: int| 0 <= j < upto - 1 && (#[trigger] region_fault(config, arenas, j)) is Some {
        lemma_first_region_fault_below(config, arenas, count, upto - 1);
    } else {
        let last = upto - 1;
        assert(region_fault(config, arenas, last) is Some);
        assert(first_region_fault(
            config,
            arenas,
            count,
            last,
            region_fault(config, arenas, last).unwrap(),
        ));
    }
}

/// The regions are sound, or one of them is the first with a fault.
pub proof fn lemma_first_region_fault(
    config: Config,
    arenas: Seq<Result<memmap2::MmapMut, std::io::Error>>,
    count: nat,
)
    ensures
        regions_sound(config, arenas, count) || exists|i: int, e: LogError|
            first_region_fault(config, arenas, count, i, e),
{
    if !regions_sound(config, arenas, count) {
        lemma_first_region_fault_below(config, arenas, count, count as int);
    }
}

/// The segments that the images stand for, in their order.
pub open spec fn opened(config: Config, images: Seq<SegmentImage>) -> Seq<SegmentView> {
    Seq::new(
        images.len(),
        |i: int| image_view(images[i].base_offset, config, images[i].store@, images[i].index@),
    )
}

/// The log after setup over `images`: the segments that were there, then
/// those of the images; or, where that leaves none, one fresh segment at the
/// configured initial offset.
pub open spec fn log_setup(prev: Seq<SegmentView>, config: Config, images: Seq<SegmentImage>)
    -> Seq<SegmentView> {
    if prev.len() + images.len() == 0 {
        seq![fresh_segment(config.segment.initial_offset, config)]
    } else {
        prev + opened(config, images)
    }
}

/// Images that a segment opens over, each beginning where the one before it
/// ends, open as a contiguous log; and as a sound one where the entries of
/// every index are in their place and point at whole frames.
pub proof fn lemma_opened(config: Config, images: Seq<SegmentImage>)
    requires
        images_sound(config, images),
        images_contiguous(images),
    ensures
        log_contiguous(opened(config, images)),
        images_valid(images) ==> log_sound(opened(config, images)),
{
    let log = opened(config, images);
    assert forall|i: int| 0 <= i < log.len() implies (#[trigger] log[i]).base_offset
        <= log[i].next_offset() by {
        assert(image_fault(config, images, i) is None);
    }
    assert forall|i: int, j: int| 0 <= i && j == i + 1 && j < log.len() implies (
    #[trigger] log[j]).base_offset == (#[trigger] log[i]).next_offset() by {
        assert(image_fault(config, images, i) is None);
        assert(images[j].base_offset == recovered_next(
            images[i].base_offset,
            decode_entries(images[i].index@),
        ));
    }
    if images_valid(images) {
        assert forall|i: int| 0 <= i < log.len() implies (#[trigger] log[i]).sound() by {
            assert(image_fault(config, images, i) is None);
            assert(segment_image_valid(images[i].store@, images[i].index@));
            lemma_valid_images(images[i].base_offset, config, images[i].store@, images[i].index@);
        }
    }
}

/// The log after the payloads were appended one after another.
pub open spec fn log_appends(log: Seq<SegmentView>, payloads: Seq<Seq<u8>>) -> Seq<SegmentView>
    decreases payloads.len(),
{
    if payloads.len() == 0 {
        log
    } else {
        log_append(log_appends(log, payloads.drop_last()), payloads.last())
    }
}

/// Whether the log had room for each of the payloads when its turn came.
pub open spec fn appends_accepted(log: Seq<SegmentView>, payloads: Seq<Seq<u8>>) -> bool
    decreases payloads.len(),
{
    payloads.len() == 0 || (appends_accepted(log, payloads.drop_last()) && log_has_room(
        log_appends(log, payloads.drop_last()),
        payloads.last().len(),
    ))
}

/// How many of the appends filled a segment, so that a new one followed.
pub open spec fn log_rotations(log: Seq<SegmentView>, payloads: Seq<Seq<u8>>) -> nat
    decreases payloads.len(),
{
    if payloads.len() == 0 {
        0
    } else {
        log_rotations(log, payloads.drop_last()) + if log_rotates(
            log_appends(log, payloads.drop_last()),
            payloads.last().len(),
        ) {
            1nat
        } else {
            0nat
        }
    }
}

/// In a contiguous log, an offset from the lowest offset up to the end of
/// segment `upto` lies in one of the segments up to that one.
pub proof fn lemma_held_below(log: Seq<SegmentView>, upto: int, offset: int)
    requires
        log_contiguous(log),
        0 <= upto < log.len(),
        log[0].base_offset <= offset < log[upto].next_offset(),
    ensures
        log_holds(log, offset),
    decreases upto,
{
    if offset >= log[upto].base_offset {
        assert(log[upto].contains(offset));
    } else {
        assert(log[upto].base_offset == log[upto - 1].next_offset());
        lemma_held_below(log, upto - 1, offset);
    }
}

/// The segments of a contiguous log split the range from its lowest offset
/// to its next offset among them: an offset is held exactly where it lies in
/// that range, and no two segments hold the same offset.
pub proof fn lemma_segments_partition(log: Seq<SegmentView>, offset: int, i: int, j: int)
    requires
        log_contiguous(log),
        log.len() > 0,
    ensures
        log_holds(log, offset) <==> log[0].base_offset <= offset < log.last().next_offset(),
        0 <= i < j < log.len() ==> !(log[i].contains(offset) && log[j].contains(offset)),
{
    if 0 <= i < j < log.len() {
        lemma_ordered(log, i, j);
    }
    let last = log.len() - 1;
    if log[0].base_offset <= offset < log.last().next_offset() {
        lemma_held_below(log, last, offset);
    }
    if log_holds(log, offset) {
        let k = choose|k: int| 0 <= k < log.len() && (#[trigger] log[k]).contains(offset);
        if 0 < k {
            lemma_ordered(log, 0, k);
        }
        if k < last {
            lemma_ordered(log, k, last);
        }
    }
}

/// In a sound log every offset from the lowest up to the next offset reads
/// as the payload of its record.
pub proof fn lemma_range_reads(log: Seq<SegmentView>, offset: int)
    requires
        log_sound(log),
        log.len() > 0,
        log[0].base_offset <= offset < log.last().next_offset(),
    ensures
        log_lookup(log, offset) is Ok,
{
    lemma_held_below(log, log.len() - 1, offset);
    let i = choose|i: int| 0 <= i < log.len() && (#[trigger] log[i]).contains(offset);
    lemma_found(log, i, offset);
    lemma_sound_reads(log[i], offset);
}

/// One append to a sound log: the payload reads back at the offset that was
/// next, the next offset moves on by one, every offset that was held reads
/// as before, the log stays sound, and it grows by one segment exactly where
/// the record filled the active one.
pub proof fn lemma_append(log: Seq<SegmentView>, payload: Seq<u8>)
    requires
        log_sound(log),
        log_has_room(log, payload.len()),
    ensures
        log_sound(log_append(log, payload)),
        log_append(log, payload).len() == log.len() + if log_rotates(log, payload.len()) {
            1int
        } else {
            0int
        },
        log_append(log, payload)[0].base_offset == log[0].base_offset,
        log_append(log, payload).last().next_offset() == log.last().next_offset() + 1,
        log_lookup(log_append(log, payload), log.last().next_offset()) == Ok::<Seq<u8>, LogError>(
            payload,
        ),
        forall|offset: int| #[trigger]
            log_holds(log, offset) ==> log_lookup(log_append(log, payload), offset) == log_lookup(
                log,
                offset,
            ),
{
    let after = log_append(log, payload);
    let last = log.len() - 1;
    let next = log.last().next_offset();
    let grown = log.last().append(payload);
    assert(log[last].sound());
    lemma_append_sound(log[last], payload);
    crate::segments::lemma_maxed(log[last], payload);
    assert forall|i: int| 0 <= i < after.len() implies (#[trigger] after[i]).sound() by {
        if i < last {
            assert(log[i].sound());
        }
    }
    assert forall|i: int| 0 <= i < after.len() implies (#[trigger] after[i]).base_offset
        <= after[i].next_offset() by {
        if i < last {
            assert(log[i].base_offset <= log[i].next_offset());
        }
    }
    assert forall|i: int, j: int| 0 <= i && j == i + 1 && j < after.len() implies (
    #[trigger] after[j]).base_offset == (#[trigger] after[i]).next_offset() by {
        if j <= last {
            assert(log[j].base_offset == log[i].next_offset());
        }
    }
    assert(after[last].contains(next));
    lemma_found(after, last, next);
    assert forall|offset: int| #[trigger] log_holds(log, offset) implies log_lookup(after, offset)
        == log_lookup(log, offset) by {
        let i = choose|i: int| 0 <= i < log.len() && (#[trigger] log[i]).contains(offset);
        lemma_found(log, i, offset);
        assert(after[i].contains(offset));
        lemma_found(after, i, offset);
    }
}

/// Any run of appends to a sound log: the next offset moves on by one for
/// each, so that the appends get consecutive offsets; every offset that was
/// held reads as before; the log stays sound from the same lowest offset,
/// and has one more segment for each append that filled one.
pub proof fn lemma_appends(log: Seq<SegmentView>, payloads: Seq<Seq<u8>>)
    requires
        log_sound(log),
        log.len() > 0,
        appends_accepted(log, payloads),
    ensures
        log_sound(log_appends(log, payloads)),
        log_appends(log, payloads).len() == log.len() + log_rotations(log, payloads),
        log_appends(log, payloads)[0].base_offset == log[0].base_offset,
        log_appends(log, payloads).last().next_offset() == log.last().next_offset()
            + payloads.len(),
        forall|offset: int| #[trigger]
            log_holds(log, offset) ==> log_holds(log_appends(log, payloads), offset) && log_lookup(
                log_appends(log, payloads),
                offset,
            ) == log_lookup(log, offset),
    decreases payloads.len(),
{
    if payloads.len() > 0 {
        let front = payloads.drop_last();
        let before = log_appends(log, front);
        let after = log_appends(log, payloads);
        lemma_appends(log, front);
        lemma_append(before, payloads.last());
        assert forall|offset: int| #[trigger] log_holds(log, offset) implies log_holds(
            after,
            offset,
        ) && log_lookup(after, offset) == log_lookup(log, offset) by {
            assert(log_holds(before, offset));
            lemma_holds_after_append(before, payloads.last(), offset);
        }
    }
}

/// An offset that a sound log holds is still held after an append.
pub proof fn lemma_holds_after_append(log: Seq<SegmentView>, payload: Seq<u8>, offset: int)
    requires
        log.len() > 0,
        log.last().next_offset() < u64::MAX,
        log_holds(log, offset),
    ensures
        log_holds(log_append(log, payload), offset),
{
    let after = log_append(log, payload);
    let i = choose|i: int| 0 <= i < log.len() && (#[trigger] log[i]).contains(offset);
    assert(after[i].contains(offset));
}

/// After any run of appends to a sound log, payload `i` of the run reads
/// back at the offset that lies `i` behind the one that was next when the
/// run began: what is read there is what was appended.
pub proof fn lemma_appended_record(log: Seq<SegmentView>, payloads: Seq<Seq<u8>>, i: int)
    requires
        log_sound(log),
        log.len() > 0,
        appends_accepted(log, payloads),
        0 <= i < payloads.len(),
    ensures
        log_lookup(log_appends(log, payloads), log.last().next_offset() + i) == Ok::<
            Seq<u8>,
            LogError,
        >(payloads[i]),
    decreases payloads.len(),
{
    let front = payloads.drop_last();
    let before = log_appends(log, front);
    let start = log.last().next_offset();
    lemma_appends(log, front);
    lemma_append(before, payloads.last());
    if i < front.len() {
        lemma_appended_record(log, front, i);
        lemma_segments_partition(before, start + i, 0, 0);
        lemma_ordered_start(log, before, start);
        assert(log_holds(before, start + i));
    }
}

/// The next offset of a log lies no lower than its lowest offset.
pub proof fn lemma_ordered_start(log: Seq<SegmentView>, after: Seq<SegmentView>, start: int)
    requires
        log_contiguous(log),
        log.len() > 0,
        after.len() > 0,
        after[0].base_offset == log[0].base_offset,
        start == log.last().next_offset(),
    ensures
        after[0].base_offset <= start,
{
    if log.len() > 1 {
        lemma_ordered(log, 0, log.len() - 1);
    }
    assert(log[0].base_offset <= log[0].next_offset());
    assert(log.last().base_offset <= log.last().next_offset());
}

/// A log that starts fresh at `initial_offset` and takes a run of appends
/// has one segment more than appends that filled one, and its segments split
/// the range from `initial_offset` to the next offset among them: an offset
/// is held exactly where it lies in that range, and by one segment only.
pub proof fn lemma_fresh_log_partition(
    initial_offset: u64,
    config: Config,
    payloads: Seq<Seq<u8>>,
    offset: int,
    i: int,
    j: int,
)
    requires
        appends_accepted(seq![fresh_segment(initial_offset, config)], payloads),
    ensures
        ({
            let log = log_appends(seq![fresh_segment(initial_offset, config)], payloads);
            &&& log.len() == log_rotations(seq![fresh_segment(initial_offset, config)], payloads)
                + 1
            &&& log_sound(log)
            &&& log[0].base_offset == initial_offset
            &&& log.last().next_offset() == initial_offset + payloads.len()
            &&& log_holds(log, offset) <==> initial_offset <= offset < initial_offset
                + payloads.len()
            &&& 0 <= i < j < log.len() ==> !(log[i].contains(offset) && log[j].contains(offset))
        }),
{
    let start = seq![fresh_segment(initial_offset, config)];
    assert(start[0].sound());
    lemma_appends(start, payloads);
    lemma_segments_partition(log_appends(start, payloads), offset, i, j);
}

/// Truncation of a contiguous log keeps it contiguous, keeps every offset
/// of a segment that outlives it reading as before, and leaves nothing to be
/// found at an offset of a segment that does not.
pub proof fn lemma_truncate(log: Seq<SegmentView>, lowest: int, i: int, offset: int)
    requires
        log_contiguous(log),
    ensures
        log_contiguous(log_truncate(log, lowest)),
        0 <= i < log.len() && log[i].contains(offset) && outlives(log[i], lowest) ==> log_lookup(
            log_truncate(log, lowest),
            offset,
        ) == log_lookup(log, offset),
        0 <= i < log.len() && log[i].contains(offset) && !outlives(log[i], lowest) ==> log_lookup(
            log_truncate(log, lowest),
            offset,
        ) == Err::<Seq<u8>, LogError>(LogError::NotFound),
{
    let after = log_truncate(log, lowest);
    let k = first_outliving(log, lowest, 0);
    lemma_first_outliving(log, lowest, 0);
    lemma_filter_split(log, outliving(lowest), not_outliving(lowest), k);
    assert(after == log.subrange(k, log.len() as int));
    assert forall|a: int| 0 <= a < after.len() implies (#[trigger] after[a]).base_offset
        <= after[a].next_offset() by {
        assert(log[a + k].base_offset <= log[a + k].next_offset());
    }
    assert forall|a: int, b: int| 0 <= a && b == a + 1 && b < after.len() implies (
    #[trigger] after[b]).base_offset == (#[trigger] after[a]).next_offset() by {
        assert(log[b + k].base_offset == log[a + k].next_offset());
    }
    if 0 <= i < log.len() && log[i].contains(offset) {
        lemma_found(log, i, offset);
        if outlives(log[i], lowest) {
            assert(i >= k);
            assert(after[i - k].contains(offset));
            lemma_found(after, i - k, offset);
        } else {
            assert(i < k);
            assert forall|a: int| 0 <= a < after.len() implies !(#[trigger] after[a]).contains(
                offset,
            ) by {
                assert(after[a] == log[a + k]);
                lemma_ordered(log, i, a + k);
            }
            lemma_find_none(after, offset, 0);
        }
    }
}

/// The first segment from `from` on that outlives truncation below `lowest`;
/// the number of segments where none does.
pub open spec fn first_outliving(log: Seq<SegmentView>, lowest: int, from: int) -> int
    decreases log.len() - from,
{
    if from >= log.len() || outlives(log[from], lowest) {
        from
    } else {
        first_outliving(log, lowest, from + 1)
    }
}

/// In a contiguous log the segments that do not outlive a truncation stand
/// before all those that do.
pub proof fn lemma_first_outliving(log: Seq<SegmentView>, lowest: int, from: int)
    requires
        log_contiguous(log),
        0 <= from <= log.len(),
        forall|i: int| 0 <= i < from ==> !outlives(#[trigger] log[i], lowest),
    ensures
        from <= first_outliving(log, lowest, from) <= log.len(),
        forall|i: int|
            0 <= i < first_outliving(log, lowest, from) ==> !outlives(#[trigger] log[i], lowest),
        forall|i: int|
            first_outliving(log, lowest, from) <= i < log.len() ==> outlives(
                #[trigger] log[i],
                lowest,
            ),
    decreases log.len() - from,
{
    if from >= log.len() {
    } else if outlives(log[from], lowest) {
        assert forall|i: int| from <= i < log.len() implies outlives(#[trigger] log[i], lowest) by {
            if i > from {
                lemma_ordered(log, from, i);
            }
        }
    } else {
        lemma_first_outliving(log, lowest, from + 1);
    }
}

} // verus!
