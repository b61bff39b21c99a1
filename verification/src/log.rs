//! The log: the ordered segments, the active one last.

use crate::arena::{arena_bytes, arena_new};
use crate::config::Config;
use crate::error::LogError;
use crate::model::{
    append_outcome, append_refusal, effective_config, first_fault, first_region_fault,
    fresh_segment, image_fault, images_sound, lemma_find_first, lemma_find_none,
    lemma_truncate_push, log_append, log_has_room, log_highest, log_lookup, log_lowest,
    log_rotates, log_setup, log_truncate, log_uniform, opened, region_fault, regions_needed,
    regions_sound, truncated_bases, DEFAULT_MAX_BYTES,
};
use crate::record::Record;
use crate::segments::{lemma_maxed, Segment, SegmentImage, SegmentView};
use vstd::prelude::*;

verus! {

/// The ordered segments of a log; the last one is the active one.
#[derive(Debug)]
pub struct Log {
    dir: String,
    config: Config,
    segments: Vec<Segment>,
}

impl View for Log {
    type V = Seq<SegmentView>;

    /// The segments in ascending order of their base offsets.
    open spec fn view(&self) -> Seq<SegmentView> {
        Seq::new(self.spec_segments().len(), |i: int| self.spec_segments()[i]@)
    }
}

impl Log {
    /// The segments held, the active one last.
    pub closed spec fn spec_segments(&self) -> Seq<Segment> {
        self.segments@
    }

    /// The configuration in force, defaults filled in.
    pub closed spec fn spec_config(&self) -> Config {
        self.config
    }

    /// The directory the log was opened for.
    pub closed spec fn spec_dir(&self) -> Seq<char> {
        self.dir@
    }

    /// Whether `images` are, segment by segment, what the files of the log hold.
    pub open spec fn closes_to(&self, images: Seq<SegmentImage>) -> bool {
        &&& images.len() == self.spec_segments().len()
        &&& forall|i: int|
            0 <= i < images.len() ==> (#[trigger] self.spec_segments()[i]).closes_to(images[i])
    }

    /// Every segment is in order and was opened with the log's configuration
    /// and directory, and an index of the configured size can be addressed.
    pub closed spec fn wf(&self) -> bool {
        &&& self.config.segment.max_index_bytes <= usize::MAX
        &&& self.config == effective_config(self.config)
        &&& forall|i: int|
            0 <= i < self.segments@.len() ==> {
                &&& (#[trigger] self.segments@[i]).wf()
                &&& self.segments@[i].spec_config() == self.config
                &&& self.segments@[i].spec_dir() == self.dir@
            }
    }

    /// What a log is known to satisfy.
    pub proof fn lemma_wf(&self)
        requires
            self.wf(),
        ensures
            self.spec_config().segment.max_index_bytes <= usize::MAX,
            self.spec_config() == effective_config(self.spec_config()),
            log_uniform(self@, self.spec_config()),
            forall|i: int|
                0 <= i < self@.len() ==> (#[trigger] self@[i]).base_offset
                    <= self@[i].next_offset(),
            forall|i: int|
                0 <= i < self.spec_segments().len() ==> {
                    &&& (#[trigger] self.spec_segments()[i]).wf()
                    &&& self.spec_segments()[i].spec_config() == self.spec_config()
                    &&& self.spec_segments()[i].spec_dir() == self.spec_dir()
                },
    {
        assert forall|i: int| 0 <= i < self@.len() implies (#[trigger] self@[i]).base_offset
            <= self@[i].next_offset() by {
            self.spec_segments()[i].lemma_wf();
        }
    }

    /// Applies the default of 1024 bytes to a limit of zero.
    fn with_defaults(config: Config) -> (c: Config)
        ensures
            c == effective_config(config),
    {
        let mut c = config;
        if c.segment.max_store_bytes == 0 {
            c.segment.max_store_bytes = DEFAULT_MAX_BYTES;
        }
        if c.segment.max_index_bytes == 0 {
            c.segment.max_index_bytes = DEFAULT_MAX_BYTES;
        }
        c
    }

    /// A log for `dir` that holds no segment yet, with the defaults of
    /// `config` filled in.
    fn empty(dir: &str, config: Config) -> (r: Result<Log, LogError>)
        ensures
            match r {
                Ok(log) => {
                    &&& effective_config(config).segment.max_index_bytes <= usize::MAX
                    &&& log.wf()
                    &&& log.spec_config() == effective_config(config)
                    &&& log.spec_dir() == dir@
                    &&& log@ == Seq::<SegmentView>::empty()
                },
                Err(e) => {
                    &&& effective_config(config).segment.max_index_bytes > usize::MAX
                    &&& e == LogError::CapacityExceeded
                },
            },
    {
        let config = Log::with_defaults(config);
        if config.segment.max_index_bytes > usize::MAX as u64 {
            return Err(LogError::CapacityExceeded);
        }
        let log = Log { dir: dir.to_owned(), config, segments: Vec::new() };
        assert(log@ =~= Seq::<SegmentView>::empty());
        Ok(log)
    }

    /// Opens a log for `dir` over `images`, what the files of its segments
    /// hold, in ascending order of their base offsets. A limit of zero in
    /// `config` becomes 1024 bytes. An index size that cannot be addressed is
    /// refused, and so is the first image that has a fault, before memory is
    /// asked for; whether the memory for the indexes can then be had is up
    /// to the machine. See [`Log::setup`].
    pub fn new(dir: &str, config: Config, images: &Vec<SegmentImage>) -> (r: Result<Log, LogError>)
        ensures
            effective_config(config).segment.max_index_bytes > usize::MAX ==> r == Err::<
                Log,
                LogError,
            >(LogError::CapacityExceeded),
            forall|i: int, e: LogError|
                effective_config(config).segment.max_index_bytes <= usize::MAX && first_fault(
                    effective_config(config),
                    images@,
                    i,
                    e,
                ) ==> r == Err::<Log, LogError>(e),
            match r {
                Ok(log) => {
                    &&& effective_config(config).segment.max_index_bytes <= usize::MAX
                    &&& images_sound(effective_config(config), images@)
                    &&& log.wf()
                    &&& log.spec_config() == effective_config(config)
                    &&& log.spec_dir() == dir@
                    &&& log@ == log_setup(Seq::empty(), effective_config(config), images@)
                },
                Err(e) => {
                    ||| e == LogError::Io
                    ||| e == LogError::CapacityExceeded && effective_config(
                        config,
                    ).segment.max_index_bytes > usize::MAX
                    ||| effective_config(config).segment.max_index_bytes <= usize::MAX
                        && exists|i: int|
                        first_fault(effective_config(config), images@, i, e)
                },
            },
    {
        let mut log = match Log::empty(dir, config) {
            Ok(log) => log,
            Err(e) => {
                return Err(e);
            },
        };
        match log.setup(images) {
            Ok(()) => Ok(log),
            Err(e) => Err(e),
        }
    }

    /// Opens a log as [`Log::new`] does, in the regions `arenas` in place of
    /// regions asked for here: one for each image, in their order, or one
    /// for the fresh segment where there is no image. See
    /// [`Log::setup_with`].
    pub fn with_arenas(
        dir: &str,
        config: Config,
        images: &Vec<SegmentImage>,
        arenas: Vec<Result<memmap2::MmapMut, std::io::Error>>,
    ) -> (r: Result<Log, LogError>)
        ensures
            effective_config(config).segment.max_index_bytes > usize::MAX ==> r == Err::<
                Log,
                LogError,
            >(LogError::CapacityExceeded),
            forall|i: int, e: LogError|
                effective_config(config).segment.max_index_bytes <= usize::MAX && first_fault(
                    effective_config(config),
                    images@,
                    i,
                    e,
                ) ==> r == Err::<Log, LogError>(e),
            forall|i: int, e: LogError|
                effective_config(config).segment.max_index_bytes <= usize::MAX && images_sound(
                    effective_config(config),
                    images@,
                ) && first_region_fault(
                    effective_config(config),
                    arenas@,
                    regions_needed(Seq::empty(), images@),
                    i,
                    e,
                ) ==> r == Err::<Log, LogError>(e),
            effective_config(config).segment.max_index_bytes <= usize::MAX && images_sound(
                effective_config(config),
                images@,
            ) && regions_sound(
                effective_config(config),
                arenas@,
                regions_needed(Seq::empty(), images@),
            ) ==> r is Ok,
            r matches Ok(log) ==> {
                &&& log.wf()
                &&& log.spec_config() == effective_config(config)
                &&& log.spec_dir() == dir@
                &&& log@ == log_setup(Seq::empty(), effective_config(config), images@)
            },
    {
        let mut log = match Log::empty(dir, config) {
            Ok(log) => log,
            Err(e) => {
                return Err(e);
            },
        };
        match log.setup_with(images, arenas) {
            Ok(()) => Ok(log),
            Err(e) => Err(e),
        }
    }

    /// The fault of the first image that has one, if any has: a segment has
    /// to open over each. No memory is asked for.
    fn find_fault(&self, images: &Vec<SegmentImage>) -> (r: Option<LogError>)
        ensures
            match r {
                Some(e) => exists|i: int| first_fault(self.spec_config(), images@, i, e),
                None => images_sound(self.spec_config(), images@),
            },
            forall|i: int, e: LogError|
                first_fault(self.spec_config(), images@, i, e) ==> r == Some(e),
    {
        let ghost config = self.config;
        let mut i: usize = 0;
        while i < images.len()
            invariant
                i <= images@.len(),
                config == self.spec_config(),
                forall|j: int| 0 <= j < i ==> #[trigger] image_fault(config, images@, j) is None,
            decreases images@.len() - i,
        {
            let image = &images[i];
            match Segment::check(image.base_offset, self.config, image.index.as_slice()) {
                Some(e) => {
                    assert(first_fault(config, images@, i as int, e));
                    return Some(e);
                },
                None => {},
            }
            i = i + 1;
        }
        None
    }

    /// Opens one segment over each of the images, which have no fault, in
    /// the regions given, and puts the segments behind those held; or opens
    /// the fresh segment where there is neither a segment nor an image.
    fn open_all(
        &mut self,
        images: &Vec<SegmentImage>,
        arenas: Vec<Result<memmap2::MmapMut, std::io::Error>>,
    ) -> (r: Result<(), LogError>)
        requires
            old(self).wf(),
            images_sound(old(self).spec_config(), images@),
        ensures
            final(self).wf(),
            final(self).spec_config() == old(self).spec_config(),
            final(self).spec_dir() == old(self).spec_dir(),
            match r {
                Ok(()) => {
                    &&& regions_sound(
                        old(self).spec_config(),
                        arenas@,
                        regions_needed(old(self)@, images@),
                    )
                    &&& final(self)@ == log_setup(old(self)@, old(self).spec_config(), images@)
                },
                Err(e) => {
                    &&& final(self).spec_segments() == old(self).spec_segments()
                    &&& exists|i: int|
                        first_region_fault(
                            old(self).spec_config(),
                            arenas@,
                            regions_needed(old(self)@, images@),
                            i,
                            e,
                        )
                },
            },
            forall|i: int, e: LogError|
                first_region_fault(
                    old(self).spec_config(),
                    arenas@,
                    regions_needed(old(self)@, images@),
                    i,
                    e,
                ) ==> r == Err::<(), LogError>(e),
    {
        let ghost prev = self@;
        let ghost config = self.config;
        let ghost all = arenas@;
        let ghost needed = regions_needed(prev, images@);
        let held: usize = self.segments.len();
        let mut rest = reversed(arenas);
        let mut built: Vec<Segment> = Vec::new();
        if images.len() == 0 {
            if held == 0 {
                let arena = match rest.pop() {
                    Some(arena) => arena,
                    None => {
                        assert(first_region_fault(config, all, needed, 0, LogError::Io));
                        return Err(LogError::Io);
                    },
                };
                match self.new_segment_with(self.config.segment.initial_offset, arena) {
                    Ok(segment) => {
                        built.push(segment);
                    },
                    Err(e) => {
                        assert(seq![arena][0] == all[0]);
                        assert(first_region_fault(config, all, needed, 0, e));
                        return Err(e);
                    },
                }
            }
        } else {
            let mut i: usize = 0;
            while i < images.len()
                invariant
                    i <= images@.len(),
                    images@.len() > 0,
                    built@.len() == i,
                    *self == *old(self),
                    prev == old(self)@,
                    config == old(self).spec_config(),
                    config == self.config,
                    all == arenas@,
                    needed == regions_needed(prev, images@),
                    needed == images@.len(),
                    self.wf(),
                    images_sound(config, images@),
                    rest@.len() == (if i <= all.len() {
                        all.len() - i
                    } else {
                        0
                    }),
                    forall|k: int| 0 <= k < rest@.len() ==> rest@[k] == all[all.len() - 1 - k],
                    forall|j: int| 0 <= j < i ==> #[trigger] region_fault(config, all, j) is None,
                    forall|j: int|
                        0 <= j < i ==> {
                            &&& (#[trigger] built@[j]).wf()
                            &&& built@[j].spec_config() == config
                            &&& built@[j].spec_dir() == self.dir@
                            &&& built@[j]@ == opened(config, images@)[j]
                        },
                decreases images@.len() - i,
            {
                let image = &images[i];
                assert(image_fault(config, images@, i as int) is None);
                let arena = match rest.pop() {
                    Some(arena) => arena,
                    None => {
                        assert(first_region_fault(config, all, needed, i as int, LogError::Io));
                        return Err(LogError::Io);
                    },
                };
                assert(arena == all[i as int]);
                match Segment::assemble(
                    self.dir.as_str(),
                    image.base_offset,
                    self.config,
                    image.store.as_slice(),
                    image.index.as_slice(),
                    arena,
                ) {
                    Ok(segment) => {
                        built.push(segment);
                    },
                    Err(e) => {
                        assert(first_region_fault(config, all, needed, i as int, e));
                        return Err(e);
                    },
                }
                i = i + 1;
            }
        }
        let ghost added = built@;
        self.segments.append(&mut built);
        proof {
            assert(self.segments@ == old(self).segments@ + added);
            assert(self@ =~= log_setup(prev, config, images@));
        }
        Ok(())
    }

    /// Opens one segment over each image, in the order given, behind the
    /// segments already held; the last one opened becomes the active one.
    /// The images are taken as they come: in ascending order of their base
    /// offsets they give the segments in that order, whether or not one
    /// begins where the one before it ends. Where the log is left without a
    /// segment, a fresh one is opened at the configured initial offset. The
    /// first image whose index does not fit is refused with its error before
    /// memory is asked for; then the regions for the indexes
    /// are asked for, and whether they can be had is up to the machine.
    /// Fails, and changes nothing, in either case. With segments held and no
    /// image given there is nothing to open, and setup succeeds.
    pub fn setup(&mut self, images: &Vec<SegmentImage>) -> (r: Result<(), LogError>)
        requires
            old(self).wf(),
        ensures
            final(self).wf(),
            final(self).spec_config() == old(self).spec_config(),
            final(self).spec_dir() == old(self).spec_dir(),
            forall|i: int, e: LogError|
                first_fault(old(self).spec_config(), images@, i, e) ==> r == Err::<
                    (),
                    LogError,
                >(e),
            images@.len() == 0 && old(self)@.len() > 0 ==> r is Ok,
            match r {
                Ok(()) => {
                    &&& images_sound(old(self).spec_config(), images@)
                    &&& final(self)@ == log_setup(old(self)@, old(self).spec_config(), images@)
                },
                Err(e) => {
                    &&& final(self).spec_segments() == old(self).spec_segments()
                    &&& e == LogError::Io || exists|i: int|
                        first_fault(old(self).spec_config(), images@, i, e)
                },
            },
    {
        match self.find_fault(images) {
            Some(e) => {
                return Err(e);
            },
            None => {},
        }
        let needed: usize = if self.segments.len() == 0 && images.len() == 0 {
            1
        } else {
            images.len()
        };
        let capacity: usize = self.config.segment.max_index_bytes as usize;
        let mut arenas: Vec<Result<memmap2::MmapMut, std::io::Error>> = Vec::new();
        let mut i: usize = 0;
        while i < needed
            invariant
                i <= needed,
                arenas@.len() == i,
                capacity == self.config.segment.max_index_bytes,
                forall|k: int|
                    0 <= k < i ==> ((#[trigger] arenas@[k]) matches Ok(m) ==> arena_bytes(m).len()
                        == capacity),
            decreases needed - i,
        {
            arenas.push(arena_new(capacity));
            i = i + 1;
        }
        let ghost given = arenas@;
        let r = self.open_all(images, arenas);
        proof {
            if r is Err {
                let e = r.unwrap_err();
                let k = choose|k: int|
                    first_region_fault(
                        old(self).spec_config(),
                        given,
                        regions_needed(old(self)@, images@),
                        k,
                        e,
                    );
                assert(given[k] is Err);
            }
        }
        r
    }

    /// Sets the log up as [`Log::setup`] does, in the regions `arenas` in
    /// place of regions asked for here: one for each image, in their order,
    /// or one for the fresh segment where there is neither a segment nor an
    /// image. The first image that has a fault is refused with its error;
    /// with sound images, the first region that is missing or could not be
    /// had gives `Io`, and one that is not of the configured size
    /// `CapacityExceeded`; with none of these the log is set up. Fails, and
    /// changes nothing, in every other case.
    pub fn setup_with(
        &mut self,
        images: &Vec<SegmentImage>,
        arenas: Vec<Result<memmap2::MmapMut, std::io::Error>>,
    ) -> (r: Result<(), LogError>)
        requires
            old(self).wf(),
        ensures
            final(self).wf(),
            final(self).spec_config() == old(self).spec_config(),
            final(self).spec_dir() == old(self).spec_dir(),
            forall|i: int, e: LogError|
                first_fault(old(self).spec_config(), images@, i, e) ==> r == Err::<
                    (),
                    LogError,
                >(e),
            forall|i: int, e: LogError|
                images_sound(old(self).spec_config(), images@) && first_region_fault(
                    old(self).spec_config(),
                    arenas@,
                    regions_needed(old(self)@, images@),
                    i,
                    e,
                ) ==> r == Err::<(), LogError>(e),
            images_sound(old(self).spec_config(), images@) && regions_sound(
                old(self).spec_config(),
                arenas@,
                regions_needed(old(self)@, images@),
            ) ==> r is Ok,
            match r {
                Ok(()) => final(self)@ == log_setup(
                    old(self)@,
                    old(self).spec_config(),
                    images@,
                ),
                Err(_) => final(self).spec_segments() == old(self).spec_segments(),
            },
    {
        match self.find_fault(images) {
            Some(e) => Err(e),
            None => self.open_all(images, arenas),
        }
    }

    /// Puts `payload` into the active segment, which has room for it, and
    /// `spare`, the segment that follows where the record fills the active
    /// one, behind it.
    fn append_spare(&mut self, payload: &[u8], spare: Option<Segment>) -> (offset: u64)
        requires
            old(self).wf(),
            log_has_room(old(self)@, payload@.len()),
            spare is Some <==> log_rotates(old(self)@, payload@.len()),
            spare matches Some(segment) ==> {
                &&& segment.wf()
                &&& segment.spec_config() == old(self).spec_config()
                &&& segment.spec_dir() == old(self).spec_dir()
                &&& segment@ == fresh_segment(
                    (old(self)@.last().next_offset() + 1) as u64,
                    old(self).spec_config(),
                )
            },
        ensures
            final(self).wf(),
            final(self).spec_config() == old(self).spec_config(),
            final(self).spec_dir() == old(self).spec_dir(),
            offset == old(self)@.last().next_offset(),
            final(self)@ == log_append(old(self)@, payload@),
    {
        let last: usize = self.segments.len() - 1;
        let offset: u64 = match self.segments[last].append(payload) {
            Ok(offset) => offset,
            Err(_) => 0,
        };
        if let Some(segment) = spare {
            self.segments.push(segment);
        }
        proof {
            old(self).lemma_wf();
            lemma_maxed(old(self)@.last(), payload@);
            let grown = old(self)@.last().append(payload@);
            assert(self@[last as int] == grown);
            if grown.is_maxed() {
                assert(self@.last() == grown.successor());
            }
            assert(self@ =~= log_append(old(self)@, payload@));
        }
        offset
    }

    /// Appends `payload`, the serialised form of a record, as the record at
    /// the next offset of the active segment and returns that offset. Where
    /// the record fills the segment, so that it is full with the record in
    /// it, a fresh segment at the following offset becomes the active one.
    /// Fails, and changes nothing, where the log has no segment, where the
    /// active segment has no room, or where the memory for the index of the
    /// new segment cannot be had.
    pub fn append(&mut self, payload: &[u8]) -> (r: Result<u64, LogError>)
        requires
            old(self).wf(),
        ensures
            final(self).wf(),
            final(self).spec_config() == old(self).spec_config(),
            final(self).spec_dir() == old(self).spec_dir(),
            match r {
                Ok(offset) => {
                    &&& log_has_room(old(self)@, payload@.len())
                    &&& offset == old(self)@.last().next_offset()
                    &&& final(self)@ == log_append(old(self)@, payload@)
                },
                Err(e) => {
                    &&& final(self).spec_segments() == old(self).spec_segments()
                    &&& e == append_refusal(old(self)@, payload@.len())
                },
            },
            log_has_room(old(self)@, payload@.len()) && !log_rotates(old(self)@, payload@.len())
                ==> r is Ok,
    {
        let held: usize = self.segments.len();
        if held == 0 {
            return Err(LogError::NotFound);
        }
        let last: usize = held - 1;
        if !self.segments[last].has_room(payload.len()) {
            return Err(LogError::CapacityExceeded);
        }
        let spare: Option<Segment> = if self.segments[last].maxed_after(payload.len()) {
            let next: u64 = self.segments[last].next_offset() + 1;
            let arena = arena_new(self.config.segment.max_index_bytes as usize);
            match self.new_segment_with(next, arena) {
                Ok(segment) => Some(segment),
                Err(e) => {
                    return Err(e);
                },
            }
        } else {
            None
        };
        Ok(self.append_spare(payload, spare))
    }

    /// Appends as [`Log::append`] does, with the region `arena` for the
    /// index of the new segment in place of one asked for here. The region
    /// is looked at only where the record fills the active segment: one that
    /// could not be had gives `Io`, one that is not of the configured size
    /// `CapacityExceeded`, and the log stays as it is; with the region as it
    /// has to be, and wherever none is needed, the append succeeds.
    pub fn append_with(
        &mut self,
        payload: &[u8],
        arena: Result<memmap2::MmapMut, std::io::Error>,
    ) -> (r: Result<u64, LogError>)
        requires
            old(self).wf(),
        ensures
            final(self).wf(),
            final(self).spec_config() == old(self).spec_config(),
            final(self).spec_dir() == old(self).spec_dir(),
            r == append_outcome(old(self)@, old(self).spec_config(), payload@.len(), arena),
            match r {
                Ok(_) => final(self)@ == log_append(old(self)@, payload@),
                Err(_) => final(self).spec_segments() == old(self).spec_segments(),
            },
    {
        let held: usize = self.segments.len();
        if held == 0 {
            return Err(LogError::NotFound);
        }
        let last: usize = held - 1;
        if !self.segments[last].has_room(payload.len()) {
            return Err(LogError::CapacityExceeded);
        }
        let spare: Option<Segment> = if self.segments[last].maxed_after(payload.len()) {
            let next: u64 = self.segments[last].next_offset() + 1;
            match self.new_segment_with(next, arena) {
                Ok(segment) => Some(segment),
                Err(e) => {
                    return Err(e);
                },
            }
        } else {
            None
        };
        Ok(self.append_spare(payload, spare))
    }

    /// Reads the payload of the record at `offset` from the first segment
    /// whose range holds the offset. Nothing is found where no segment does.
    pub fn read(&self, offset: u64) -> (r: Result<Vec<u8>, LogError>)
        requires
            self.wf(),
        ensures
            match r {
                Ok(payload) => log_lookup(self@, offset as int) == Ok::<Seq<u8>, LogError>(
                    payload@,
                ),
                Err(e) => log_lookup(self@, offset as int) == Err::<Seq<u8>, LogError>(e),
            },
    {
        let mut i: usize = 0;
        while i < self.segments.len()
            invariant
                i <= self.segments@.len(),
                self.wf(),
                forall|k: int| 0 <= k < i ==> !(#[trigger] self@[k]).contains(offset as int),
            decreases self.segments@.len() - i,
        {
            let segment = &self.segments[i];
            if segment.base_offset() <= offset && offset < segment.next_offset() {
                proof {
                    lemma_find_first(self@, offset as int, 0, i as int);
                }
                return segment.read(offset);
            }
            i = i + 1;
        }
        proof {
            lemma_find_none(self@, offset as int, 0);
        }
        Err(LogError::NotFound)
    }

    /// The lowest offset of the log.
    pub fn lowest_offset(&self) -> (r: Result<u64, LogError>)
        requires
            self.wf(),
        ensures
            r matches Ok(offset) && offset == log_lowest(self@),
    {
        if self.segments.len() == 0 {
            Ok(0)
        } else {
            Ok(self.segments[0].base_offset())
        }
    }

    /// The highest offset of the log.
    pub fn highest_offset(&self) -> (r: Result<u64, LogError>)
        requires
            self.wf(),
        ensures
            r matches Ok(offset) && offset == log_highest(self@),
    {
        let held: usize = self.segments.len();
        if held == 0 {
            return Ok(0);
        }
        let next: u64 = self.segments[held - 1].next_offset();
        if next == 0 {
            Ok(0)
        } else {
            Ok(next - 1)
        }
    }

    /// The offset that the next record gets, or `None` for a log without
    /// segments.
    pub fn next_offset(&self) -> (r: Option<u64>)
        requires
            self.wf(),
        ensures
            match r {
                Some(offset) => self@.len() > 0 && offset == self@.last().next_offset(),
                None => self@.len() == 0,
            },
    {
        let held: usize = self.segments.len();
        if held == 0 {
            None
        } else {
            Some(self.segments[held - 1].next_offset())
        }
    }

    /// Closes every segment: hands back, segment by segment, what the files
    /// must hold for the log to be opened again as it is now.
    pub fn close(&mut self) -> (r: Result<Vec<SegmentImage>, LogError>)
        requires
            old(self).wf(),
        ensures
            final(self).wf(),
            final(self).spec_config() == old(self).spec_config(),
            final(self).spec_dir() == old(self).spec_dir(),
            final(self).spec_segments() == old(self).spec_segments(),
            r matches Ok(images) && old(self).closes_to(images@),
    {
        let mut images: Vec<SegmentImage> = Vec::new();
        let mut i: usize = 0;
        while i < self.segments.len()
            invariant
                self.segments@ =~= old(self).segments@,
                self.config == old(self).config,
                self.dir == old(self).dir,
                self.wf(),
                i <= self.segments@.len(),
                images@.len() == i,
                forall|k: int| 0 <= k < i ==> (#[trigger] self.segments@[k]).closes_to(images@[k]),
            decreases self.segments@.len() - i,
        {
            match self.segments[i].close() {
                Ok(image) => {
                    images.push(image);
                },
                Err(e) => {
                    return Err(e);
                },
            }
            assert(self.segments@ =~= old(self).segments@);
            assert(self@ =~= old(self)@);
            i = i + 1;
        }
        Ok(images)
    }

    /// Removes the log: closes it, then drops every segment, as deleting
    /// its directory does.
    pub fn remove(&mut self) -> (r: Result<(), LogError>)
        requires
            old(self).wf(),
        ensures
            final(self).wf(),
            final(self).spec_config() == old(self).spec_config(),
            final(self).spec_dir() == old(self).spec_dir(),
            final(self)@ == Seq::<SegmentView>::empty(),
            r is Ok,
    {
        match self.close() {
            Ok(_) => {},
            Err(e) => {
                return Err(e);
            },
        }
        self.segments.clear();
        assert(self@ =~= Seq::<SegmentView>::empty());
        Ok(())
    }

    /// Removes the log, then sets it up anew: one fresh segment at the
    /// configured initial offset. Where the memory for its index cannot be
    /// had, the log is left without a segment.
    pub fn reset(&mut self) -> (r: Result<(), LogError>)
        requires
            old(self).wf(),
        ensures
            final(self).wf(),
            final(self).spec_config() == old(self).spec_config(),
            final(self).spec_dir() == old(self).spec_dir(),
            match r {
                Ok(()) => final(self)@ == seq![
                    fresh_segment(
                        old(self).spec_config().segment.initial_offset,
                        old(self).spec_config(),
                    ),
                ],
                Err(e) => e == LogError::Io && final(self)@ == Seq::<SegmentView>::empty(),
            },
    {
        match self.remove() {
            Ok(()) => {},
            Err(e) => {
                return Err(e);
            },
        }
        let images: Vec<SegmentImage> = Vec::new();
        self.setup(&images)
    }

    /// Resets the log as [`Log::reset`] does, with the region `arena` for
    /// the index of the fresh segment in place of one asked for here: with a
    /// region that was had and is of the configured size the log is reset;
    /// else it is left without a segment, with `Io` for a region that could
    /// not be had and `CapacityExceeded` for one of another size.
    pub fn reset_with(&mut self, arena: Result<memmap2::MmapMut, std::io::Error>) -> (r: Result<
        (),
        LogError,
    >)
        requires
            old(self).wf(),
        ensures
            final(self).wf(),
            final(self).spec_config() == old(self).spec_config(),
            final(self).spec_dir() == old(self).spec_dir(),
            match region_fault(old(self).spec_config(), seq![arena], 0) {
                Some(e) => r == Err::<(), LogError>(e) && final(self)@ == Seq::<
                    SegmentView,
                >::empty(),
                None => r is Ok && final(self)@ == seq![
                    fresh_segment(
                        old(self).spec_config().segment.initial_offset,
                        old(self).spec_config(),
                    ),
                ],
            },
    {
        match self.remove() {
            Ok(()) => {},
            Err(e) => {
                return Err(e);
            },
        }
        let images: Vec<SegmentImage> = Vec::new();
        let mut arenas: Vec<Result<memmap2::MmapMut, std::io::Error>> = Vec::new();
        arenas.push(arena);
        let ghost config = self.spec_config();
        let ghost removed = self@;
        let ghost fault = region_fault(config, seq![arena], 0);
        proof {
            assert(arenas@[0] == arena);
            assert(region_fault(config, arenas@, 0) == fault);
            assert(removed.len() + images@.len() == 0);
            assert(regions_needed(removed, images@) == 1);
            assert(images_sound(config, images@));
            if fault is Some {
                assert(first_region_fault(config, arenas@, 1, 0, fault.unwrap()));
            } else {
                assert(regions_sound(config, arenas@, 1));
            }
        }
        let r = self.setup_with(&images, arenas);
        proof {
            if fault is Some {
                assert(r == Err::<(), LogError>(fault.unwrap()));
                assert(self@ =~= removed);
            } else {
                assert(r is Ok);
            }
        }
        r
    }

    /// Removes every segment whose whole range lies at or below `lowest`, the
    /// active one too where it does, and keeps the others in their order.
    /// Returns the base offsets of the segments removed.
    pub fn truncate(&mut self, lowest: u64) -> (r: Result<Vec<u64>, LogError>)
        requires
            old(self).wf(),
        ensures
            final(self).wf(),
            final(self).spec_config() == old(self).spec_config(),
            final(self).spec_dir() == old(self).spec_dir(),
            final(self)@ == log_truncate(old(self)@, lowest as int),
            r matches Ok(removed) && removed@ == truncated_bases(old(self)@, lowest as int),
    {
        let ghost before = self@;
        let ghost segments = self.segments@;
        let total: usize = self.segments.len();
        let mut rest: Vec<Segment> = Vec::new();
        while self.segments.len() > 0
            invariant
                self.config == old(self).config,
                self.dir == old(self).dir,
                self.config.segment.max_index_bytes <= usize::MAX,
                self.config == effective_config(self.config),
                segments == old(self).segments@,
                total == segments.len(),
                self.segments@.len() + rest@.len() == total,
                forall|k: int| 0 <= k < self.segments@.len() ==> self.segments@[k] == segments[k],
                forall|k: int| 0 <= k < rest@.len() ==> rest@[k] == segments[total - 1 - k],
            decreases self.segments@.len(),
        {
            match self.segments.pop() {
                Some(segment) => {
                    rest.push(segment);
                },
                None => {},
            }
        }
        let mut removed: Vec<u64> = Vec::new();
        let mut i: usize = 0;
        proof {
            old(self).lemma_wf();
            reveal(Seq::filter);
            assert(self@ =~= log_truncate(before.take(0), lowest as int));
            assert(removed@ =~= truncated_bases(before.take(0), lowest as int));
        }
        while i < total
            invariant
                i <= total,
                self.config == old(self).config,
                self.dir == old(self).dir,
                before == old(self)@,
                segments == old(self).segments@,
                total == segments.len(),
                total == before.len(),
                rest@.len() == total - i,
                forall|k: int| 0 <= k < rest@.len() ==> rest@[k] == segments[total - 1 - k],
                forall|k: int|
                    0 <= k < total ==> {
                        &&& (#[trigger] segments[k]).wf()
                        &&& segments[k].spec_config() == self.config
                        &&& segments[k].spec_dir() == self.dir@
                        &&& segments[k]@ == before[k]
                    },
                self.wf(),
                self@ == log_truncate(before.take(i as int), lowest as int),
                removed@ == truncated_bases(before.take(i as int), lowest as int),
            decreases total - i,
        {
            let ghost kept = self@;
            let ghost gone = removed@;
            match rest.pop() {
                Some(segment) => {
                    let mut segment = segment;
                    assert(segment == segments[i as int]);
                    let next: u64 = segment.next_offset();
                    if next != 0 && next - 1 > lowest {
                        self.segments.push(segment);
                        assert(self@ =~= kept.push(before[i as int]));
                    } else {
                        removed.push(segment.base_offset());
                        let _ = segment.remove();
                        assert(self@ =~= kept);
                    }
                },
                None => {},
            }
            proof {
                assert(before.take(i + 1) =~= before.take(i as int).push(before[i as int]));
                lemma_truncate_push(before.take(i as int), lowest as int, before[i as int]);
            }
            i = i + 1;
        }
        assert(before.take(total as int) =~= before);
        Ok(removed)
    }

    /// The record as it is to be stored next: `record` with the offset that
    /// the next append hands out, or `None` for a log without segments.
    pub fn stamp(&self, record: Record) -> (r: Option<Record>)
        requires
            self.wf(),
        ensures
            match r {
                Some(stamped) => {
                    &&& self@.len() > 0
                    &&& stamped.value == record.value
                    &&& stamped.offset == self@.last().next_offset()
                },
                None => self@.len() == 0,
            },
    {
        let held: usize = self.segments.len();
        if held == 0 {
            None
        } else {
            Some(self.segments[held - 1].stamp(record))
        }
    }

    /// Number of segments held.
    pub fn segment_count(&self) -> (n: usize)
        ensures
            n == self@.len(),
    {
        self.segments.len()
    }

    /// What the two files of segment `i` hold, counting from the oldest;
    /// `None` where the log has no such segment.
    pub fn image(&self, i: usize) -> (r: Option<SegmentImage>)
        requires
            self.wf(),
        ensures
            match r {
                Some(image) => i < self@.len() && self.spec_segments()[i as int].closes_to(image),
                None => i >= self@.len(),
            },
    {
        if i < self.segments.len() {
            Some(self.segments[i].image())
        } else {
            None
        }
    }

    /// A log that is closed and opened again from what it handed back, with
    /// the configuration it has, is the log it was: the images are accepted,
    /// and the segments, and with them the lowest and the highest offset and
    /// what is read at every offset, are the same.
    pub proof fn lemma_reopen(&self, images: Seq<SegmentImage>)
        requires
            self.wf(),
            self@.len() > 0,
            self.closes_to(images),
        ensures
            effective_config(self.spec_config()) == self.spec_config(),
            images_sound(self.spec_config(), images),
            log_setup(Seq::empty(), self.spec_config(), images) == self@,
            log_lowest(log_setup(Seq::empty(), self.spec_config(), images)) == log_lowest(self@),
            log_highest(log_setup(Seq::empty(), self.spec_config(), images)) == log_highest(
                self@,
            ),
            forall|offset: int|
                log_lookup(log_setup(Seq::empty(), self.spec_config(), images), offset)
                    == #[trigger] log_lookup(self@, offset),
    {
        self.lemma_wf();
        let config = self.spec_config();
        let none = Seq::<SegmentView>::empty();
        assert forall|i: int| 0 <= i < images.len() implies #[trigger] image_fault(
            config,
            images,
            i,
        ) is None by {
            let segment = self.spec_segments()[i];
            assert(segment.closes_to(images[i]));
            segment.lemma_wf();
        }
        assert forall|i: int| 0 <= i < images.len() implies opened(config, images)[i]
            == self@[i] by {
            assert(self.spec_segments()[i].closes_to(images[i]));
        }
        assert(none + opened(config, images) =~= self@);
    }

    /// Opens a fresh segment at `offset` in the region `arena`.
    fn new_segment_with(
        &self,
        offset: u64,
        arena: Result<memmap2::MmapMut, std::io::Error>,
    ) -> (r: Result<Segment, LogError>)
        requires
            self.spec_config().segment.max_index_bytes <= usize::MAX,
        ensures
            match region_fault(self.spec_config(), seq![arena], 0) {
                Some(e) => r == Err::<Segment, LogError>(e),
                None => {
                    &&& r matches Ok(segment)
                    &&& segment.wf()
                    &&& segment.spec_config() == self.spec_config()
                    &&& segment.spec_dir() == self.spec_dir()
                    &&& segment@ == fresh_segment(offset, self.spec_config())
                },
            },
    {
        let store: Vec<u8> = Vec::new();
        let index: Vec<u8> = Vec::new();
        assert(index@.len() / 12 == 0);
        let r = Segment::assemble(
            self.dir.as_str(),
            offset,
            self.config,
            store.as_slice(),
            index.as_slice(),
            arena,
        );
        proof {
            if r is Ok {
                assert(r.unwrap()@.entries =~= Seq::<(u32, u64)>::empty());
            }
        }
        r
    }
}

/// The items of `v`, last first.
fn reversed<T>(v: Vec<T>) -> (out: Vec<T>)
    ensures
        out@.len() == v@.len(),
        forall|k: int| 0 <= k < out@.len() ==> out@[k] == v@[v@.len() - 1 - k],
{
    let mut v = v;
    let ghost all = v@;
    let mut out: Vec<T> = Vec::new();
    while v.len() > 0
        invariant
            v@.len() + out@.len() == all.len(),
            forall|k: int| 0 <= k < v@.len() ==> v@[k] == all[k],
            forall|k: int| 0 <= k < out@.len() ==> out@[k] == all[all.len() - 1 - k],
        decreases v@.len(),
    {
        match v.pop() {
            Some(item) => {
                out.push(item);
            },
            None => {},
        }
    }
    out
}

} // verus!
