//! A segmented, append-only commit log.
//!
//! Records are stored under consecutive offsets. A [`Store`] holds the
//! length-prefixed record frames of one segment, an [`Index`] maps each
//! record of the segment to the position of its frame, a [`Segment`] binds
//! the two to a range of offsets, and a [`Log`] owns the ordered segments,
//! rotates to a new one when the active one is full, and routes reads.
//!
//! The library works on byte images: what a segment's two files hold is
//! handed in when a log is opened and handed back when it is closed. A log
//! opens over whatever the files hold, as long as each index is made of
//! whole entries and fits the configured size: a record whose entry is
//! damaged fails when it is read, and an offset that lies in no segment is
//! not found. What appends leave behind is sound, and in a sound log every
//! offset from the lowest to the highest reads as what was appended.
//!
//! An index lives in a mapped region of the configured size. Whether such a
//! region can be had is up to the machine, so each function that asks for
//! one ([`Index::new`], [`Segment::new`], [`Log::new`], [`Log::setup`],
//! [`Log::append`], [`Log::reset`]) has a twin that takes the region
//! instead and says what it returns for every region it may be given.

pub mod arena;
pub mod config;
pub mod discovery;
pub mod error;
pub mod index;
pub mod log;
pub mod model;
pub mod record;
pub mod segments;
pub mod store;

pub use config::{Config, SegmentConfig};
pub use error::LogError;
pub use index::Index;
pub use log::Log;
pub use record::{ConsumeRequest, ConsumeResponse, ProduceRequest, ProduceResponse, Record};
pub use segments::{Segment, SegmentImage};
pub use store::Store;
