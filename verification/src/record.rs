//! The messages that go to and from a log server, as plain values.

use vstd::prelude::*;

verus! {

/// A record of the log: a payload, and the offset that it was stored under.
#[derive(Clone, Debug, Default, PartialEq)]
pub struct Record {
    pub value: Vec<u8>,
    pub offset: u64,
}

/// Asks for a record to be appended.
#[derive(Clone, Debug, Default, PartialEq)]
pub struct ProduceRequest {
    pub record: Option<Record>,
}

/// Tells the offset that an appended record got.
#[derive(Clone, Debug, Default, PartialEq)]
pub struct ProduceResponse {
    pub offset: u64,
}

/// Asks for the record at an offset.
#[derive(Clone, Debug, Default, PartialEq)]
pub struct ConsumeRequest {
    pub offset: u64,
}

/// Carries the record that was asked for.
#[derive(Clone, Debug, Default, PartialEq)]
pub struct ConsumeResponse {
    pub record: Option<Record>,
}

} // verus!
