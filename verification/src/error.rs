//! Error types, one per subsystem.

use vstd::prelude::*;

verus! {

/// A datum whose field is out of range; the variant carries the offending value.
#[derive(Debug, Clone, PartialEq, Eq)]
pub enum GrawDataError {
    BadAgetID(u8),
    BadChannel(u8),
    BadTimeBucket(u16),
}

/// A frame that breaks the structure of the format.
#[derive(Debug, Clone, PartialEq, Eq)]
pub enum GrawFrameError {
    /// The buffer ended before the content it declares: bytes needed, bytes present.
    IOError(u64, u64),
    IncorrectMetaType(u8),
    /// Declared frame size in size units, and the length of the buffer in bytes.
    IncorrectFrameSize(u32, u32),
    IncorrectFrameType(u16),
    IncorrectHeaderSize(u16),
    IncorrectItemSize(u16),
    BadDatum(GrawDataError),
}

impl From<GrawDataError> for GrawFrameError {
    fn from(value: GrawDataError) -> (r: Self) {
        GrawFrameError::BadDatum(value)
    }
}

impl vstd::std_specs::convert::FromSpecImpl<GrawDataError> for GrawFrameError {
    open spec fn obeys_from_spec() -> bool {
        true
    }

    open spec fn from_spec(value: GrawDataError) -> Self {
        GrawFrameError::BadDatum(value)
    }
}

/// A failure of a receiver task.
#[derive(Debug, Clone, PartialEq, Eq)]
pub enum ECCReceiverError {
    BadFrame(GrawFrameError),
    AddressParseError,
    EndOfStream,
    /// The socket failed.
    IOError,
    /// Connecting took longer than allowed.
    Timeout,
}

impl From<GrawFrameError> for ECCReceiverError {
    fn from(value: GrawFrameError) -> (r: Self) {
        ECCReceiverError::BadFrame(value)
    }
}

impl vstd::std_specs::convert::FromSpecImpl<GrawFrameError> for ECCReceiverError {
    open spec fn obeys_from_spec() -> bool {
        true
    }

    open spec fn from_spec(value: GrawFrameError) -> Self {
        ECCReceiverError::BadFrame(value)
    }
}

/// A pad map text that cannot be read.
#[derive(Debug, Clone, PartialEq, Eq)]
pub enum PadMapError {
    /// The text could not be obtained at all.
    IOError,
    /// A field is not an unsigned decimal number that fits its width.
    ParsingError,
    /// A line does not hold five fields, or holds white space.
    BadFileFormat,
}

/// A frame that an event cannot take.
#[derive(Debug, Clone, PartialEq, Eq)]
pub enum EventError {
    InvalidHardware(u8, u8, u8, u8),
    /// The frame's event id, then the event's.
    MismatchedEventID(u32, u32),
}

/// A failure of the event builder.
#[derive(Debug, Clone, PartialEq, Eq)]
pub enum EventBuilderError {
    EventOutOfOrder(u32, u32),
    EventError(EventError),
    BrokenCache,
    ClosedChannel,
}

impl From<EventError> for EventBuilderError {
    fn from(value: EventError) -> (r: Self) {
        EventBuilderError::EventError(value)
    }
}

impl vstd::std_specs::convert::FromSpecImpl<EventError> for EventBuilderError {
    open spec fn obeys_from_spec() -> bool {
        true
    }

    open spec fn from_spec(value: EventError) -> Self {
        EventBuilderError::EventError(value)
    }
}

} // verus!
