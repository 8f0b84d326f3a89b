//! The ways in which a run can fail.

use vstd::prelude::*;

verus! {

/// One of the two streams that a run reads.
#[derive(Debug, Clone, Copy, PartialEq, Eq, Structural)]
pub enum Stream {
    /// The telemetry of the battery cycler.
    Cycler,
    /// The log of the displacement sensor.
    Sensor,
}

/// Why a run was abandoned. No partial result is ever returned.
#[derive(Debug, Clone, Copy, PartialEq, Eq, Structural)]
pub enum Error {
    /// A decoded counter value, or a total derived from it, cannot be
    /// represented.
    MalformedCounterSequence,
    /// The named stream holds fewer than two distinct seconds, so there is no
    /// range to resample over.
    ResampleRangeEmpty(Stream),
}

impl Stream {
    /// The name under which the stream is reported.
    pub open spec fn name_spec(self) -> Seq<char> {
        match self {
            Stream::Cycler => "cycler"@,
            Stream::Sensor => "sensor"@,
        }
    }

    /// The name under which the stream is reported.
    pub fn name(&self) -> (s: &'static str)
        ensures
            s@ == self.name_spec(),
    {
        match self {
            Stream::Cycler => "cycler",
            Stream::Sensor => "sensor",
        }
    }
}

impl Error {
    /// What went wrong, in words that name the stream at fault.
    pub open spec fn message_spec(self) -> Seq<char> {
        match self {
            Error::MalformedCounterSequence => "cycler stream: a counter value is out of range"@,
            Error::ResampleRangeEmpty(Stream::Cycler) => "cycler stream: fewer than two distinct seconds to resample over"@,
            Error::ResampleRangeEmpty(Stream::Sensor) => "sensor stream: fewer than two distinct seconds to resample over"@,
        }
    }

    /// What went wrong, in words that name the stream at fault.
    pub fn message(&self) -> (s: &'static str)
        ensures
            s@ == self.message_spec(),
    {
        match self {
            Error::MalformedCounterSequence => "cycler stream: a counter value is out of range",
            Error::ResampleRangeEmpty(Stream::Cycler) => "cycler stream: fewer than two distinct seconds to resample over",
            Error::ResampleRangeEmpty(Stream::Sensor) => "sensor stream: fewer than two distinct seconds to resample over",
        }
    }
}

} // verus!
