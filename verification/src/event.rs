//! The events that the parser reports.

use vstd::prelude::*;

verus! {

/// One event, as contracts speak of it.
pub enum Event {
    /// A line record is complete.
    Line { address: u32, size: u32, line: u32, file_index: u32 },
    /// A function record is complete; its name was reported before.
    Func { address: u32, size: u32, param_size: u32 },
    /// A file record is complete; its path was reported before.
    File { index: u32 },
    /// A public symbol record is complete; its name was reported before.
    Public { address: u32, param_size: u32 },
    /// A piece of the name of the record that is being read.
    StrValue { bytes: Seq<u8> },
}

/// One event as an [`EventLog`](crate::sink::EventLog) keeps it: the same
/// five cases, with the bytes of a name fragment copied.
#[derive(Clone, PartialEq, Eq, Debug)]
pub enum LoggedEvent {
    Line { address: u32, size: u32, line: u32, file_index: u32 },
    Func { address: u32, size: u32, param_size: u32 },
    File { index: u32 },
    Public { address: u32, param_size: u32 },
    StrValue { bytes: Vec<u8> },
}

impl View for LoggedEvent {
    type V = Event;

    open spec fn view(&self) -> Event {
        match *self {
            LoggedEvent::Line { address, size, line, file_index } => Event::Line {
                address,
                size,
                line,
                file_index,
            },
            LoggedEvent::Func { address, size, param_size } => Event::Func {
                address,
                size,
                param_size,
            },
            LoggedEvent::File { index } => Event::File { index },
            LoggedEvent::Public { address, param_size } => Event::Public { address, param_size },
            LoggedEvent::StrValue { bytes } => Event::StrValue { bytes: bytes@ },
        }
    }
}

} // verus!
