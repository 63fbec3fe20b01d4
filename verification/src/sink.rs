//! The consumer of the parser's events.

use vstd::prelude::*;
use vstd::slice::slice_to_vec;
use crate::event::Event;
use crate::event::LoggedEvent;

verus! {

/// Receives the events of a parser, one call for each, and knows which
/// events it has received.
///
/// `log` is the history of the calls made so far. Each method extends it by
/// the event that it was handed and leaves the rest alone.
pub trait Sink {
    /// The events received so far, oldest first.
    spec fn log(&self) -> Seq<Event>;

    fn on_line(&mut self, address: u32, size: u32, line: u32, file_index: u32)
        ensures
            final(self).log() == old(self).log().push(
                (Event::Line { address, size, line, file_index }),
            ),
    ;

    fn on_func(&mut self, address: u32, size: u32, param_size: u32)
        ensures
            final(self).log() == old(self).log().push((Event::Func { address, size, param_size })),
    ;

    fn on_file(&mut self, index: u32)
        ensures
            final(self).log() == old(self).log().push((Event::File { index })),
    ;

    fn on_public(&mut self, address: u32, param_size: u32)
        ensures
            final(self).log() == old(self).log().push((Event::Public { address, param_size })),
    ;

    /// `bytes` is borrowed for the call only: keep a copy to keep it.
    fn on_str_value(&mut self, bytes: &[u8])
        ensures
            final(self).log() == old(self).log().push((Event::StrValue { bytes: bytes@ })),
    ;
}

/// The five callbacks of a host, with nothing promised of what they do.
///
/// This is the trait for code outside the verified library to implement;
/// [`CallbackSink`] makes a [`Sink`] of it.
pub trait Callbacks {
    fn on_line(&mut self, address: u32, size: u32, line: u32, file_index: u32);

    fn on_func(&mut self, address: u32, size: u32, param_size: u32);

    fn on_file(&mut self, index: u32);

    fn on_public(&mut self, address: u32, param_size: u32);

    /// `bytes` is borrowed for the call only: keep a copy to keep it.
    fn on_str_value(&mut self, bytes: &[u8]);
}

/// A sink that hands every event on to the callbacks of a host, at once and
/// without copying. Its log is the list of the calls that it has made.
pub struct CallbackSink<C: Callbacks> {
    host: C,
    made: Ghost<Seq<Event>>,
}

impl<C: Callbacks> CallbackSink<C> {
    /// The host of the sink.
    pub closed spec fn spec_host(&self) -> &C {
        &self.host
    }

    /// A sink that has made no call yet.
    pub fn new(host: C) -> (sink: Self)
        ensures
            sink.log() == Seq::<Event>::empty(),
            *sink.host() == host,
    {
        CallbackSink { host, made: Ghost(Seq::empty()) }
    }

    /// The host, as its callbacks have left it.
    #[verifier::when_used_as_spec(spec_host)]
    pub fn host(&self) -> (host: &C)
        ensures
            host == self.spec_host(),
    {
        &self.host
    }

    /// Gives the host back.
    pub fn into_host(self) -> (host: C)
        ensures
            host == *self.host(),
    {
        self.host
    }
}

impl<C: Callbacks> Sink for CallbackSink<C> {
    closed spec fn log(&self) -> Seq<Event> {
        self.made@
    }

    fn on_line(&mut self, address: u32, size: u32, line: u32, file_index: u32) {
        self.host.on_line(address, size, line, file_index);
        proof {
            self.made@ = self.made@.push(Event::Line { address, size, line, file_index });
        }
    }

    fn on_func(&mut self, address: u32, size: u32, param_size: u32) {
        self.host.on_func(address, size, param_size);
        proof {
            self.made@ = self.made@.push(Event::Func { address, size, param_size });
        }
    }

    fn on_file(&mut self, index: u32) {
        self.host.on_file(index);
        proof {
            self.made@ = self.made@.push(Event::File { index });
        }
    }

    fn on_public(&mut self, address: u32, param_size: u32) {
        self.host.on_public(address, param_size);
        proof {
            self.made@ = self.made@.push(Event::Public { address, param_size });
        }
    }

    fn on_str_value(&mut self, bytes: &[u8]) {
        self.host.on_str_value(bytes);
        proof {
            self.made@ = self.made@.push(Event::StrValue { bytes: bytes@ });
        }
    }
}

/// A sink that keeps every event in the order of arrival.
pub struct EventLog {
    events: Vec<LoggedEvent>,
}

impl EventLog {
    /// The events kept, as contracts speak of them.
    pub closed spec fn recorded(&self) -> Seq<Event> {
        self.events@.map_values(|e: LoggedEvent| e@)
    }

    /// A log that holds nothing yet.
    pub fn new() -> (log: Self)
        ensures
            log.log() == Seq::<Event>::empty(),
    {
        let log = EventLog { events: Vec::new() };
        log
    }

    /// The events kept, oldest first.
    pub fn events(&self) -> (r: &Vec<LoggedEvent>)
        ensures
            r@.map_values(|e: LoggedEvent| e@) == self.log(),
    {
        &self.events
    }

    fn record(&mut self, event: LoggedEvent)
        ensures
            final(self).recorded() == old(self).recorded().push(event@),
    {
        self.events.push(event);
    }
}

impl Sink for EventLog {
    open spec fn log(&self) -> Seq<Event> {
        self.recorded()
    }

    fn on_line(&mut self, address: u32, size: u32, line: u32, file_index: u32) {
        self.record(LoggedEvent::Line { address, size, line, file_index });
    }

    fn on_func(&mut self, address: u32, size: u32, param_size: u32) {
        self.record(LoggedEvent::Func { address, size, param_size });
    }

    fn on_file(&mut self, index: u32) {
        self.record(LoggedEvent::File { index });
    }

    fn on_public(&mut self, address: u32, param_size: u32) {
        self.record(LoggedEvent::Public { address, param_size });
    }

    fn on_str_value(&mut self, bytes: &[u8]) {
        self.record(LoggedEvent::StrValue { bytes: slice_to_vec(bytes) });
    }
}

} // verus!
