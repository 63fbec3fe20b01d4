use sym_parser::event::LoggedEvent;
use sym_parser::sink::EventLog;
use sym_parser::sink::CallbackSink;
use sym_parser::sink::Callbacks;
use sym_parser::sink::Sink;

struct Counter {
    calls: usize,
    bytes: usize,
}

impl Callbacks for Counter {
    fn on_line(&mut self, _address: u32, _size: u32, _line: u32, _file_index: u32) {
        self.calls += 1;
    }

    fn on_func(&mut self, _address: u32, _size: u32, _param_size: u32) {
        self.calls += 1;
    }

    fn on_file(&mut self, _index: u32) {
        self.calls += 1;
    }

    fn on_public(&mut self, _address: u32, _param_size: u32) {
        self.calls += 1;
    }

    fn on_str_value(&mut self, bytes: &[u8]) {
        self.calls += 1;
        self.bytes += bytes.len();
    }
}

#[test]
fn event_log_keeps_events_in_order() {
    let mut log = EventLog::new();
    log.on_str_value(b"a.c");
    log.on_file(7);
    log.on_line(1, 2, 3, 4);
    log.on_func(5, 6, 7);
    log.on_public(8, 9);
    assert_eq!(
        log.events(),
        &vec![
            LoggedEvent::StrValue { bytes: b"a.c".to_vec() },
            LoggedEvent::File { index: 7 },
            LoggedEvent::Line { address: 1, size: 2, line: 3, file_index: 4 },
            LoggedEvent::Func { address: 5, size: 6, param_size: 7 },
            LoggedEvent::Public { address: 8, param_size: 9 },
        ]
    );
}

#[test]
fn a_sink_written_by_hand_is_accepted() {
    let mut sink = CallbackSink::new(Counter { calls: 0, bytes: 0 });
    sink.on_str_value(b"abc");
    sink.on_file(0);
    assert_eq!(sink.host().calls, 2);
    let counter = sink.into_host();
    assert_eq!(counter.bytes, 3);
}
