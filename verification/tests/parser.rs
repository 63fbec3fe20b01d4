use sym_parser::event::LoggedEvent;
use sym_parser::parser::Parser;
use sym_parser::sink::CallbackSink;
use sym_parser::sink::Callbacks;
use sym_parser::sink::EventLog;

fn line(address: u32, size: u32, line: u32, file_index: u32) -> LoggedEvent {
    LoggedEvent::Line { address, size, line, file_index }
}

fn func(address: u32, size: u32, param_size: u32) -> LoggedEvent {
    LoggedEvent::Func { address, size, param_size }
}

fn file(index: u32) -> LoggedEvent {
    LoggedEvent::File { index }
}

fn public(address: u32, param_size: u32) -> LoggedEvent {
    LoggedEvent::Public { address, param_size }
}

fn name(bytes: &[u8]) -> LoggedEvent {
    LoggedEvent::StrValue { bytes: bytes.to_vec() }
}

/// Feeds the chunks in order, ends the input, and returns what the sink got.
fn feed(chunks: &[&[u8]]) -> Vec<LoggedEvent> {
    let mut parser = Parser::new(EventLog::new());
    for chunk in chunks {
        parser.parse(chunk);
    }
    parser.finish();
    parser.into_sink().events().clone()
}

/// Feeds the input one byte at a time.
fn feed_bytewise(input: &[u8]) -> Vec<LoggedEvent> {
    let mut parser = Parser::new(EventLog::new());
    for i in 0..input.len() {
        parser.parse(&input[i..i + 1]);
    }
    parser.finish();
    parser.into_sink().events().clone()
}

/// What a consumer makes of the events: each name in one piece.
fn joined(events: &[LoggedEvent]) -> Vec<LoggedEvent> {
    let mut out: Vec<LoggedEvent> = Vec::new();
    for event in events {
        if let LoggedEvent::StrValue { bytes } = event {
            if let Some(LoggedEvent::StrValue { bytes: open }) = out.last_mut() {
                open.extend_from_slice(bytes);
                continue;
            }
        }
        out.push(event.clone());
    }
    out
}

#[test]
fn line_record_round_trip() {
    assert_eq!(feed(&[b"1a 2b 3 0\n"]), vec![line(0x1a, 0x2b, 3, 0)]);
}

#[test]
fn line_record_is_due_until_the_input_goes_on_or_ends() {
    let mut parser = Parser::new(EventLog::new());
    parser.parse(b"1a 2b 3 0\n");
    assert!(parser.sink().events().is_empty());
    parser.parse(b"");
    assert!(parser.sink().events().is_empty());
    parser.parse(b"M");
    assert_eq!(parser.sink().events(), &vec![line(0x1a, 0x2b, 3, 0)]);
    parser.finish();
    assert_eq!(parser.sink().events(), &vec![line(0x1a, 0x2b, 3, 0)]);
}

#[test]
fn func_record_with_split_name() {
    assert_eq!(
        feed(&[b"FUNC c0 a 0 my_func", b"tion\n"]),
        vec![name(b"my_func"), name(b"tion"), func(0xc0, 0xa, 0)]
    );
}

#[test]
fn func_record_in_one_chunk() {
    assert_eq!(
        feed(&[b"FUNC c0 a 0 my_function\n"]),
        vec![name(b"my_function"), func(0xc0, 0xa, 0)]
    );
}

#[test]
fn func_record_with_flag() {
    assert_eq!(
        feed(&[b"FUNC m 1130 28 4 main\n"]),
        vec![name(b"main"), func(0x1130, 0x28, 4)]
    );
}

#[test]
fn unknown_line_is_discarded() {
    assert_eq!(feed(&[b"MODULE foo\nFILE 0 a.c\n"]), vec![name(b"a.c"), file(0)]);
}

#[test]
fn file_record_with_long_index() {
    assert_eq!(
        feed(&[b"FILE 1234 /usr/include/stdio.h\n"]),
        vec![name(b"/usr/include/stdio.h"), file(1234)]
    );
}

#[test]
fn public_record() {
    assert_eq!(feed(&[b"PUBLIC c0 4 start\n"]), vec![name(b"start"), public(0xc0, 4)]);
}

#[test]
fn public_record_with_flag() {
    assert_eq!(feed(&[b"PUBLIC m 2160 0 Public2_1\n"]), vec![name(b"Public2_1"), public(0x2160, 0)]);
}

#[test]
fn truncated_trailing_record_is_dropped() {
    assert_eq!(feed(&[b"1a 2b 3 0\n4f 1"]), vec![line(0x1a, 0x2b, 3, 0)]);
    assert_eq!(feed(&[b"4f", b"1"]), vec![]);
    assert_eq!(feed(&[b"FUNC c0 a"]), vec![]);
}

#[test]
fn truncated_name_is_reported_without_its_record() {
    assert_eq!(feed(&[b"FILE 3 src/ma"]), vec![name(b"src/ma")]);
}

#[test]
fn record_without_line_feed_is_reported_at_the_end() {
    assert_eq!(feed(&[b"1a 2b 3 7 "]), vec![line(0x1a, 0x2b, 3, 7)]);
}

#[test]
fn fresh_parser_reports_nothing() {
    assert_eq!(feed(&[]), vec![]);
    assert_eq!(feed(&[b"", b""]), vec![]);
}

#[test]
fn several_records_come_in_order() {
    let input: &[u8] = b"MODULE Linux x86_64 000 a.out\nFILE 0 a.c\nFUNC 10 20 0 f\n10 4 7 0\n14 1c 8 0\nPUBLIC 40 0 g\nSTACK CFI INIT 10 20 .cfa: $rsp 8 +\n";
    assert_eq!(
        feed(&[input]),
        vec![
            name(b"a.c"),
            file(0),
            name(b"f"),
            func(0x10, 0x20, 0),
            line(0x10, 4, 7, 0),
            line(0x14, 0x1c, 8, 0),
            name(b"g"),
            public(0x40, 0),
        ]
    );
}

#[test]
fn fields_do_not_leak_into_the_next_record() {
    assert_eq!(
        feed(&[b"ffffffff eeeeeeee 4294967295 4294967294\n1 2 3 4\nFILE 5 x\n"]),
        vec![
            line(0xffff_ffff, 0xeeee_eeee, 4_294_967_295, 4_294_967_294),
            line(1, 2, 3, 4),
            name(b"x"),
            file(5),
        ]
    );
}

#[test]
fn chunking_does_not_change_records_without_names() {
    let input: &[u8] = b"1a 2b 3 0\nSTACK WIN 4 0\nc0de 10 42 7\n\nINFO x\nbeef 1 2 3\n";
    let whole = feed(&[input]);
    assert_eq!(
        whole,
        vec![line(0x1a, 0x2b, 3, 0), line(0xc0de, 0x10, 42, 7), line(0xbeef, 1, 2, 3)]
    );
    assert_eq!(feed_bytewise(input), whole);
    for cut in 0..=input.len() {
        assert_eq!(feed(&[&input[..cut], &input[cut..]]), whole);
    }
}

#[test]
fn chunking_only_cuts_names() {
    let input: &[u8] = b"FILE 12 dir/a.c\nFUNC m c0 a 4 ns::f(int)\nc0 4 7 12\nPUBLIC c8 0 g\nFILE 13 \n";
    let whole = feed(&[input]);
    assert_eq!(
        whole,
        vec![
            name(b"dir/a.c"),
            file(12),
            name(b"ns::f(int)"),
            func(0xc0, 0xa, 4),
            line(0xc0, 4, 7, 12),
            name(b"g"),
            public(0xc8, 0),
            name(b""),
            file(13),
        ]
    );
    assert_eq!(joined(&feed_bytewise(input)), whole);
    for cut in 0..=input.len() {
        assert_eq!(joined(&feed(&[&input[..cut], &input[cut..]])), whole);
    }
    for first in 0..=input.len() {
        for second in first..=input.len() {
            let cut = feed(&[&input[..first], &input[first..second], &input[second..]]);
            assert_eq!(joined(&cut), whole);
        }
    }
}

#[test]
fn name_cut_before_its_line_feed() {
    assert_eq!(feed(&[b"FILE 0 a", b"\n"]), vec![name(b"a"), name(b""), file(0)]);
    assert_eq!(feed(&[b"FILE 0 ", b"\n"]), vec![name(b""), file(0)]);
    assert_eq!(feed(&[b"FILE 0 ", b"a\n"]), vec![name(b"a"), file(0)]);
}

#[test]
fn upper_case_is_no_hex_digit() {
    assert_eq!(feed(&[b"1A 2b 3 0\n"]), vec![line(1, 0, 2, 0)]);
    assert_eq!(feed(&[b"A1 2b 3 0\n1 2 3 4\n"]), vec![line(1, 2, 3, 4)]);
}

#[test]
fn hex_field_wraps_at_32_bits() {
    assert_eq!(feed(&[b"123456789 100000000 0 0\n"]), vec![line(0x2345_6789, 0, 0, 0)]);
    assert_eq!(feed(&[b"ffffffff fffffffff 0 0\n"]), vec![line(0xffff_ffff, 0xffff_ffff, 0, 0)]);
}

#[test]
fn decimal_field_wraps_at_32_bits() {
    assert_eq!(feed(&[b"0 0 4294967296 4294967297\n"]), vec![line(0, 0, 0, 1)]);
    assert_eq!(feed(&[b"0 0 99999999999 10\n"]), vec![line(0, 0, 1_215_752_191, 10)]);
}

#[test]
fn any_byte_that_is_no_digit_ends_a_field() {
    assert_eq!(feed(&[b"1a,2b;3x7\n"]), vec![line(0x1a, 0x2b, 3, 7)]);
    assert_eq!(feed(&[b"1a\t2b\t3\t7\r\n"]), vec![line(0x1a, 0x2b, 3, 7)]);
    assert_eq!(feed(&[b"FILE:12:a.c\n"]), vec![name(b"a.c"), file(12)]);
}

#[test]
fn empty_fields_are_zero() {
    assert_eq!(feed(&[b"1   \n"]), vec![line(1, 0, 0, 0)]);
    assert_eq!(feed(&[b"PUBLIC 7  g\n"]), vec![name(b"g"), public(7, 0)]);
}

#[test]
fn hex_letters_end_a_decimal_field() {
    assert_eq!(feed(&[b"10 20 3a 4\n"]), vec![line(0x10, 0x20, 3, 0)]);
}

#[test]
fn number_split_across_chunks_is_continued() {
    assert_eq!(feed(&[b"dead", b"beef 1", b"0 12", b"34 5", b"6\n"]), vec![line(0xdead_beef, 0x10, 1234, 56)]);
}

#[test]
fn keyword_split_across_chunks() {
    assert_eq!(feed(&[b"F", b"UNC", b" 1 2 3 f\n"]), vec![name(b"f"), func(1, 2, 3)]);
    assert_eq!(feed(&[b"F", b"ILE 9 f\n"]), vec![name(b"f"), file(9)]);
    assert_eq!(feed(&[b"P", b"UBLIC 9 8 f\n"]), vec![name(b"f"), public(9, 8)]);
}

#[test]
fn other_keyword_after_f_is_skipped() {
    assert_eq!(feed(&[b"FOO 1 2 3 f\nFx\nF\n1 2 3 4\n"]), vec![]);
    assert_eq!(feed(&[b"FOO 1 2 3 f\nFx\nFy\n1 2 3 4\n"]), vec![line(1, 2, 3, 4)]);
}

#[test]
fn blank_line_swallows_the_next_line() {
    assert_eq!(feed(&[b"\n1 2 3 4\n5 6 7 8\n"]), vec![line(5, 6, 7, 8)]);
}

#[test]
fn finish_twice_reports_once() {
    let mut parser = Parser::new(EventLog::new());
    parser.parse(b"FILE 2 b.c\n");
    parser.finish();
    parser.finish();
    assert_eq!(parser.sink().events(), &vec![name(b"b.c"), file(2)]);
}

struct Names {
    text: String,
    records: u32,
    last_index: u32,
}

impl Callbacks for Names {
    fn on_line(&mut self, _address: u32, _size: u32, _line: u32, _file_index: u32) {
        self.records += 1;
    }

    fn on_func(&mut self, _address: u32, _size: u32, _param_size: u32) {
        self.records += 1;
        self.text.push(';');
    }

    fn on_file(&mut self, index: u32) {
        self.records += 1;
        self.last_index = index;
        self.text.push(';');
    }

    fn on_public(&mut self, _address: u32, _param_size: u32) {
        self.records += 1;
        self.text.push(';');
    }

    fn on_str_value(&mut self, bytes: &[u8]) {
        self.text.push_str(std::str::from_utf8(bytes).unwrap());
    }
}

#[test]
fn callbacks_of_a_host_are_called() {
    let host = Names { text: String::new(), records: 0, last_index: 0 };
    let mut parser = Parser::new(CallbackSink::new(host));
    parser.parse(b"FILE 7 a.c\nFUNC 1 2 3 ma");
    parser.parse(b"in\n1 2 3 7\nPUBLIC 1 0 _st");
    parser.parse(b"art\n");
    parser.finish();
    let host = parser.into_sink().into_host();
    assert_eq!(host.text, "a.c;main;_start;");
    assert_eq!(host.records, 4);
    assert_eq!(host.last_index, 7);
}
