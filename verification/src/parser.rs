//! The parser: reads a symbol file chunk by chunk and reports each record
//! to a sink as soon as it is complete.

use vstd::prelude::*;
use vstd::slice::slice_subrange;
use crate::digits::dec_digit;
use crate::digits::dec_value;
use crate::digits::hex_digit;
use crate::digits::hex_value;
use crate::event::Event;
use crate::machine::events;
use crate::machine::keyword_kind;
use crate::machine::line_kind;
use crate::machine::line_len;
use crate::machine::Machine;
use crate::machine::NEWLINE;
use crate::machine::UPPER_F;
use crate::machine::UPPER_I;
use crate::machine::UPPER_P;
use crate::machine::UPPER_U;
use crate::sink::Sink;
use crate::state::Routine;
use crate::state::State;
use crate::steps::lemma_accumulate_decimal;
use crate::steps::lemma_accumulate_hex;
use crate::steps::lemma_complete_resumes;
use crate::steps::lemma_digit_opens_field;
use crate::steps::lemma_name_resumes;
use crate::steps::lemma_resumes_at_once;
use crate::steps::lemma_run_goes_on;
use crate::steps::resumes;

verus! {

/// How many steps that read nothing the parser can take in a row from a
/// state: a record that is due is reported, then the first byte of the next
/// line is found to be a digit, and then that digit is read.
spec fn idle_steps(state: State) -> nat {
    match state.routine() {
        Routine::Complete => 2,
        Routine::ClassifyLine | Routine::SkipToDigit => 1,
        _ => 0,
    }
}

/// A parser and the sink that it reports to.
///
/// It keeps the position in the line, the numeric fields read so far, and
/// nothing of the bytes themselves: a chunk may end anywhere.
pub struct Parser<S: Sink> {
    regs: Registers,
    api: S,
}

/// The position in the line, the row of numeric fields, and the index of
/// the field that is filled next. Held together so that they always fit.
#[derive(Clone, Copy)]
struct Registers {
    state: State,
    row: [u32; 4],
    row_pos: u8,
}

impl Registers {
    spec fn view(&self) -> Machine {
        Machine { state: self.state, row: self.row@, cursor: self.row_pos as nat }
    }

    #[verifier::type_invariant]
    spec fn fit(&self) -> bool {
        self.view().wf()
    }
}

impl<S: Sink> Parser<S> {
    /// The registers of the parser.
    pub closed spec fn view(&self) -> Machine {
        self.regs.view()
    }

    /// The sink of the parser.
    pub closed spec fn spec_sink(&self) -> &S {
        &self.api
    }

    /// A parser at the start of its input, reporting to `api`.
    pub fn new(api: S) -> (parser: Self)
        ensures
            parser@ == Machine::initial(),
            parser@.wf(),
            *parser.sink() == api,
    {
        let regs = Registers { state: State::Start, row: [0; 4], row_pos: 0 };
        Parser { regs, api }
    }

    /// The sink, as the events reported so far have left it.
    #[verifier::when_used_as_spec(spec_sink)]
    pub fn sink(&self) -> (sink: &S)
        ensures
            sink == self.spec_sink(),
    {
        &self.api
    }

    /// Gives the sink back.
    pub fn into_sink(self) -> (sink: S)
        ensures
            sink == *self.sink(),
    {
        self.api
    }

    /// Reads one chunk of the input, which may begin and end anywhere, and
    /// reports to the sink what it completes.
    ///
    /// The registers end where the bytes of the chunk lead, and the sink
    /// has received the events of the chunk, in order, after those that it
    /// had.
    pub fn parse(&mut self, chunk: &[u8])
        ensures
            final(self)@ == old(self)@.on_bytes(chunk@),
            final(self).sink().log() == old(self).sink().log() + events(old(self)@, chunk@),
            final(self)@.wf(),
    {
        let ghost before = self@;
        let ghost log = self.api.log();
        let mut offset: usize = 0;
        proof {
            use_type_invariant(&self.regs);
            assert(chunk@.skip(0) =~= chunk@);
        }
        while offset < chunk.len()
            invariant
                offset <= chunk@.len(),
                self@.on_bytes(chunk@.skip(offset as int)) == before.on_bytes(chunk@),
                self.api.log() + events(self@, chunk@.skip(offset as int)) == log + events(
                    before,
                    chunk@,
                ),
            decreases chunk@.len() - offset, idle_steps(self.regs.state),
        {
            proof {
                if self@.state.routine() is Complete {
                    lemma_complete_resumes(self@, chunk@.skip(offset as int));
                }
            }
            offset = match self.regs.state {
                State::Start => self.parse_start(chunk, offset),
                State::FuncOrFile => self.parse_func_or_file(chunk, offset),
                State::LineHexAddr
                | State::LineHexSize
                | State::FuncHexAddr
                | State::FuncHexSize
                | State::FuncHexParams
                | State::PublicHexAddr
                | State::PublicHexParams => self.parse_hex(chunk, offset),
                State::LineDecLine | State::LineDecFile | State::FileDecIndex => self.parse_dec(
                    chunk,
                    offset,
                ),
                State::FuncStrName | State::FileStrName | State::PublicStrName => self.parse_str(
                    chunk,
                    offset,
                ),
                State::Func | State::File | State::Public => self.skip_until_digit(chunk, offset),
                State::LineEnd => {
                    self.on_line_end();
                    offset
                },
                State::FuncEnd => {
                    self.on_func_end();
                    offset
                },
                State::FileEnd => {
                    self.on_file_end();
                    offset
                },
                State::PublicEnd => {
                    self.on_public_end();
                    offset
                },
                State::Skip => self.skip_past_newline(chunk, offset),
            };
        }
        proof {
            use_type_invariant(&self.regs);
        }
    }

    /// Ends the input: reports the record whose fields are all read, if
    /// there is one. A record that the input breaks off in is dropped.
    pub fn finish(&mut self)
        ensures
            final(self)@ == old(self)@.settled(),
            final(self).sink().log() == old(self).sink().log() + old(self)@.due(),
            final(self)@.wf(),
    {
        proof {
            use_type_invariant(&self.regs);
        }
        match self.regs.state {
            State::LineEnd => self.on_line_end(),
            State::FuncEnd => self.on_func_end(),
            State::FileEnd => self.on_file_end(),
            State::PublicEnd => self.on_public_end(),
            _ => (),
        }
    }

    /// Tells the kind of a line from its first byte. A hexadecimal digit
    /// opens a line record and is left to be read as part of the address.
    fn parse_start(&mut self, chunk: &[u8], offset: usize) -> (next: usize)
        requires
            old(self)@.state.routine() is ClassifyLine,
            offset < chunk@.len(),
        ensures
            final(self)@ == old(self)@.with_state(line_kind(chunk@[offset as int])),
            next == offset + (if hex_digit(chunk@[offset as int]) is Some {
                0int
            } else {
                1int
            }),
            final(self).sink() == old(self).sink(),
            resumes(
                old(self)@,
                chunk@.skip(offset as int),
                Seq::empty(),
                final(self)@,
                chunk@.skip(next as int),
            ),
    {
        let ch = chunk[offset];
        proof {
            use_type_invariant(&self.regs);
            lemma_resumes_at_once(self@, chunk@.skip(offset as int));
        }
        if hex_value(ch).is_some() {
            proof {
                lemma_digit_opens_field(self@, chunk@.skip(offset as int));
            }
            self.regs = Registers { state: State::LineHexAddr, ..self.regs };
            return offset;
        }
        let state = if ch == UPPER_F {
            State::FuncOrFile
        } else if ch == UPPER_P {
            State::Public
        } else {
            State::Skip
        };
        proof {
            lemma_run_goes_on(self@, self@, chunk@, offset as int, offset as int);
        }
        self.regs = Registers { state, ..self.regs };
        offset + 1
    }

    /// Tells a function record from a file record by the byte after `F`.
    fn parse_func_or_file(&mut self, chunk: &[u8], offset: usize) -> (next: usize)
        requires
            old(self)@.state.routine() is ClassifyKeyword,
            offset < chunk@.len(),
        ensures
            final(self)@ == old(self)@.with_state(keyword_kind(chunk@[offset as int])),
            next == offset + 1,
            final(self).sink() == old(self).sink(),
            resumes(
                old(self)@,
                chunk@.skip(offset as int),
                Seq::empty(),
                final(self)@,
                chunk@.skip(next as int),
            ),
    {
        let ch = chunk[offset];
        let state = if ch == UPPER_U {
            State::Func
        } else if ch == UPPER_I {
            State::File
        } else {
            State::Skip
        };
        proof {
            use_type_invariant(&self.regs);
            lemma_resumes_at_once(self@, chunk@.skip(offset as int));
            lemma_run_goes_on(self@, self@, chunk@, offset as int, offset as int);
        }
        self.regs = Registers { state, ..self.regs };
        offset + 1
    }

    /// Reads the digits of a hexadecimal field into the row, as far as the
    /// chunk holds them. The first byte that is no digit ends the field
    /// and is consumed with it.
    fn parse_hex(&mut self, chunk: &[u8], offset: usize) -> (next: usize)
        requires
            old(self)@.state.routine() is ScanHex,
            offset < chunk@.len(),
        ensures
            offset < next <= chunk@.len(),
            forall|j: int| offset <= j < next - 1 ==> hex_digit(chunk@[j]) is Some,
            next < chunk@.len() ==> hex_digit(chunk@[next - 1]) is None,
            final(self)@ == old(self)@.on_bytes(chunk@.subrange(offset as int, next as int)),
            final(self).sink() == old(self).sink(),
            resumes(
                old(self)@,
                chunk@.skip(offset as int),
                Seq::empty(),
                final(self)@,
                chunk@.skip(next as int),
            ),
    {
        let ghost before = self@;
        let ghost cur = before;
        proof {
            use_type_invariant(&self.regs);
            lemma_resumes_at_once(before, chunk@.skip(offset as int));
        }
        let pos = self.regs.row_pos as usize;
        let mut int_value = self.regs.row[pos];
        let mut i = offset;
        let mut delimited = false;
        while i < chunk.len() && !delimited
            invariant
                offset <= i <= chunk@.len(),
                pos == before.cursor,
                before.wf(),
                before.state.routine() is ScanHex,
                delimited ==> i > offset && hex_digit(chunk@[i - 1]) is None,
                forall|j: int|
                    offset <= j < i && !(delimited && j == i - 1) ==> hex_digit(chunk@[j]) is Some,
                cur == if delimited {
                    before.with_field(int_value).next_field()
                } else {
                    before.with_field(int_value)
                },
                cur == before.on_bytes(chunk@.subrange(offset as int, i as int)),
                resumes(
                    before,
                    chunk@.skip(offset as int),
                    Seq::empty(),
                    cur,
                    chunk@.skip(i as int),
                ),
            decreases chunk@.len() - i,
        {
            let ch = chunk[i];
            proof {
                lemma_run_goes_on(before, cur, chunk@, offset as int, i as int);
            }
            match hex_value(ch) {
                Some(d) => {
                    proof {
                        lemma_accumulate_hex(int_value, d);
                    }
                    int_value = (int_value << 4) | (d as u32);
                },
                None => {
                    delimited = true;
                },
            }
            proof {
                cur = cur.on_byte(ch);
            }
            i += 1;
        }
        let mut row = self.regs.row;
        row[pos] = int_value;
        self.regs = if delimited {
            Registers { state: self.regs.state.next(), row, row_pos: self.regs.row_pos + 1 }
        } else {
            Registers { row, ..self.regs }
        };
        i
    }

    /// Reads the digits of a decimal field into the row, as far as the
    /// chunk holds them. The first byte that is no digit ends the field
    /// and is consumed with it.
    fn parse_dec(&mut self, chunk: &[u8], offset: usize) -> (next: usize)
        requires
            old(self)@.state.routine() is ScanDec,
            offset < chunk@.len(),
        ensures
            offset < next <= chunk@.len(),
            forall|j: int| offset <= j < next - 1 ==> dec_digit(chunk@[j]) is Some,
            next < chunk@.len() ==> dec_digit(chunk@[next - 1]) is None,
            final(self)@ == old(self)@.on_bytes(chunk@.subrange(offset as int, next as int)),
            final(self).sink() == old(self).sink(),
            resumes(
                old(self)@,
                chunk@.skip(offset as int),
                Seq::empty(),
                final(self)@,
                chunk@.skip(next as int),
            ),
    {
        let ghost before = self@;
        let ghost cur = before;
        proof {
            use_type_invariant(&self.regs);
            lemma_resumes_at_once(before, chunk@.skip(offset as int));
        }
        let pos = self.regs.row_pos as usize;
        let mut int_value = self.regs.row[pos];
        let mut i = offset;
        let mut delimited = false;
        while i < chunk.len() && !delimited
            invariant
                offset <= i <= chunk@.len(),
                pos == before.cursor,
                before.wf(),
                before.state.routine() is ScanDec,
                delimited ==> i > offset && dec_digit(chunk@[i - 1]) is None,
                forall|j: int|
                    offset <= j < i && !(delimited && j == i - 1) ==> dec_digit(chunk@[j]) is Some,
                cur == if delimited {
                    before.with_field(int_value).next_field()
                } else {
                    before.with_field(int_value)
                },
                cur == before.on_bytes(chunk@.subrange(offset as int, i as int)),
                resumes(
                    before,
                    chunk@.skip(offset as int),
                    Seq::empty(),
                    cur,
                    chunk@.skip(i as int),
                ),
            decreases chunk@.len() - i,
        {
            let ch = chunk[i];
            proof {
                lemma_run_goes_on(before, cur, chunk@, offset as int, i as int);
            }
            match dec_value(ch) {
                Some(d) => {
                    proof {
                        lemma_accumulate_decimal(int_value, d);
                    }
                    int_value = int_value.wrapping_mul(10).wrapping_add(d as u32);
                },
                None => {
                    delimited = true;
                },
            }
            proof {
                cur = cur.on_byte(ch);
            }
            i += 1;
        }
        let mut row = self.regs.row;
        row[pos] = int_value;
        self.regs = if delimited {
            Registers { state: self.regs.state.next(), row, row_pos: self.regs.row_pos + 1 }
        } else {
            Registers { row, ..self.regs }
        };
        i
    }

    /// Reports the bytes of a name, as far as the chunk holds them, in one
    /// piece and without copying them. The line feed that ends the name is
    /// consumed and not reported.
    fn parse_str(&mut self, chunk: &[u8], offset: usize) -> (next: usize)
        requires
            old(self)@.state.routine() is ScanName,
            offset < chunk@.len(),
        ensures
            offset < next <= chunk@.len(),
            ({
                let n = line_len(chunk@.skip(offset as int));
                let piece = chunk@.subrange(offset as int, offset + n);
                &&& offset + n <= chunk@.len()
                &&& final(self).sink().log() == old(self).sink().log().push(
                    (Event::StrValue { bytes: piece }),
                )
                &&& (if offset + n < chunk@.len() {
                    next == offset + n + 1 && final(self)@ == old(self)@.next_state()
                } else {
                    next == chunk@.len() && final(self)@ == old(self)@
                })
                &&& resumes(
                    old(self)@,
                    chunk@.skip(offset as int),
                    seq![(Event::StrValue { bytes: piece })],
                    final(self)@,
                    chunk@.skip(next as int),
                )
            }),
    {
        let ghost rest = chunk@.skip(offset as int);
        let mut i = offset;
        while i < chunk.len() && chunk[i] != NEWLINE
            invariant
                offset <= i <= chunk@.len(),
                rest == chunk@.skip(offset as int),
                line_len(rest) == (i - offset) + line_len(chunk@.skip(i as int)),
            decreases chunk@.len() - i,
        {
            assert(chunk@.skip(i as int).skip(1) =~= chunk@.skip(i + 1));
            i += 1;
        }
        proof {
            use_type_invariant(&self.regs);
            lemma_name_resumes(self@, rest);
            assert(rest.take(i - offset) =~= chunk@.subrange(offset as int, i as int));
            if i < chunk@.len() {
                assert(rest.skip(i - offset + 1) =~= chunk@.skip(i + 1));
            }
        }
        self.api.on_str_value(slice_subrange(chunk, offset, i));
        if i < chunk.len() {
            self.regs = Registers { state: self.regs.state.next(), ..self.regs };
            i + 1
        } else {
            i
        }
    }

    /// Passes over what is left of a keyword, up to the first digit of the
    /// field that follows. That digit is not consumed.
    fn skip_until_digit(&mut self, chunk: &[u8], offset: usize) -> (next: usize)
        requires
            old(self)@.state.routine() is SkipToDigit,
            offset < chunk@.len(),
        ensures
            offset <= next <= chunk@.len(),
            forall|j: int| offset <= j < next ==> hex_digit(chunk@[j]) is None,
            next < chunk@.len() ==> hex_digit(chunk@[next as int]) is Some,
            final(self)@ == (if next < chunk@.len() {
                old(self)@.next_state()
            } else {
                old(self)@
            }),
            final(self).sink() == old(self).sink(),
            resumes(
                old(self)@,
                chunk@.skip(offset as int),
                Seq::empty(),
                final(self)@,
                chunk@.skip(next as int),
            ),
    {
        let ghost before = self@;
        proof {
            use_type_invariant(&self.regs);
            lemma_resumes_at_once(before, chunk@.skip(offset as int));
        }
        let mut i = offset;
        while i < chunk.len() && hex_value(chunk[i]).is_none()
            invariant
                offset <= i <= chunk@.len(),
                before.state.routine() is SkipToDigit,
                forall|j: int| offset <= j < i ==> hex_digit(chunk@[j]) is None,
                before == before.on_bytes(chunk@.subrange(offset as int, i as int)),
                resumes(
                    before,
                    chunk@.skip(offset as int),
                    Seq::empty(),
                    before,
                    chunk@.skip(i as int),
                ),
            decreases chunk@.len() - i,
        {
            proof {
                lemma_run_goes_on(before, before, chunk@, offset as int, i as int);
            }
            i += 1;
        }
        if i < chunk.len() {
            proof {
                lemma_digit_opens_field(before, chunk@.skip(i as int));
            }
            self.regs = Registers { state: self.regs.state.next(), ..self.regs };
        }
        i
    }

    /// Passes over what is left of a line that holds no record, its line
    /// feed included.
    fn skip_past_newline(&mut self, chunk: &[u8], offset: usize) -> (next: usize)
        requires
            old(self)@.state.routine() is SkipLine,
            offset < chunk@.len(),
        ensures
            offset < next <= chunk@.len(),
            forall|j: int| offset <= j < next - 1 ==> chunk@[j] != NEWLINE,
            next < chunk@.len() ==> chunk@[next - 1] == NEWLINE,
            final(self)@ == old(self)@.on_bytes(chunk@.subrange(offset as int, next as int)),
            final(self)@ == (if chunk@[next - 1] == NEWLINE {
                old(self)@.with_state(State::Start)
            } else {
                old(self)@
            }),
            final(self).sink() == old(self).sink(),
            resumes(
                old(self)@,
                chunk@.skip(offset as int),
                Seq::empty(),
                final(self)@,
                chunk@.skip(next as int),
            ),
    {
        let ghost before = self@;
        proof {
            use_type_invariant(&self.regs);
            lemma_resumes_at_once(before, chunk@.skip(offset as int));
        }
        let mut i = offset;
        while i < chunk.len() && chunk[i] != NEWLINE
            invariant
                offset <= i <= chunk@.len(),
                before.state.routine() is SkipLine,
                forall|j: int| offset <= j < i ==> chunk@[j] != NEWLINE,
                before == before.on_bytes(chunk@.subrange(offset as int, i as int)),
                resumes(
                    before,
                    chunk@.skip(offset as int),
                    Seq::empty(),
                    before,
                    chunk@.skip(i as int),
                ),
            decreases chunk@.len() - i,
        {
            proof {
                lemma_run_goes_on(before, before, chunk@, offset as int, i as int);
            }
            i += 1;
        }
        if i < chunk.len() {
            proof {
                lemma_run_goes_on(before, before, chunk@, offset as int, i as int);
            }
            self.regs = Registers { state: State::Start, ..self.regs };
            i + 1
        } else {
            i
        }
    }

    /// Clears the row and goes back to the start of a line.
    fn on_end(&mut self)
        ensures
            final(self)@ == Machine::initial(),
            final(self).sink() == old(self).sink(),
    {
        let regs = Registers { state: State::Start, row: [0; 4], row_pos: 0 };
        self.regs = regs;
    }

    /// Reports the line record that is due.
    fn on_line_end(&mut self)
        requires
            old(self)@.state is LineEnd,
        ensures
            final(self)@ == Machine::initial(),
            final(self).sink().log() == old(self).sink().log() + old(self)@.due(),
    {
        self.api.on_line(self.regs.row[0], self.regs.row[1], self.regs.row[2], self.regs.row[3]);
        self.on_end();
    }

    /// Reports the function record that is due.
    fn on_func_end(&mut self)
        requires
            old(self)@.state is FuncEnd,
        ensures
            final(self)@ == Machine::initial(),
            final(self).sink().log() == old(self).sink().log() + old(self)@.due(),
    {
        self.api.on_func(self.regs.row[0], self.regs.row[1], self.regs.row[2]);
        self.on_end();
    }

    /// Reports the file record that is due.
    fn on_file_end(&mut self)
        requires
            old(self)@.state is FileEnd,
        ensures
            final(self)@ == Machine::initial(),
            final(self).sink().log() == old(self).sink().log() + old(self)@.due(),
    {
        self.api.on_file(self.regs.row[0]);
        self.on_end();
    }

    /// Reports the public symbol record that is due.
    fn on_public_end(&mut self)
        requires
            old(self)@.state is PublicEnd,
        ensures
            final(self)@ == Machine::initial(),
            final(self).sink().log() == old(self).sink().log() + old(self)@.due(),
    {
        self.api.on_public(self.regs.row[0], self.regs.row[1]);
        self.on_end();
    }
}

} // verus!
