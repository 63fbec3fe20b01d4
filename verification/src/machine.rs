//! What the parser is, as mathematics: its registers, what one byte does
//! to them, and which events a chunk of bytes gives rise to.

use vstd::prelude::*;
use crate::digits::dec_digit;
use crate::digits::hex_digit;
use crate::event::Event;
use crate::state::Routine;
use crate::state::State;

verus! {

/// ASCII line feed, the end of every record.
pub const NEWLINE: u8 = 0x0a;

/// ASCII `F`, the first byte of `FUNC` and `FILE`.
pub const UPPER_F: u8 = 0x46;

/// ASCII `I`, the second byte of `FILE`.
pub const UPPER_I: u8 = 0x49;

/// ASCII `P`, the first byte of `PUBLIC`.
pub const UPPER_P: u8 = 0x50;

/// ASCII `U`, the second byte of `FUNC`.
pub const UPPER_U: u8 = 0x55;

/// The number of fields that a row holds.
pub const ROW_LEN: usize = 4;

/// `value` with one more digit to its right, in 32 bits: what does not fit
/// is dropped from the left.
pub open spec fn accumulate(value: u32, base: nat, digit: u8) -> u32 {
    ((value * base + digit) % 0x1_0000_0000) as u32
}

/// The state that the first byte of a line leads to.
pub open spec fn line_kind(b: u8) -> State {
    if hex_digit(b) is Some {
        State::LineHexAddr
    } else if b == UPPER_F {
        State::FuncOrFile
    } else if b == UPPER_P {
        State::Public
    } else {
        State::Skip
    }
}

/// The state that the byte after a leading `F` leads to.
pub open spec fn keyword_kind(b: u8) -> State {
    if b == UPPER_U {
        State::Func
    } else if b == UPPER_I {
        State::File
    } else {
        State::Skip
    }
}

/// The number of bytes of `s` before its first line feed; all of them
/// where it has none.
pub open spec fn line_len(s: Seq<u8>) -> nat
    decreases s.len(),
{
    if s.len() == 0 || s[0] == NEWLINE {
        0
    } else {
        1 + line_len(s.skip(1))
    }
}

/// The registers of a parser.
#[verifier::ext_equal]
pub struct Machine {
    /// The position in the grammar.
    pub state: State,
    /// The numeric fields of the record that is being read.
    pub row: Seq<u32>,
    /// The index of the field that is filled next.
    pub cursor: nat,
}

impl Machine {
    /// The registers of a parser that has read nothing.
    pub open spec fn initial() -> Machine {
        Machine { state: State::Start, row: seq![0u32, 0u32, 0u32, 0u32], cursor: 0 }
    }

    /// The registers fit together: the cursor is where the state says, and
    /// no field that is still to be read holds anything.
    pub open spec fn wf(self) -> bool {
        &&& self.row.len() == ROW_LEN
        &&& self.cursor == self.state.cursor()
        &&& forall|i: int|
            self.cursor <= i < ROW_LEN && !(i == self.cursor && self.state.reads_number())
                ==> self.row[i] == 0
    }

    /// The same registers in another state.
    pub open spec fn with_state(self, state: State) -> Machine {
        Machine { state, ..self }
    }

    /// On to the next state, within the same field.
    pub open spec fn next_state(self) -> Machine {
        Machine { state: self.state.successor(), ..self }
    }

    /// On to the next state and the next field.
    pub open spec fn next_field(self) -> Machine {
        Machine { state: self.state.successor(), cursor: self.cursor + 1, ..self }
    }

    /// The value of `b` as a digit of the field that is being read.
    pub open spec fn digit(self, b: u8) -> Option<u8> {
        if self.state.routine() is ScanDec {
            dec_digit(b)
        } else {
            hex_digit(b)
        }
    }

    /// The base in which the field that is being read is written.
    pub open spec fn base(self) -> nat {
        if self.state.routine() is ScanDec {
            10
        } else {
            16
        }
    }

    /// The same registers with `value` in the field that is being read.
    pub open spec fn with_field(self, value: u32) -> Machine {
        Machine { row: self.row.update(self.cursor as int, value), ..self }
    }

    /// One byte met while a number is read: a digit goes into the field,
    /// anything else ends the field and is dropped.
    pub open spec fn scan_number(self, b: u8) -> Machine {
        match self.digit(b) {
            Some(d) => self.with_field(accumulate(self.row[self.cursor as int], self.base(), d)),
            None => self.next_field(),
        }
    }

    /// The first byte of a line. A digit is the first digit of the address
    /// of a line record.
    pub open spec fn classify(self, b: u8) -> Machine {
        let m = self.with_state(line_kind(b));
        if hex_digit(b) is Some {
            m.scan_number(b)
        } else {
            m
        }
    }

    /// The registers after one more byte.
    pub open spec fn on_byte(self, b: u8) -> Machine {
        match self.state.routine() {
            Routine::ClassifyLine => self.classify(b),
            Routine::ClassifyKeyword => self.with_state(keyword_kind(b)),
            Routine::ScanHex | Routine::ScanDec => self.scan_number(b),
            Routine::ScanName => if b == NEWLINE {
                self.next_state()
            } else {
                self
            },
            Routine::SkipToDigit => if hex_digit(b) is Some {
                self.next_state().scan_number(b)
            } else {
                self
            },
            Routine::SkipLine => if b == NEWLINE {
                self.with_state(State::Start)
            } else {
                self
            },
            Routine::Complete => Machine::initial().classify(b),
        }
    }

    /// The registers after the bytes of `s`, however they are cut into
    /// chunks.
    pub open spec fn on_bytes(self, s: Seq<u8>) -> Machine
        decreases s.len(),
    {
        if s.len() == 0 {
            self
        } else {
            self.on_byte(s[0]).on_bytes(s.skip(1))
        }
    }

    /// The event that is due when all fields of a record are read: none
    /// in any other state.
    pub open spec fn due(self) -> Seq<Event> {
        match self.state {
            State::LineEnd => seq![
                Event::Line {
                    address: self.row[0],
                    size: self.row[1],
                    line: self.row[2],
                    file_index: self.row[3],
                },
            ],
            State::FuncEnd => seq![
                Event::Func { address: self.row[0], size: self.row[1], param_size: self.row[2] },
            ],
            State::FileEnd => seq![Event::File { index: self.row[0] }],
            State::PublicEnd => seq![Event::Public { address: self.row[0], param_size: self.row[1] }],
            _ => Seq::empty(),
        }
    }

    /// The registers once the event that is due is reported: cleared where
    /// there was one, untouched where there was none.
    pub open spec fn settled(self) -> Machine {
        if self.state.routine() is Complete {
            Machine::initial()
        } else {
            self
        }
    }
}

/// The events that a parser with registers `m` reports while it reads the
/// chunk `s`, in order.
///
/// A record whose last field ends with the chunk is not reported yet: it is
/// due, and is reported before the next byte is read, or at the end of the
/// input. The bytes of a name are reported as far as the chunk holds them,
/// in one piece.
pub open spec fn events(m: Machine, s: Seq<u8>) -> Seq<Event>
    decreases s.len(), (if m.state.routine() is Complete { 1nat } else { 0nat }),
{
    if s.len() == 0 {
        Seq::empty()
    } else {
        match m.state.routine() {
            Routine::Complete => m.due() + events(Machine::initial(), s),
            Routine::ScanName => {
                let n = line_len(s) as int;
                let piece = seq![Event::StrValue { bytes: s.take(n) }];
                if n < s.len() {
                    piece + events(m.next_state(), s.skip(n + 1))
                } else {
                    piece
                }
            },
            _ => events(m.on_byte(s[0]), s.skip(1)),
        }
    }
}

/// Well-formed registers stay well-formed, whatever byte comes.
pub proof fn lemma_on_byte_wf(m: Machine, b: u8)
    requires
        m.wf(),
    ensures
        m.on_byte(b).wf(),
{
}

/// Well-formed registers stay well-formed, whatever bytes come.
pub proof fn lemma_on_bytes_wf(m: Machine, s: Seq<u8>)
    requires
        m.wf(),
    ensures
        m.on_bytes(s).wf(),
    decreases s.len(),
{
    if s.len() > 0 {
        lemma_on_byte_wf(m, s[0]);
        lemma_on_bytes_wf(m.on_byte(s[0]), s.skip(1));
    }
}

/// Reading `s` and then `b` is reading `s` with `b` at its end.
pub proof fn lemma_on_bytes_push(m: Machine, s: Seq<u8>, b: u8)
    ensures
        m.on_bytes(s.push(b)) == m.on_bytes(s).on_byte(b),
    decreases s.len(),
{
    let t = s.push(b);
    if s.len() == 0 {
        assert(m.on_byte(b).on_bytes(t.skip(1)) == m.on_byte(b));
    } else {
        assert(t.skip(1) =~= s.skip(1).push(b));
        lemma_on_bytes_push(m.on_byte(s[0]), s.skip(1), b);
    }
}

/// Reading `a + b` is reading `a` and then `b`.
pub proof fn lemma_on_bytes_split(m: Machine, a: Seq<u8>, b: Seq<u8>)
    ensures
        m.on_bytes(a + b) == m.on_bytes(a).on_bytes(b),
    decreases a.len(),
{
    if a.len() == 0 {
    } else {
        assert((a + b).skip(1) =~= a.skip(1) + b);
        lemma_on_bytes_split(m.on_byte(a[0]), a.skip(1), b);
    }
}

/// `line_len` stops at the first line feed, and only there.
pub proof fn lemma_line_len(s: Seq<u8>)
    ensures
        line_len(s) <= s.len(),
        forall|j: int| 0 <= j < line_len(s) ==> s[j] != NEWLINE,
        line_len(s) < s.len() ==> s[line_len(s) as int] == NEWLINE,
    decreases s.len(),
{
    if s.len() == 0 || s[0] == NEWLINE {
    } else {
        lemma_line_len(s.skip(1));
        assert forall|j: int| 0 <= j < line_len(s) implies s[j] != NEWLINE by {
            if j > 0 {
                assert(s.skip(1)[j - 1] == s[j]);
            }
        }
    }
}

/// While a name is read, the registers stand still up to its line feed.
pub proof fn lemma_name_on_bytes(m: Machine, s: Seq<u8>)
    requires
        m.state.routine() is ScanName,
    ensures
        m.on_bytes(s) == (if line_len(s) < s.len() {
            m.next_state().on_bytes(s.skip(line_len(s) as int + 1))
        } else {
            m
        }),
    decreases s.len(),
{
    if s.len() == 0 {
    } else if s[0] == NEWLINE {
    } else {
        lemma_name_on_bytes(m, s.skip(1));
        lemma_line_len(s.skip(1));
        if line_len(s) < s.len() {
            assert(s.skip(1).skip(line_len(s.skip(1)) as int + 1) =~= s.skip(
                line_len(s) as int + 1,
            ));
        }
    }
}

} // verus!
