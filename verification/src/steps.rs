//! The steps that the parser takes through a chunk, and why each of them
//! leaves the rest of its work as it was.

use vstd::prelude::*;
use crate::digits::hex_digit;
use crate::event::Event;
use crate::machine::accumulate;
use crate::machine::events;
use crate::machine::lemma_line_len;
use crate::machine::lemma_name_on_bytes;
use crate::machine::lemma_on_bytes_push;
use crate::machine::line_len;
use crate::machine::Machine;
use crate::state::State;

verus! {

/// A step of the parser leaves the rest of its work as it was: from the
/// registers `after` and the bytes `left`, it ends where it would have ended
/// from `before` and `rest`, and what it reports then is what it would have
/// reported, less the events `emitted` that the step has reported itself.
pub open spec fn resumes(
    before: Machine,
    rest: Seq<u8>,
    emitted: Seq<Event>,
    after: Machine,
    left: Seq<u8>,
) -> bool {
    &&& before.on_bytes(rest) == after.on_bytes(left)
    &&& events(before, rest) == emitted + events(after, left)
}

/// Whether bytes are read in the state without anything being reported.
pub open spec fn quiet(state: State) -> bool {
    !(state.routine() is Complete) && !(state.routine() is ScanName)
}

/// No step at all leaves the work as it was.
pub proof fn lemma_resumes_at_once(m: Machine, rest: Seq<u8>)
    ensures
        resumes(m, rest, Seq::empty(), m, rest),
{
}

/// Shifting a field by one hexadecimal digit and setting the digit in
/// appends the digit in 32 bits.
pub proof fn lemma_accumulate_hex(value: u32, digit: u8)
    requires
        digit < 16,
    ensures
        (value << 4) | (digit as u32) == accumulate(value, 16, digit),
{
    assert((value << 4) | (digit as u32) == ((value * 16 + digit) % 0x1_0000_0000) as u32)
        by (bit_vector)
        requires
            digit < 16,
    ;
}

/// Multiplying by ten and adding a digit, each with wrap-around, appends
/// the digit in 32 bits.
pub proof fn lemma_accumulate_decimal(value: u32, digit: u8)
    requires
        digit < 10,
    ensures
        vstd::wrapping::u32_specs::wrapping_add(
            vstd::wrapping::u32_specs::wrapping_mul(value, 10),
            digit as u32,
        ) == accumulate(value, 10, digit),
{
}

/// One more byte of a run that reports nothing. Where the bytes of `s`
/// from `from` up to `i` have led from `before` to `cur`, the byte at `i`
/// leads on, and the rest of the work is as it was.
pub proof fn lemma_run_goes_on(before: Machine, cur: Machine, s: Seq<u8>, from: int, i: int)
    requires
        0 <= from <= i < s.len(),
        quiet(cur.state),
        cur == before.on_bytes(s.subrange(from, i)),
        resumes(before, s.skip(from), Seq::empty(), cur, s.skip(i)),
    ensures
        cur.on_byte(s[i]) == before.on_bytes(s.subrange(from, i + 1)),
        resumes(before, s.skip(from), Seq::empty(), cur.on_byte(s[i]), s.skip(i + 1)),
{
    let left = s.skip(i);
    assert(left.skip(1) =~= s.skip(i + 1));
    assert(s.subrange(from, i + 1) =~= s.subrange(from, i).push(s[i]));
    lemma_on_bytes_push(before, s.subrange(from, i), s[i]);
}

/// A digit that is met where a number is to begin opens the field, and is
/// still to be read.
pub proof fn lemma_digit_opens_field(m: Machine, rest: Seq<u8>)
    requires
        rest.len() > 0,
        hex_digit(rest[0]) is Some,
        m.state.routine() is ClassifyLine || m.state.routine() is SkipToDigit,
    ensures
        resumes(
            m,
            rest,
            Seq::empty(),
            if m.state.routine() is ClassifyLine {
                m.with_state(State::LineHexAddr)
            } else {
                m.next_state()
            },
            rest,
        ),
{
}

/// Reporting the record that is due is a step of the parser that reads
/// nothing.
pub proof fn lemma_complete_resumes(m: Machine, rest: Seq<u8>)
    requires
        m.state.routine() is Complete,
        rest.len() > 0,
    ensures
        resumes(m, rest, m.due(), Machine::initial(), rest),
{
}

/// Reporting the bytes of a name up to its line feed, or up to the end of
/// the chunk, is a step of the parser.
pub proof fn lemma_name_resumes(m: Machine, rest: Seq<u8>)
    requires
        m.state.routine() is ScanName,
        rest.len() > 0,
    ensures
        line_len(rest) <= rest.len(),
        resumes(
            m,
            rest,
            seq![(Event::StrValue { bytes: rest.take(line_len(rest) as int) })],
            if line_len(rest) < rest.len() {
                m.next_state()
            } else {
                m
            },
            if line_len(rest) < rest.len() {
                rest.skip(line_len(rest) as int + 1)
            } else {
                Seq::empty()
            },
        ),
{
    lemma_line_len(rest);
    lemma_name_on_bytes(m, rest);
}

} // verus!
