//! The four kinds of record, as text: what the parser makes of a line
//! that is written as the format says.

use vstd::prelude::*;
use crate::digits::dec_digit;
use crate::digits::hex_digit;
use crate::event::Event;
use crate::laws::lemma_events_split;
use crate::machine::accumulate;
use crate::machine::events;
use crate::machine::lemma_name_on_bytes;
use crate::machine::lemma_on_byte_wf;
use crate::machine::lemma_on_bytes_split;
use crate::machine::lemma_on_bytes_wf;
use crate::machine::line_len;
use crate::machine::Machine;
use crate::machine::NEWLINE;
use crate::machine::UPPER_F;
use crate::machine::UPPER_I;
use crate::machine::UPPER_P;
use crate::machine::UPPER_U;
use crate::state::State;
use crate::steps::quiet;

verus! {

/// Whether every byte is a hexadecimal digit.
pub open spec fn all_hex(s: Seq<u8>) -> bool {
    forall|j: int| 0 <= j < s.len() ==> hex_digit(#[trigger] s[j]) is Some
}

/// Whether every byte is a decimal digit.
pub open spec fn all_dec(s: Seq<u8>) -> bool {
    forall|j: int| 0 <= j < s.len() ==> dec_digit(#[trigger] s[j]) is Some
}

/// Whether no byte is a hexadecimal digit.
pub open spec fn no_hex(s: Seq<u8>) -> bool {
    forall|j: int| 0 <= j < s.len() ==> hex_digit(#[trigger] s[j]) is None
}

/// Whether no byte is a line feed.
pub open spec fn no_newline(s: Seq<u8>) -> bool {
    forall|j: int| 0 <= j < s.len() ==> #[trigger] s[j] != NEWLINE
}

/// The number that a field holds once the digits are read into it, most
/// significant digit first, where it held `value` before.
pub open spec fn number(value: u32, base: nat, digits: Seq<u8>) -> u32
    decreases digits.len(),
{
    if digits.len() == 0 {
        value
    } else {
        number(accumulate(value, base, hex_digit(digits[0]).unwrap()), base, digits.skip(1))
    }
}

/// The number that hexadecimal digits denote, in 32 bits.
pub open spec fn hex_number(digits: Seq<u8>) -> u32 {
    number(0, 16, digits)
}

/// The number that decimal digits denote, in 32 bits.
pub open spec fn dec_number(digits: Seq<u8>) -> u32 {
    number(0, 10, digits)
}

/// Whether the bytes of `text` lead from the registers `m` to the
/// registers `after`, with the events `ev` reported on the way.
pub open spec fn leads(m: Machine, text: Seq<u8>, ev: Seq<Event>, after: Machine) -> bool {
    &&& m.on_bytes(text) == after
    &&& events(m, text) == ev
}

/// Two stretches of text, one after the other, of which the first reports
/// nothing.
proof fn lemma_leads_on(
    m: Machine,
    a: Seq<u8>,
    between: Machine,
    b: Seq<u8>,
    ev: Seq<Event>,
    after: Machine,
)
    requires
        leads(m, a, Seq::empty(), between),
        leads(between, b, ev, after),
    ensures
        leads(m, a + b, ev, after),
{
    lemma_on_bytes_split(m, a, b);
    lemma_events_split(m, a, b);
}

/// A numeric field: its digits are read into the row, and the byte that
/// ends it leads on to the next field.
proof fn lemma_reads_field(m: Machine, digits: Seq<u8>, end: u8)
    requires
        m.wf(),
        m.state.reads_number(),
        forall|j: int| 0 <= j < digits.len() ==> m.digit(#[trigger] digits[j]) is Some,
        m.digit(end) is None,
    ensures
        leads(
            m,
            digits.push(end),
            Seq::empty(),
            m.with_field(number(m.row[m.cursor as int], m.base(), digits)).next_field(),
        ),
    decreases digits.len(),
{
    let text = digits.push(end);
    if digits.len() == 0 {
        assert(m.with_field(m.row[m.cursor as int]) =~= m);
        assert(m.on_byte(end).on_bytes(text.skip(1)) == m.next_field());
        assert(events(m.on_byte(end), text.skip(1)) == Seq::<Event>::empty());
    } else {
        let first = m.on_byte(digits[0]);
        assert(text.skip(1) =~= digits.skip(1).push(end));
        lemma_on_byte_wf(m, digits[0]);
        assert forall|j: int| 0 <= j < digits.skip(1).len() implies first.digit(
            #[trigger] digits.skip(1)[j],
        ) is Some by {
        }
        lemma_reads_field(first, digits.skip(1), end);
        assert(first.with_field(number(first.row[first.cursor as int], first.base(), digits.skip(1)))
            =~= m.with_field(number(m.row[m.cursor as int], m.base(), digits)));
    }
}

/// The first numeric field of a record: its first digit opens it.
proof fn lemma_opens_field(m: Machine, opened: Machine, digits: Seq<u8>, end: u8)
    requires
        m.wf(),
        m.state.routine() is ClassifyLine || m.state.routine() is SkipToDigit,
        opened == if m.state.routine() is ClassifyLine {
            m.with_state(State::LineHexAddr)
        } else {
            m.next_state()
        },
        digits.len() > 0,
        hex_digit(digits[0]) is Some,
        forall|j: int| 0 <= j < digits.len() ==> opened.digit(#[trigger] digits[j]) is Some,
        opened.digit(end) is None,
    ensures
        leads(m, digits.push(end), Seq::empty(), opened.with_field(number(0, opened.base(), digits))
            .next_field()),
{
    lemma_reads_field(opened, digits, end);
}

/// What is left of a keyword before the first digit is passed over.
proof fn lemma_skips_keyword(m: Machine, rest: Seq<u8>)
    requires
        m.state.routine() is SkipToDigit,
        no_hex(rest),
    ensures
        leads(m, rest, Seq::empty(), m),
    decreases rest.len(),
{
    if rest.len() > 0 {
        assert forall|j: int| 0 <= j < rest.skip(1).len() implies hex_digit(
            #[trigger] rest.skip(1)[j],
        ) is None by {
        }
        lemma_skips_keyword(m, rest.skip(1));
    }
}

/// A line without a line feed in it is as long as it is.
proof fn lemma_line_len_of_line(name: Seq<u8>)
    requires
        no_newline(name),
    ensures
        line_len(name.push(NEWLINE)) == name.len(),
    decreases name.len(),
{
    let line = name.push(NEWLINE);
    if name.len() > 0 {
        assert(line.skip(1) =~= name.skip(1).push(NEWLINE));
        assert forall|j: int| 0 <= j < name.skip(1).len() implies #[trigger] name.skip(1)[j]
            != NEWLINE by {
        }
        lemma_line_len_of_line(name.skip(1));
    }
}

/// A name and its line feed: the name is reported in one piece, and the
/// record is due.
proof fn lemma_reads_name(m: Machine, name: Seq<u8>)
    requires
        m.state.routine() is ScanName,
        no_newline(name),
    ensures
        leads(m, name.push(NEWLINE), seq![(Event::StrValue { bytes: name })], m.next_state()),
{
    let line = name.push(NEWLINE);
    lemma_line_len_of_line(name);
    lemma_name_on_bytes(m, line);
    assert(line.take(name.len() as int) =~= name);
    assert(events(m.next_state(), line.skip(name.len() as int + 1)) == Seq::<Event>::empty());
}

/// A line record. Where a line is written as an address and a size in
/// hexadecimal digits and a line number and a file index in decimal
/// digits, each followed by a byte that is no digit of its kind, a parser
/// that stands at the start of the line reports nothing while it reads it,
/// and then the record is due, with the four numbers as its fields.
pub proof fn theorem_line_record(
    address: Seq<u8>,
    size: Seq<u8>,
    line: Seq<u8>,
    file_index: Seq<u8>,
    ends: Seq<u8>,
)
    requires
        address.len() > 0,
        all_hex(address),
        all_hex(size),
        all_dec(line),
        all_dec(file_index),
        ends.len() == 4,
        hex_digit(ends[0]) is None,
        hex_digit(ends[1]) is None,
        dec_digit(ends[2]) is None,
        dec_digit(ends[3]) is None,
    ensures
        ({
            let text = address.push(ends[0]) + size.push(ends[1]) + line.push(ends[2])
                + file_index.push(ends[3]);
            let after = Machine::initial().on_bytes(text);
            &&& events(Machine::initial(), text) == Seq::<Event>::empty()
            &&& after.state is LineEnd
            &&& after.due() == seq![
                (Event::Line {
                    address: hex_number(address),
                    size: hex_number(size),
                    line: dec_number(line),
                    file_index: dec_number(file_index),
                }),
            ]
        }),
{
    let m0 = Machine::initial();
    let t1 = address.push(ends[0]);
    let t2 = size.push(ends[1]);
    let t3 = line.push(ends[2]);
    let t4 = file_index.push(ends[3]);
    let opened = m0.with_state(State::LineHexAddr);
    lemma_opens_field(m0, opened, address, ends[0]);
    let m1 = m0.on_bytes(t1);
    lemma_on_bytes_wf(m0, t1);
    lemma_reads_field(m1, size, ends[1]);
    let m2 = m1.on_bytes(t2);
    lemma_on_bytes_wf(m1, t2);
    lemma_reads_field(m2, line, ends[2]);
    let m3 = m2.on_bytes(t3);
    lemma_on_bytes_wf(m2, t3);
    lemma_reads_field(m3, file_index, ends[3]);
    let m4 = m3.on_bytes(t4);
    lemma_leads_on(m0, t1, m1, t2, Seq::empty(), m2);
    lemma_leads_on(m0, t1 + t2, m2, t3, Seq::empty(), m3);
    lemma_leads_on(m0, t1 + t2 + t3, m3, t4, Seq::empty(), m4);
}

/// One byte that is read without a report.
proof fn lemma_reads_byte(m: Machine, b: u8)
    requires
        quiet(m.state),
    ensures
        leads(m, seq![b], Seq::empty(), m.on_byte(b)),
{
    let text = seq![b];
    assert(events(m.on_byte(b), text.skip(1)) == Seq::<Event>::empty());
    assert(m.on_byte(b).on_bytes(text.skip(1)) == m.on_byte(b));
}

/// The keyword of a record, as far as the parser reads it: `FU` for a
/// function, `FI` for a file, `P` for a public symbol.
proof fn lemma_reads_keyword()
    ensures
        leads(
            Machine::initial(),
            seq![UPPER_F, UPPER_U],
            Seq::empty(),
            Machine::initial().with_state(State::Func),
        ),
        leads(
            Machine::initial(),
            seq![UPPER_F, UPPER_I],
            Seq::empty(),
            Machine::initial().with_state(State::File),
        ),
        leads(
            Machine::initial(),
            seq![UPPER_P],
            Seq::empty(),
            Machine::initial().with_state(State::Public),
        ),
{
    let m = Machine::initial();
    let k = m.with_state(State::FuncOrFile);
    lemma_reads_byte(m, UPPER_F);
    lemma_reads_byte(m, UPPER_P);
    lemma_reads_byte(k, UPPER_U);
    lemma_reads_byte(k, UPPER_I);
    lemma_leads_on(m, seq![UPPER_F], k, seq![UPPER_U], Seq::empty(), k.on_byte(UPPER_U));
    lemma_leads_on(m, seq![UPPER_F], k, seq![UPPER_I], Seq::empty(), k.on_byte(UPPER_I));
    assert(seq![UPPER_F] + seq![UPPER_U] =~= seq![UPPER_F, UPPER_U]);
    assert(seq![UPPER_F] + seq![UPPER_I] =~= seq![UPPER_F, UPPER_I]);
}

/// A function record. Where a line is written as `FU`, what is left of the
/// keyword and its flags without a hexadecimal digit in it, then an
/// address, a size and a parameter size in hexadecimal digits, each
/// followed by a byte that is no such digit, then a name and a line feed, a
/// parser that stands at the start of the line reports the name in one
/// piece and nothing else, and then the record is due, with the three
/// numbers as its fields.
pub proof fn theorem_func_record(
    keyword: Seq<u8>,
    address: Seq<u8>,
    size: Seq<u8>,
    param_size: Seq<u8>,
    ends: Seq<u8>,
    name: Seq<u8>,
)
    requires
        no_hex(keyword),
        address.len() > 0,
        all_hex(address),
        all_hex(size),
        all_hex(param_size),
        ends.len() == 3,
        hex_digit(ends[0]) is None,
        hex_digit(ends[1]) is None,
        hex_digit(ends[2]) is None,
        no_newline(name),
    ensures
        ({
            let text = seq![UPPER_F, UPPER_U] + keyword + address.push(ends[0]) + size.push(ends[1])
                + param_size.push(ends[2]) + name.push(NEWLINE);
            let after = Machine::initial().on_bytes(text);
            &&& events(Machine::initial(), text) == seq![(Event::StrValue { bytes: name })]
            &&& after.state is FuncEnd
            &&& after.due() == seq![
                (Event::Func {
                    address: hex_number(address),
                    size: hex_number(size),
                    param_size: hex_number(param_size),
                }),
            ]
        }),
{
    let m0 = Machine::initial();
    let head = seq![UPPER_F, UPPER_U];
    let t1 = address.push(ends[0]);
    let t2 = size.push(ends[1]);
    let t3 = param_size.push(ends[2]);
    let t4 = name.push(NEWLINE);
    let mk = m0.with_state(State::Func);
    lemma_reads_keyword();
    lemma_skips_keyword(mk, keyword);
    lemma_opens_field(mk, mk.next_state(), address, ends[0]);
    let m1 = mk.on_bytes(t1);
    lemma_on_bytes_wf(mk, t1);
    lemma_reads_field(m1, size, ends[1]);
    let m2 = m1.on_bytes(t2);
    lemma_on_bytes_wf(m1, t2);
    lemma_reads_field(m2, param_size, ends[2]);
    let m3 = m2.on_bytes(t3);
    lemma_reads_name(m3, name);
    let m4 = m3.on_bytes(t4);
    lemma_leads_on(m0, head, mk, keyword, Seq::empty(), mk);
    lemma_leads_on(m0, head + keyword, mk, t1, Seq::empty(), m1);
    lemma_leads_on(m0, head + keyword + t1, m1, t2, Seq::empty(), m2);
    lemma_leads_on(m0, head + keyword + t1 + t2, m2, t3, Seq::empty(), m3);
    lemma_leads_on(
        m0,
        head + keyword + t1 + t2 + t3,
        m3,
        t4,
        seq![Event::StrValue { bytes: name }],
        m4,
    );
}

/// A file record. Where a line is written as `FI`, what is left of the
/// keyword without a hexadecimal digit in it, then an index in decimal
/// digits, followed by a byte that is no such digit, then a name and a line
/// feed, a parser that stands at the start of the line reports the name in
/// one piece and nothing else, and then the record is due, with the index
/// as its field.
pub proof fn theorem_file_record(keyword: Seq<u8>, index: Seq<u8>, end: u8, name: Seq<u8>)
    requires
        no_hex(keyword),
        index.len() > 0,
        all_dec(index),
        dec_digit(end) is None,
        no_newline(name),
    ensures
        ({
            let text = seq![UPPER_F, UPPER_I] + keyword + index.push(end) + name.push(NEWLINE);
            let after = Machine::initial().on_bytes(text);
            &&& events(Machine::initial(), text) == seq![(Event::StrValue { bytes: name })]
            &&& after.state is FileEnd
            &&& after.due() == seq![(Event::File { index: dec_number(index) })]
        }),
{
    let m0 = Machine::initial();
    let head = seq![UPPER_F, UPPER_I];
    let t1 = index.push(end);
    let t2 = name.push(NEWLINE);
    let mk = m0.with_state(State::File);
    lemma_reads_keyword();
    lemma_skips_keyword(mk, keyword);
    lemma_opens_field(mk, mk.next_state(), index, end);
    let m1 = mk.on_bytes(t1);
    lemma_reads_name(m1, name);
    let m2 = m1.on_bytes(t2);
    lemma_leads_on(m0, head, mk, keyword, Seq::empty(), mk);
    lemma_leads_on(m0, head + keyword, mk, t1, Seq::empty(), m1);
    lemma_leads_on(m0, head + keyword + t1, m1, t2, seq![Event::StrValue { bytes: name }], m2);
}

/// A public symbol record. Where a line is written as `P`, what is left of
/// the keyword and its flags without a hexadecimal digit in it, then an
/// address and a parameter size in hexadecimal digits, each followed by a
/// byte that is no such digit, then a name and a line feed, a parser that
/// stands at the start of the line reports the name in one piece and
/// nothing else, and then the record is due, with the two numbers as its
/// fields.
pub proof fn theorem_public_record(
    keyword: Seq<u8>,
    address: Seq<u8>,
    param_size: Seq<u8>,
    ends: Seq<u8>,
    name: Seq<u8>,
)
    requires
        no_hex(keyword),
        address.len() > 0,
        all_hex(address),
        all_hex(param_size),
        ends.len() == 2,
        hex_digit(ends[0]) is None,
        hex_digit(ends[1]) is None,
        no_newline(name),
    ensures
        ({
            let text = seq![UPPER_P] + keyword + address.push(ends[0]) + param_size.push(ends[1])
                + name.push(NEWLINE);
            let after = Machine::initial().on_bytes(text);
            &&& events(Machine::initial(), text) == seq![(Event::StrValue { bytes: name })]
            &&& after.state is PublicEnd
            &&& after.due() == seq![
                (Event::Public {
                    address: hex_number(address),
                    param_size: hex_number(param_size),
                }),
            ]
        }),
{
    let m0 = Machine::initial();
    let head = seq![UPPER_P];
    let t1 = address.push(ends[0]);
    let t2 = param_size.push(ends[1]);
    let t3 = name.push(NEWLINE);
    let mk = m0.with_state(State::Public);
    lemma_reads_keyword();
    lemma_skips_keyword(mk, keyword);
    lemma_opens_field(mk, mk.next_state(), address, ends[0]);
    let m1 = mk.on_bytes(t1);
    lemma_on_bytes_wf(mk, t1);
    lemma_reads_field(m1, param_size, ends[1]);
    let m2 = m1.on_bytes(t2);
    lemma_reads_name(m2, name);
    let m3 = m2.on_bytes(t3);
    lemma_leads_on(m0, head, mk, keyword, Seq::empty(), mk);
    lemma_leads_on(m0, head + keyword, mk, t1, Seq::empty(), m1);
    lemma_leads_on(m0, head + keyword + t1, m1, t2, Seq::empty(), m2);
    lemma_leads_on(m0, head + keyword + t1 + t2, m2, t3, seq![Event::StrValue { bytes: name }], m3);
}

} // verus!
