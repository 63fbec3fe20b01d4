//! What holds of the parser whatever the input and however it is cut into
//! chunks.

use vstd::prelude::*;
use crate::event::Event;
use crate::machine::events;
use crate::machine::keyword_kind;
use crate::machine::lemma_line_len;
use crate::machine::lemma_name_on_bytes;
use crate::machine::lemma_on_bytes_split;
use crate::machine::lemma_on_bytes_wf;
use crate::machine::line_kind;
use crate::machine::line_len;
use crate::machine::Machine;
use crate::machine::NEWLINE;
use crate::machine::UPPER_F;
use crate::state::Routine;
use crate::state::State;

verus! {

/// The first line feed of `a + b` is that of `a`, or else that of `b`.
pub proof fn lemma_line_len_concat(a: Seq<u8>, b: Seq<u8>)
    ensures
        line_len(a + b) == (if line_len(a) < a.len() {
            line_len(a)
        } else {
            a.len() + line_len(b)
        }),
    decreases a.len(),
{
    lemma_line_len(a);
    if a.len() == 0 {
    } else if a[0] == NEWLINE {
    } else {
        assert((a + b).skip(1) =~= a.skip(1) + b);
        lemma_line_len_concat(a.skip(1), b);
        lemma_line_len(a.skip(1));
    }
}

/// Whether the chunk `a`, read from the registers `m`, ends inside a name
/// of which it has reported a piece.
pub open spec fn cuts_name(m: Machine, a: Seq<u8>) -> bool {
    &&& m.on_bytes(a).state.routine() is ScanName
    &&& events(m, a).len() > 0
    &&& events(m, a).last() is StrValue
}

/// The events `x` and then `y`, with the last of `x` and the first of `y`,
/// two pieces of one name, made one piece.
pub open spec fn welded(x: Seq<Event>, y: Seq<Event>) -> Seq<Event> {
    x.drop_last() + seq![Event::StrValue { bytes: x.last()->bytes + y[0]->bytes }] + y.skip(1)
}

/// What a chunk boundary between `a` and `b` does to the events, where
/// `a` is read from the registers `m`: nothing, unless `a` ends inside a
/// name and `b` goes on. There the last event of `a` and the first of `b`
/// are pieces of that name, and `a + b` reports them as one.
pub open spec fn seam(m: Machine, a: Seq<u8>, b: Seq<u8>) -> bool {
    let x = events(m, a);
    let y = events(m.on_bytes(a), b);
    if b.len() > 0 && cuts_name(m, a) {
        &&& y.len() > 0
        &&& y[0] is StrValue
        &&& events(m, a + b) == welded(x, y)
    } else {
        events(m, a + b) == x + y
    }
}

/// Events that come first stay out of what a seam does.
proof fn lemma_welded_after(p: Seq<Event>, x: Seq<Event>, y: Seq<Event>)
    ensures
        (p + x) + y == p + (x + y),
        x.len() > 0 && y.len() > 0 ==> welded(p + x, y) == p + welded(x, y),
{
}

/// The events of a chunk that finds a record due.
proof fn lemma_events_complete(m: Machine, s: Seq<u8>)
    requires
        m.state.routine() is Complete,
        s.len() > 0,
    ensures
        events(m, s) == m.due() + events(Machine::initial(), s),
        m.on_bytes(s) == Machine::initial().on_bytes(s),
        m.due().len() == 1,
        !(m.due()[0] is StrValue),
{
}

/// The events of a chunk that begins inside a name.
proof fn lemma_events_name(m: Machine, s: Seq<u8>)
    requires
        m.state.routine() is ScanName,
        s.len() > 0,
    ensures
        line_len(s) <= s.len(),
        events(m, s) == seq![(Event::StrValue { bytes: s.take(line_len(s) as int) })] + (if line_len(
            s,
        ) < s.len() {
            events(m.next_state(), s.skip(line_len(s) as int + 1))
        } else {
            Seq::empty()
        }),
        m.on_bytes(s) == (if line_len(s) < s.len() {
            m.next_state().on_bytes(s.skip(line_len(s) as int + 1))
        } else {
            m
        }),
        m.next_state().state.routine() is Complete,
{
    lemma_line_len(s);
    lemma_name_on_bytes(m, s);
}

proof fn lemma_seam_complete(m: Machine, a: Seq<u8>, b: Seq<u8>)
    requires
        m.state.routine() is Complete,
        a.len() > 0,
        seam(Machine::initial(), a, b),
    ensures
        seam(m, a, b),
{
    let fresh = Machine::initial();
    lemma_events_complete(m, a);
    lemma_events_complete(m, a + b);
    let x1 = events(fresh, a);
    let y = events(m.on_bytes(a), b);
    lemma_welded_after(m.due(), x1, y);
}

proof fn lemma_seam_name_closed(m: Machine, a: Seq<u8>, b: Seq<u8>)
    requires
        m.state.routine() is ScanName,
        line_len(a) < a.len(),
        seam(m.next_state(), a.skip(line_len(a) as int + 1), b),
    ensures
        seam(m, a, b),
{
    let n = line_len(a) as int;
    let a1 = a.skip(n + 1);
    let m1 = m.next_state();
    lemma_events_name(m, a);
    lemma_events_name(m, a + b);
    lemma_line_len_concat(a, b);
    assert((a + b).take(n) =~= a.take(n));
    assert((a + b).skip(n + 1) =~= a1 + b);
    let piece = seq![Event::StrValue { bytes: a.take(n) }];
    let x1 = events(m1, a1);
    let y = events(m.on_bytes(a), b);
    lemma_welded_after(piece, x1, y);
    if a1.len() > 0 {
        lemma_events_complete(m1, a1);
    }
}

proof fn lemma_seam_name_open(m: Machine, a: Seq<u8>, b: Seq<u8>)
    requires
        m.state.routine() is ScanName,
        a.len() > 0,
        line_len(a) == a.len(),
    ensures
        seam(m, a, b),
{
    lemma_events_name(m, a);
    assert(a.take(a.len() as int) =~= a);
    let x = events(m, a);
    if b.len() > 0 {
        lemma_events_name(m, b);
        lemma_events_name(m, a + b);
        lemma_line_len_concat(a, b);
        let k = line_len(b) as int;
        assert((a + b).take(a.len() + k) =~= a + b.take(k));
        if k < b.len() {
            assert((a + b).skip(a.len() + k + 1) =~= b.skip(k + 1));
        }
        let y = events(m, b);
        assert(welded(x, y) =~= events(m, a + b));
    }
}

proof fn lemma_seam_quiet(m: Machine, a: Seq<u8>, b: Seq<u8>)
    requires
        !(m.state.routine() is Complete),
        !(m.state.routine() is ScanName),
        a.len() > 0,
        seam(m.on_byte(a[0]), a.skip(1), b),
    ensures
        seam(m, a, b),
{
    assert((a + b).skip(1) =~= a.skip(1) + b);
}

/// A chunk boundary changes one thing only: a name that it cuts is reported
/// in two pieces in place of one.
///
/// Whatever the registers `m` and the bytes `a` and `b`: reading `a + b` as
/// one chunk reports the events of `a` and then those of `b`, read from
/// where `a` has left the registers; except that, where `a` ends inside a
/// name and `b` goes on, the last event of `a` and the first of `b` are
/// pieces of that name, and `a + b` reports them as one.
pub proof fn lemma_events_split(m: Machine, a: Seq<u8>, b: Seq<u8>)
    ensures
        seam(m, a, b),
    decreases a.len(), (if m.state.routine() is Complete { 1nat } else { 0nat }),
{
    if a.len() == 0 {
    } else {
        match m.state.routine() {
            Routine::Complete => {
                lemma_events_split(Machine::initial(), a, b);
                lemma_seam_complete(m, a, b);
            },
            Routine::ScanName => {
                lemma_line_len(a);
                if line_len(a) < a.len() {
                    lemma_events_split(m.next_state(), a.skip(line_len(a) as int + 1), b);
                    lemma_seam_name_closed(m, a, b);
                } else {
                    lemma_seam_name_open(m, a, b);
                }
            },
            _ => {
                lemma_events_split(m.on_byte(a[0]), a.skip(1), b);
                lemma_seam_quiet(m, a, b);
            },
        }
    }
}

/// Where no name is cut, a chunk boundary changes nothing: the registers
/// and the events of `a + b` are those of `a` and then `b`.
pub proof fn lemma_split_between_names(m: Machine, a: Seq<u8>, b: Seq<u8>)
    requires
        !(b.len() > 0 && cuts_name(m, a)),
    ensures
        m.on_bytes(a + b) == m.on_bytes(a).on_bytes(b),
        events(m, a + b) == events(m, a) + events(m.on_bytes(a), b),
{
    lemma_on_bytes_split(m, a, b);
    lemma_events_split(m, a, b);
}

/// Where a name is cut, the events of `a` and then `b` are one more than
/// those of `a + b`: the boundary shows.
pub proof fn lemma_split_inside_name(m: Machine, a: Seq<u8>, b: Seq<u8>)
    requires
        b.len() > 0,
        cuts_name(m, a),
    ensures
        (events(m, a) + events(m.on_bytes(a), b)).len() == events(m, a + b).len() + 1,
{
    lemma_events_split(m, a, b);
}

/// One event as a consumer reads it who takes a name byte by byte: a piece
/// of a name becomes its bytes, one event each.
pub open spec fn spelled_one(e: Event) -> Seq<Event> {
    match e {
        Event::StrValue { bytes } => Seq::new(
            bytes.len(),
            |i: int| Event::StrValue { bytes: seq![bytes[i]] },
        ),
        _ => seq![e],
    }
}

/// The events with every piece of a name cut into single bytes: the same
/// records and the same names, with no trace of where the pieces ended.
pub open spec fn spelled(ev: Seq<Event>) -> Seq<Event>
    decreases ev.len(),
{
    if ev.len() == 0 {
        Seq::empty()
    } else {
        spelled(ev.drop_last()) + spelled_one(ev.last())
    }
}

/// Spelling goes event by event.
pub proof fn lemma_spelled_concat(x: Seq<Event>, y: Seq<Event>)
    ensures
        spelled(x + y) == spelled(x) + spelled(y),
    decreases y.len(),
{
    if y.len() == 0 {
    } else {
        assert((x + y).drop_last() =~= x + y.drop_last());
        lemma_spelled_concat(x, y.drop_last());
    }
}

/// A single event is spelled as `spelled_one` says.
proof fn lemma_spelled_single(e: Event)
    ensures
        spelled(seq![e]) == spelled_one(e),
{
    let s = seq![e];
    assert(spelled(s.drop_last()) + spelled_one(e) =~= spelled_one(e));
}

/// Two pieces of a name are spelled as the one piece that they make.
pub proof fn lemma_spelled_welded(x: Seq<Event>, y: Seq<Event>)
    requires
        x.len() > 0,
        y.len() > 0,
        x.last() is StrValue,
        y[0] is StrValue,
    ensures
        spelled(welded(x, y)) == spelled(x + y),
{
    let p = x.last()->bytes;
    let q = y[0]->bytes;
    let one = Event::StrValue { bytes: p + q };
    let left = Event::StrValue { bytes: p };
    let right = Event::StrValue { bytes: q };
    lemma_spelled_single(one);
    lemma_spelled_single(left);
    lemma_spelled_single(right);
    lemma_spelled_concat(seq![left], seq![right]);
    lemma_spelled_concat(x.drop_last(), seq![one]);
    lemma_spelled_concat(x.drop_last() + seq![one], y.skip(1));
    lemma_spelled_concat(x.drop_last(), seq![left] + seq![right]);
    lemma_spelled_concat(x.drop_last() + (seq![left] + seq![right]), y.skip(1));
    assert(x + y =~= (x.drop_last() + (seq![left] + seq![right])) + y.skip(1));
}

/// To a consumer who puts the pieces of each name together, a chunk
/// boundary does not show.
pub proof fn lemma_split_spelled(m: Machine, a: Seq<u8>, b: Seq<u8>)
    ensures
        spelled(events(m, a + b)) == spelled(events(m, a) + events(m.on_bytes(a), b)),
{
    lemma_events_split(m, a, b);
    if b.len() > 0 && cuts_name(m, a) {
        lemma_spelled_welded(events(m, a), events(m.on_bytes(a), b));
    }
}

/// The bytes of the chunks, one chunk after the other.
pub open spec fn joined(chunks: Seq<Seq<u8>>) -> Seq<u8>
    decreases chunks.len(),
{
    if chunks.len() == 0 {
        Seq::empty()
    } else {
        joined(chunks.drop_last()) + chunks.last()
    }
}

/// Where a parser stands after some calls: its registers, and the events
/// that it has reported.
pub struct Run {
    pub machine: Machine,
    pub events: Seq<Event>,
}

/// A parser with registers `m` after it has read the chunks, one call of
/// `parse` for each.
pub open spec fn run(m: Machine, chunks: Seq<Seq<u8>>) -> Run
    decreases chunks.len(),
{
    if chunks.len() == 0 {
        Run { machine: m, events: Seq::empty() }
    } else {
        let before = run(m, chunks.drop_last());
        Run {
            machine: before.machine.on_bytes(chunks.last()),
            events: before.events + events(before.machine, chunks.last()),
        }
    }
}

/// The same parser after `finish`.
pub open spec fn ended(r: Run) -> Run {
    Run { machine: r.machine.settled(), events: r.events + r.machine.due() }
}

/// One chunk alone: what `parse` says of it.
pub proof fn lemma_run_single(m: Machine, s: Seq<u8>)
    ensures
        joined(seq![s]) == s,
        run(m, seq![s]).machine == m.on_bytes(s),
        run(m, seq![s]).events == events(m, s),
{
    let whole = seq![s];
    let none = whole.drop_last();
    assert(joined(none) == Seq::<u8>::empty());
    assert(run(m, none) == Run { machine: m, events: Seq::empty() });
}

/// The registers do not depend on the chunking at all.
pub proof fn lemma_run_machine(m: Machine, chunks: Seq<Seq<u8>>)
    ensures
        run(m, chunks).machine == m.on_bytes(joined(chunks)),
    decreases chunks.len(),
{
    if chunks.len() > 0 {
        lemma_run_machine(m, chunks.drop_last());
        lemma_on_bytes_split(m, joined(chunks.drop_last()), chunks.last());
    }
}

/// The events of any chunking are those of the whole input in one chunk,
/// up to the cutting of names.
pub proof fn lemma_run_spelled(m: Machine, chunks: Seq<Seq<u8>>)
    ensures
        spelled(run(m, chunks).events) == spelled(events(m, joined(chunks))),
    decreases chunks.len(),
{
    if chunks.len() > 0 {
        let front = chunks.drop_last();
        lemma_run_spelled(m, front);
        lemma_run_machine(m, front);
        lemma_split_spelled(m, joined(front), chunks.last());
        lemma_spelled_concat(run(m, front).events, events(run(m, front).machine, chunks.last()));
        lemma_spelled_concat(
            events(m, joined(front)),
            events(m.on_bytes(joined(front)), chunks.last()),
        );
    }
}

/// Chunk boundaries do not show. Two ways of cutting one input into
/// chunks, each followed by `finish`, leave the same registers and report
/// the same records in the same order, each with the same name: the event
/// sequences are equal once the pieces of each name are put together.
pub proof fn theorem_chunking_does_not_show(m: Machine, one: Seq<Seq<u8>>, other: Seq<Seq<u8>>)
    requires
        joined(one) == joined(other),
    ensures
        ended(run(m, one)).machine == ended(run(m, other)).machine,
        spelled(ended(run(m, one)).events) == spelled(ended(run(m, other)).events),
{
    lemma_run_machine(m, one);
    lemma_run_machine(m, other);
    lemma_run_spelled(m, one);
    lemma_run_spelled(m, other);
    let due = run(m, one).machine.due();
    lemma_spelled_concat(run(m, one).events, due);
    lemma_spelled_concat(run(m, other).events, due);
}

/// Whether no chunk goes on with a name of which an earlier chunk has
/// reported a piece.
pub open spec fn cuts_no_name(m: Machine, chunks: Seq<Seq<u8>>) -> bool {
    forall|k: int|
        0 <= k < chunks.len() ==> !(chunks[k].len() > 0 && #[trigger] cuts_name(
            m,
            joined(chunks.take(k)),
        ))
}

/// Where no name is cut, the events of a chunking are those of the whole
/// input in one chunk: the same events in the same order.
pub proof fn lemma_run_between_names(m: Machine, chunks: Seq<Seq<u8>>)
    requires
        cuts_no_name(m, chunks),
    ensures
        run(m, chunks).events == events(m, joined(chunks)),
        ended(run(m, chunks)) == ended(run(m, seq![joined(chunks)])),
    decreases chunks.len(),
{
    lemma_run_single(m, joined(chunks));
    lemma_run_machine(m, chunks);
    if chunks.len() > 0 {
        let front = chunks.drop_last();
        assert forall|j: int| 0 <= j < front.len() implies !(front[j].len() > 0
            && #[trigger] cuts_name(m, joined(front.take(j)))) by {
            assert(front.take(j) =~= chunks.take(j));
        }
        lemma_run_between_names(m, front);
        lemma_run_machine(m, front);
        lemma_split_between_names(m, joined(front), chunks.last());
    }
}

/// What is left of a line that holds no record is passed over in silence,
/// and its line feed leads back to the start of a line.
pub proof fn lemma_rest_of_line_is_skipped(m: Machine, rest: Seq<u8>)
    requires
        m.state is Skip,
        forall|j: int| 0 <= j < rest.len() ==> rest[j] != NEWLINE,
    ensures
        events(m, rest.push(NEWLINE)) == Seq::<Event>::empty(),
        m.on_bytes(rest.push(NEWLINE)) == m.with_state(State::Start),
    decreases rest.len(),
{
    let line = rest.push(NEWLINE);
    if rest.len() == 0 {
        assert(events(m.on_byte(line[0]), line.skip(1)) == Seq::<Event>::empty());
        assert(m.on_byte(line[0]).on_bytes(line.skip(1)) == m.with_state(State::Start));
    } else {
        assert(line.skip(1) =~= rest.skip(1).push(NEWLINE));
        assert forall|j: int| 0 <= j < rest.skip(1).len() implies rest.skip(1)[j] != NEWLINE by {
        }
        lemma_rest_of_line_is_skipped(m, rest.skip(1));
    }
}

/// A line that is no record is discarded: where it begins with anything
/// but a digit, `F` or `P`, or with an `F` that neither `U` nor `I` follows,
/// the parser reports nothing and stands at the start of the next line as
/// it stood at the start of this one.
pub proof fn lemma_other_line_is_discarded(m: Machine, text: Seq<u8>)
    requires
        m.state is Start,
        text.len() > 0,
        forall|j: int| 0 <= j < text.len() ==> text[j] != NEWLINE,
        line_kind(text[0]) is Skip || (text[0] == UPPER_F && text.len() >= 2 && keyword_kind(
            text[1],
        ) is Skip),
    ensures
        events(m, text.push(NEWLINE)) == Seq::<Event>::empty(),
        m.on_bytes(text.push(NEWLINE)) == m,
{
    let line = text.push(NEWLINE);
    let skipping = m.with_state(State::Skip);
    assert(line[0] == text[0]);
    assert(line.skip(1) =~= text.skip(1).push(NEWLINE));
    if line_kind(text[0]) is Skip {
        assert forall|j: int| 0 <= j < text.skip(1).len() implies text.skip(1)[j] != NEWLINE by {
        }
        lemma_rest_of_line_is_skipped(skipping, text.skip(1));
    } else {
        let keyword = m.with_state(State::FuncOrFile);
        assert(line.skip(1).skip(1) =~= text.skip(2).push(NEWLINE));
        assert forall|j: int| 0 <= j < text.skip(2).len() implies text.skip(2)[j] != NEWLINE by {
        }
        lemma_rest_of_line_is_skipped(skipping, text.skip(2));
        assert(events(m, line) == events(keyword, line.skip(1)));
    }
}

/// A record that the input breaks off in is dropped: `finish` reports
/// nothing and changes nothing unless all fields of a record are read.
pub proof fn lemma_finish_drops_partial_record(m: Machine)
    requires
        !(m.state.routine() is Complete),
    ensures
        m.due() == Seq::<Event>::empty(),
        m.settled() == m,
{
}

/// Once a record is reported, nothing of it is left: the registers are
/// those of a parser that has read nothing.
pub proof fn lemma_reported_record_is_forgotten(m: Machine, b: u8)
    requires
        m.state.routine() is Complete,
    ensures
        m.due().len() == 1,
        m.settled() == Machine::initial(),
        m.on_byte(b) == Machine::initial().on_byte(b),
{
}

/// At the start of a line the parser has forgotten all that came before:
/// whatever it has read, its registers are those of a parser that has read
/// nothing, so that no field of an earlier record, complete or given up,
/// can show in a later one.
pub proof fn lemma_fresh_at_line_start(m: Machine, s: Seq<u8>)
    requires
        m.wf(),
        m.on_bytes(s).state is Start,
    ensures
        m.on_bytes(s) == Machine::initial(),
{
    lemma_on_bytes_wf(m, s);
}

/// The fields that are still to be read are empty: whatever has been read,
/// the row holds nothing at or after the cursor but the field that is
/// being read.
pub proof fn lemma_unread_fields_are_zero(m: Machine, s: Seq<u8>, i: int)
    requires
        m.wf(),
        m.on_bytes(s).cursor <= i < 4,
        !(i == m.on_bytes(s).cursor && m.on_bytes(s).state.reads_number()),
    ensures
        m.on_bytes(s).row[i] == 0,
{
    lemma_on_bytes_wf(m, s);
}

} // verus!
