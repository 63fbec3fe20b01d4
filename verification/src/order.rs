//! The order in which the events of a name and of its record reach the
//! sink.

use vstd::prelude::*;
use crate::event::Event;
use crate::laws::ended;
use crate::laws::run;
use crate::machine::events;
use crate::machine::lemma_line_len;
use crate::machine::lemma_name_on_bytes;
use crate::machine::line_len;
use crate::machine::Machine;
use crate::state::State;
use crate::steps::quiet;

verus! {

/// Whether the event completes a record that has a name.
pub open spec fn ends_named_record(e: Event) -> bool {
    e is Func || e is File || e is Public
}

/// Whether all fields of a record with a name are read in the state.
pub open spec fn named_record_due(state: State) -> bool {
    state is FuncEnd || state is FileEnd || state is PublicEnd
}

/// Whether `e` may come directly after `prev`: a record with a name comes
/// after a piece of its name, and a piece of a name is followed by nothing
/// but another piece or the record.
pub open spec fn may_follow(prev: Event, e: Event) -> bool {
    &&& ends_named_record(e) ==> prev is StrValue
    &&& prev is StrValue ==> e is StrValue || ends_named_record(e)
}

/// Whether the events stand in the order in which a parser reports them:
/// the pieces of a name directly before its record, one piece at least,
/// and nowhere else, so that the names of two records never mix.
pub open spec fn in_order(ev: Seq<Event>) -> bool {
    &&& ev.len() > 0 ==> !ends_named_record(ev[0])
    &&& forall|i: int| 0 < i < ev.len() ==> may_follow(ev[i - 1], #[trigger] ev[i])
}

/// Whether the last event is a piece of a name.
pub open spec fn ends_in_piece(ev: Seq<Event>) -> bool {
    ev.len() > 0 && ev.last() is StrValue
}

/// Whether a parser that has reported the events `ev` can have the
/// registers `m`: the events are in order, and a name is open in the events
/// where it is open in the registers.
pub open spec fn in_step(m: Machine, ev: Seq<Event>) -> bool {
    &&& in_order(ev)
    &&& ends_in_piece(ev) ==> m.state.routine() is ScanName || named_record_due(m.state)
    &&& named_record_due(m.state) ==> ends_in_piece(ev)
}

/// One more event that may follow keeps the order.
proof fn lemma_in_order_push(ev: Seq<Event>, e: Event)
    requires
        in_order(ev),
        ev.len() == 0 ==> !ends_named_record(e),
        ev.len() > 0 ==> may_follow(ev.last(), e),
    ensures
        in_order(ev.push(e)),
{
    let more = ev.push(e);
    assert forall|i: int| 0 < i < more.len() implies may_follow(more[i - 1], #[trigger] more[i]) by {
    }
}

/// The record that is due comes in order, and leaves no name open.
proof fn lemma_due_in_step(m: Machine, ev: Seq<Event>)
    requires
        in_step(m, ev),
    ensures
        in_step(m.settled(), ev + m.due()),
{
    if m.state.routine() is Complete {
        let e = m.due()[0];
        lemma_in_order_push(ev, e);
    }
}

/// A piece of a name comes in order, and leaves the name open.
proof fn lemma_piece_in_step(m: Machine, ev: Seq<Event>, bytes: Seq<u8>)
    requires
        in_step(m, ev),
        m.state.routine() is ScanName,
    ensures
        in_step(m, ev.push(Event::StrValue { bytes })),
        in_step(m.next_state(), ev.push(Event::StrValue { bytes })),
{
    lemma_in_order_push(ev, Event::StrValue { bytes });
}

/// A byte that is read without a report leaves no name open.
proof fn lemma_quiet_byte_in_step(m: Machine, ev: Seq<Event>, b: u8)
    requires
        in_step(m, ev),
        quiet(m.state),
    ensures
        in_step(m.on_byte(b), ev),
{
}

/// The events of a chunk that finds a record due, after the events `ev`.
proof fn lemma_events_after_due(m: Machine, ev: Seq<Event>, s: Seq<u8>)
    requires
        m.state.routine() is Complete,
        s.len() > 0,
    ensures
        m.on_bytes(s) == Machine::initial().on_bytes(s),
        ev + events(m, s) == (ev + m.due()) + events(Machine::initial(), s),
{
}

/// The events of a chunk that begins inside a name, after the events `ev`.
proof fn lemma_events_after_piece(m: Machine, ev: Seq<Event>, s: Seq<u8>)
    requires
        m.state.routine() is ScanName,
        s.len() > 0,
    ensures
        line_len(s) <= s.len(),
        line_len(s) < s.len() ==> m.on_bytes(s) == m.next_state().on_bytes(
            s.skip(line_len(s) as int + 1),
        ) && ev + events(m, s) == ev.push((Event::StrValue { bytes: s.take(line_len(s) as int) }))
            + events(m.next_state(), s.skip(line_len(s) as int + 1)),
        line_len(s) == s.len() ==> m.on_bytes(s) == m && ev + events(m, s) == ev.push(
            (Event::StrValue { bytes: s.take(line_len(s) as int) }),
        ),
{
    lemma_line_len(s);
    lemma_name_on_bytes(m, s);
}

/// Reading a chunk keeps the events in order.
pub proof fn lemma_chunk_in_step(m: Machine, ev: Seq<Event>, s: Seq<u8>)
    requires
        in_step(m, ev),
    ensures
        in_step(m.on_bytes(s), ev + events(m, s)),
    decreases s.len(), (if m.state.routine() is Complete { 1nat } else { 0nat }),
{
    if s.len() == 0 {
    } else if m.state.routine() is Complete {
        lemma_due_in_step(m, ev);
        lemma_events_after_due(m, ev, s);
        lemma_chunk_in_step(Machine::initial(), ev + m.due(), s);
    } else if m.state.routine() is ScanName {
        let piece = Event::StrValue { bytes: s.take(line_len(s) as int) };
        lemma_piece_in_step(m, ev, s.take(line_len(s) as int));
        lemma_events_after_piece(m, ev, s);
        if line_len(s) < s.len() {
            lemma_chunk_in_step(m.next_state(), ev.push(piece), s.skip(line_len(s) as int + 1));
        }
    } else {
        lemma_quiet_byte_in_step(m, ev, s[0]);
        lemma_chunk_in_step(m.on_byte(s[0]), ev, s.skip(1));
    }
}

/// Reading chunk after chunk keeps the events in order.
pub proof fn lemma_run_in_step(m: Machine, chunks: Seq<Seq<u8>>)
    requires
        in_step(m, Seq::empty()),
    ensures
        in_step(run(m, chunks).machine, run(m, chunks).events),
    decreases chunks.len(),
{
    if chunks.len() > 0 {
        let before = run(m, chunks.drop_last());
        lemma_run_in_step(m, chunks.drop_last());
        lemma_chunk_in_step(before.machine, before.events, chunks.last());
    }
}

/// The pieces of a name reach the sink directly before the record that the
/// name belongs to, and nowhere else. However the input is cut into chunks,
/// a function, file or public record comes directly after a piece of its
/// name; what comes after a piece of a name is another piece or the record;
/// so a line record never comes between, and the names of two records
/// never mix.
pub proof fn theorem_names_come_before_their_records(chunks: Seq<Seq<u8>>)
    ensures
        in_order(run(Machine::initial(), chunks).events),
        in_order(ended(run(Machine::initial(), chunks)).events),
{
    let r = run(Machine::initial(), chunks);
    lemma_run_in_step(Machine::initial(), chunks);
    lemma_due_in_step(r.machine, r.events);
}

} // verus!
