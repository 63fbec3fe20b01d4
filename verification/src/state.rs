//! The positions of the parser in the grammar of a line.

use vstd::prelude::*;

verus! {

/// Where the parser stands in the line that it is reading.
///
/// The states of one record family follow each other in the order in which
/// its fields are read, so that a field scanner can move on with
/// [`State::next`] without knowing the family.
#[derive(Clone, Copy, PartialEq, Eq, Debug, Structural)]
pub enum State {
    /// At the first byte of a line.
    Start,
    LineHexAddr,
    LineHexSize,
    LineDecLine,
    LineDecFile,
    LineEnd,
    /// Discarding the rest of the line.
    Skip,
    /// After a leading `F`: a function record or a file record.
    FuncOrFile,
    Func,
    FuncHexAddr,
    FuncHexSize,
    FuncHexParams,
    FuncStrName,
    FuncEnd,
    File,
    FileDecIndex,
    FileStrName,
    FileEnd,
    Public,
    PublicHexAddr,
    PublicHexParams,
    PublicStrName,
    PublicEnd,
}

/// What the parser does with the bytes that it meets in a state.
#[derive(Clone, Copy, PartialEq, Eq, Debug, Structural)]
pub enum Routine {
    /// Tell the kind of line from its first byte.
    ClassifyLine,
    /// Tell a function record from a file record by the byte after `F`.
    ClassifyKeyword,
    /// Read a hexadecimal field.
    ScanHex,
    /// Read a decimal field.
    ScanDec,
    /// Read a name, up to the end of the line.
    ScanName,
    /// Pass over the rest of a keyword, up to the first digit.
    SkipToDigit,
    /// Pass over the rest of the line.
    SkipLine,
    /// Report the record whose fields are all read.
    Complete,
}

impl State {
    /// The place of the state in the order of all states, from zero.
    pub open spec fn ordinal(self) -> nat {
        match self {
            State::Start => 0,
            State::LineHexAddr => 1,
            State::LineHexSize => 2,
            State::LineDecLine => 3,
            State::LineDecFile => 4,
            State::LineEnd => 5,
            State::Skip => 6,
            State::FuncOrFile => 7,
            State::Func => 8,
            State::FuncHexAddr => 9,
            State::FuncHexSize => 10,
            State::FuncHexParams => 11,
            State::FuncStrName => 12,
            State::FuncEnd => 13,
            State::File => 14,
            State::FileDecIndex => 15,
            State::FileStrName => 16,
            State::FileEnd => 17,
            State::Public => 18,
            State::PublicHexAddr => 19,
            State::PublicHexParams => 20,
            State::PublicStrName => 21,
            State::PublicEnd => 22,
        }
    }

    /// The state that follows in the order of all states. The last state
    /// has none and stands for itself.
    pub open spec fn successor(self) -> State {
        match self {
            State::Start => State::LineHexAddr,
            State::LineHexAddr => State::LineHexSize,
            State::LineHexSize => State::LineDecLine,
            State::LineDecLine => State::LineDecFile,
            State::LineDecFile => State::LineEnd,
            State::LineEnd => State::Skip,
            State::Skip => State::FuncOrFile,
            State::FuncOrFile => State::Func,
            State::Func => State::FuncHexAddr,
            State::FuncHexAddr => State::FuncHexSize,
            State::FuncHexSize => State::FuncHexParams,
            State::FuncHexParams => State::FuncStrName,
            State::FuncStrName => State::FuncEnd,
            State::FuncEnd => State::File,
            State::File => State::FileDecIndex,
            State::FileDecIndex => State::FileStrName,
            State::FileStrName => State::FileEnd,
            State::FileEnd => State::Public,
            State::Public => State::PublicHexAddr,
            State::PublicHexAddr => State::PublicHexParams,
            State::PublicHexParams => State::PublicStrName,
            State::PublicStrName => State::PublicEnd,
            State::PublicEnd => State::PublicEnd,
        }
    }

    /// The routine that handles the bytes met in this state.
    pub open spec fn routine(self) -> Routine {
        match self {
            State::Start => Routine::ClassifyLine,
            State::FuncOrFile => Routine::ClassifyKeyword,
            State::LineHexAddr
            | State::LineHexSize
            | State::FuncHexAddr
            | State::FuncHexSize
            | State::FuncHexParams
            | State::PublicHexAddr
            | State::PublicHexParams => Routine::ScanHex,
            State::LineDecLine | State::LineDecFile | State::FileDecIndex => Routine::ScanDec,
            State::FuncStrName | State::FileStrName | State::PublicStrName => Routine::ScanName,
            State::Func | State::File | State::Public => Routine::SkipToDigit,
            State::Skip => Routine::SkipLine,
            State::LineEnd | State::FuncEnd | State::FileEnd | State::PublicEnd => Routine::Complete,
        }
    }

    /// How many numeric fields of the record are complete when the parser
    /// stands in this state: the index of the row slot that is filled next.
    pub open spec fn cursor(self) -> nat {
        match self {
            State::Start | State::Skip | State::FuncOrFile => 0,
            State::LineHexAddr => 0,
            State::LineHexSize => 1,
            State::LineDecLine => 2,
            State::LineDecFile => 3,
            State::LineEnd => 4,
            State::Func | State::FuncHexAddr => 0,
            State::FuncHexSize => 1,
            State::FuncHexParams => 2,
            State::FuncStrName | State::FuncEnd => 3,
            State::File | State::FileDecIndex => 0,
            State::FileStrName | State::FileEnd => 1,
            State::Public | State::PublicHexAddr => 0,
            State::PublicHexParams => 1,
            State::PublicStrName | State::PublicEnd => 2,
        }
    }

    /// Whether a numeric field is read in this state.
    pub open spec fn reads_number(self) -> bool {
        self.routine() is ScanHex || self.routine() is ScanDec
    }

    /// The state that follows this one.
    pub fn next(self) -> (r: State)
        ensures
            r == self.successor(),
    {
        match self {
            State::Start => State::LineHexAddr,
            State::LineHexAddr => State::LineHexSize,
            State::LineHexSize => State::LineDecLine,
            State::LineDecLine => State::LineDecFile,
            State::LineDecFile => State::LineEnd,
            State::LineEnd => State::Skip,
            State::Skip => State::FuncOrFile,
            State::FuncOrFile => State::Func,
            State::Func => State::FuncHexAddr,
            State::FuncHexAddr => State::FuncHexSize,
            State::FuncHexSize => State::FuncHexParams,
            State::FuncHexParams => State::FuncStrName,
            State::FuncStrName => State::FuncEnd,
            State::FuncEnd => State::File,
            State::File => State::FileDecIndex,
            State::FileDecIndex => State::FileStrName,
            State::FileStrName => State::FileEnd,
            State::FileEnd => State::Public,
            State::Public => State::PublicHexAddr,
            State::PublicHexAddr => State::PublicHexParams,
            State::PublicHexParams => State::PublicStrName,
            State::PublicStrName | State::PublicEnd => State::PublicEnd,
        }
    }
}

/// Moving on is one step in the order of all states.
pub proof fn lemma_successor_is_next_ordinal(s: State)
    requires
        s !is PublicEnd,
    ensures
        s.successor().ordinal() == s.ordinal() + 1,
{
}

} // verus!
