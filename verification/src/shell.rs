//! The menu of the course planner: which command a line of input asks for.

use crate::text::chars_of;
use crate::text::trim;
use crate::text::trimmed;
use vstd::prelude::*;

verus! {

/// What the user can ask of the course planner.
#[derive(Debug, Clone, Copy, PartialEq, Eq, Structural)]
pub enum Command {
    /// Load the courses from the source.
    Load,
    /// Show every course, sorted by number.
    PrintAll,
    /// Show one course, looked up by its number.
    PrintCourse,
    /// Leave.
    Exit,
    /// Anything the menu does not offer.
    Unknown,
}

/// The command that a choice stands for: `1` loads, `2` shows every course,
/// `3` shows one course, `9` leaves, and nothing else is on the menu.
pub open spec fn command_for(choice: Seq<char>) -> Command {
    if choice == seq!['1'] {
        Command::Load
    } else if choice == seq!['2'] {
        Command::PrintAll
    } else if choice == seq!['3'] {
        Command::PrintCourse
    } else if choice == seq!['9'] {
        Command::Exit
    } else {
        Command::Unknown
    }
}

/// Reads a line of input as a command. White space at the two ends of the
/// line, the line feed that ends it among it, does not count.
pub fn command_of(input: &str) -> (command: Command)
    ensures
        command == command_for(trimmed(input@)),
{
    let choice = chars_of(trim(input));
    if choice.len() != 1 {
        return Command::Unknown;
    }
    let c = choice[0];
    assert(choice@ =~= seq![c]);
    assert(seq![c] == seq!['1'] <==> c == '1') by {
        if seq![c] == seq!['1'] {
            assert(seq![c][0] == seq!['1'][0]);
        }
    }
    assert(seq![c] == seq!['2'] <==> c == '2') by {
        if seq![c] == seq!['2'] {
            assert(seq![c][0] == seq!['2'][0]);
        }
    }
    assert(seq![c] == seq!['3'] <==> c == '3') by {
        if seq![c] == seq!['3'] {
            assert(seq![c][0] == seq!['3'][0]);
        }
    }
    assert(seq![c] == seq!['9'] <==> c == '9') by {
        if seq![c] == seq!['9'] {
            assert(seq![c][0] == seq!['9'][0]);
        }
    }
    if c == '1' {
        Command::Load
    } else if c == '2' {
        Command::PrintAll
    } else if c == '3' {
        Command::PrintCourse
    } else if c == '9' {
        Command::Exit
    } else {
        Command::Unknown
    }
}

} // verus!
