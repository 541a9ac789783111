//! Parsing of one line of player input into a command.

use vstd::prelude::*;

verus! {

/// A parsed player command: attack the cell at `(row, column)`, or quit.
#[derive(Clone, Copy, Debug, PartialEq, Eq, Structural)]
pub enum Cmd {
    Attack(usize, usize),
    Exit,
}

/// Why an input line is not a command.
#[derive(Clone, Copy, Debug, PartialEq, Eq, Structural)]
pub enum CmdError {
    /// Neither the quit word nor exactly two characters long.
    Undefined,
    /// The column character is not a lowercase ASCII letter.
    BadLetter,
    /// The row character is not an ASCII digit.
    BadDigit,
}

/// The quit word, as bytes.
pub open spec fn exit_bytes() -> Seq<u8> {
    seq![101u8, 120u8, 105u8, 116u8]
}

/// `b` is a lowercase ASCII letter.
pub open spec fn is_lower_letter(b: u8) -> bool {
    97 <= b <= 122
}

/// `b` is an ASCII digit.
pub open spec fn is_ascii_digit(b: u8) -> bool {
    48 <= b <= 57
}

impl Cmd {
    /// Parse one lowercased input line: the quit word gives `Exit`; otherwise
    /// the line must be a letter (the column) followed by a digit (the row).
    pub fn try_from(input: &[u8]) -> (r: Result<Cmd, CmdError>)
        ensures
            input@ == exit_bytes() ==> r == Ok::<Cmd, CmdError>(Cmd::Exit),
            input@ != exit_bytes() && input@.len() != 2 ==> r == Err::<Cmd, CmdError>(
                CmdError::Undefined,
            ),
            input@ != exit_bytes() && input@.len() == 2 && !is_lower_letter(input@[0]) ==> r
                == Err::<Cmd, CmdError>(CmdError::BadLetter),
            input@ != exit_bytes() && input@.len() == 2 && is_lower_letter(input@[0])
                && !is_ascii_digit(input@[1]) ==> r == Err::<Cmd, CmdError>(CmdError::BadDigit),
            input@ != exit_bytes() && input@.len() == 2 && is_lower_letter(input@[0])
                && is_ascii_digit(input@[1]) ==> r == Ok::<Cmd, CmdError>(
                Cmd::Attack((input@[1] - 48) as usize, (input@[0] - 97) as usize),
            ),
    {
        let is_exit = input.len() == 4 && input[0] == 101 && input[1] == 120 && input[2] == 105
            && input[3] == 116;
        if is_exit {
            assert(input@ =~= exit_bytes());
            return Ok(Cmd::Exit);
        }
        proof {
            if input@ == exit_bytes() {
                assert(input@.len() == 4);
                assert(input@[0] == 101 && input@[1] == 120 && input@[2] == 105 && input@[3]
                    == 116);
                assert(false);
            }
        }

        if input.len() != 2 {
            return Err(CmdError::Undefined);
        }

        let letter = input[0];
        let digit = input[1];

        if !(97 <= letter && letter <= 122) {
            return Err(CmdError::BadLetter);
        }
        if !(48 <= digit && digit <= 57) {
            return Err(CmdError::BadDigit);
        }

        let x = (digit - 48) as usize;
        let y = (letter - 97) as usize;
        Ok(Cmd::Attack(x, y))
    }
}

} // verus!
