use vstd::prelude::*;
use vstd::string::StringExecFns;

verus! {

/// Why a program could not be compiled.
#[derive(Debug, PartialEq, Eq)]
pub enum CompileError {
    UnmatchedOpen { line: usize, col: usize },
    UnmatchedClose { line: usize, col: usize },
    Io(String),
}

/// The result of a compilation step.
pub type Result<T> = std::result::Result<T, CompileError>;

/// The character of a decimal digit.
pub open spec fn digit_char(d: nat) -> char {
    if d == 0 {
        '0'
    } else if d == 1 {
        '1'
    } else if d == 2 {
        '2'
    } else if d == 3 {
        '3'
    } else if d == 4 {
        '4'
    } else if d == 5 {
        '5'
    } else if d == 6 {
        '6'
    } else if d == 7 {
        '7'
    } else if d == 8 {
        '8'
    } else {
        '9'
    }
}

/// The decimal notation of a number, without leading zeros.
pub open spec fn decimal(n: nat) -> Seq<char>
    decreases n,
{
    if n < 10 {
        seq![digit_char(n)]
    } else {
        decimal(n / 10) + seq![digit_char(n % 10)]
    }
}

/// The text that describes an error.
pub open spec fn message_text(e: CompileError) -> Seq<char> {
    match e {
        CompileError::UnmatchedOpen { line, col } => "unmatched '[' at line "@ + decimal(
            line as nat,
        ) + ", column "@ + decimal(col as nat),
        CompileError::UnmatchedClose { line, col } => "unmatched ']' at line "@ + decimal(
            line as nat,
        ) + ", column "@ + decimal(col as nat),
        CompileError::Io(msg) => "I/O error: "@ + msg@,
    }
}

/// The one-character text of a digit.
fn digit_str(d: usize) -> (s: &'static str)
    requires
        d < 10,
    ensures
        s@ == seq![digit_char(d as nat)],
{
    match d {
        0 => {
            proof {
                reveal_strlit("0");
            }
            "0"
        },
        1 => {
            proof {
                reveal_strlit("1");
            }
            "1"
        },
        2 => {
            proof {
                reveal_strlit("2");
            }
            "2"
        },
        3 => {
            proof {
                reveal_strlit("3");
            }
            "3"
        },
        4 => {
            proof {
                reveal_strlit("4");
            }
            "4"
        },
        5 => {
            proof {
                reveal_strlit("5");
            }
            "5"
        },
        6 => {
            proof {
                reveal_strlit("6");
            }
            "6"
        },
        7 => {
            proof {
                reveal_strlit("7");
            }
            "7"
        },
        8 => {
            proof {
                reveal_strlit("8");
            }
            "8"
        },
        _ => {
            proof {
                reveal_strlit("9");
            }
            "9"
        },
    }
}

/// Appends the decimal notation of `n`.
fn push_decimal(out: &mut String, n: usize)
    ensures
        final(out)@ == old(out)@ + decimal(n as nat),
    decreases n,
{
    if n >= 10 {
        push_decimal(out, n / 10);
    }
    out.append(digit_str(n % 10));
    proof {
        if n >= 10 {
            assert(final(out)@ =~= old(out)@ + decimal(n as nat));
        } else {
            assert(final(out)@ =~= old(out)@ + decimal(n as nat));
        }
    }
}

impl CompileError {
    /// The message that describes the error, as the command line prints it.
    pub fn message(&self) -> (text: String)
        ensures
            text@ == message_text(*self),
    {
        match self {
            CompileError::UnmatchedOpen { line, col } => {
                let mut text = String::from_str("unmatched '[' at line ");
                push_decimal(&mut text, *line);
                text.append(", column ");
                push_decimal(&mut text, *col);
                text
            },
            CompileError::UnmatchedClose { line, col } => {
                let mut text = String::from_str("unmatched ']' at line ");
                push_decimal(&mut text, *line);
                text.append(", column ");
                push_decimal(&mut text, *col);
                text
            },
            CompileError::Io(msg) => {
                let mut text = String::from_str("I/O error: ");
                text.append(msg.as_str());
                text
            },
        }
    }
}

} // verus!
