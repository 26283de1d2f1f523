//! Data structures for error handling in a Brainfuck program.

use vstd::prelude::*;

verus! {

/// Declaration of `std::io::Error` so that the library's own error type can
/// carry a failure coming from the input collaborator (reading one byte from
/// the interactive input source, or toggling the terminal's raw mode).
#[verifier::external_type_specification]
#[verifier::external_body]
pub struct ExIoError(std::io::Error);

/// An error that can occur during the lexing, parsing, and running of a
/// Brainfuck program.
#[derive(Debug)]
pub enum Error {
    UnmatchedBracket { position: usize },
    InfiniteLoop { position: usize },
    MemoryOutOfBounds { position: usize },
    Io { internal: std::io::Error },
}

/// Relies on the `Display` implementation of `std::io::Error`, through the
/// `format!` macro: renders the underlying failure as text. Nothing is
/// promised of the wording.
#[verifier::external_body]
fn io_error_text(e: &std::io::Error) -> String {
    format!("{}", e)
}

impl Error {
    /// The error's message: the kind of failure and, for the three
    /// positioned kinds, the position in decimal.
    pub fn message(&self) -> (r: String)
        ensures
            self matches Error::UnmatchedBracket { position } ==> r@
                == "unmatched bracket at position "@ + crate::text::dec_str(position as nat),
            self matches Error::InfiniteLoop { position } ==> r@
                == "infinite loop detected at position "@ + crate::text::dec_str(position as nat),
            self matches Error::MemoryOutOfBounds { position } ==> r@
                == "memory access out of bounds at position "@ + crate::text::dec_str(
                position as nat,
            ),
            self matches Error::Io { .. } ==> r@.len() >= "io error: "@.len() && r@.subrange(
                0,
                "io error: "@.len() as int,
            ) == "io error: "@,
    {
        match self {
            Error::UnmatchedBracket { position } => {
                let mut s = "unmatched bracket at position ".to_owned();
                let num = crate::text::usize_string(*position);
                s.append(num.as_str());
                proof {
                    assert(s@ =~= "unmatched bracket at position "@ + crate::text::dec_str(
                        *position as nat,
                    ));
                }
                s
            },
            Error::InfiniteLoop { position } => {
                let mut s = "infinite loop detected at position ".to_owned();
                let num = crate::text::usize_string(*position);
                s.append(num.as_str());
                proof {
                    assert(s@ =~= "infinite loop detected at position "@ + crate::text::dec_str(
                        *position as nat,
                    ));
                }
                s
            },
            Error::MemoryOutOfBounds { position } => {
                let mut s = "memory access out of bounds at position ".to_owned();
                let num = crate::text::usize_string(*position);
                s.append(num.as_str());
                proof {
                    assert(s@ =~= "memory access out of bounds at position "@
                        + crate::text::dec_str(*position as nat));
                }
                s
            },
            Error::Io { internal } => {
                let mut s = "io error: ".to_owned();
                let text = io_error_text(internal);
                s.append(text.as_str());
                proof {
                    assert(s@.subrange(0, "io error: "@.len() as int) =~= "io error: "@);
                }
                s
            },
        }
    }
}

} // verus!
