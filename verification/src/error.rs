//! The errors that the library reports.
use vstd::prelude::*;

verus! {

/// The broad class of an [`Error`].
#[derive(Debug, Clone, Copy, PartialEq, Eq, Structural)]
pub enum ErrorKind {
    Other,
    TimedOut,
    InvalidInput,
}

/// What can go wrong while talking to the target or preparing an image.
#[derive(Debug, Clone, Copy, PartialEq, Eq, Structural)]
pub enum Error {
    /// A frame does not begin with the frame delimiter.
    InvalidByte,
    /// A received frame holds an escape sequence.
    InvalidEscape,
    /// The target's reply does not acknowledge the command.
    InvalidResponse,
    /// The target did not answer in time.
    Timeout,
    /// The image is an ELF file for another machine.
    NotRiscv,
    /// Input or output failed; the caller holds the cause.
    Io,
}

impl Error {
    /// The class that each error belongs to.
    pub open spec fn kind_of(self) -> ErrorKind {
        match self {
            Error::Timeout => ErrorKind::TimedOut,
            Error::NotRiscv => ErrorKind::InvalidInput,
            _ => ErrorKind::Other,
        }
    }

    /// The text that describes each error.
    pub open spec fn text_of(self) -> Seq<char> {
        match self {
            Error::InvalidByte => "Invalid byte"@,
            Error::InvalidEscape => "Invalid byte in escape sequence"@,
            Error::InvalidResponse => "Invalid response"@,
            Error::Timeout => "Timeout"@,
            Error::NotRiscv => "Not a RISCV64 ELF file"@,
            Error::Io => "Input or output failed"@,
        }
    }

    /// The class of this error.
    pub fn kind(&self) -> (kind: ErrorKind)
        ensures
            kind == self.kind_of(),
    {
        match self {
            Error::Timeout => ErrorKind::TimedOut,
            Error::NotRiscv => ErrorKind::InvalidInput,
            _ => ErrorKind::Other,
        }
    }

    /// A description of this error for the user.
    pub fn message(&self) -> (text: &'static str)
        ensures
            text@ == self.text_of(),
    {
        match self {
            Error::InvalidByte => "Invalid byte",
            Error::InvalidEscape => "Invalid byte in escape sequence",
            Error::InvalidResponse => "Invalid response",
            Error::Timeout => "Timeout",
            Error::NotRiscv => "Not a RISCV64 ELF file",
            Error::Io => "Input or output failed",
        }
    }
}

/// A target that does not answer times out, an image for another machine is
/// invalid input, and every other error belongs to no class of its own.
pub proof fn law_error_kinds(error: Error)
    ensures
        error.kind_of() is TimedOut <==> error is Timeout,
        error.kind_of() is InvalidInput <==> error is NotRiscv,
        error.kind_of() is Other <==> !(error is Timeout) && !(error is NotRiscv),
{
}

/// Every error is described by its own words.
pub proof fn law_error_texts(a: Error, b: Error)
    ensures
        a.text_of() == b.text_of() ==> a == b,
        a is InvalidByte ==> a.text_of() == "Invalid byte"@,
        a is InvalidEscape ==> a.text_of() == "Invalid byte in escape sequence"@,
        a is InvalidResponse ==> a.text_of() == "Invalid response"@,
        a is Timeout ==> a.text_of() == "Timeout"@,
        a is NotRiscv ==> a.text_of() == "Not a RISCV64 ELF file"@,
        a is Io ==> a.text_of() == "Input or output failed"@,
{
    reveal_strlit("Invalid byte");
    reveal_strlit("Invalid byte in escape sequence");
    reveal_strlit("Invalid response");
    reveal_strlit("Timeout");
    reveal_strlit("Not a RISCV64 ELF file");
    reveal_strlit("Input or output failed");
    assert("Invalid byte"@.len() == 12 && "Invalid byte in escape sequence"@.len() == 31);
    assert("Invalid response"@.len() == 16 && "Timeout"@.len() == 7);
    assert("Not a RISCV64 ELF file"@[0] == 'N' && "Input or output failed"@[0] == 'I');
    assert("Not a RISCV64 ELF file"@.len() == 22 && "Input or output failed"@.len() == 22);
}

} // verus!
