use vstd::prelude::*;
use vstd::string::StringExecFns;

verus! {

/// Why a RESP frame could not be parsed.
#[derive(Debug)]
pub enum RespError {
    /// incomplete frame (need more bytes)
    Incomplete,
    /// malformed RESP, with the part that was wrong
    Malformed(&'static str),
    /// invalid UTF-8 in a simple string, error or length line
    Utf8,
    /// integer out of range
    IntegerOverflow,
}

/// The content of a `RespError`, with the message of `Malformed` as characters.
pub enum RespFault {
    Incomplete,
    Malformed(Seq<char>),
    Utf8,
    IntegerOverflow,
}

impl RespError {
    pub open spec fn fault(&self) -> RespFault {
        match self {
            RespError::Incomplete => RespFault::Incomplete,
            RespError::Malformed(m) => RespFault::Malformed(m@),
            RespError::Utf8 => RespFault::Utf8,
            RespError::IntegerOverflow => RespFault::IntegerOverflow,
        }
    }

    /// The error's text.
    pub fn message(&self) -> (r: String)
        ensures
            r@ == resp_fault_message(self.fault()),
    {
        match self {
            RespError::Incomplete => String::from_str("incomplete frame (need more bytes)"),
            RespError::Malformed(what) => {
                let mut s = String::from_str("malformed RESP: ");
                s.append(what);
                s
            },
            RespError::Utf8 => String::from_str("invalid UTF-8 in simple string or error"),
            RespError::IntegerOverflow => String::from_str("integer out of range"),
        }
    }
}

/// The text of a `RespError`, as its `Display` writes it.
pub open spec fn resp_fault_message(f: RespFault) -> Seq<char> {
    match f {
        RespFault::Incomplete => "incomplete frame (need more bytes)"@,
        RespFault::Malformed(what) => "malformed RESP: "@ + what,
        RespFault::Utf8 => "invalid UTF-8 in simple string or error"@,
        RespFault::IntegerOverflow => "integer out of range"@,
    }
}

} // verus!
