use crate::buffers::bytes_view;
use bytes::Bytes;
use vstd::prelude::*;
use vstd::string::StringExecFns;

verus! {

/// When a `SET` writes.
#[derive(Debug, Clone, Copy, PartialEq, Eq)]
pub enum SetCond {
    Always,
    IfAbsent,
    IfExists,
}

/// A span of time, kept as a count of milliseconds.
#[derive(Debug, Clone, Copy, PartialEq, Eq)]
pub struct Ttl {
    pub millis: u128,
}

impl Ttl {
    /// The span of `secs` whole seconds.
    pub open spec fn of_secs(secs: u64) -> Ttl {
        Ttl { millis: (secs as nat * 1000) as u128 }
    }

    /// The span of `ms` milliseconds.
    pub open spec fn of_millis(ms: u64) -> Ttl {
        Ttl { millis: ms as u128 }
    }

    /// The whole seconds in the span.
    pub open spec fn secs(self) -> nat {
        (self.millis / 1000) as nat
    }

    /// The seconds a deadline counts for the span: its whole seconds, and
    /// one for a positive span shorter than a second.
    pub open spec fn span_secs(self) -> nat {
        if self.secs() == 0 && self.millis > 0 {
            1
        } else {
            self.secs()
        }
    }

    /// The seconds a deadline counts for the span: its whole seconds, and
    /// one for a positive span shorter than a second.
    pub fn deadline_secs(&self) -> (r: u128)
        ensures
            r == self.span_secs(),
    {
        if self.millis > 0 && self.millis < 1000 {
            1
        } else {
            self.millis / 1000
        }
    }

    /// A span of `secs` seconds.
    pub fn from_secs(secs: u64) -> (r: Ttl)
        ensures
            r == Ttl::of_secs(secs),
    {
        Ttl { millis: secs as u128 * 1000 }
    }

    /// A span of `ms` milliseconds.
    pub fn from_millis(ms: u64) -> (r: Ttl)
        ensures
            r == Ttl::of_millis(ms),
    {
        Ttl { millis: ms as u128 }
    }

    /// The whole seconds in the span (saturating at `u64::MAX`, which no span
    /// made by `from_secs` or `from_millis` reaches).
    pub fn as_secs(&self) -> (r: u64)
        ensures
            self.secs() <= u64::MAX ==> r == self.secs(),
            self.secs() > u64::MAX ==> r == u64::MAX,
    {
        let s = self.millis / 1000;
        if s > u64::MAX as u128 {
            u64::MAX
        } else {
            s as u64
        }
    }
}

/// A request, as the store runs it.
#[derive(Debug, Clone, PartialEq, Eq)]
pub enum Command {
    Ping(Option<Bytes>),
    Echo(Bytes),
    Get(Bytes),
    SetKey { key: Bytes, value: Bytes, ttl: Option<Ttl>, cond: SetCond },
    Del(Vec<Bytes>),
    Exists(Vec<Bytes>),
    Incr(Bytes),
    Decr(Bytes),
    Expire { key: Bytes, ttl: Ttl },
    Ttl(Bytes),
    /// pattern as bytes
    Keys(Bytes),
    Info,
    /// `None` means `REPLICAOF NO ONE`
    ReplicaOf(Option<(String, u16)>),
}

/// The content of a `Command`: byte strings as sequences, text as characters.
pub enum CommandModel {
    Ping(Option<Seq<u8>>),
    Echo(Seq<u8>),
    Get(Seq<u8>),
    SetKey { key: Seq<u8>, value: Seq<u8>, ttl: Option<Ttl>, cond: SetCond },
    Del(Seq<Seq<u8>>),
    Exists(Seq<Seq<u8>>),
    Incr(Seq<u8>),
    Decr(Seq<u8>),
    Expire { key: Seq<u8>, ttl: Ttl },
    Ttl(Seq<u8>),
    Keys(Seq<u8>),
    Info,
    ReplicaOf(Option<(Seq<char>, u16)>),
}

/// The contents of a list of byte strings.
pub open spec fn bytes_seq(v: Seq<Bytes>) -> Seq<Seq<u8>> {
    v.map_values(|b: Bytes| bytes_view(b))
}

impl Command {
    pub open spec fn model(&self) -> CommandModel {
        match self {
            Command::Ping(None) => CommandModel::Ping(None),
            Command::Ping(Some(b)) => CommandModel::Ping(Some(bytes_view(*b))),
            Command::Echo(b) => CommandModel::Echo(bytes_view(*b)),
            Command::Get(b) => CommandModel::Get(bytes_view(*b)),
            Command::SetKey { key, value, ttl, cond } => CommandModel::SetKey {
                key: bytes_view(*key),
                value: bytes_view(*value),
                ttl: *ttl,
                cond: *cond,
            },
            Command::Del(keys) => CommandModel::Del(bytes_seq(keys@)),
            Command::Exists(keys) => CommandModel::Exists(bytes_seq(keys@)),
            Command::Incr(b) => CommandModel::Incr(bytes_view(*b)),
            Command::Decr(b) => CommandModel::Decr(bytes_view(*b)),
            Command::Expire { key, ttl } => CommandModel::Expire { key: bytes_view(*key), ttl: *ttl },
            Command::Ttl(b) => CommandModel::Ttl(bytes_view(*b)),
            Command::Keys(b) => CommandModel::Keys(bytes_view(*b)),
            Command::Info => CommandModel::Info,
            Command::ReplicaOf(None) => CommandModel::ReplicaOf(None),
            Command::ReplicaOf(Some((host, port))) => CommandModel::ReplicaOf(Some((host@, *port))),
        }
    }
}

/// Why a RESP value is not a command.
#[derive(Debug)]
pub enum CommandError {
    /// wrong number of arguments for the named command
    WrongArity(String),
    /// unknown command (its upper-cased name)
    Unknown(String),
    /// invalid argument
    InvalidArg(&'static str),
    /// value is not an integer or out of range
    NotInteger,
    /// expected command as RESP array of bulk strings
    BadFraming,
}

/// The content of a `CommandError`.
pub enum CommandFault {
    WrongArity(Seq<char>),
    Unknown(Seq<char>),
    InvalidArg(Seq<char>),
    NotInteger,
    BadFraming,
}

/// The text of a `CommandError`, as its `Display` writes it.
pub open spec fn command_fault_message(f: CommandFault) -> Seq<char> {
    match f {
        CommandFault::WrongArity(name) => "wrong number of arguments for '"@ + name + "'"@,
        CommandFault::Unknown(name) => "unknown command '"@ + name + "'"@,
        CommandFault::InvalidArg(what) => "invalid argument: "@ + what,
        CommandFault::NotInteger => "value is not an integer or out of range"@,
        CommandFault::BadFraming => "expected command as RESP array of bulk strings"@,
    }
}

/// An owned copy of a string slice.
pub fn owned(s: &str) -> (r: String)
    ensures
        r@ == s@,
{
    String::from_str(s)
}

impl CommandError {
    pub open spec fn fault(&self) -> CommandFault {
        match self {
            CommandError::WrongArity(name) => CommandFault::WrongArity(name@),
            CommandError::Unknown(name) => CommandFault::Unknown(name@),
            CommandError::InvalidArg(what) => CommandFault::InvalidArg(what@),
            CommandError::NotInteger => CommandFault::NotInteger,
            CommandError::BadFraming => CommandFault::BadFraming,
        }
    }

    /// The error's text.
    pub fn message(&self) -> (r: String)
        ensures
            r@ == command_fault_message(self.fault()),
    {
        match self {
            CommandError::WrongArity(name) => {
                let mut s = owned("wrong number of arguments for '");
                s.append(name.as_str());
                s.append("'");
                s
            },
            CommandError::Unknown(name) => {
                let mut s = owned("unknown command '");
                s.append(name.as_str());
                s.append("'");
                s
            },
            CommandError::InvalidArg(what) => {
                let mut s = owned("invalid argument: ");
                s.append(what);
                s
            },
            CommandError::NotInteger => owned("value is not an integer or out of range"),
            CommandError::BadFraming => owned("expected command as RESP array of bulk strings"),
        }
    }
}

} // verus!
