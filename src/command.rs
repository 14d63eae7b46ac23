use vstd::prelude::*;

use crate::codec::{all_digits, digits_value, parse_digits};
use crate::value::{Tree, Value, views, lemma_views};

verus! {

/// Why a request could not be carried out.
#[derive(Debug, PartialEq, Eq)]
pub enum ArgumentError {
    /// The request is an empty array.
    EmptyCommand,
    /// A value stands where another kind of value was required.
    WrongType,
    /// The command is not one that the server knows; its name.
    NotImplemented(Vec<u8>),
    /// The command has the wrong number of arguments.
    WrongArity,
    /// A `SET` flag other than `PX`; its name.
    FlagNotImplemented(Vec<u8>),
}

/// A failure of the server.
#[derive(Debug, PartialEq, Eq)]
pub enum Error {
    /// The stream could not be read or written, or it closed.
    Io,
    /// A frame is malformed.
    Protocol,
    /// A request is not a command that can be carried out.
    Argument(ArgumentError),
    /// A number does not fit the range it must be converted to.
    TryFromInt,
}

/// A failure, on the mathematical side.
pub enum Fault {
    Io,
    Protocol,
    EmptyCommand,
    WrongType,
    NotImplemented(Seq<u8>),
    WrongArity,
    FlagNotImplemented(Seq<u8>),
    TryFromInt,
}

impl Error {
    pub open spec fn view(self) -> Fault {
        match self {
            Error::Io => Fault::Io,
            Error::Protocol => Fault::Protocol,
            Error::Argument(ArgumentError::EmptyCommand) => Fault::EmptyCommand,
            Error::Argument(ArgumentError::WrongType) => Fault::WrongType,
            Error::Argument(ArgumentError::NotImplemented(n)) => Fault::NotImplemented(n@),
            Error::Argument(ArgumentError::WrongArity) => Fault::WrongArity,
            Error::Argument(ArgumentError::FlagNotImplemented(n)) => Fault::FlagNotImplemented(n@),
            Error::TryFromInt => Fault::TryFromInt,
        }
    }
}

/// A command, on the mathematical side; a deadline is an absolute time in milliseconds.
pub enum Cmd {
    Ping,
    Echo(Seq<u8>),
    Get(Seq<u8>),
    SetKey(Seq<u8>, Tree, Option<nat>),
}

/// A validated operation; a deadline is an absolute time in milliseconds.
#[derive(Debug, PartialEq, Eq)]
pub enum Command {
    Ping,
    Echo(Vec<u8>),
    Get(Vec<u8>),
    SetKey(Vec<u8>, Value, Option<u64>),
}

impl Command {
    pub open spec fn view(self) -> Cmd {
        match self {
            Command::Ping => Cmd::Ping,
            Command::Echo(s) => Cmd::Echo(s@),
            Command::Get(k) => Cmd::Get(k@),
            Command::SetKey(k, v, d) => Cmd::SetKey(k@, v@, match d {
                Some(t) => Some(t as nat),
                None => None,
            }),
        }
    }
}

pub open spec fn outcome(r: Result<Command, Error>) -> Result<Cmd, Fault> {
    match r {
        Ok(c) => Ok(c@),
        Err(e) => Err(e@),
    }
}

/// A byte in ASCII lower case.
pub open spec fn lower(b: u8) -> u8 {
    if 65 <= b <= 90 {
        (b + 32) as u8
    } else {
        b
    }
}

/// `a` spells the lower-case word `w`, ignoring ASCII case.
pub open spec fn is_word(a: Seq<u8>, w: Seq<u8>) -> bool {
    a.len() == w.len() && forall|i: int| 0 <= i < a.len() ==> lower(#[trigger] a[i]) == w[i]
}

pub open spec fn word_ping() -> Seq<u8> {
    seq![112u8, 105u8, 110u8, 103u8]
}

pub open spec fn word_echo() -> Seq<u8> {
    seq![101u8, 99u8, 104u8, 111u8]
}

pub open spec fn word_get() -> Seq<u8> {
    seq![103u8, 101u8, 116u8]
}

pub open spec fn word_set() -> Seq<u8> {
    seq![115u8, 101u8, 116u8]
}

pub open spec fn word_px() -> Seq<u8> {
    seq![112u8, 120u8]
}

/// The one string argument of a command of two elements.
pub open spec fn string_arg(s: Seq<Tree>) -> Result<Seq<u8>, Fault> {
    if s.len() != 2 {
        Err(Fault::WrongArity)
    } else {
        match s[1] {
            Tree::Str(b) => Ok(b),
            _ => Err(Fault::WrongType),
        }
    }
}

/// The digits of an unsigned decimal: the text after one optional `+`.
pub open spec fn unsigned_digits(b: Seq<u8>) -> Seq<u8> {
    if b.len() > 0 && b[0] == 43 {
        b.drop_first()
    } else {
        b
    }
}

/// The millisecond count that a `PX` argument gives.
pub open spec fn millis_of(t: Tree) -> Result<nat, Fault> {
    match t {
        Tree::Int(n) => if n >= 0 {
            Ok(n as nat)
        } else {
            Err(Fault::TryFromInt)
        },
        Tree::Str(b) => {
            let d = unsigned_digits(b);
            if d.len() > 0 && all_digits(d) && digits_value(d) <= u64::MAX {
                Ok(digits_value(d))
            } else {
                Err(Fault::WrongType)
            }
        },
        _ => Err(Fault::WrongType),
    }
}

/// `SET key value` or `SET key value PX millis`, received at time `now`.
pub open spec fn interpret_set(s: Seq<Tree>, now: nat) -> Result<Cmd, Fault> {
    if s.len() == 3 {
        match s[1] {
            Tree::Str(k) => Ok(Cmd::SetKey(k, s[2], None)),
            _ => Err(Fault::WrongType),
        }
    } else if s.len() == 5 {
        match s[3] {
            Tree::Str(flag) => if !is_word(flag, word_px()) {
                Err(Fault::FlagNotImplemented(flag))
            } else {
                match millis_of(s[4]) {
                    Ok(ms) => if now + ms > u64::MAX {
                        Err(Fault::TryFromInt)
                    } else {
                        match s[1] {
                            Tree::Str(k) => Ok(Cmd::SetKey(k, s[2], Some(now + ms))),
                            _ => Err(Fault::WrongType),
                        }
                    },
                    Err(f) => Err(f),
                }
            },
            _ => Err(Fault::WrongType),
        }
    } else {
        Err(Fault::WrongArity)
    }
}

/// The command that the elements `s` of a request array name, received at time `now`.
pub open spec fn interpret_array(s: Seq<Tree>, now: nat) -> Result<Cmd, Fault> {
    if s.len() == 0 {
        Err(Fault::EmptyCommand)
    } else {
        match s[0] {
            Tree::Str(name) => if is_word(name, word_ping()) {
                Ok(Cmd::Ping)
            } else if is_word(name, word_echo()) {
                match string_arg(s) {
                    Ok(b) => Ok(Cmd::Echo(b)),
                    Err(f) => Err(f),
                }
            } else if is_word(name, word_get()) {
                match string_arg(s) {
                    Ok(b) => Ok(Cmd::Get(b)),
                    Err(f) => Err(f),
                }
            } else if is_word(name, word_set()) {
                interpret_set(s, now)
            } else {
                Err(Fault::NotImplemented(name))
            },
            _ => Err(Fault::WrongType),
        }
    }
}

/// The command that a complete request names, received at time `now`.
pub open spec fn interpret(v: Tree, now: nat) -> Result<Cmd, Fault> {
    match v {
        Tree::Array(_, s) => interpret_array(s, now),
        Tree::Str(b) => if is_word(b, word_ping()) {
            Ok(Cmd::Ping)
        } else {
            Err(Fault::NotImplemented(b))
        },
        _ => Err(Fault::WrongType),
    }
}

/// Whether `a` spells the lower-case word `w`, ignoring ASCII case.
fn equals_word(a: &Vec<u8>, w: &[u8]) -> (r: bool)
    ensures
        r == is_word(a@, w@),
{
    if a.len() != w.len() {
        return false;
    }
    let mut i: usize = 0;
    while i < a.len()
        invariant
            0 <= i <= a@.len(),
            a@.len() == w@.len(),
            forall|j: int| 0 <= j < i ==> lower(#[trigger] a@[j]) == w@[j],
        decreases a@.len() - i,
    {
        let b = a[i];
        let l = if 65 <= b && b <= 90 { b + 32 } else { b };
        if l != w[i] {
            return false;
        }
        i = i + 1;
    }
    true
}

/// A copy of the bytes `a`.
fn copy_bytes(a: &Vec<u8>) -> (r: Vec<u8>)
    ensures
        r@ == a@,
{
    let r = a.clone();
    assert(r@ =~= a@);
    r
}

impl Command {
    /// The command that a complete request names, received at time `now`
    /// (in milliseconds).
    pub fn from_value(value: Value, now: u64) -> (r: Result<Command, Error>)
        ensures
            outcome(r) == interpret(value@, now as nat),
    {
        match value {
            Value::Array(_, data) => Command::from_array(data, now),
            Value::String(data) => Command::from_string(&data),
            _ => Err(Error::Argument(ArgumentError::WrongType)),
        }
    }

    /// A bare string names `PING`, in any case, or nothing the server knows.
    pub fn from_string(data: &Vec<u8>) -> (r: Result<Command, Error>)
        ensures
            outcome(r) == (if is_word(data@, word_ping()) {
                Ok(Cmd::Ping)
            } else {
                Err(Fault::NotImplemented(data@))
            }),
    {
        if equals_word(data, &[112u8, 105u8, 110u8, 103u8]) {
            Ok(Command::Ping)
        } else {
            Err(Error::Argument(ArgumentError::NotImplemented(copy_bytes(data))))
        }
    }

    /// The command that the elements of a request array name, received at
    /// time `now`.
    pub fn from_array(data: Vec<Value>, now: u64) -> (r: Result<Command, Error>)
        ensures
            outcome(r) == interpret_array(views(data@), now as nat),
    {
        proof {
            lemma_views(data@);
        }
        if data.len() == 0 {
            return Err(Error::Argument(ArgumentError::EmptyCommand));
        }
        let kind: u8 = match &data[0] {
            Value::String(name) => {
                if equals_word(name, &[112u8, 105u8, 110u8, 103u8]) {
                    0
                } else if equals_word(name, &[101u8, 99u8, 104u8, 111u8]) {
                    1
                } else if equals_word(name, &[103u8, 101u8, 116u8]) {
                    2
                } else if equals_word(name, &[115u8, 101u8, 116u8]) {
                    3
                } else {
                    return Err(Error::Argument(ArgumentError::NotImplemented(copy_bytes(name))));
                }
            },
            _ => {
                return Err(Error::Argument(ArgumentError::WrongType));
            },
        };
        if kind == 0 {
            Ok(Command::Ping)
        } else if kind == 1 {
            Command::echo(data)
        } else if kind == 2 {
            Command::get(data)
        } else {
            Command::set(data, now)
        }
    }

    /// `ECHO text`.
    pub fn echo(data: Vec<Value>) -> (r: Result<Command, Error>)
        ensures
            outcome(r) == (match string_arg(views(data@)) {
                Ok(b) => Ok(Cmd::Echo(b)),
                Err(f) => Err(f),
            }),
    {
        match Command::string_argument(data) {
            Ok(s) => Ok(Command::Echo(s)),
            Err(e) => Err(e),
        }
    }

    /// `GET key`.
    pub fn get(data: Vec<Value>) -> (r: Result<Command, Error>)
        ensures
            outcome(r) == (match string_arg(views(data@)) {
                Ok(b) => Ok(Cmd::Get(b)),
                Err(f) => Err(f),
            }),
    {
        match Command::string_argument(data) {
            Ok(s) => Ok(Command::Get(s)),
            Err(e) => Err(e),
        }
    }

    /// The one string argument of a command of two elements.
    fn string_argument(data: Vec<Value>) -> (r: Result<Vec<u8>, Error>)
        ensures
            match (r, string_arg(views(data@))) {
                (Ok(s), Ok(b)) => s@ == b,
                (Err(e), Err(f)) => e@ == f,
                _ => false,
            },
    {
        proof {
            lemma_views(data@);
        }
        if data.len() != 2 {
            return Err(Error::Argument(ArgumentError::WrongArity));
        }
        let mut data = data;
        match data.pop() {
            Some(Value::String(s)) => Ok(s),
            _ => Err(Error::Argument(ArgumentError::WrongType)),
        }
    }

    /// `SET key value`, or `SET key value PX millis`, received at time `now`.
    pub fn set(data: Vec<Value>, now: u64) -> (r: Result<Command, Error>)
        ensures
            outcome(r) == interpret_set(views(data@), now as nat),
    {
        proof {
            lemma_views(data@);
        }
        if data.len() == 5 {
            return Command::set_with_flags(data, now);
        }
        if data.len() != 3 {
            return Err(Error::Argument(ArgumentError::WrongArity));
        }
        let mut data = data;
        let ghost s = data@;
        let value = data.pop();
        let key = data.pop();
        match (key, value) {
            (Some(Value::String(k)), Some(v)) => {
                assert(v@ == views(s)[2]);
                Ok(Command::SetKey(k, v, None))
            },
            _ => Err(Error::Argument(ArgumentError::WrongType)),
        }
    }

    /// The milliseconds that a `PX` argument gives.
    fn millis(arg: Value) -> (r: Result<u64, Error>)
        ensures
            match (r, millis_of(arg@)) {
                (Ok(m), Ok(n)) => m as nat == n,
                (Err(e), Err(f)) => e@ == f,
                _ => false,
            },
    {
        match arg {
            Value::Int(n) => {
                if n < 0 {
                    Err(Error::TryFromInt)
                } else {
                    Ok(n as u64)
                }
            },
            Value::String(s) => {
                let start: usize = if s.len() > 0 && s[0] == 43 { 1 } else { 0 };
                assert(s@.subrange(start as int, s@.len() as int) =~= unsigned_digits(s@));
                match parse_digits(s.as_slice(), start, s.len()) {
                    Some(m) => Ok(m),
                    None => Err(Error::Argument(ArgumentError::WrongType)),
                }
            },
            _ => Err(Error::Argument(ArgumentError::WrongType)),
        }
    }

    /// `SET key value PX millis`, received at time `now`; any other number of
    /// elements is an arity error.
    pub fn set_with_flags(data: Vec<Value>, now: u64) -> (r: Result<Command, Error>)
        ensures
            outcome(r) == if data@.len() == 5 {
                interpret_set(views(data@), now as nat)
            } else {
                Err(Fault::WrongArity)
            },
    {
        proof {
            lemma_views(data@);
        }
        if data.len() != 5 {
            return Err(Error::Argument(ArgumentError::WrongArity));
        }
        let mut data = data;
        let ghost s = data@;
        let arg = data.pop();
        let flag = data.pop();
        match flag {
            Some(Value::String(f)) => {
                if !equals_word(&f, &[112u8, 120u8]) {
                    return Err(Error::Argument(ArgumentError::FlagNotImplemented(f)));
                }
            },
            _ => {
                return Err(Error::Argument(ArgumentError::WrongType));
            },
        }
        let ms = match arg {
            Some(a) => {
                assert(a@ == views(s)[4]);
                match Command::millis(a) {
                    Ok(m) => m,
                    Err(e) => {
                        return Err(e);
                    },
                }
            },
            None => {
                return Err(Error::Argument(ArgumentError::WrongType));
            },
        };
        let deadline = match now.checked_add(ms) {
            Some(d) => d,
            None => {
                return Err(Error::TryFromInt);
            },
        };
        let value = data.pop();
        let key = data.pop();
        match (key, value) {
            (Some(Value::String(k)), Some(v)) => {
                assert(v@ == views(s)[2]);
                Ok(Command::SetKey(k, v, Some(deadline)))
            },
            _ => Err(Error::Argument(ArgumentError::WrongType)),
        }
    }
}

} // verus!
