//! The error taxonomy of the client: every failure is fatal to the
//! invocation that raised it, and carries what a caller needs to report it.

use vstd::prelude::*;
use crate::text::push_char;

verus! {

/// Why an invocation failed.
#[derive(Debug, PartialEq)]
pub enum Error {
    /// Caller-supplied text violates a syntactic contract; carries the
    /// offending raw text.
    MalformedInput(String),
    /// The network call could not complete; carries the transport's detail.
    TransportFailure(String),
    /// The service answered with a non-success status; carries the status.
    RemoteRejection(u16),
    /// A successful response body does not have the shape the current mode
    /// expects.
    ResponseShapeError,
    /// Writing a fetched artifact to disk failed; carries the detail.
    PersistenceFailure(String),
}

/// The digit character for a value below ten.
pub open spec fn digit_char(n: nat) -> char {
    if n == 0 {
        '0'
    } else if n == 1 {
        '1'
    } else if n == 2 {
        '2'
    } else if n == 3 {
        '3'
    } else if n == 4 {
        '4'
    } else if n == 5 {
        '5'
    } else if n == 6 {
        '6'
    } else if n == 7 {
        '7'
    } else if n == 8 {
        '8'
    } else {
        '9'
    }
}

/// The decimal digits of `n`, most significant first.
pub open spec fn dec_digits(n: nat) -> Seq<char>
    decreases n,
{
    if n < 10 {
        seq![digit_char(n)]
    } else {
        dec_digits(n / 10).push(digit_char(n % 10))
    }
}

fn digit_char_exec(n: u16) -> (c: char)
    requires
        n < 10,
    ensures
        c == digit_char(n as nat),
{
    match n {
        0 => '0',
        1 => '1',
        2 => '2',
        3 => '3',
        4 => '4',
        5 => '5',
        6 => '6',
        7 => '7',
        8 => '8',
        _ => '9',
    }
}

/// Appends the decimal rendering of `n` to `out`.
pub fn push_dec(n: u16, out: &mut String)
    ensures
        final(out)@ == old(out)@ + dec_digits(n as nat),
    decreases n,
{
    if n >= 10 {
        push_dec(n / 10, out);
    }
    let ghost mid = out@;
    push_char(out, digit_char_exec(n % 10));
    proof {
        if n >= 10 {
            assert(out@ =~= old(out)@ + dec_digits(n as nat));
        } else {
            assert(dec_digits(n as nat) == seq![digit_char(n as nat)]);
            assert(out@ =~= old(out)@ + dec_digits(n as nat));
        }
    }
}

/// What `Error::message` renders for each variant.
pub open spec fn message_spec(e: Error) -> Seq<char> {
    match e {
        Error::MalformedInput(t) => "malformed input: "@ + t@,
        Error::TransportFailure(t) => "transport failure: "@ + t@,
        Error::RemoteRejection(st) => "remote service rejected the request: status "@
            + dec_digits(st as nat),
        Error::ResponseShapeError => "response body does not have the expected shape"@,
        Error::PersistenceFailure(t) => "failed to write artifact: "@ + t@,
    }
}

impl Error {
    /// A human-readable account of the failure.
    pub fn message(&self) -> (r: String)
        ensures
            r@ == message_spec(*self),
    {
        match self {
            Error::MalformedInput(t) => String::from_str("malformed input: ").concat(t.as_str()),
            Error::TransportFailure(t) => String::from_str("transport failure: ").concat(
                t.as_str(),
            ),
            Error::RemoteRejection(st) => {
                let mut s = String::from_str("remote service rejected the request: status ");
                push_dec(*st, &mut s);
                s
            },
            Error::ResponseShapeError => String::from_str(
                "response body does not have the expected shape",
            ),
            Error::PersistenceFailure(t) => String::from_str("failed to write artifact: ").concat(
                t.as_str(),
            ),
        }
    }
}

} // verus!
