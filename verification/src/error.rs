//! The errors of the library and of the program around it.

use crate::text::push_char;
use vstd::prelude::*;
use vstd::string::StringExecFns;

verus! {

/// What went wrong. The variants that carry a `String` hold the message of an
/// error that arose outside the library (file system, JSON, system calls, zip
/// archives) or a message of the library's own.
#[derive(Debug, PartialEq, Eq)]
pub enum ErrorKind {
    IOError(String),
    /// A hosts file has a malformed line; `line_index` counts lines from 0.
    ParseError { line_index: usize },
    SerdeJSONError(String),
    NixError(String),
    ZipError(String),
    String(String),
}

/// The decimal digit `d`, for `d < 10`.
pub open spec fn digit_char(d: nat) -> char {
    (48 + d) as char
}

/// `n` written in decimal.
pub open spec fn decimal(n: nat) -> Seq<char>
    decreases n,
{
    if n < 10 {
        seq![digit_char(n)]
    } else {
        decimal(n / 10).push(digit_char(n % 10))
    }
}

/// Numbers are written in base ten with the digits `0123456789`, the most
/// significant digit first and without leading zeros.
pub proof fn lemma_decimal(n: nat)
    ensures
        n < 10 ==> decimal(n) == seq!["0123456789"@[n as int]],
        n >= 10 ==> decimal(n) == decimal(n / 10).push("0123456789"@[(n % 10) as int]),
        decimal(n).len() > 0,
        n > 0 ==> decimal(n)[0] != '0',
    decreases n,
{
    reveal_strlit("0123456789");
    let s = "0123456789"@;
    let d = n % 10;
    if d == 0 {
        assert(s[0] == '0');
        assert(digit_char(0) == '0');
    } else if d == 1 {
        assert(s[1] == '1');
        assert(digit_char(1) == '1');
    } else if d == 2 {
        assert(s[2] == '2');
        assert(digit_char(2) == '2');
    } else if d == 3 {
        assert(s[3] == '3');
        assert(digit_char(3) == '3');
    } else if d == 4 {
        assert(s[4] == '4');
        assert(digit_char(4) == '4');
    } else if d == 5 {
        assert(s[5] == '5');
        assert(digit_char(5) == '5');
    } else if d == 6 {
        assert(s[6] == '6');
        assert(digit_char(6) == '6');
    } else if d == 7 {
        assert(s[7] == '7');
        assert(digit_char(7) == '7');
    } else if d == 8 {
        assert(s[8] == '8');
        assert(digit_char(8) == '8');
    } else if d == 9 {
        assert(s[9] == '9');
        assert(digit_char(9) == '9');
    }
    if n >= 10 {
        lemma_decimal(n / 10);
        assert(decimal(n)[0] == decimal(n / 10)[0]);
    } else {
        assert(d == n);
    }
}

/// `n` written in decimal.
pub fn decimal_string(n: u128) -> (s: String)
    ensures
        s@ == decimal(n as nat),
    decreases n,
{
    if n < 10 {
        let mut s = String::new();
        let d = n as u8;
        push_char(&mut s, (48u8 + d) as char);
        s
    } else {
        let mut s = decimal_string(n / 10);
        let d = (n % 10) as u8;
        push_char(&mut s, (48u8 + d) as char);
        s
    }
}

/// The message shown for an error: the message it carries, or, for a malformed
/// hosts file, the number of the line (counted from 1).
pub open spec fn error_message(e: ErrorKind) -> Seq<char> {
    match e {
        ErrorKind::IOError(m) => m@,
        ErrorKind::ParseError { line_index } => "malformed hosts file: line "@ + decimal(
            (line_index + 1) as nat,
        ),
        ErrorKind::SerdeJSONError(m) => m@,
        ErrorKind::NixError(m) => m@,
        ErrorKind::ZipError(m) => m@,
        ErrorKind::String(m) => m@,
    }
}

impl ErrorKind {
    /// The message shown for this error.
    pub fn message(&self) -> (s: String)
        ensures
            s@ == error_message(*self),
    {
        match self {
            ErrorKind::IOError(m) => m.clone(),
            ErrorKind::ParseError { line_index } => {
                let mut s = String::from_str("malformed hosts file: line ");
                let number = decimal_string(*line_index as u128 + 1);
                s.append(number.as_str());
                s
            },
            ErrorKind::SerdeJSONError(m) => m.clone(),
            ErrorKind::NixError(m) => m.clone(),
            ErrorKind::ZipError(m) => m.clone(),
            ErrorKind::String(m) => m.clone(),
        }
    }
}

} // verus!
