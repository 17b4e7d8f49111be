//! The diagnostic that a failed parse reports.

use crate::recognizer::Reason;
use crate::scanner::Token;
use vstd::prelude::*;
use vstd::string::StringExecFns;
use vstd::utf8::decode_utf8;

verus! {

/// The character that writes the digit `d`.
pub open spec fn digit_char(d: int) -> char {
    if d == 0 {
        '0'
    } else if d == 1 {
        '1'
    } else if d == 2 {
        '2'
    } else if d == 3 {
        '3'
    } else if d == 4 {
        '4'
    } else if d == 5 {
        '5'
    } else if d == 6 {
        '6'
    } else if d == 7 {
        '7'
    } else if d == 8 {
        '8'
    } else {
        '9'
    }
}

/// The number `n` written in base ten, without leading zeros.
pub open spec fn decimal(n: nat) -> Seq<char>
    decreases n,
{
    if n < 10 {
        seq![digit_char(n as int)]
    } else {
        decimal(n / 10) + seq![digit_char((n % 10) as int)]
    }
}

/// The words that name a reason.
pub open spec fn reason_text(reason: Reason) -> Seq<char> {
    match reason {
        Reason::UnexpectedToken => "unexpected token"@,
        Reason::UnexpectedType => "unexpected type"@,
        Reason::EmptyStatement => "empty statement"@,
    }
}

/// The diagnostic for a refusal of the token at index `at` of `ts`: the
/// reason, then the token's line and text, or a note that the text ended.
pub open spec fn failure_message(ts: Seq<Token>, reason: Seq<char>, at: int) -> Seq<char> {
    if 0 <= at < ts.len() {
        reason + " at line "@ + decimal(ts[at].line as nat) + " with text: '"@ + decode_utf8(
            ts[at].text,
        ) + "'"@
    } else {
        reason + ". Reached EOF"@
    }
}

/// The digit `d` as a string.
fn digit_str(d: usize) -> (r: &'static str)
    requires
        d < 10,
    ensures
        r@ == seq![digit_char(d as int)],
{
    proof {
        reveal_strlit("0");
        reveal_strlit("1");
        reveal_strlit("2");
        reveal_strlit("3");
        reveal_strlit("4");
        reveal_strlit("5");
        reveal_strlit("6");
        reveal_strlit("7");
        reveal_strlit("8");
        reveal_strlit("9");
    }
    let r = if d == 0 {
        "0"
    } else if d == 1 {
        "1"
    } else if d == 2 {
        "2"
    } else if d == 3 {
        "3"
    } else if d == 4 {
        "4"
    } else if d == 5 {
        "5"
    } else if d == 6 {
        "6"
    } else if d == 7 {
        "7"
    } else if d == 8 {
        "8"
    } else {
        "9"
    };
    assert(r@ =~= seq![digit_char(d as int)]);
    r
}

/// Writes `n` in base ten.
pub fn decimal_string(n: usize) -> (r: String)
    ensures
        r@ == decimal(n as nat),
    decreases n,
{
    if n < 10 {
        String::from_str(digit_str(n))
    } else {
        let mut r = decimal_string(n / 10);
        r.append(digit_str(n % 10));
        r
    }
}

/// The words that name a reason.
pub fn reason_str(reason: Reason) -> (r: &'static str)
    ensures
        r@ == reason_text(reason),
{
    match reason {
        Reason::UnexpectedToken => "unexpected token",
        Reason::UnexpectedType => "unexpected type",
        Reason::EmptyStatement => "empty statement",
    }
}

} // verus!
