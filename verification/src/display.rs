use vstd::prelude::*;

use crate::average::AverageError;
use crate::solve::{Penalty, Solve};

verus! {

/// Milliseconds in a minute.
pub const MS_PER_MINUTE: u32 = 60_000;

/// Milliseconds in a second.
pub const MS_PER_SECOND: u32 = 1000;

// ---------------------------------------------------------------------------
// The model
// ---------------------------------------------------------------------------

/// The character of a decimal digit.
pub open spec fn digit_char(d: int) -> char {
    (48 + d) as char
}

/// The decimal digits of `n`, with no leading zero.
pub open spec fn decimal(n: nat) -> Seq<char>
    decreases n,
{
    if n < 10 {
        seq![digit_char(n as int)]
    } else {
        decimal(n / 10).push(digit_char((n % 10) as int))
    }
}

/// `n < 100` written with two digits.
pub open spec fn two_digits(n: nat) -> Seq<char> {
    seq![digit_char((n / 10) as int), digit_char((n % 10) as int)]
}

/// `n < 1000` written with three digits.
pub open spec fn three_digits(n: nat) -> Seq<char> {
    seq![digit_char((n / 100) as int), digit_char(((n / 10) % 10) as int), digit_char((n % 10) as int)]
}

/// The raw time of a solve as `m:ss.mmm`, or `s.mmm` under a minute.
pub open spec fn clock_text(ms: nat) -> Seq<char> {
    let minutes = ms / (MS_PER_MINUTE as nat);
    let seconds = (ms % (MS_PER_MINUTE as nat)) / (MS_PER_SECOND as nat);
    let millis = ms % (MS_PER_SECOND as nat);
    if minutes > 0 {
        decimal(minutes) + seq![':'] + two_digits(seconds) + seq!['.'] + three_digits(millis)
    } else {
        decimal(seconds) + seq!['.'] + three_digits(millis)
    }
}

/// The message of an averaging error.
pub open spec fn error_text(e: AverageError) -> Seq<char> {
    match e {
        AverageError::NotEnoughSolves { expected, found } => "need at least "@ + decimal(
            expected as nat,
        ) + " solves, received "@ + decimal(found as nat),
    }
}

/// How a solve is shown: its raw time, followed by `+` for a `Plus2`, or
/// wrapped as `DNF(...)` for a DNF.
pub open spec fn solve_text(s: Solve) -> Seq<char> {
    match s.penalty {
        Penalty::Clean => clock_text(s.time as nat),
        Penalty::Plus2 => clock_text(s.time as nat) + seq!['+'],
        Penalty::Dnf => seq!['D', 'N', 'F', '('] + clock_text(s.time as nat) + seq![')'],
    }
}

// ---------------------------------------------------------------------------
// Code
// ---------------------------------------------------------------------------

/// Appends a character to a string, by `String::push` of std.
#[verifier::external_body]
fn push_char(s: &mut String, c: char)
    ensures
        final(s)@ == old(s)@.push(c),
{
    s.push(c);
}

fn push_digit(out: &mut String, d: usize)
    requires
        d < 10,
    ensures
        final(out)@ == old(out)@.push(digit_char(d as int)),
{
    let c = ((48 + d) as u8) as char;
    push_char(out, c);
}

fn push_decimal(out: &mut String, n: usize)
    ensures
        final(out)@ == old(out)@ + decimal(n as nat),
    decreases n,
{
    if n >= 10 {
        push_decimal(out, n / 10);
    }
    push_digit(out, n % 10);
    proof {
        if n >= 10 {
            assert(old(out)@ + decimal((n / 10) as nat) + seq![digit_char((n % 10) as int)] =~= old(out)@
                + decimal(n as nat));
        } else {
            assert(old(out)@.push(digit_char((n % 10) as int)) =~= old(out)@ + decimal(n as nat));
        }
    }
}

fn push_two_digits(out: &mut String, n: usize)
    requires
        n < 100,
    ensures
        final(out)@ == old(out)@ + two_digits(n as nat),
{
    push_digit(out, n / 10);
    push_digit(out, n % 10);
    assert(out@ =~= old(out)@ + two_digits(n as nat));
}

fn push_three_digits(out: &mut String, n: usize)
    requires
        n < 1000,
    ensures
        final(out)@ == old(out)@ + three_digits(n as nat),
{
    push_digit(out, n / 100);
    push_digit(out, (n / 10) % 10);
    push_digit(out, n % 10);
    assert(out@ =~= old(out)@ + three_digits(n as nat));
}

impl Solve {
    /// The solve as text: `m:ss.mmm` (or `s.mmm` under a minute), with `+`
    /// after a `Plus2` and `DNF(...)` round a DNF.
    pub fn to_display_string(&self) -> (r: String)
        ensures
            r@ == solve_text(*self),
    {
        let total_ms = self.time;
        let minutes = (total_ms / MS_PER_MINUTE) as usize;
        let seconds = ((total_ms % MS_PER_MINUTE) / MS_PER_SECOND) as usize;
        let millis = (total_ms % MS_PER_SECOND) as usize;

        let mut out = String::new();
        if self.penalty == Penalty::Dnf {
            push_char(&mut out, 'D');
            push_char(&mut out, 'N');
            push_char(&mut out, 'F');
            push_char(&mut out, '(');
        }
        let ghost prefix = out@;
        if minutes > 0 {
            push_decimal(&mut out, minutes);
            push_char(&mut out, ':');
            push_two_digits(&mut out, seconds);
        } else {
            push_decimal(&mut out, seconds);
        }
        push_char(&mut out, '.');
        push_three_digits(&mut out, millis);
        assert(out@ =~= prefix + clock_text(total_ms as nat));
        match self.penalty {
            Penalty::Clean => {},
            Penalty::Plus2 => push_char(&mut out, '+'),
            Penalty::Dnf => push_char(&mut out, ')'),
        }
        assert(out@ =~= solve_text(*self));
        out
    }
}

impl AverageError {
    /// The error's message: `need at least N solves, received M`.
    pub fn to_display_string(&self) -> (r: String)
        ensures
            r@ == error_text(*self),
    {
        match self {
            AverageError::NotEnoughSolves { expected, found } => {
                let mut out = String::from_str("need at least ");
                push_decimal(&mut out, *expected);
                out.append(" solves, received ");
                push_decimal(&mut out, *found);
                out
            },
        }
    }
}

} // verus!
