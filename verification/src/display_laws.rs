use vstd::prelude::*;

use crate::average::AverageError;
use crate::display::{
    clock_text, decimal, digit_char, error_text, solve_text, three_digits, two_digits,
};
use crate::solve::{Penalty, Solve};

verus! {

// ---------------------------------------------------------------------------
// Reading text back
// ---------------------------------------------------------------------------

/// `c` is one of `0` to `9`.
pub open spec fn is_digit(c: char) -> bool {
    48 <= (c as int) <= 57
}

/// Every character of `s` is a digit.
pub open spec fn all_digits(s: Seq<char>) -> bool {
    forall|i: int| 0 <= i < s.len() ==> is_digit(#[trigger] s[i])
}

/// The number that a string of digits reads as.
pub open spec fn digits_value(s: Seq<char>) -> int
    decreases s.len(),
{
    if s.len() == 0 {
        0
    } else {
        digits_value(s.drop_last()) * 10 + (s.last() as int - 48)
    }
}

/// A non-empty string of digits without a leading zero (but `0` itself).
pub open spec fn is_numeral(s: Seq<char>) -> bool {
    &&& s.len() > 0
    &&& all_digits(s)
    &&& (s.len() == 1 || s[0] != '0')
}

// ---------------------------------------------------------------------------
// Helper lemmas
// ---------------------------------------------------------------------------

proof fn lemma_digit_char(d: int)
    requires
        0 <= d < 10,
    ensures
        is_digit(digit_char(d)),
        digit_char(d) as int == 48 + d,
        d != 0 ==> digit_char(d) != '0',
{
    assert(('0' as int) == 48);
}

proof fn lemma_decimal_reads_back(n: nat)
    ensures
        is_numeral(decimal(n)),
        digits_value(decimal(n)) == n,
    decreases n,
{
    if n < 10 {
        lemma_digit_char(n as int);
        let s = decimal(n);
        assert(s.drop_last() =~= Seq::<char>::empty());
        assert(digits_value(s.drop_last()) == 0);
        assert(s.last() == digit_char(n as int));
    } else {
        lemma_decimal_reads_back(n / 10);
        lemma_digit_char((n % 10) as int);
        let s = decimal(n);
        let p = decimal(n / 10);
        assert(s.drop_last() =~= p);
        assert(s[0] == p[0]);
        assert(s.last() == digit_char((n % 10) as int));
        assert(digits_value(s) == digits_value(p) * 10 + (n % 10));
        assert(n == (n / 10) * 10 + n % 10);
        if p.len() == 1 {
            assert(n / 10 < 10) by {
                if n / 10 >= 10 {
                    lemma_decimal_long((n / 10) as nat);
                }
            }
            assert(digits_value(p) == (p[0] as int) - 48) by {
                assert(p.drop_last() =~= Seq::<char>::empty());
            }
        }
    }
}

proof fn lemma_decimal_nonempty(n: nat)
    ensures
        decimal(n).len() >= 1,
    decreases n,
{
    if n >= 10 {
        lemma_decimal_nonempty(n / 10);
    }
}

proof fn lemma_decimal_long(n: nat)
    requires
        n >= 10,
    ensures
        decimal(n).len() >= 2,
{
    lemma_decimal_nonempty(n / 10);
}

proof fn lemma_two_digits_read_back(n: nat)
    requires
        n < 100,
    ensures
        two_digits(n).len() == 2,
        all_digits(two_digits(n)),
        digits_value(two_digits(n)) == n,
{
    let s = two_digits(n);
    lemma_digit_char((n / 10) as int);
    lemma_digit_char((n % 10) as int);
    assert(s.drop_last().drop_last() =~= Seq::<char>::empty());
    assert(s.drop_last() =~= seq![s[0]]);
    assert(digits_value(s.drop_last()) == (n / 10) as int) by {
        assert(s.drop_last().last() == s[0]);
        assert(digits_value(s.drop_last().drop_last()) == 0);
    }
    assert(digits_value(s) == (n / 10) * 10 + n % 10);
}

proof fn lemma_three_digits_read_back(n: nat)
    requires
        n < 1000,
    ensures
        three_digits(n).len() == 3,
        all_digits(three_digits(n)),
        digits_value(three_digits(n)) == n,
{
    let s = three_digits(n);
    lemma_digit_char((n / 100) as int);
    lemma_digit_char(((n / 10) % 10) as int);
    lemma_digit_char((n % 10) as int);
    assert(s.drop_last().drop_last().drop_last() =~= Seq::<char>::empty());
    assert(s.drop_last().drop_last() =~= seq![s[0]]);
    assert(s.drop_last() =~= seq![s[0], s[1]]);
    let s1 = s.drop_last().drop_last();
    assert(digits_value(s1) == (n / 100) as int) by {
        assert(s1.last() == s[0]);
        assert(digits_value(s1.drop_last()) == 0);
    }
    assert(digits_value(s.drop_last()) == (n / 100) * 10 + (n / 10) % 10) by {
        assert(s.drop_last().last() == s[1]);
    }
    assert(digits_value(s) == ((n / 100) * 10 + (n / 10) % 10) * 10 + n % 10);
    assert(((n / 100) * 10 + (n / 10) % 10) * 10 + n % 10 == n);
}

// ---------------------------------------------------------------------------
// Laws of the text of a solve
// ---------------------------------------------------------------------------

/// A `Plus2` is shown as the clean solve of the same raw time followed by
/// `+`, and a DNF as the clean solve wrapped in `DNF(` and `)`.
pub proof fn lemma_penalty_marks(t: u32)
    ensures
        solve_text(Solve { time: t, penalty: Penalty::Plus2 }) == solve_text(
            Solve { time: t, penalty: Penalty::Clean },
        ) + seq!['+'],
        solve_text(Solve { time: t, penalty: Penalty::Dnf }) == seq!['D', 'N', 'F', '('] + solve_text(
            Solve { time: t, penalty: Penalty::Clean },
        ) + seq![')'],
{
}

/// The text of a clean solve reads back as its raw time: it ends in `.` and
/// three digits of milliseconds; before them stand the seconds as a numeral
/// under a minute, else the minutes as a numeral, `:` and two digits of
/// seconds.
pub proof fn lemma_clean_text_reads_back(t: u32)
    ensures
        ({
            let s = solve_text(Solve { time: t, penalty: Penalty::Clean });
            let n = s.len();
            &&& n >= 5
            &&& s[n - 4] == '.'
            &&& all_digits(s.subrange(n - 3, n as int))
            &&& digits_value(s.subrange(n - 3, n as int)) == t % 1000
            &&& t < 60000 ==> {
                &&& is_numeral(s.subrange(0, n - 4))
                &&& digits_value(s.subrange(0, n - 4)) == t / 1000
            }
            &&& t >= 60000 ==> {
                &&& n >= 8
                &&& s[n - 7] == ':'
                &&& all_digits(s.subrange(n - 6, n - 4))
                &&& digits_value(s.subrange(n - 6, n - 4)) == (t % 60000) / 1000
                &&& is_numeral(s.subrange(0, n - 7))
                &&& digits_value(s.subrange(0, n - 7)) == t / 60000
            }
        }),
{
    let ms = t as nat;
    let s = solve_text(Solve { time: t, penalty: Penalty::Clean });
    assert(s == clock_text(ms));
    let minutes = ms / 60000;
    let seconds = (ms % 60000) / 1000;
    let millis = ms % 1000;
    lemma_three_digits_read_back(millis);
    let tail = three_digits(millis);
    let n = s.len();
    if minutes > 0 {
        lemma_decimal_reads_back(minutes);
        lemma_two_digits_read_back(seconds);
        let head = decimal(minutes);
        let mid = two_digits(seconds);
        assert(s =~= head + seq![':'] + mid + seq!['.'] + tail);
        assert(s.subrange(n - 3, n as int) =~= tail);
        assert(s.subrange(n - 6, n - 4) =~= mid);
        assert(s.subrange(0, n - 7) =~= head);
    } else {
        lemma_decimal_reads_back(seconds);
        let head = decimal(seconds);
        assert(s =~= head + seq!['.'] + tail);
        assert(s.subrange(n - 3, n as int) =~= tail);
        assert(s.subrange(0, n - 4) =~= head);
        assert(seconds == ms / 1000);
    }
}

/// The message of an error reads back as the numbers it carries: `need at
/// least `, a numeral of the expected count, ` solves, received `, and a
/// numeral of the count found.
pub proof fn lemma_error_text_reads_back(expected: usize, found: usize)
    ensures
        exists|a: Seq<char>, b: Seq<char>|
            #![trigger digits_value(a), digits_value(b)]
            is_numeral(a) && digits_value(a) == expected && is_numeral(b) && digits_value(b) == found
                && error_text(AverageError::NotEnoughSolves { expected, found }) == "need at least "@
                + a + " solves, received "@ + b,
{
    lemma_decimal_reads_back(expected as nat);
    lemma_decimal_reads_back(found as nat);
    let a = decimal(expected as nat);
    let b = decimal(found as nat);
    assert(digits_value(a) == expected && digits_value(b) == found);
}

} // verus!
