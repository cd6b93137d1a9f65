//! How long a command took, as a console shows it.

use vstd::prelude::*;
use vstd::string::*;

verus! {

/// The character of a decimal digit.
pub open spec fn digit_char(d: nat) -> char {
    if d == 0 {
        '0'
    } else if d == 1 {
        '1'
    } else if d == 2 {
        '2'
    } else if d == 3 {
        '3'
    } else if d == 4 {
        '4'
    } else if d == 5 {
        '5'
    } else if d == 6 {
        '6'
    } else if d == 7 {
        '7'
    } else if d == 8 {
        '8'
    } else {
        '9'
    }
}

/// `n` in decimal digits, with no zero before them.
pub open spec fn decimal(n: nat) -> Seq<char>
    decreases n,
{
    if n < 10 {
        seq![digit_char(n)]
    } else {
        decimal(n / 10).push(digit_char(n % 10))
    }
}

/// `n` in decimal digits, two of them at least.
pub open spec fn two_digits(n: nat) -> Seq<char> {
    if n < 10 {
        seq!['0', digit_char(n)]
    } else {
        decimal(n)
    }
}

/// A time of `seconds` seconds and `subsec_nanos` nanoseconds as it is
/// shown: in minutes and seconds from a minute on, otherwise in seconds and
/// hundredths.
pub open spec fn duration_text(seconds: u64, subsec_nanos: u32) -> Seq<char> {
    if seconds >= 60 {
        decimal((seconds / 60) as nat) + seq!['m', ' '] + two_digits((seconds % 60) as nat) + seq![
            's',
        ]
    } else {
        decimal(seconds as nat) + seq!['.'] + two_digits((subsec_nanos / 10_000_000) as nat)
            + seq!['s']
    }
}

/// The digit `d` as a string.
fn digit_str(d: u64) -> (s: &'static str)
    requires
        d < 10,
    ensures
        s@ == seq![digit_char(d as nat)],
{
    proof {
        reveal_strlit("0");
        reveal_strlit("1");
        reveal_strlit("2");
        reveal_strlit("3");
        reveal_strlit("4");
        reveal_strlit("5");
        reveal_strlit("6");
        reveal_strlit("7");
        reveal_strlit("8");
        reveal_strlit("9");
    }
    let s: &'static str = if d == 0 {
        "0"
    } else if d == 1 {
        "1"
    } else if d == 2 {
        "2"
    } else if d == 3 {
        "3"
    } else if d == 4 {
        "4"
    } else if d == 5 {
        "5"
    } else if d == 6 {
        "6"
    } else if d == 7 {
        "7"
    } else if d == 8 {
        "8"
    } else {
        "9"
    };
    assert(s@ =~= seq![digit_char(d as nat)]);
    s
}

/// Appends `n` in decimal digits to `text`.
fn push_decimal(text: &mut String, n: u64)
    ensures
        final(text)@ == old(text)@ + decimal(n as nat),
    decreases n,
{
    if n >= 10 {
        push_decimal(text, n / 10);
    }
    text.append(digit_str(n % 10));
    proof {
        if n >= 10 {
            assert(text@ =~= old(text)@ + decimal(n as nat));
        } else {
            assert(text@ =~= old(text)@ + decimal(n as nat));
        }
    }
}

/// Appends `n` in two decimal digits at least to `text`.
fn push_two_digits(text: &mut String, n: u64)
    ensures
        final(text)@ == old(text)@ + two_digits(n as nat),
{
    if n < 10 {
        text.append(digit_str(0));
        text.append(digit_str(n));
        assert(text@ =~= old(text)@ + two_digits(n as nat));
    } else {
        push_decimal(text, n);
    }
}

/// Shows how long a command took: `3m 07s` from a minute on, `59.25s` below.
pub fn format_command_duration(seconds: u64, subsec_nanos: u32) -> (text: String)
    ensures
        text@ == duration_text(seconds, subsec_nanos),
{
    let mut text = String::new();
    proof {
        reveal_strlit("m ");
        reveal_strlit("s");
        reveal_strlit(".");
    }
    if seconds >= 60 {
        push_decimal(&mut text, seconds / 60);
        text.append("m ");
        push_two_digits(&mut text, seconds % 60);
        text.append("s");
        assert(text@ =~= duration_text(seconds, subsec_nanos));
    } else {
        push_decimal(&mut text, seconds);
        text.append(".");
        let hundredths: u64 = (subsec_nanos / 10_000_000) as u64;
        push_two_digits(&mut text, hundredths);
        text.append("s");
        assert(text@ =~= duration_text(seconds, subsec_nanos));
    }
    text
}

} // verus!
