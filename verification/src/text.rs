//! The text of numbers, for reports.
use vstd::prelude::*;
use vstd::string::StringExecFns;

verus! {

/// The character of a decimal digit.
pub open spec fn digit(d: nat) -> char {
    if d == 0 {
        '0'
    } else if d == 1 {
        '1'
    } else if d == 2 {
        '2'
    } else if d == 3 {
        '3'
    } else if d == 4 {
        '4'
    } else if d == 5 {
        '5'
    } else if d == 6 {
        '6'
    } else if d == 7 {
        '7'
    } else if d == 8 {
        '8'
    } else {
        '9'
    }
}

/// A number in decimal digits, without leading zeros.
pub open spec fn decimal_text(n: nat) -> Seq<char>
    decreases n,
{
    if n < 10 {
        seq![digit(n)]
    } else {
        decimal_text(n / 10).push(digit(n % 10))
    }
}

fn digit_text(d: usize) -> (text: &'static str)
    requires
        d < 10,
    ensures
        text@ == seq![digit(d as nat)],
{
    proof {
        reveal_strlit("0");
        reveal_strlit("1");
        reveal_strlit("2");
        reveal_strlit("3");
        reveal_strlit("4");
        reveal_strlit("5");
        reveal_strlit("6");
        reveal_strlit("7");
        reveal_strlit("8");
        reveal_strlit("9");
    }
    let text = match d {
        0 => "0",
        1 => "1",
        2 => "2",
        3 => "3",
        4 => "4",
        5 => "5",
        6 => "6",
        7 => "7",
        8 => "8",
        _ => "9",
    };
    assert(text@ =~= seq![digit(d as nat)]);
    text
}

/// The decimal digits of `n`.
pub fn decimal(n: usize) -> (text: String)
    ensures
        text@ == decimal_text(n as nat),
    decreases n,
{
    let last = digit_text(n % 10);
    if n < 10 {
        last.to_owned()
    } else {
        let mut text = decimal(n / 10);
        text.append(last);
        assert(text@ =~= decimal_text(n as nat));
        text
    }
}

/// `n` times the character `c`.
pub open spec fn repeated(c: char, n: nat) -> Seq<char> {
    Seq::new(n, |i: int| c)
}

/// `n` times the one character of `fill`.
pub fn repeat(fill: &str, n: usize) -> (text: String)
    requires
        fill@.len() == 1,
    ensures
        text@ == repeated(fill@[0], n as nat),
{
    let mut text = String::new();
    let mut i: usize = 0;
    while i < n
        invariant
            fill@.len() == 1,
            i <= n,
            text@ =~= repeated(fill@[0], i as nat),
        decreases n - i,
    {
        text.append(fill);
        i += 1;
    }
    text
}

} // verus!
