//! Building message text: appending characters, string slices and decimal numbers.
use vstd::prelude::*;

verus! {

/// The decimal digits of `n`, most significant first (`"0"` for zero).
pub open spec fn dec(n: nat) -> Seq<char>
    decreases n,
{
    if n < 10 {
        seq![digit(n)]
    } else {
        dec(n / 10).push(digit(n % 10))
    }
}

/// The character of a decimal digit.
pub open spec fn digit(d: nat) -> char {
    if d == 0 {
        '0'
    } else if d == 1 {
        '1'
    } else if d == 2 {
        '2'
    } else if d == 3 {
        '3'
    } else if d == 4 {
        '4'
    } else if d == 5 {
        '5'
    } else if d == 6 {
        '6'
    } else if d == 7 {
        '7'
    } else if d == 8 {
        '8'
    } else {
        '9'
    }
}

/// Appends one character to a string (`String::push`).
#[verifier::external_body]
pub(crate) fn push_char(s: &mut String, c: char)
    ensures
        final(s)@ == old(s)@.push(c),
{
    s.push(c);
}

/// Appends a string slice to a string, character by character.
pub fn push_str(s: &mut String, t: &str)
    ensures
        final(s)@ == old(s)@ + t@,
{
    let ghost start = s@;
    for c in it: t.chars()
        invariant
            s@ == start + it.seq().take(it.index() as int),
            it.seq() == t@,
    {
        push_char(s, c);
        proof {
            assert(it.seq().take(it.index() + 1) =~= it.seq().take(it.index() as int).push(c));
        }
    }
    proof {
        assert(t@.take(t@.len() as int) =~= t@);
    }
}

fn digit_char(d: usize) -> (r: char)
    requires
        d < 10,
    ensures
        r == digit(d as nat),
{
    if d == 0 {
        '0'
    } else if d == 1 {
        '1'
    } else if d == 2 {
        '2'
    } else if d == 3 {
        '3'
    } else if d == 4 {
        '4'
    } else if d == 5 {
        '5'
    } else if d == 6 {
        '6'
    } else if d == 7 {
        '7'
    } else if d == 8 {
        '8'
    } else {
        '9'
    }
}

/// Appends the decimal digits of `n` to a string.
pub fn push_usize(s: &mut String, n: usize)
    ensures
        final(s)@ == old(s)@ + dec(n as nat),
    decreases n,
{
    if n < 10 {
        push_char(s, digit_char(n));
        proof {
            assert(old(s)@.push(digit(n as nat)) =~= old(s)@ + dec(n as nat));
        }
    } else {
        push_usize(s, n / 10);
        push_char(s, digit_char(n % 10));
        proof {
            assert(dec(n as nat) == dec((n / 10) as nat).push(digit((n % 10) as nat)));
            assert(old(s)@ + dec((n / 10) as nat) + seq![digit((n % 10) as nat)] =~= old(s)@ + dec(
                n as nat,
            ));
        }
    }
}

/// `"(a, b)"`, the way a pair of numbers is debug-printed.
pub open spec fn pair_text(p: (usize, usize)) -> Seq<char> {
    seq!['('] + dec(p.0 as nat) + seq![',', ' '] + dec(p.1 as nat) + seq![')']
}

/// Appends `"(a, b)"` to a string.
pub fn push_pair(s: &mut String, p: (usize, usize))
    ensures
        final(s)@ == old(s)@ + pair_text(p),
{
    push_char(s, '(');
    push_usize(s, p.0);
    push_char(s, ',');
    push_char(s, ' ');
    push_usize(s, p.1);
    push_char(s, ')');
    proof {
        assert(final(s)@ =~= old(s)@ + pair_text(p));
    }
}

} // verus!
