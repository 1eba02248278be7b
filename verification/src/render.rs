//! Decimal rendering and literal token substitution for week formatting.

use vstd::prelude::*;

verus! {

/// The decimal digit character for `d`.
pub open spec fn digit_char(d: nat) -> char {
    if d == 0 {
        '0'
    } else if d == 1 {
        '1'
    } else if d == 2 {
        '2'
    } else if d == 3 {
        '3'
    } else if d == 4 {
        '4'
    } else if d == 5 {
        '5'
    } else if d == 6 {
        '6'
    } else if d == 7 {
        '7'
    } else if d == 8 {
        '8'
    } else {
        '9'
    }
}

/// The decimal digits of `n`, most significant first.
pub open spec fn dec_seq(n: nat) -> Seq<char>
    decreases n,
{
    if n < 10 {
        seq![digit_char(n)]
    } else {
        dec_seq(n / 10).push(digit_char(n % 10))
    }
}

/// The decimal digits of `n`, zero-padded on the left to width `w`.
pub open spec fn zero_pad(n: nat, w: nat) -> Seq<char> {
    if dec_seq(n).len() >= w {
        dec_seq(n)
    } else {
        Seq::new((w - dec_seq(n).len()) as nat, |i: int| '0') + dec_seq(n)
    }
}

/// Literal substitution of the four week tokens, scanning left to right:
/// `%Y` is the week year zero-padded to four digits, `%C` the week year
/// divided by 100 and `%y` the week year modulo 100, each zero-padded to two
/// digits, and `%W` the week number zero-padded to two digits. Any other
/// character passes through unchanged, a `%` opening no token included.
pub open spec fn format_spec(s: Seq<char>, year: nat, week: nat) -> Seq<char>
    decreases s.len(),
{
    if s.len() == 0 {
        Seq::empty()
    } else if s.len() >= 2 && s[0] == '%' && s[1] == 'Y' {
        zero_pad(year, 4) + format_spec(s.skip(2), year, week)
    } else if s.len() >= 2 && s[0] == '%' && s[1] == 'C' {
        zero_pad(year / 100, 2) + format_spec(s.skip(2), year, week)
    } else if s.len() >= 2 && s[0] == '%' && s[1] == 'y' {
        zero_pad(year % 100, 2) + format_spec(s.skip(2), year, week)
    } else if s.len() >= 2 && s[0] == '%' && s[1] == 'W' {
        zero_pad(week, 2) + format_spec(s.skip(2), year, week)
    } else {
        seq![s[0]] + format_spec(s.skip(1), year, week)
    }
}

/// Relies on `str::chars`: it yields the characters of the string in order,
/// which are the string's view.
#[verifier::external_body]
pub(crate) fn chars_of_str(s: &str) -> (r: Vec<char>)
    ensures
        r@ == s@,
{
    s.chars().collect()
}

/// Relies on `String`'s `FromIterator` over `char`: the collected string
/// holds exactly the given characters, which are its view.
#[verifier::external_body]
pub(crate) fn string_from_chars(v: &Vec<char>) -> (r: String)
    ensures
        r@ == v@,
{
    v.iter().copied().collect()
}

/// The decimal digit character of a digit below ten.
fn digit_char_exec(d: u32) -> (r: char)
    requires
        d < 10,
    ensures
        r == digit_char(d as nat),
{
    if d == 0 {
        '0'
    } else if d == 1 {
        '1'
    } else if d == 2 {
        '2'
    } else if d == 3 {
        '3'
    } else if d == 4 {
        '4'
    } else if d == 5 {
        '5'
    } else if d == 6 {
        '6'
    } else if d == 7 {
        '7'
    } else if d == 8 {
        '8'
    } else {
        '9'
    }
}

/// How long the decimal form of `n` is, against the thresholds the padding
/// needs.
proof fn lemma_dec_len(n: nat)
    ensures
        dec_seq(n).len() >= 1,
        n < 10 ==> dec_seq(n).len() == 1,
        n < 100 ==> dec_seq(n).len() <= 2,
        n < 1000 ==> dec_seq(n).len() <= 3,
        n >= 10 ==> dec_seq(n).len() >= 2,
        n >= 100 ==> dec_seq(n).len() >= 3,
        n >= 1000 ==> dec_seq(n).len() >= 4,
    decreases n,
{
    if n >= 10 {
        lemma_dec_len(n / 10);
    }
}

/// Appends the decimal digits of `n`, most significant first.
fn push_digits(out: &mut Vec<char>, n: u32)
    ensures
        final(out)@ == old(out)@ + dec_seq(n as nat),
    decreases n,
{
    if n < 10 {
        let c = digit_char_exec(n);
        out.push(c);
        proof {
            assert(out@ =~= old(out)@ + dec_seq(n as nat));
        }
    } else {
        push_digits(out, n / 10);
        let c = digit_char_exec(n % 10);
        out.push(c);
        proof {
            assert(out@ =~= old(out)@ + dec_seq(n as nat));
        }
    }
}

/// Appends the decimal digits of `n`, zero-padded on the left to the given
/// width of two or four.
pub(crate) fn push_padded(out: &mut Vec<char>, n: u32, width: u32)
    requires
        width == 2 || width == 4,
    ensures
        final(out)@ == old(out)@ + zero_pad(n as nat, width as nat),
{
    proof {
        lemma_dec_len(n as nat);
    }
    if width == 4 {
        if n < 1000 {
            out.push('0');
        }
        if n < 100 {
            out.push('0');
        }
        if n < 10 {
            out.push('0');
        }
    } else {
        if n < 10 {
            out.push('0');
        }
    }
    push_digits(out, n);
    proof {
        assert(out@ =~= old(out)@ + zero_pad(n as nat, width as nat));
    }
}

} // verus!
