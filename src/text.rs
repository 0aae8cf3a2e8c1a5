//! Building text: appending strings, decimal numerals and padding.
use vstd::prelude::*;

verus! {

/// Relies on `String::push_str`: the text is appended.
#[verifier::external_body]
pub(crate) fn push_str(s: &mut String, t: &str)
    ensures
        final(s)@ == old(s)@ + t@,
{
    s.push_str(t);
}

/// Relies on `String::push`: the character is appended.
#[verifier::external_body]
pub(crate) fn push_char(s: &mut String, c: char)
    ensures
        final(s)@ == old(s)@.push(c),
{
    s.push(c);
}

/// The decimal digit of `d`.
pub open spec fn digit(d: nat) -> char {
    if d == 0 { '0' } else if d == 1 { '1' } else if d == 2 { '2' } else if d == 3 { '3' } else if d == 4 { '4' }
    else if d == 5 { '5' } else if d == 6 { '6' } else if d == 7 { '7' } else if d == 8 { '8' } else { '9' }
}

/// The decimal numeral of `n`, without leading zeros.
pub open spec fn decimal(n: nat) -> Seq<char>
    decreases n,
{
    if n < 10 {
        seq![digit(n)]
    } else {
        decimal(n / 10).push(digit(n % 10))
    }
}

/// `n` copies of `c`.
pub open spec fn repeat(c: char, n: nat) -> Seq<char>
    decreases n,
{
    if n == 0 {
        Seq::empty()
    } else {
        repeat(c, (n - 1) as nat).push(c)
    }
}

/// `s` right-aligned in a field of `w` characters.
pub open spec fn pad_left(s: Seq<char>, w: nat) -> Seq<char> {
    if s.len() < w {
        repeat(' ', (w - s.len()) as nat) + s
    } else {
        s
    }
}

/// `s` left-aligned in a field of `w` characters.
pub open spec fn pad_right(s: Seq<char>, w: nat) -> Seq<char> {
    if s.len() < w {
        s + repeat(' ', (w - s.len()) as nat)
    } else {
        s
    }
}

/// Appends the decimal numeral of `n`.
pub(crate) fn push_decimal(s: &mut String, n: usize)
    ensures
        final(s)@ == old(s)@ + decimal(n as nat),
    decreases n,
{
    if n >= 10 {
        push_decimal(s, n / 10);
    }
    let d = n % 10;
    let c = if d == 0 { '0' } else if d == 1 { '1' } else if d == 2 { '2' } else if d == 3 { '3' }
        else if d == 4 { '4' } else if d == 5 { '5' } else if d == 6 { '6' } else if d == 7 { '7' }
        else if d == 8 { '8' } else { '9' };
    push_char(s, c);
    proof {
        if n >= 10 {
            assert(decimal(n as nat) == decimal((n / 10) as nat).push(digit((n % 10) as nat)));
        }
    }
    assert(s@ =~= old(s)@ + decimal(n as nat));
}

/// Appends `n` copies of `c`.
pub(crate) fn push_repeat(s: &mut String, c: char, n: usize)
    ensures
        final(s)@ == old(s)@ + repeat(c, n as nat),
{
    let mut i: usize = 0;
    while i < n
        invariant
            i <= n,
            s@ == old(s)@ + repeat(c, i as nat),
        decreases n - i,
    {
        push_char(s, c);
        i = i + 1;
        assert(s@ =~= old(s)@ + repeat(c, i as nat));
    }
}

/// The number of characters of the decimal numeral of `n`.
pub(crate) fn decimal_len(n: usize) -> (r: usize)
    ensures
        r == decimal(n as nat).len(),
        r <= n + 1,
    decreases n,
{
    if n < 10 {
        1
    } else {
        decimal_len(n / 10) + 1
    }
}

/// Appends `n` right-aligned in a field of `w` characters.
pub(crate) fn push_decimal_left(s: &mut String, n: usize, w: usize)
    ensures
        final(s)@ == old(s)@ + pad_left(decimal(n as nat), w as nat),
{
    let k = decimal_len(n);
    if k < w {
        push_repeat(s, ' ', w - k);
    }
    push_decimal(s, n);
    assert(s@ =~= old(s)@ + pad_left(decimal(n as nat), w as nat));
}

/// Appends `n` left-aligned in a field of `w` characters.
pub(crate) fn push_decimal_right(s: &mut String, n: usize, w: usize)
    ensures
        final(s)@ == old(s)@ + pad_right(decimal(n as nat), w as nat),
{
    let k = decimal_len(n);
    push_decimal(s, n);
    if k < w {
        push_repeat(s, ' ', w - k);
    }
    assert(s@ =~= old(s)@ + pad_right(decimal(n as nat), w as nat));
}

} // verus!
