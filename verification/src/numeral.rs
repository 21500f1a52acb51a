//! Verified decimal numerals: rendering naturals (and signed years) as
//! character sequences, zero-padding to a minimum width, and the
//! injectivity facts the collision resolver's distinctness proof rests on.

use vstd::prelude::*;
use crate::text;

verus! {

/// The digit character of a value below ten.
pub open spec fn digit_char(d: int) -> char {
    if d == 0 {
        '0'
    } else if d == 1 {
        '1'
    } else if d == 2 {
        '2'
    } else if d == 3 {
        '3'
    } else if d == 4 {
        '4'
    } else if d == 5 {
        '5'
    } else if d == 6 {
        '6'
    } else if d == 7 {
        '7'
    } else if d == 8 {
        '8'
    } else {
        '9'
    }
}

/// The decimal numeral of a natural number, most significant digit first.
pub open spec fn dec_digits(n: nat) -> Seq<char>
    decreases n,
{
    if n < 10 {
        seq![digit_char(n as int)]
    } else {
        dec_digits(n / 10).push(digit_char((n % 10) as int))
    }
}

/// A run of `k` zero characters.
pub open spec fn zeros(k: nat) -> Seq<char> {
    Seq::new(k, |i: int| '0')
}

/// The numeral of `n`, padded on the left with zeros to at least `width`
/// characters; a numeral longer than `width` is kept whole.
pub open spec fn padded_dec(n: nat, width: nat) -> Seq<char> {
    if width > dec_digits(n).len() {
        zeros((width - dec_digits(n).len()) as nat) + dec_digits(n)
    } else {
        dec_digits(n)
    }
}

/// The numeral of a possibly negative value: a minus sign, then digits.
pub open spec fn signed_digits(v: int) -> Seq<char> {
    if v < 0 {
        seq!['-'] + dec_digits((-v) as nat)
    } else {
        dec_digits(v as nat)
    }
}

pub open spec fn is_digit(c: char) -> bool {
    c == '0' || c == '1' || c == '2' || c == '3' || c == '4' || c == '5' || c == '6' || c == '7'
        || c == '8' || c == '9'
}

pub proof fn lemma_dec_digits_len(n: nat)
    ensures
        dec_digits(n).len() >= 1,
    decreases n,
{
    if n >= 10 {
        lemma_dec_digits_len(n / 10);
    }
}

pub proof fn lemma_dec_digits_are_digits(n: nat)
    ensures
        forall|i: int| 0 <= i < dec_digits(n).len() ==> is_digit(#[trigger] dec_digits(n)[i]),
    decreases n,
{
    if n < 10 {
        assert(dec_digits(n)[0] == digit_char(n as int));
        assert(is_digit(digit_char(n as int)));
    } else {
        lemma_dec_digits_are_digits(n / 10);
        assert forall|i: int| 0 <= i < dec_digits(n).len() implies is_digit(
            #[trigger] dec_digits(n)[i],
        ) by {
            if i < dec_digits(n).len() - 1 {
                assert(dec_digits(n)[i] == dec_digits(n / 10)[i]);
            } else {
                assert(dec_digits(n)[i] == digit_char((n % 10) as int));
                assert(is_digit(digit_char((n % 10) as int)));
            }
        }
    }
}

pub proof fn lemma_padded_dec_are_digits(n: nat, width: nat)
    ensures
        forall|i: int| 0 <= i < padded_dec(n, width).len() ==> is_digit(
            #[trigger] padded_dec(n, width)[i],
        ),
{
    lemma_dec_digits_are_digits(n);
}

pub proof fn lemma_padded_dec_len(n: nat, width: nat)
    ensures
        padded_dec(n, width).len() >= width,
        padded_dec(n, width).len() >= 1,
{
    lemma_dec_digits_len(n);
}

/// A positive number's numeral does not start with a zero.
pub proof fn lemma_leading_digit(n: nat)
    requires
        n >= 1,
    ensures
        dec_digits(n)[0] != '0',
    decreases n,
{
    if n < 10 {
    } else {
        lemma_leading_digit(n / 10);
        lemma_dec_digits_len(n / 10);
    }
}

/// Distinct digits render as distinct characters.
pub proof fn lemma_digit_char_inj(c: int, d: int)
    requires
        0 <= c <= 9,
        0 <= d <= 9,
        digit_char(c) == digit_char(d),
    ensures
        c == d,
{
    if c != d {
        text::lemma_char_inj(digit_char(c), digit_char(d));
        assert(false);
    }
}

/// Numerals determine their numbers.
pub proof fn lemma_dec_digits_inj(m: nat, n: nat)
    requires
        dec_digits(m) == dec_digits(n),
    ensures
        m == n,
    decreases m,
{
    lemma_dec_digits_len(m);
    lemma_dec_digits_len(n);
    if m < 10 && n < 10 {
        assert(dec_digits(m)[0] == digit_char(m as int));
        assert(dec_digits(n)[0] == digit_char(n as int));
        lemma_digit_char_inj(m as int, n as int);
    } else if m < 10 && n >= 10 {
        lemma_dec_digits_len(n / 10);
        assert(dec_digits(n).len() >= 2);
    } else if m >= 10 && n < 10 {
        lemma_dec_digits_len(m / 10);
        assert(dec_digits(m).len() >= 2);
    } else {
        assert(dec_digits(m).last() == digit_char((m % 10) as int));
        assert(dec_digits(n).last() == digit_char((n % 10) as int));
        lemma_digit_char_inj((m % 10) as int, (n % 10) as int);
        assert(dec_digits(m).drop_last() =~= dec_digits(m / 10));
        assert(dec_digits(n).drop_last() =~= dec_digits(n / 10));
        lemma_dec_digits_inj(m / 10, n / 10);
    }
}

/// Padded numerals of one width determine their numbers, for positive ones.
pub proof fn lemma_padded_dec_inj(m: nat, n: nat, width: nat)
    requires
        m >= 1,
        n >= 1,
        padded_dec(m, width) == padded_dec(n, width),
    ensures
        m == n,
{
    let dm = dec_digits(m);
    let dn = dec_digits(n);
    lemma_dec_digits_len(m);
    lemma_dec_digits_len(n);
    let am: int = if width > dm.len() { width - dm.len() } else { 0 };
    let an: int = if width > dn.len() { width - dn.len() } else { 0 };
    assert(padded_dec(m, width) =~= zeros(am as nat) + dm);
    assert(padded_dec(n, width) =~= zeros(an as nat) + dn);
    assert(am + dm.len() == an + dn.len());
    if dm.len() == dn.len() {
        assert(dm =~= dn) by {
            assert(forall|i: int| 0 <= i < dm.len() ==> dm[i] == padded_dec(m, width)[am + i]);
            assert(forall|i: int| 0 <= i < dn.len() ==> dn[i] == padded_dec(n, width)[an + i]);
        }
        lemma_dec_digits_inj(m, n);
    } else if dm.len() < dn.len() {
        assert(am > an);
        lemma_leading_digit(n);
        assert(padded_dec(n, width)[an] == dn[0]);
        assert(padded_dec(m, width)[an] == '0');
        assert(false);
    } else {
        assert(an > am);
        lemma_leading_digit(m);
        assert(padded_dec(m, width)[am] == dm[0]);
        assert(padded_dec(n, width)[am] == '0');
        assert(false);
    }
}

/// The digit character of a value below ten, executable form.
pub fn digit_char_exec(d: u8) -> (c: char)
    requires
        d <= 9,
    ensures
        c == digit_char(d as int),
{
    match d {
        0 => '0',
        1 => '1',
        2 => '2',
        3 => '3',
        4 => '4',
        5 => '5',
        6 => '6',
        7 => '7',
        8 => '8',
        _ => '9',
    }
}

/// Render a natural number in decimal.
pub fn dec_digits_exec(n: u128) -> (v: Vec<char>)
    ensures
        v@ == dec_digits(n as nat),
    decreases n,
{
    if n < 10 {
        let mut v: Vec<char> = Vec::new();
        v.push(digit_char_exec(n as u8));
        proof {
            assert(v@ =~= dec_digits(n as nat));
        }
        v
    } else {
        let mut v = dec_digits_exec(n / 10);
        v.push(digit_char_exec((n % 10) as u8));
        v
    }
}

/// Render a natural number in decimal, left-padded with zeros to at least
/// `width` characters.
#[verifier::loop_isolation(false)]
pub fn padded_dec_exec(n: u128, width: u64) -> (v: Vec<char>)
    ensures
        v@ == padded_dec(n as nat, width as nat),
{
    let digits = dec_digits_exec(n);
    let dlen = digits.len() as u64;
    proof {
        lemma_dec_digits_len(n as nat);
    }
    if width <= dlen {
        proof {
            assert(digits.len() as u64 == digits.len());
        }
        return digits;
    }
    let pad = width - dlen;
    let mut v: Vec<char> = Vec::new();
    let mut i: u64 = 0;
    while i < pad
        invariant
            i <= pad,
            v@ =~= zeros(i as nat),
        decreases pad - i,
    {
        v.push('0');
        i = i + 1;
        proof {
            assert(v@ =~= zeros(i as nat));
        }
    }
    text::push_all(&mut v, &digits);
    proof {
        assert(v@ =~= padded_dec(n as nat, width as nat));
    }
    v
}

/// Render a signed value in decimal, minus sign first.
pub fn signed_digits_exec(v: i64) -> (r: Vec<char>)
    ensures
        r@ == signed_digits(v as int),
{
    if v < 0 {
        let mut r: Vec<char> = Vec::new();
        r.push('-');
        let mag: u128 = (-(v as i128)) as u128;
        let d = dec_digits_exec(mag);
        text::push_all(&mut r, &d);
        proof {
            assert(r@ =~= signed_digits(v as int));
        }
        r
    } else {
        let r = dec_digits_exec(v as u128);
        r
    }
}

} // verus!
