//! Fixed-width textual renderings of machine words.
//!
//! A rendering is a `0x` or `0b` tag followed by the digits of the value,
//! zero-padded on the left to a minimum digit count.

use vstd::prelude::*;

verus! {

/// The character for one digit value below sixteen, upper case.
pub open spec fn spec_digit_char(d: int) -> char {
    if d == 1 {
        '1'
    } else if d == 2 {
        '2'
    } else if d == 3 {
        '3'
    } else if d == 4 {
        '4'
    } else if d == 5 {
        '5'
    } else if d == 6 {
        '6'
    } else if d == 7 {
        '7'
    } else if d == 8 {
        '8'
    } else if d == 9 {
        '9'
    } else if d == 10 {
        'A'
    } else if d == 11 {
        'B'
    } else if d == 12 {
        'C'
    } else if d == 13 {
        'D'
    } else if d == 14 {
        'E'
    } else if d == 15 {
        'F'
    } else {
        '0'
    }
}

/// The digits of `v` in the given base, most significant first, without
/// leading zeroes; the value zero is the single digit `0`.
pub open spec fn spec_digits(v: int, base: int) -> Seq<char>
    decreases v,
    when v >= 0 && base >= 2
    via spec_digits_decreases
{
    if v < base {
        seq![spec_digit_char(v)]
    } else {
        spec_digits(v / base, base).push(spec_digit_char(v % base))
    }
}

#[via_fn]
proof fn spec_digits_decreases(v: int, base: int) {
    if v >= base {
        vstd::arithmetic::div_mod::lemma_div_decreases(v, base);
        vstd::arithmetic::div_mod::lemma_div_pos_is_pos(v, base);
    }
}

/// A run of `n` zero characters (none if `n` is not positive).
pub open spec fn spec_zeroes(n: int) -> Seq<char> {
    if n <= 0 {
        Seq::empty()
    } else {
        Seq::new(n as nat, |i: int| '0')
    }
}

/// The full rendering: `0` and the tag character, zeroes padding the digits
/// of `v` on the left up to `min` digits, then the digits themselves.
pub open spec fn spec_rendered(v: int, base: int, min: int, tag: char) -> Seq<char> {
    let digits = spec_digits(v, base);
    seq!['0', tag] + spec_zeroes(min - digits.len()) + digits
}

/// Relies on `String::push` of std: it appends exactly the one character.
#[verifier::external_body]
pub(crate) fn push_char(s: &mut String, c: char)
    ensures
        final(s)@ == old(s)@.push(c),
{
    s.push(c);
}

/// The character for one digit value below sixteen, upper case.
pub fn digit_char(d: u32) -> (c: char)
    requires
        d < 16,
    ensures
        c == spec_digit_char(d as int),
{
    match d {
        1 => '1',
        2 => '2',
        3 => '3',
        4 => '4',
        5 => '5',
        6 => '6',
        7 => '7',
        8 => '8',
        9 => '9',
        10 => 'A',
        11 => 'B',
        12 => 'C',
        13 => 'D',
        14 => 'E',
        15 => 'F',
        _ => '0',
    }
}

/// The digits of `v` in the given base, most significant first.
pub fn to_digits(v: u32, base: u32) -> (r: Vec<char>)
    requires
        base == 2 || base == 16,
    ensures
        r@ == spec_digits(v as int, base as int),
{
    let mut r: Vec<char> = Vec::new();
    let mut x: u32 = v;
    if x == 0 {
        r.push('0');
        assert(r@ =~= spec_digits(0, base as int));
        return r;
    }
    while x > 0
        invariant
            base == 2 || base == 16,
            x > 0 ==> spec_digits(v as int, base as int) =~= spec_digits(x as int, base as int)
                + r@,
            x == 0 ==> spec_digits(v as int, base as int) =~= r@,
        decreases x,
    {
        let d: u32 = x % base;
        let ghost r0: Seq<char> = r@;
        r.insert(0, digit_char(d));
        proof {
            vstd::arithmetic::div_mod::lemma_div_decreases(x as int, base as int);
            assert(r@ =~= seq![spec_digit_char(d as int)] + r0);
            if x < base {
                assert(x as int % base as int == x as int) by (nonlinear_arith)
                    requires
                        0 < x < base,
                ;
                assert(spec_digits(x as int, base as int) + r0 =~= r@);
            } else {
                assert(x as int / base as int >= 1) by (nonlinear_arith)
                    requires
                        x >= base,
                        base >= 2,
                ;
                assert(spec_digits(x as int, base as int) + r0 =~= spec_digits(
                    x as int / base as int,
                    base as int,
                ) + r@);
            }
        }
        x = x / base;
    }
    r
}

/// Renders `v` in the given base as tagged, zero-padded, upper-case text.
pub fn render_u32(v: u32, base: u32, min_digits: usize, tag: char) -> (r: String)
    requires
        base == 2 || base == 16,
    ensures
        r@ == spec_rendered(v as int, base as int, min_digits as int, tag),
{
    let digits: Vec<char> = to_digits(v, base);
    let mut s: String = String::new();
    push_char(&mut s, '0');
    push_char(&mut s, tag);
    let ghost npad: int = min_digits - digits@.len();
    let mut pad: usize = if digits.len() < min_digits {
        min_digits - digits.len()
    } else {
        0
    };
    assert(s@ =~= seq!['0', tag]);
    while pad > 0
        invariant
            pad == 0 || pad <= npad,
            s@ =~= seq!['0', tag] + spec_zeroes(npad - pad),
        decreases pad,
    {
        push_char(&mut s, '0');
        pad = pad - 1;
        assert(s@ =~= seq!['0', tag] + spec_zeroes(npad - pad));
    }
    let mut i: usize = 0;
    while i < digits.len()
        invariant
            i <= digits@.len(),
            s@ =~= seq!['0', tag] + spec_zeroes(npad) + digits@.take(i as int),
        decreases digits@.len() - i,
    {
        push_char(&mut s, digits[i]);
        i = i + 1;
        assert(s@ =~= seq!['0', tag] + spec_zeroes(npad) + digits@.take(i as int));
    }
    assert(digits@.take(digits@.len() as int) =~= digits@);
    s
}

} // verus!
