//! Numbers as the editor writes them.
use crate::units::{Points, POINT};
use vstd::prelude::*;

verus! {

/// The character of a hexadecimal digit.
pub open spec fn digit(d: int) -> char {
    if d < 10 {
        (0x30 + d) as char
    } else {
        (0x57 + d) as char
    }
}

/// A number in decimal.
pub open spec fn decimal_text(n: nat) -> Seq<char>
    decreases n,
{
    if n < 10 {
        seq![digit(n as int)]
    } else {
        decimal_text(n / 10).push(digit((n % 10) as int))
    }
}

/// The last `width` digits of a number in decimal, with leading zeros.
pub open spec fn padded_text(n: nat, width: nat) -> Seq<char>
    decreases width,
{
    if width == 0 {
        Seq::empty()
    } else {
        padded_text(n / 10, (width - 1) as nat).push(digit((n % 10) as int))
    }
}

/// The last `width` digits of a number in hexadecimal.
pub open spec fn hex_text(n: nat, width: nat) -> Seq<char>
    decreases width,
{
    if width == 0 {
        Seq::empty()
    } else {
        hex_text(n / 16, (width - 1) as nat).push(digit((n % 16) as int))
    }
}

/// So many digits are written as are asked for.
pub(crate) proof fn lemma_hex_length(n: nat, width: nat)
    ensures
        hex_text(n, width).len() == width,
    decreases width,
{
    if width > 0 {
        lemma_hex_length(n / 16, (width - 1) as nat);
    }
}

/// `16` to the power of `width`.
spec fn power_of_sixteen(width: nat) -> nat
    decreases width,
{
    if width == 0 {
        1
    } else {
        16 * power_of_sixteen((width - 1) as nat)
    }
}

/// Numbers that the digits are enough for are told apart by them.
proof fn lemma_hex_apart(a: nat, b: nat, width: nat)
    requires
        a < power_of_sixteen(width),
        b < power_of_sixteen(width),
        hex_text(a, width) == hex_text(b, width),
    ensures
        a == b,
    decreases width,
{
    if width > 0 {
        let less = (width - 1) as nat;
        let x = hex_text(a / 16, less);
        let y = hex_text(b / 16, less);
        assert(hex_text(a, width).drop_last() == x);
        assert(hex_text(b, width).drop_last() == y);
        assert(hex_text(a, width).last() == digit((a % 16) as int));
        assert(hex_text(b, width).last() == digit((b % 16) as int));
        lemma_hex_apart(a / 16, b / 16, less);
    }
}

/// Sixteen hexadecimal digits tell any two numbers of the machine apart.
pub proof fn sixteen_digits_tell_numbers_apart(a: u64, b: u64)
    requires
        hex_text(a as nat, 16) == hex_text(b as nat, 16),
    ensures
        a == b,
{
    reveal_with_fuel(power_of_sixteen, 17);
    lemma_hex_apart(a as nat, b as nat, 16);
}

/// The number that decimal digits stand for.
pub open spec fn read_decimal(text: Seq<char>) -> int
    decreases text.len(),
{
    if text.len() == 0 {
        0
    } else {
        10 * read_decimal(text.drop_last()) + (text.last() as int - '0' as int)
    }
}

/// A number in decimal reads as the number, in digits only and without a zero in
/// front.
pub proof fn a_decimal_reads_as_its_number(n: nat)
    ensures
        read_decimal(decimal_text(n)) == n,
        decimal_text(n).len() > 0,
        n > 0 ==> decimal_text(n)[0] != '0',
        n < 10 ==> decimal_text(n).len() == 1,
        forall|i: int|
            0 <= i < decimal_text(n).len() ==> '0' as int <= (#[trigger] decimal_text(
                n,
            )[i]) as int <= '9' as int,
    decreases n,
{
    let text = decimal_text(n);
    if n >= 10 {
        a_decimal_reads_as_its_number(n / 10);
        assert(text.drop_last() == decimal_text(n / 10));
    } else {
        assert(text.drop_last() == Seq::<char>::empty());
        assert(read_decimal(text.drop_last()) == 0);
    }
}

proof fn lemma_padded(n: nat, width: nat)
    ensures
        padded_text(n, width).len() == width,
        read_decimal(padded_text(n, width)) == n as int % power_of_ten(width),
        power_of_ten(width) >= 1,
    decreases width,
{
    if width > 0 {
        let less = (width - 1) as nat;
        lemma_padded(n / 10, less);
        let text = padded_text(n, width);
        assert(text.drop_last() == padded_text(n / 10, less));
        let p = power_of_ten(less);
        let q = (n / 10) as int / p;
        let r = (n / 10) as int % p;
        vstd::arithmetic::div_mod::lemma_fundamental_div_mod((n / 10) as int, p);
        assert(n == (10 * p) * q + (10 * r + n as int % 10)) by (nonlinear_arith)
            requires
                n == 10 * ((n / 10) as int) + n as int % 10,
                (n / 10) as int == p * q + r,
        ;
        vstd::arithmetic::div_mod::lemma_fundamental_div_mod_converse(
            n as int,
            10 * p,
            q,
            10 * r + n as int % 10,
        );
    }
}

/// A length is written rounded to its decimal places: the sign, the digits before
/// the point and so many behind it as there are places, and the number that they
/// make is off by half of the last place at most.
pub proof fn a_length_is_written_to_its_places(length: Points, places: nat)
    requires
        places <= 3,
    ensures
        ({
            let text = fixed_text(length, places);
            let sign: int = if length < 0 {
                1
            } else {
                0
            };
            let size = if length < 0 {
                -(length as int)
            } else {
                length as int
            };
            let factor = if places == 0 {
                1int
            } else if places == 1 {
                10
            } else if places == 2 {
                100
            } else {
                1000
            };
            let whole = if places == 0 {
                text.skip(sign)
            } else {
                text.subrange(sign, text.len() - places - 1)
            };
            let rest = text.skip(text.len() - places);
            let value = read_decimal(whole) * factor + read_decimal(rest);
            &&& length < 0 ==> text[0] == '-'
            &&& places > 0 ==> text[text.len() - places - 1] == '.'
            &&& whole.len() > 0
            &&& -POINT <= 2 * (value * POINT - size * factor) <= POINT
        }),
{
    reveal_with_fuel(power_of_ten, 4);
    let factor = power_of_ten(places);
    let n = rounded(length, places);
    let m = magnitude(length);
    let whole = (n / factor) as nat;
    let rest = (n % factor) as nat;
    assert(factor >= 1);
    assert(m * factor >= 0) by (nonlinear_arith)
        requires
            m >= 0,
            factor >= 1,
    ;
    assert(n >= 0);
    vstd::arithmetic::div_mod::lemma_fundamental_div_mod(n, factor);
    assert(n / factor >= 0) by (nonlinear_arith)
        requires
            n >= 0,
            factor >= 1,
    ;
    assert(whole * factor == factor * (n / factor)) by (nonlinear_arith)
        requires
            whole == n / factor,
    ;
    a_decimal_reads_as_its_number(whole);
    lemma_padded(rest, places);
    vstd::arithmetic::div_mod::lemma_small_mod(rest, factor as nat);
    let text = fixed_text(length, places);
    let sign: int = if length < 0 {
        1
    } else {
        0
    };
    if places == 0 {
        assert(text.skip(sign) == decimal_text(whole));
        assert(text.skip(text.len() - places) == Seq::<char>::empty());
        assert(read_decimal(Seq::<char>::empty()) == 0);
    } else {
        assert(text.subrange(sign, text.len() - places - 1) == decimal_text(whole));
        assert(text.skip(text.len() - places) == padded_text(rest, places));
    }
}

/// The whole number nearest to `n / d`; halfway between two, the even one.
pub open spec fn nearest_whole(n: int, d: int) -> int {
    let q = n / d;
    let r = n % d;
    if 2 * r < d {
        q
    } else if 2 * r > d {
        q + 1
    } else {
        q + q % 2
    }
}

pub open spec fn power_of_ten(places: nat) -> int
    decreases places,
{
    if places == 0 {
        1
    } else {
        10 * power_of_ten((places - 1) as nat)
    }
}

pub open spec fn magnitude(length: Points) -> int {
    if length < 0 {
        -length
    } else {
        length as int
    }
}

/// The length in units of the last written place.
pub open spec fn rounded(length: Points, places: nat) -> int {
    nearest_whole(magnitude(length) * power_of_ten(places), POINT as int)
}

/// A length in points, rounded to a number of decimal places.
pub open spec fn fixed_text(length: Points, places: nat) -> Seq<char> {
    let sign = if length < 0 {
        seq!['-']
    } else {
        Seq::empty()
    };
    let whole = rounded(length, places) / power_of_ten(places);
    let rest = rounded(length, places) % power_of_ten(places);
    if places == 0 {
        sign + decimal_text(whole as nat)
    } else {
        sign + decimal_text(whole as nat) + seq!['.'] + padded_text(rest as nat, places)
    }
}

/// Appends one digit.
fn push_digit(out: &mut String, d: u64)
    requires
        d < 16,
    ensures
        final(out)@ == old(out)@.push(digit(d as int)),
{
    proof {
        reveal_strlit("0");
        reveal_strlit("1");
        reveal_strlit("2");
        reveal_strlit("3");
        reveal_strlit("4");
        reveal_strlit("5");
        reveal_strlit("6");
        reveal_strlit("7");
        reveal_strlit("8");
        reveal_strlit("9");
        reveal_strlit("a");
        reveal_strlit("b");
        reveal_strlit("c");
        reveal_strlit("d");
        reveal_strlit("e");
        reveal_strlit("f");
    }
    let text = match d {
        0 => "0",
        1 => "1",
        2 => "2",
        3 => "3",
        4 => "4",
        5 => "5",
        6 => "6",
        7 => "7",
        8 => "8",
        9 => "9",
        10 => "a",
        11 => "b",
        12 => "c",
        13 => "d",
        14 => "e",
        _ => "f",
    };
    assert(text@ == seq![digit(d as int)]);
    out.append(text);
    assert(out@ == old(out)@.push(digit(d as int)));
}

/// The number in decimal.
pub fn decimal(n: u64) -> (r: String)
    ensures
        r@ == decimal_text(n as nat),
    decreases n,
{
    if n < 10 {
        let mut out = String::new();
        push_digit(&mut out, n);
        assert(out@ == seq![digit(n as int)]);
        out
    } else {
        let mut out = decimal(n / 10);
        push_digit(&mut out, n % 10);
        out
    }
}

/// The last `width` decimal digits of the number.
fn padded(n: u64, width: u32) -> (r: String)
    ensures
        r@ == padded_text(n as nat, width as nat),
    decreases width,
{
    if width == 0 {
        String::new()
    } else {
        let mut out = padded(n / 10, width - 1);
        push_digit(&mut out, n % 10);
        out
    }
}

/// The last `width` hexadecimal digits of the number.
pub fn hexadecimal(n: u64, width: u32) -> (r: String)
    ensures
        r@ == hex_text(n as nat, width as nat),
    decreases width,
{
    if width == 0 {
        String::new()
    } else {
        let mut out = hexadecimal(n / 16, width - 1);
        push_digit(&mut out, n % 16);
        out
    }
}

/// `10` to the power of `places`.
fn scale(places: u32) -> (r: u128)
    requires
        places <= 3,
    ensures
        r == power_of_ten(places as nat),
        1 <= r <= 1000,
{
    reveal_with_fuel(power_of_ten, 4);
    match places {
        0 => 1,
        1 => 10,
        2 => 100,
        _ => 1000,
    }
}

/// The length in units of the last written place, rounded to the nearest one.
pub fn in_places(length: Points, places: u32) -> (r: u64)
    requires
        places <= 3,
    ensures
        r == rounded(length, places as nat),
{
    let size: u128 = if length < 0 {
        (-(length as i128)) as u128
    } else {
        length as u128
    };
    assert(size == magnitude(length));
    let factor: u128 = scale(places);
    assert(size * factor <= 0x8000_0000_0000_0000 * 1000) by (nonlinear_arith)
        requires
            0 <= size <= 0x8000_0000_0000_0000,
            1 <= factor <= 1000,
    ;
    let scaled: u128 = size * factor;
    let q: u128 = scaled / 0x100_0000;
    let rest: u128 = scaled % 0x100_0000;
    let whole: u128 = if 2 * rest < 0x100_0000 {
        q
    } else if 2 * rest > 0x100_0000 {
        q + 1
    } else {
        q + q % 2
    };
    whole as u64
}

/// The length in points with a fixed number of decimal places.
pub fn fixed(length: Points, places: u32) -> (r: String)
    requires
        places <= 3,
    ensures
        r@ == fixed_text(length, places as nat),
{
    proof {
        reveal_strlit("-");
        reveal_strlit(".");
    }
    let mut out = String::new();
    if length < 0 {
        out.append("-");
    }
    let value: u64 = in_places(length, places);
    let factor: u64 = scale(places) as u64;
    let whole = decimal(value / factor);
    out.append(whole.as_str());
    if places > 0 {
        let rest = padded(value % factor, places);
        out.append(".");
        out.append(rest.as_str());
    }
    assert("-"@ == seq!['-']);
    assert("."@ == seq!['.']);
    assert(out@ == fixed_text(length, places as nat));
    out
}

} // verus!
