//! Numbers as text.
use vstd::prelude::*;
use crate::concat::Text;

verus! {

broadcast use crate::concat::group_append;

/// The digit that stands for `d` in bases up to sixteen, with capitals above
/// nine where `capital` is set.
pub open spec fn digit(d: nat, capital: bool) -> char {
    if d < 10 {
        (('0' as u32 + d) as u32) as char
    } else if capital {
        (('A' as u32 + (d - 10)) as u32) as char
    } else {
        (('a' as u32 + (d - 10)) as u32) as char
    }
}

/// The digits of `n` in `base`, at least one of them, padded on the left with
/// zeros to at least `width` digits.
pub open spec fn numeral(n: nat, base: nat, width: nat, capital: bool) -> Text
    decreases n, width,
{
    if base < 2 || (n < base && width <= 1) {
        seq![digit(n, capital)]
    } else if n < base {
        numeral(0, base, (width - 1) as nat, capital).push(digit(n, capital))
    } else {
        let shorter: nat = if width == 0 {
            0
        } else {
            (width - 1) as nat
        };
        proof {
            assert(n / base < n) by (nonlinear_arith)
                requires
                    n >= base,
                    base >= 2,
            ;
        }
        numeral(n / base, base, shorter, capital).push(digit(n % base, capital))
    }
}

/// The decimal digits of `n`.
pub open spec fn decimal(n: nat) -> Text {
    numeral(n, 10, 1, false)
}

/// A decimal integer, with a minus sign where it is negative.
pub open spec fn signed_decimal(n: int) -> Text {
    if n < 0 {
        "-"@ + decimal((-n) as nat)
    } else {
        decimal(n as nat)
    }
}

/// The hexadecimal digits of `n` in small letters, at least `width` of them.
pub open spec fn hex(n: nat, width: nat) -> Text {
    numeral(n, 16, width, false)
}

/// The hexadecimal digits, in capitals, of the 128-bit pattern of `n`: its own
/// digits where it is not negative, those of its two's complement where it is.
pub open spec fn hex_pattern(n: int) -> Text {
    numeral(
        if n < 0 {
            (n + 0x1_0000_0000_0000_0000_0000_0000_0000_0000) as nat
        } else {
            n as nat
        },
        16,
        1,
        true,
    )
}

fn digit_char(d: u8, capital: bool) -> (c: char)
    requires
        d < 16,
    ensures
        c == digit(d as nat, capital),
{
    if d < 10 {
        (48u8 + d) as char
    } else if capital {
        (65u8 + (d - 10u8)) as char
    } else {
        (97u8 + (d - 10u8)) as char
    }
}

/// Appends the digits of `n` in `base`, padded with zeros to at least `width`.
pub fn push_numeral(out: &mut String, n: u128, base: u8, width: u8, capital: bool)
    requires
        2 <= base <= 16,
    ensures
        final(out)@ == old(out)@ + numeral(n as nat, base as nat, width as nat, capital),
    decreases n, width,
{
    let b: u128 = base as u128;
    let d: u8 = (n % b) as u8;
    if n >= b || width > 1 {
        let shorter: u8 = if width == 0 {
            0
        } else {
            width - 1
        };
        if n >= b {
            assert(n / b < n) by (nonlinear_arith)
                requires
                    n >= b,
                    b >= 2,
            ;
        } else {
            assert(n / b == 0) by (nonlinear_arith)
                requires
                    n < b,
            ;
            assert(n % b == n) by (nonlinear_arith)
                requires
                    n < b,
            ;
        }
        push_numeral(out, n / b, base, shorter, capital);
    } else {
        assert(n % b == n) by (nonlinear_arith)
            requires
                n < b,
        ;
    }
    let ghost before = out@;
    out.push(digit_char(d, capital));
    assert(out@ =~= before + seq![digit(d as nat, capital)]);
    assert(out@ =~= old(out)@ + numeral(n as nat, base as nat, width as nat, capital));
}

/// The decimal digits of `n`.
pub fn decimal_text(n: u128) -> (r: String)
    ensures
        r@ == decimal(n as nat),
{
    let mut r = String::new();
    push_numeral(&mut r, n, 10, 1, false);
    r
}

/// The decimal text of a signed integer.
pub fn signed_decimal_text(n: i128) -> (r: String)
    ensures
        r@ == signed_decimal(n as int),
{
    let mut r = String::new();
    if n < 0 {
        r.push_str("-");
        let magnitude: u128 = (-(n + 1)) as u128 + 1u128;
        push_numeral(&mut r, magnitude, 10, 1, false);
    } else {
        push_numeral(&mut r, n as u128, 10, 1, false);
    }
    r
}

/// The hexadecimal digits of `n` in small letters, at least `width` of them.
pub fn hex_text(n: u128, width: u8) -> (r: String)
    ensures
        r@ == hex(n as nat, width as nat),
{
    let mut r = String::new();
    push_numeral(&mut r, n, 16, width, false);
    r
}

/// The hexadecimal digits, in capitals, of the 128-bit pattern of `n`.
pub fn hex_pattern_text(n: i128) -> (r: String)
    ensures
        r@ == hex_pattern(n as int),
{
    let mut r = String::new();
    let pattern: u128 = if n < 0 {
        u128::MAX - (-(n + 1)) as u128
    } else {
        n as u128
    };
    push_numeral(&mut r, pattern, 16, 1, true);
    r
}

/// What a digit stands for, in either case.
pub open spec fn digit_value(c: char) -> nat {
    if '0' <= c <= '9' {
        (c as u32 - '0' as u32) as nat
    } else if 'a' <= c <= 'f' {
        (c as u32 - 'a' as u32 + 10) as nat
    } else if 'A' <= c <= 'F' {
        (c as u32 - 'A' as u32 + 10) as nat
    } else {
        99
    }
}

/// The number that digits stand for.
pub open spec fn digits_value(digits: Text, base: nat) -> nat
    decreases digits.len(),
{
    if digits.len() == 0 {
        0
    } else {
        digits_value(digits.drop_last(), base) * base + digit_value(digits.last())
    }
}

proof fn lemma_digit(d: nat, capital: bool)
    requires
        d < 16,
    ensures
        digit_value(digit(d, capital)) == d,
        digit(d, capital) == '0' <==> d == 0,
{
}

proof fn lemma_numeral_is_read_back(n: nat, base: nat, width: nat, capital: bool)
    requires
        2 <= base <= 16,
    ensures
        ({
            let text = numeral(n, base, width, capital);
            &&& digits_value(text, base) == n
            &&& text.len() >= 1
            &&& text.len() >= width
            &&& text.len() > width && text.len() > 1 ==> text[0] != '0'
        }),
    decreases n, width,
{
    let text = numeral(n, base, width, capital);
    if n < base && width <= 1 {
        lemma_digit(n, capital);
        assert(text.drop_last() =~= Seq::<char>::empty());
        reveal_with_fuel(digits_value, 2);
        assert(0 * base == 0) by (nonlinear_arith);
    } else if n < base {
        let before = numeral(0, base, (width - 1) as nat, capital);
        lemma_numeral_is_read_back(0, base, (width - 1) as nat, capital);
        lemma_digit(n, capital);
        assert(text.drop_last() =~= before);
        assert(0 * base == 0) by (nonlinear_arith);
        lemma_zeros(base, (width - 1) as nat, capital);
    } else {
        assert(n / base < n && n == n / base * base + n % base && n % base < base && n / base >= 1)
            by (nonlinear_arith)
            requires
                n >= base,
                base >= 2,
        ;
        let shorter: nat = if width == 0 {
            0
        } else {
            (width - 1) as nat
        };
        let before = numeral(n / base, base, shorter, capital);
        lemma_numeral_is_read_back(n / base, base, shorter, capital);
        lemma_digit(n % base, capital);
        assert(text.drop_last() =~= before);
        assert(text[0] == before[0]);
        if before.len() == 1 && text.len() > width {
            assert(before.drop_last() =~= Seq::<char>::empty());
            reveal_with_fuel(digits_value, 2);
            assert(0 * base == 0) by (nonlinear_arith);
            assert(digit_value(before[0]) == n / base);
        }
    }
}

proof fn lemma_zeros(base: nat, width: nat, capital: bool)
    requires
        2 <= base <= 16,
    ensures
        numeral(0, base, width, capital).len() == (if width == 0 {
            1
        } else {
            width
        }),
    decreases width,
{
    if width > 1 {
        lemma_zeros(base, (width - 1) as nat, capital);
    }
}

/// A numeral stands for its number, has at least as many digits as asked for, and begins with
/// a zero only where that many digits ask for it.
pub proof fn law_numerals_can_be_read_back(n: nat, base: nat, width: nat, capital: bool)
    requires
        2 <= base <= 16,
    ensures
        ({
            let text = numeral(n, base, width, capital);
            &&& digits_value(text, base) == n
            &&& text.len() >= 1
            &&& text.len() >= width
            &&& text.len() > width && text.len() > 1 ==> text[0] != '0'
        }),
{
    lemma_numeral_is_read_back(n, base, width, capital);
}

/// Decimal and hexadecimal numerals stand for their numbers in the bases ten and sixteen; a
/// negative number has a minus sign before its size, and its pattern of digits is that of its
/// two's complement in 128 bits.
pub proof fn law_bases_are_ten_and_sixteen(n: int, width: nat)
    ensures
        n >= 0 ==> digits_value(decimal(n as nat), 10) == n,
        n >= 0 ==> signed_decimal(n) == decimal(n as nat),
        n < 0 ==> signed_decimal(n)[0] == '-' && digits_value(
            signed_decimal(n).drop_first(),
            10,
        ) == -n,
        n >= 0 ==> digits_value(hex(n as nat, width), 16) == n && hex(n as nat, width).len()
            >= width,
        0 <= n ==> digits_value(hex_pattern(n), 16) == n,
        -0x8000_0000_0000_0000_0000_0000_0000_0000 <= n < 0 ==> digits_value(
            hex_pattern(n),
            16,
        ) == n + 0x1_0000_0000_0000_0000_0000_0000_0000_0000,
{
    if n >= 0 {
        lemma_numeral_is_read_back(n as nat, 10, 1, false);
        lemma_numeral_is_read_back(n as nat, 16, width, false);
        lemma_numeral_is_read_back(n as nat, 16, 1, true);
    } else {
        lemma_numeral_is_read_back((-n) as nat, 10, 1, false);
        reveal_strlit("-");
        assert(signed_decimal(n).drop_first() =~= decimal((-n) as nat));
        if -0x8000_0000_0000_0000_0000_0000_0000_0000 <= n {
            lemma_numeral_is_read_back(
                (n + 0x1_0000_0000_0000_0000_0000_0000_0000_0000) as nat,
                16,
                1,
                true,
            );
        }
    }
}

} // verus!
