//! Numbers as text: decimal, as settings and byte ranges are written, and
//! hexadecimal, as digests are.
use vstd::arithmetic::div_mod::lemma_div_denominator;
use vstd::arithmetic::power::{lemma_pow0, lemma_pow1, lemma_pow_adds, lemma_pow_positive, pow};
use vstd::prelude::*;

use crate::text::chars_of;

verus! {

/// The character `0`.
const ASCII_ZERO: u8 = 0x30;

/// The character `a`.
const ASCII_A: u8 = 0x61;

/// The value of a decimal digit.
pub open spec fn digit_value(c: char) -> int {
    c as int - '0' as int
}

/// Whether `c` is one of `0` to `9`.
pub open spec fn is_digit(c: char) -> bool {
    '0' <= c <= '9'
}

/// Whether `text` is one digit or more, and nothing else.
pub open spec fn is_digits(text: Seq<char>) -> bool {
    text.len() > 0 && forall|i: int| 0 <= i < text.len() ==> is_digit(#[trigger] text[i])
}

/// The number that a run of decimal digits stands for.
pub open spec fn decimal_value(digits: Seq<char>) -> int
    decreases digits.len(),
{
    if digits.len() == 0 {
        0
    } else {
        decimal_value(digits.drop_last()) * 10 + digit_value(digits.last())
    }
}

/// The digits of an unsigned number as it is read: after an optional `+`.
pub open spec fn unsigned_digits(text: Seq<char>) -> Seq<char> {
    if text.len() > 0 && text[0] == '+' {
        text.skip(1)
    } else {
        text
    }
}

/// What `text` reads as, for an unsigned type whose largest value is `max`:
/// an optional `+` and then digits only, of a value that fits.
pub open spec fn unsigned_value(text: Seq<char>, max: int) -> Option<int> {
    let digits = unsigned_digits(text);
    if is_digits(digits) && decimal_value(digits) <= max {
        Some(decimal_value(digits))
    } else {
        None
    }
}

/// A longer run of digits never stands for less than its beginning does.
proof fn lemma_decimal_value_grows(digits: Seq<char>, n: int)
    requires
        0 <= n <= digits.len(),
        forall|i: int| 0 <= i < digits.len() ==> is_digit(#[trigger] digits[i]),
    ensures
        0 <= decimal_value(digits.take(n)) <= decimal_value(digits),
    decreases digits.len(),
{
    if n == digits.len() {
        assert(digits.take(n) =~= digits);
        if n > 0 {
            lemma_decimal_value_grows(digits.drop_last(), n - 1);
            assert(is_digit(digits[n - 1]));
        }
    } else {
        lemma_decimal_value_grows(digits.drop_last(), n);
        assert(digits.drop_last().take(n) =~= digits.take(n));
        assert(is_digit(digits.last()));
    }
}

/// Reads an unsigned 64-bit number, `None` where `text` is not one.
pub fn parse_u64(text: &str) -> (value: Option<u64>)
    ensures
        match value {
            Some(v) => unsigned_value(text@, u64::MAX as int) == Some(v as int),
            None => unsigned_value(text@, u64::MAX as int) is None,
        },
{
    let chars = chars_of(text);
    let start: usize = if chars.len() > 0 && chars[0] == '+' { 1 } else { 0 };
    let ghost digits = unsigned_digits(text@);
    proof {
        assert(digits =~= chars@.skip(start as int));
    }
    if start == chars.len() {
        return None;
    }
    let mut value: u64 = 0;
    let mut i: usize = start;
    while i < chars.len()
        invariant
            start <= i <= chars@.len(),
            digits == chars@.skip(start as int),
            digits == unsigned_digits(text@),
            digits.len() > 0,
            forall|j: int| 0 <= j < i - start ==> is_digit(#[trigger] digits[j]),
            value == decimal_value(digits.take(i - start)),
        decreases chars@.len() - i,
    {
        let c = chars[i];
        let ghost at: int = i - start;
        proof {
            assert(digits[at] == c);
            assert(digits.take(at + 1).drop_last() =~= digits.take(at));
        }
        if c < '0' || c > '9' {
            return None;
        }
        let digit: u64 = (c as u64) - ('0' as u64);
        if value > (u64::MAX - digit) / 10 {
            proof {
                assert(value * 10 + digit > u64::MAX);
                if is_digits(digits) {
                    lemma_decimal_value_grows(digits, at + 1);
                }
            }
            return None;
        }
        value = value * 10 + digit;
        i = i + 1;
    }
    proof {
        assert(digits.take(chars@.len() - start) =~= digits);
    }
    Some(value)
}

/// Reads a `usize`, `None` where `text` is not one.
pub fn parse_usize(text: &str) -> (value: Option<usize>)
    ensures
        match value {
            Some(v) => unsigned_value(text@, usize::MAX as int) == Some(v as int),
            None => unsigned_value(text@, usize::MAX as int) is None,
        },
{
    match parse_u64(text) {
        Some(v) if v <= usize::MAX as u64 => Some(v as usize),
        _ => None,
    }
}

/// What `text` reads as for a flag: the words `true` and `false`, nothing else.
pub open spec fn flag_value(text: Seq<char>) -> Option<bool> {
    if text == "true"@ {
        Some(true)
    } else if text == "false"@ {
        Some(false)
    } else {
        None
    }
}

/// Reads a flag, `None` where `text` is neither `true` nor `false`.
pub fn parse_bool(text: &str) -> (value: Option<bool>)
    ensures
        value == flag_value(text@),
        value == Some(true) <==> text@ == "true"@,
        value == Some(false) <==> text@ == "false"@,
{
    proof {
        law_flags_are_two_words(text@);
        reveal_strlit("true");
        reveal_strlit("false");
        assert("true"@.len() != "false"@.len());
    }
    let given = text.to_owned();
    if given == "true".to_owned() {
        Some(true)
    } else if given == "false".to_owned() {
        Some(false)
    } else {
        None
    }
}

/// The decimal digit of value `d`.
pub open spec fn digit_char(d: int) -> char {
    ('0' as int + d) as char
}

/// `n` in decimal, without leading zeros.
pub open spec fn decimal(n: int) -> Seq<char>
    decreases n,
{
    if n < 10 {
        seq![digit_char(n)]
    } else {
        decimal(n / 10).push(digit_char(n % 10))
    }
}

/// Writes `n` in decimal behind `out`.
pub(crate) fn push_decimal(out: &mut String, n: u64)
    ensures
        final(out)@ == old(out)@ + decimal(n as int),
    decreases n,
{
    if n >= 10 {
        push_decimal(out, n / 10);
    }
    let digit: u8 = (n % 10) as u8;
    out.push((ASCII_ZERO + digit) as char);
    proof {
        if n < 10 {
            assert(out@ =~= old(out)@ + decimal(n as int));
        } else {
            assert(out@ =~= old(out)@ + decimal(n as int / 10).push(digit_char(n as int % 10)));
        }
    }
}

/// A decimal form is digits only, and their value is the number.
pub proof fn lemma_decimal_is_digits(n: int)
    requires
        n >= 0,
    ensures
        is_digits(decimal(n)),
        decimal_value(decimal(n)) == n,
    decreases n,
{
    if n < 10 {
        assert(decimal(n).drop_last() =~= Seq::<char>::empty());
        assert(decimal_value(decimal(n).drop_last()) == 0);
    } else {
        lemma_decimal_is_digits(n / 10);
        assert(decimal(n).drop_last() =~= decimal(n / 10));
        assert(decimal(n).last() == digit_char(n % 10));
        assert forall|i: int| 0 <= i < decimal(n).len() implies is_digit(
            #[trigger] decimal(n)[i],
        ) by {
            if i < decimal(n / 10).len() {
                assert(decimal(n)[i] == decimal(n / 10)[i]);
            }
        }
    }
}

/// Reading back what was written in decimal gives the number.
pub proof fn law_decimal_reads_back(n: int, max: int)
    requires
        0 <= n <= max,
    ensures
        unsigned_value(decimal(n), max) == Some(n),
{
    lemma_decimal_is_digits(n);
    assert(is_digit(decimal(n)[0]));
}

/// The lowercase hexadecimal digit of value `d`.
pub open spec fn hex_char(d: int) -> char {
    if d < 10 {
        ('0' as int + d) as char
    } else {
        ('a' as int + (d - 10)) as char
    }
}

/// `v` in `width` lowercase hexadecimal digits, the lowest `width` of them.
pub open spec fn hex(v: int, width: nat) -> Seq<char>
    decreases width,
{
    if width == 0 {
        Seq::empty()
    } else {
        hex(v / 16, (width - 1) as nat).push(hex_char(v % 16))
    }
}

/// Every byte of `bytes` as two lowercase hexadecimal digits, in order.
pub open spec fn hex_bytes(bytes: Seq<u8>) -> Seq<char> {
    Seq::new(
        2 * bytes.len(),
        |i: int|
            if i % 2 == 0 {
                hex_char(bytes[i / 2] as int / 16)
            } else {
                hex_char(bytes[i / 2] as int % 16)
            },
    )
}

/// Writes `v` in `width` hexadecimal digits behind `out`.
pub(crate) fn push_hex(out: &mut String, v: u128, width: u32)
    ensures
        final(out)@ == old(out)@ + hex(v as int, width as nat),
    decreases width,
{
    if width > 0 {
        push_hex(out, v / 16, width - 1);
        let digit: u8 = (v % 16) as u8;
        if digit < 10 {
            out.push((ASCII_ZERO + digit) as char);
        } else {
            out.push((ASCII_A + (digit - 10)) as char);
        }
    }
    proof {
        assert(out@ =~= old(out)@ + hex(v as int, width as nat));
    }
}

/// Sixteen to the power of `n`.
pub open spec fn pow16(n: nat) -> int
    decreases n,
{
    if n == 0 {
        1
    } else {
        16 * pow16((n - 1) as nat)
    }
}

/// A hexadecimal form of fixed width tells the numbers apart that fit in it.
pub proof fn law_hex_is_injective(v: int, w: int, width: nat)
    requires
        0 <= v < pow16(width),
        0 <= w < pow16(width),
        hex(v, width) == hex(w, width),
    ensures
        v == w,
    decreases width,
{
    if width > 0 {
        let n = (width - 1) as nat;
        assert(hex(v, width).drop_last() =~= hex(v / 16, n));
        assert(hex(w, width).drop_last() =~= hex(w / 16, n));
        assert(hex(v, width).last() == hex_char(v % 16));
        assert(hex(w, width).last() == hex_char(w % 16));
        law_hex_is_injective(v / 16, w / 16, n);
    }
}

/// A hexadecimal form of fixed width has exactly that width, and that of a
/// number that is not negative has only the digits `0` to `9` and `a` to `f`.
pub proof fn law_hex_has_width(v: int, width: nat)
    ensures
        hex(v, width).len() == width,
        v >= 0 ==> forall|i: int|
            0 <= i < width ==> {
                let c = #[trigger] hex(v, width)[i];
                is_digit(c) || 'a' <= c <= 'f'
            },
    decreases width,
{
    if width > 0 {
        law_hex_has_width(v / 16, (width - 1) as nat);
        assert forall|i: int| v >= 0 && 0 <= i < width implies {
            let c = #[trigger] hex(v, width)[i];
            is_digit(c) || 'a' <= c <= 'f'
        } by {
            if i < width - 1 {
                assert(hex(v, width)[i] == hex(v / 16, (width - 1) as nat)[i]);
            }
        }
    }
}

/// How a number is read, character by character: nothing and a lone `+` are no
/// number. A digit behind them is read as itself, and a digit behind a number
/// makes it ten times as large plus the digit, as long as that does not exceed
/// `max`. Anything but a digit makes the text no number.
pub proof fn law_number_is_read_digit_by_digit(text: Seq<char>, c: char, max: int)
    ensures
        unsigned_value(Seq::empty(), max) is None,
        !('0' <= c <= '9') ==> unsigned_value(text.push(c), max) is None,
        '0' <= c <= '9' && (text.len() == 0 || text == seq!['+']) ==> unsigned_value(
            text.push(c),
            max,
        ) == (if c as int - 48 <= max {
            Some(c as int - 48)
        } else {
            None
        }),
        '0' <= c <= '9' && text.len() > 0 && text != seq!['+'] ==> unsigned_value(
            text.push(c),
            max,
        ) == (match unsigned_value(text, max) {
            Some(v) => if 10 * v + (c as int - 48) <= max {
                Some(10 * v + (c as int - 48))
            } else {
                None
            },
            None => None,
        }),
{
    let longer = text.push(c);
    let digits = unsigned_digits(text);
    let more = unsigned_digits(longer);
    if text.len() > 0 {
        assert(longer[0] == text[0]);
        assert(more =~= digits.push(c));
    } else if c == '+' {
        assert(more =~= Seq::empty());
    } else {
        assert(more =~= Seq::empty().push(c));
    }
    if more.len() > 0 {
        assert(more[more.len() - 1] == c);
    }
    if '0' <= c <= '9' {
        if text.len() == 0 || text == seq!['+'] {
            assert(more =~= seq![c]);
            assert(more.drop_last() =~= Seq::empty());
            assert(decimal_value(more.drop_last()) == 0);
        } else {
            if text[0] == '+' && text.len() == 1 {
                assert(text =~= seq!['+']);
            }
            assert(digits.len() > 0);
            assert(more.drop_last() =~= digits);
            assert forall|i: int| 0 <= i < digits.len() implies more[i] == digits[i] by {}
            assert(is_digits(digits) <==> is_digits(more)) by {
                if is_digits(more) {
                    assert forall|i: int| 0 <= i < digits.len() implies is_digit(
                        #[trigger] digits[i],
                    ) by {
                        assert(is_digit(more[i]));
                    }
                }
            }
            if is_digits(digits) {
                lemma_decimal_value_grows(digits, digits.len() as int);
                assert(digits.take(digits.len() as int) =~= digits);
            }
        }
    }
}

/// Only the four letters `true` and the five letters `false` are flags.
pub proof fn law_flags_are_two_words(text: Seq<char>)
    ensures
        flag_value(text) == Some(true) <==> text == seq!['t', 'r', 'u', 'e'],
        flag_value(text) == Some(false) <==> text == seq!['f', 'a', 'l', 's', 'e'],
{
    reveal_strlit("true");
    reveal_strlit("false");
    assert("true"@ =~= seq!['t', 'r', 'u', 'e']);
    assert("false"@ =~= seq!['f', 'a', 'l', 's', 'e']);
    assert("true"@.len() != "false"@.len());
}

/// A number is written in digits only, and with a leading zero only if it is
/// zero itself.
pub proof fn law_decimal_has_no_leading_zero(n: int)
    requires
        0 <= n,
    ensures
        decimal(n).len() > 0,
        forall|i: int| 0 <= i < decimal(n).len() ==> '0' <= #[trigger] decimal(n)[i] <= '9',
        decimal(0) == seq!['0'],
        n > 0 ==> decimal(n)[0] != '0',
    decreases n,
{
    lemma_decimal_is_digits(n);
    assert forall|i: int| 0 <= i < decimal(n).len() implies '0' <= #[trigger] decimal(n)[i]
        <= '9' by {
        assert(is_digit(decimal(n)[i]));
    }
    if n >= 10 {
        law_decimal_has_no_leading_zero(n / 10);
        assert(decimal(n)[0] == decimal(n / 10)[0]);
    }
}

/// Digit number `i` of a hexadecimal form, counted from the left, is what the
/// number holds at that power of sixteen: `0` to `9` and then `a` to `f`.
pub proof fn law_hex_digits_are_the_powers_of_sixteen(v: int, width: nat, i: int)
    requires
        0 <= v,
        0 <= i < width,
    ensures
        ({
            let digit = v / pow(16, (width - 1 - i) as nat) % 16;
            hex(v, width)[i] as int == (if digit < 10 {
                48 + digit
            } else {
                87 + digit
            })
        }),
    decreases width,
{
    law_hex_has_width(v, width);
    law_hex_has_width(v / 16, (width - 1) as nat);
    if i == width - 1 {
        lemma_pow0(16);
        assert(v / 1 == v);
    } else {
        let n = (width - 1 - i) as nat;
        let fewer = (width - 2 - i) as nat;
        law_hex_digits_are_the_powers_of_sixteen(v / 16, (width - 1) as nat, i);
        assert(hex(v, width)[i] == hex(v / 16, (width - 1) as nat)[i]);
        lemma_pow_positive(16, fewer);
        lemma_pow1(16);
        lemma_pow_adds(16, 1, fewer);
        assert(pow(16, n) == 16 * pow(16, fewer));
        lemma_div_denominator(v, 16, pow(16, fewer));
    }
}

/// Bytes are written as two digits each: the upper four bits first, `0` to `9`
/// and then `a` to `f`.
pub proof fn law_hex_bytes_are_pairs_of_digits(bytes: Seq<u8>, i: int)
    requires
        0 <= i < bytes.len(),
    ensures
        hex_bytes(bytes).len() == 2 * bytes.len(),
        ({
            let upper = bytes[i] as int / 16;
            let lower = bytes[i] as int % 16;
            &&& hex_bytes(bytes)[2 * i] as int == (if upper < 10 {
                48 + upper
            } else {
                87 + upper
            })
            &&& hex_bytes(bytes)[2 * i + 1] as int == (if lower < 10 {
                48 + lower
            } else {
                87 + lower
            })
        }),
{
}

} // verus!
