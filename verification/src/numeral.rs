//! Numbers in positional notation, base ten or sixteen.

use vstd::arithmetic::div_mod::lemma_fundamental_div_mod;
use vstd::arithmetic::div_mod::lemma_div_decreases;
use vstd::prelude::*;

verus! {

/// What `c` counts as a digit of the given radix; letters of either case
/// count from ten.
pub open spec fn digit_value(c: char, radix: nat) -> Option<nat> {
    let code = c as nat;
    let digit = if 48 <= code <= 57 {
        (code - 48) as nat
    } else if 97 <= code <= 102 {
        (code - 87) as nat
    } else if 65 <= code <= 70 {
        (code - 55) as nat
    } else {
        radix
    };
    if digit < radix {
        Some(digit)
    } else {
        None
    }
}

/// The number that `s` writes in the given radix, most significant digit
/// first; nothing if some character is no digit.
pub open spec fn number(s: Seq<char>, radix: nat) -> Option<nat>
    decreases s.len(),
{
    if s.len() == 0 {
        Some(0)
    } else {
        match (number(s.drop_last(), radix), digit_value(s.last(), radix)) {
            (Some(high), Some(digit)) => Some(high * radix + digit),
            _ => None,
        }
    }
}

/// The lower-case character for a digit below sixteen.
pub open spec fn digit_char(digit: nat) -> char {
    if digit < 10 {
        (48 + digit) as char
    } else {
        (87 + digit) as char
    }
}

/// `n` written in the given radix, in lower case and without leading zeros.
pub open spec fn numeral(n: nat, radix: nat) -> Seq<char>
    recommends
        2 <= radix <= 16,
    decreases n,
{
    if n < radix || radix < 2 {
        seq![digit_char(n)]
    } else {
        proof {
            lemma_div_decreases(n as int, radix as int);
        }
        numeral(n / radix, radix).push(digit_char(n % radix))
    }
}

/// The digits are the ten figures and, from radix eleven on, letters of either
/// case from `a` on, as far as the radix goes.
pub proof fn digits_are_figures_and_letters(c: char, radix: nat)
    requires
        2 <= radix <= 16,
    ensures
        digit_value(c, radix) matches Some(d) ==> {
            &&& d < radix
            &&& d < 10 ==> c as nat == '0' as nat + d
            &&& d >= 10 ==> c as nat == 'a' as nat + d - 10 || c as nat == 'A' as nat + d - 10
        },
        '0' as nat <= c as nat && c as nat <= '9' as nat && (c as nat) - ('0' as nat) < radix ==> digit_value(c, radix) is Some,
        'a' as nat <= c as nat && c as nat <= 'f' as nat && (c as nat) - ('a' as nat) + 10 < radix ==> digit_value(c, radix) is Some,
        'A' as nat <= c as nat && c as nat <= 'F' as nat && (c as nat) - ('A' as nat) + 10 < radix ==> digit_value(c, radix) is Some,
{
}

/// A number is read digit by digit: each multiplies what was read by the radix
/// and is added to it. A character that is no digit makes it no number.
pub proof fn numbers_are_read_digit_by_digit(s: Seq<char>, c: char, radix: nat)
    ensures
        number(Seq::empty(), radix) == Some(0nat),
        number(s.push(c), radix) == match (number(s, radix), digit_value(c, radix)) {
            (Some(high), Some(digit)) => Some(high * radix + digit),
            _ => None,
        },
{
    assert(s.push(c).drop_last() =~= s);
}

/// Reading a numeral gives the number back. It is not empty, holds digits
/// only, and starts with a zero only if it is the single digit zero.
pub proof fn number_of_numeral(n: nat, radix: nat)
    requires
        2 <= radix <= 16,
    ensures
        number(numeral(n, radix), radix) == Some(n),
        numeral(n, radix).len() > 0,
        forall|i: int|
            0 <= i < numeral(n, radix).len() ==> digit_value(#[trigger] numeral(n, radix)[i], radix)
                is Some,
        numeral(n, radix)[0] == '0' ==> n == 0,
    decreases n,
{
    assert(digit_value(digit_char(n % radix), radix) == Some(n % radix));
    if n < radix {
        let only = seq![digit_char(n)];
        assert(only.drop_last() == Seq::<char>::empty());
        assert(number(only.drop_last(), radix) == Some(0nat));
        assert(digit_value(only.last(), radix) == Some(n));
        assert(number(only, radix) == Some(0nat * radix + n));
        assert(0nat * radix + n == n) by (nonlinear_arith);
    } else {
        lemma_div_decreases(n as int, radix as int);
        number_of_numeral(n / radix, radix);
        lemma_fundamental_div_mod(n as int, radix as int);
        let high = numeral(n / radix, radix);
        assert(numeral(n, radix).drop_last() == high);
        assert((n / radix) * radix + n % radix == n) by (nonlinear_arith)
            requires
                n == radix * (n / radix) + n % radix,
        ;
        assert(numeral(n, radix)[0] == high[0]);
        assert(n / radix != 0) by {
            if n / radix == 0 {
                assert(radix * (n / radix) == 0) by (nonlinear_arith)
                    requires
                        n / radix == 0,
                ;
            }
        }
    }
}

/// A decimal digit is the character for its value.
proof fn lemma_figure(c: char)
    ensures
        digit_value(c, 10) matches Some(d) ==> digit_char(d) == c && (d == 0 <==> c == '0'),
{
}

/// A number that does not start with zero is not zero.
proof fn lemma_not_zero(s: Seq<char>)
    requires
        s.len() > 0,
        s[0] != '0',
        number(s, 10) is Some,
    ensures
        number(s, 10)->0 > 0,
    decreases s.len(),
{
    if s.len() > 1 {
        assert(s.drop_last()[0] == s[0]);
        lemma_not_zero(s.drop_last());
    } else {
        assert(s.drop_last() =~= Seq::<char>::empty());
        assert(number(s.drop_last(), 10) == Some(0nat));
        digits_are_figures_and_letters(s.last(), 10);
        lemma_figure(s.last());
    }
}

/// A decimal number without leading zeros is written as it is read.
pub proof fn decimal_numbers_are_written_as_they_are_read(s: Seq<char>)
    requires
        s.len() > 0,
        s.len() == 1 || s[0] != '0',
        number(s, 10) is Some,
    ensures
        numeral(number(s, 10)->0, 10) == s,
    decreases s.len(),
{
    let n = number(s, 10)->0;
    let digit = digit_value(s.last(), 10)->0;
    let before = s.drop_last();
    digits_are_figures_and_letters(s.last(), 10);
    lemma_figure(s.last());
    assert(digit_char(digit) == s.last());
    if s.len() == 1 {
        assert(before =~= Seq::<char>::empty());
        assert(number(before, 10) == Some(0nat));
        assert(seq![s.last()] =~= s);
    } else {
        assert(before[0] == s[0]);
        lemma_not_zero(before);
        let high = number(before, 10)->0;
        decimal_numbers_are_written_as_they_are_read(before);
        assert(n == high * 10 + digit);
        assert(n / 10 == high && n % 10 == digit);
        assert(before.push(s.last()) =~= s);
    }
}

/// A numeral is as long as its number needs.
pub proof fn numeral_length(n: nat)
    ensures
        n < 1000 ==> numeral(n, 10).len() <= 3,
        n < 65536 ==> numeral(n, 16).len() <= 4,
{
    reveal_with_fuel(numeral, 4);
    if n < 1000 {
        assert(n / 10 < 100);
        assert(n / 10 / 10 < 10);
    }
    if n < 65536 {
        assert(n / 16 < 4096);
        assert(n / 16 / 16 < 256);
        assert(n / 16 / 16 / 16 < 16);
    }
}

/// What `c` counts as a digit of the given radix.
pub fn read_digit(c: char, radix: u32) -> (digit: Option<u32>)
    requires
        2 <= radix <= 16,
    ensures
        match digit {
            Some(d) => digit_value(c, radix as nat) == Some(d as nat) && d < radix,
            None => digit_value(c, radix as nat) is None,
        },
{
    let code: u32 = c as u32;
    let digit: u32 = if 48 <= code && code <= 57 {
        code - 48
    } else if 97 <= code && code <= 102 {
        code - 87
    } else if 65 <= code && code <= 70 {
        code - 55
    } else {
        radix
    };
    if digit < radix {
        Some(digit)
    } else {
        None
    }
}

/// The number that up to four digits write in the given radix.
pub fn read_number(chars: &[char], radix: u32) -> (read: Option<u32>)
    requires
        2 <= radix <= 16,
        chars@.len() <= 4,
    ensures
        match read {
            Some(n) => number(chars@, radix as nat) == Some(n as nat) && n < 65536,
            None => number(chars@, radix as nat) is None,
        },
{
    let mut n: u32 = 0;
    assert(chars@.take(0) == Seq::<char>::empty());
    for i in 0..chars.len()
        invariant
            2 <= radix <= 16,
            chars@.len() <= 4,
            number(chars@.take(i as int), radix as nat) == Some(n as nat),
            i == 0 ==> n < 1,
            i == 1 ==> n < 16,
            i == 2 ==> n < 256,
            i == 3 ==> n < 4096,
            i == 4 ==> n < 65536,
    {
        assert(chars@.take(i + 1).drop_last() == chars@.take(i as int));
        assert(chars@.take(i + 1).last() == chars@[i as int]);
        match read_digit(chars[i], radix) {
            Some(digit) => {
                assert(n * radix + digit <= n * 16 + 15) by (nonlinear_arith)
                    requires
                        radix <= 16,
                        digit <= 15,
                        0 <= n,
                ;
                assert(0 <= n * radix) by (nonlinear_arith);
                n = n * radix + digit;
            },
            None => {
                proof {
                    lemma_prefix_is_number(chars@, radix as nat, i + 1);
                }
                return None;
            },
        }
    }
    assert(chars@.take(chars@.len() as int) == chars@);
    Some(n)
}

/// A text writes a number only if each of its prefixes does.
proof fn lemma_prefix_is_number(s: Seq<char>, radix: nat, len: int)
    requires
        0 <= len <= s.len(),
    ensures
        number(s, radix) is Some ==> number(s.take(len), radix) is Some,
    decreases s.len(),
{
    if len == s.len() {
        assert(s.take(len) == s);
    } else {
        lemma_prefix_is_number(s.drop_last(), radix, len);
        assert(s.drop_last().take(len) == s.take(len));
    }
}

/// The lower-case character for a digit below sixteen.
pub fn write_digit(digit: u8) -> (c: char)
    requires
        digit < 16,
    ensures
        c == digit_char(digit as nat),
{
    if digit < 10 {
        (48 + digit) as char
    } else {
        (87 + digit) as char
    }
}

/// Appends the numeral of `n` to `text`.
pub fn write_number(text: &mut String, n: u16, radix: u16)
    requires
        2 <= radix <= 16,
    ensures
        final(text)@ == old(text)@ + numeral(n as nat, radix as nat),
    decreases n,
{
    if n >= radix {
        assert(0 <= n / radix < n) by {
            lemma_div_decreases(n as int, radix as int);
        }
        write_number(text, n / radix, radix);
    }
    assert(0 <= n % radix < radix);
    let ghost high = text@;
    text.push(write_digit((n % radix) as u8));
    assert(text@ == old(text)@ + numeral(n as nat, radix as nat)) by {
        if n < radix {
            assert(n % radix == n) by (nonlinear_arith)
                requires
                    0 <= n < radix,
            ;
        }
    }
}

} // verus!
