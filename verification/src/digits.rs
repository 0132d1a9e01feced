//! Digit alphabets, digit sequences of a number, and the value of a digit
//! sequence. This is the mathematical model that both the parser and the
//! formatter are specified against.

use vstd::prelude::*;

verus! {

/// Numeric value of a digit character; `16` marks a character that is no
/// hexadecimal digit at all. Letter digits are accepted in both cases.
pub open spec fn digit_value(c: char) -> nat {
    if c == '0' {
        0
    } else if c == '1' {
        1
    } else if c == '2' {
        2
    } else if c == '3' {
        3
    } else if c == '4' {
        4
    } else if c == '5' {
        5
    } else if c == '6' {
        6
    } else if c == '7' {
        7
    } else if c == '8' {
        8
    } else if c == '9' {
        9
    } else if c == 'A' || c == 'a' {
        10
    } else if c == 'B' || c == 'b' {
        11
    } else if c == 'C' || c == 'c' {
        12
    } else if c == 'D' || c == 'd' {
        13
    } else if c == 'E' || c == 'e' {
        14
    } else if c == 'F' || c == 'f' {
        15
    } else {
        16
    }
}

/// Whether `c` is a digit of the given base.
pub open spec fn is_base_digit(c: char, base: nat) -> bool {
    digit_value(c) < base
}

/// Whether every character of `s` is a digit of the given base.
pub open spec fn all_base_digits(s: Seq<char>, base: nat) -> bool {
    forall|i: int| 0 <= i < s.len() ==> is_base_digit(#[trigger] s[i], base)
}

/// The upper-case digit character for a value below 16.
pub open spec fn digit_char(d: nat) -> char {
    if d == 0 {
        '0'
    } else if d == 1 {
        '1'
    } else if d == 2 {
        '2'
    } else if d == 3 {
        '3'
    } else if d == 4 {
        '4'
    } else if d == 5 {
        '5'
    } else if d == 6 {
        '6'
    } else if d == 7 {
        '7'
    } else if d == 8 {
        '8'
    } else if d == 9 {
        '9'
    } else if d == 10 {
        'A'
    } else if d == 11 {
        'B'
    } else if d == 12 {
        'C'
    } else if d == 13 {
        'D'
    } else if d == 14 {
        'E'
    } else {
        'F'
    }
}

/// Digit characters of `n` in the given base, most significant first;
/// empty for zero.
pub open spec fn digits_of(n: nat, base: nat) -> Seq<char>
    recommends
        2 <= base,
    decreases n,
{
    if n == 0 || base < 2 {
        Seq::empty()
    } else {
        proof {
            broadcast use vstd::arithmetic::div_mod::lemma_div_decreases;

        }
        digits_of(n / base, base).push(digit_char(n % base))
    }
}

/// The digit string that renders `n` in the given base: `"0"` for zero,
/// the digit characters of `n` otherwise.
pub open spec fn numeral_of(n: nat, base: nat) -> Seq<char> {
    if n == 0 {
        seq!['0']
    } else {
        digits_of(n, base)
    }
}

/// Value of a digit string read in the given base.
pub open spec fn digits_value(s: Seq<char>, base: nat) -> nat
    decreases s.len(),
{
    if s.len() == 0 {
        0
    } else {
        digits_value(s.drop_last(), base) * base + digit_value(s.last())
    }
}

/// Length of the longest prefix of `s` made of digits of the given base.
pub open spec fn valid_prefix_len(s: Seq<char>, base: nat) -> nat
    decreases s.len(),
{
    if s.len() == 0 || !is_base_digit(s[0], base) {
        0
    } else {
        (1 + valid_prefix_len(s.skip(1), base)) as nat
    }
}

/// A digit value below the base renders as a digit of that base, and
/// reading the character back yields the same value.
pub proof fn lemma_digit_char_value(d: nat, base: nat)
    requires
        d < base <= 16,
    ensures
        is_base_digit(digit_char(d), base),
        digit_value(digit_char(d)) == d,
{
}

/// A digit character is `'0'` exactly when its value is zero.
pub proof fn lemma_digit_char_zero(d: nat)
    requires
        d < 16,
    ensures
        (digit_char(d) == '0') <==> (d == 0),
{
}

/// The digit characters of any number are digits of the base used.
pub proof fn lemma_digits_of_valid(n: nat, base: nat)
    requires
        2 <= base <= 16,
    ensures
        all_base_digits(digits_of(n, base), base),
    decreases n,
{
    if n != 0 {
        broadcast use vstd::arithmetic::div_mod::lemma_div_decreases;

        lemma_digits_of_valid(n / base, base);
        lemma_digit_char_value(n % base, base);
        assert forall|i: int| 0 <= i < digits_of(n, base).len() implies is_base_digit(
            #[trigger] digits_of(n, base)[i],
            base,
        ) by {
            if i < digits_of(n, base).len() - 1 {
                assert(digits_of(n, base)[i] == digits_of(n / base, base)[i]);
            }
        }
    }
}

/// Reading back the digit characters of `n` yields `n`.
pub proof fn lemma_digits_of_value(n: nat, base: nat)
    requires
        2 <= base <= 16,
    ensures
        digits_value(digits_of(n, base), base) == n,
    decreases n,
{
    if n != 0 {
        broadcast use vstd::arithmetic::div_mod::lemma_div_decreases;

        lemma_digits_of_value(n / base, base);
        lemma_digit_char_value(n % base, base);
        let s = digits_of(n, base);
        assert(s.drop_last() =~= digits_of(n / base, base));
        assert(s.last() == digit_char(n % base));
        assert(n / base * base + n % base == n) by {
            vstd::arithmetic::div_mod::lemma_fundamental_div_mod(n as int, base as int);
        }
    }
}

/// The leading digit character of a positive number is never `'0'`.
pub proof fn lemma_digits_of_leading(n: nat, base: nat)
    requires
        1 <= n,
        2 <= base <= 16,
    ensures
        digits_of(n, base).len() >= 1,
        digits_of(n, base)[0] != '0',
    decreases n,
{
    broadcast use vstd::arithmetic::div_mod::lemma_div_decreases;

    if n / base == 0 {
        assert(n % base == n) by {
            vstd::arithmetic::div_mod::lemma_fundamental_div_mod(n as int, base as int);
        }
        lemma_digit_char_zero(n % base);
    } else {
        lemma_digits_of_leading(n / base, base);
        assert(digits_of(n, base)[0] == digits_of(n / base, base)[0]);
    }
}

/// A number at least as large as the base has at least two digits.
pub proof fn lemma_digits_of_len2(n: nat, base: nat)
    requires
        2 <= base <= 16,
        base <= n,
    ensures
        digits_of(n, base).len() >= 2,
{
    broadcast use vstd::arithmetic::div_mod::lemma_div_decreases;

    assert(n / base >= 1) by {
        vstd::arithmetic::div_mod::lemma_div_is_ordered(base as int, n as int, base as int);
        vstd::arithmetic::div_mod::lemma_div_by_self(base as int);
    }
    assert(digits_of(n, base) == digits_of(n / base, base).push(digit_char(n % base)));
    assert(digits_of(n / base, base) == digits_of(n / base / base, base).push(
        digit_char((n / base) % base),
    ));
}

/// The numeral of `n` is non-empty, consists of digits of the base, and
/// reads back as `n`.
pub proof fn lemma_numeral_of(n: nat, base: nat)
    requires
        2 <= base <= 16,
    ensures
        numeral_of(n, base).len() >= 1,
        all_base_digits(numeral_of(n, base), base),
        digits_value(numeral_of(n, base), base) == n,
{
    if n == 0 {
        let s = numeral_of(n, base);
        assert(s.len() == 1);
        assert(s.last() == '0');
        assert(s.drop_last() =~= Seq::<char>::empty());
        assert(digits_value(s, base) == digits_value(s.drop_last(), base) * base + digit_value(
            '0',
        ));
        assert(digits_value(s.drop_last(), base) == 0);
        assert(digit_value('0') == 0);
        let e = digits_value(s.drop_last(), base);
        assert(e * base == 0) by (nonlinear_arith)
            requires
                e == 0,
        ;
        assert(digits_value(s, base) == 0);
    } else {
        lemma_digits_of_valid(n, base);
        lemma_digits_of_value(n, base);
        assert(numeral_of(n, base) == digits_of(n, base));
        assert(digits_of(n, base).len() >= 1) by {
            assert(digits_of(n, base) == digits_of(n / base, base).push(
                digit_char(n % base),
            ));
        }
    }
    assert(digits_value(numeral_of(n, base), base) == n);
}

/// Extending a digit string by one character multiplies its value by the
/// base and adds the new digit.
pub proof fn lemma_digits_value_step(s: Seq<char>, base: nat, i: int)
    requires
        0 <= i < s.len(),
    ensures
        digits_value(s.take(i + 1), base) == digits_value(s.take(i), base) * base + digit_value(
            s[i],
        ),
{
    let t = s.take(i + 1);
    assert(t.drop_last() =~= s.take(i));
    assert(t.last() == s[i]);
}

/// The value of a prefix never exceeds the value of a longer prefix.
pub proof fn lemma_digits_value_take_monotone(s: Seq<char>, base: nat, i: int, j: int)
    requires
        1 <= base,
        0 <= i <= j <= s.len(),
    ensures
        digits_value(s.take(i), base) <= digits_value(s.take(j), base),
    decreases j - i,
{
    if i < j {
        lemma_digits_value_take_monotone(s, base, i, j - 1);
        lemma_digits_value_step(s, base, j - 1);
        let v = digits_value(s.take(j - 1), base);
        assert(v * base >= v) by (nonlinear_arith)
            requires
                base >= 1,
                v >= 0,
        ;
    }
}

/// The valid prefix is never longer than the string itself.
pub proof fn lemma_valid_prefix_bound(s: Seq<char>, base: nat)
    ensures
        valid_prefix_len(s, base) <= s.len(),
    decreases s.len(),
{
    if s.len() != 0 && is_base_digit(s[0], base) {
        lemma_valid_prefix_bound(s.skip(1), base);
    }
}

/// When the first `i` characters are digits and the next one is not, the
/// valid prefix is exactly those `i` characters.
pub proof fn lemma_valid_prefix_stops(s: Seq<char>, base: nat, i: int)
    requires
        0 <= i < s.len(),
        all_base_digits(s.take(i), base),
        !is_base_digit(s[i], base),
    ensures
        valid_prefix_len(s, base) == i,
    decreases i,
{
    if i == 0 {
        assert(!is_base_digit(s[0], base));
    } else {
        assert(is_base_digit(s[0], base)) by {
            assert(s.take(i)[0] == s[0]);
        }
        let t = s.skip(1);
        assert(all_base_digits(t.take(i - 1), base)) by {
            assert forall|k: int| 0 <= k < i - 1 implies is_base_digit(
                #[trigger] t.take(i - 1)[k],
                base,
            ) by {
                assert(t.take(i - 1)[k] == s.take(i)[k + 1]);
            }
        }
        assert(t[i - 1] == s[i]);
        lemma_valid_prefix_stops(t, base, i - 1);
    }
}

/// A prefix made of digits of the base never exceeds the valid prefix.
pub proof fn lemma_valid_prefix_lower(s: Seq<char>, base: nat, i: int)
    requires
        0 <= i <= s.len(),
        all_base_digits(s.take(i), base),
    ensures
        valid_prefix_len(s, base) >= i,
    decreases i,
{
    if i > 0 {
        assert(is_base_digit(s[0], base)) by {
            assert(s.take(i)[0] == s[0]);
        }
        let t = s.skip(1);
        assert(all_base_digits(t.take(i - 1), base)) by {
            assert forall|k: int| 0 <= k < i - 1 implies is_base_digit(
                #[trigger] t.take(i - 1)[k],
                base,
            ) by {
                assert(t.take(i - 1)[k] == s.take(i)[k + 1]);
            }
        }
        lemma_valid_prefix_lower(t, base, i - 1);
    }
}

/// Leading `'0'` characters do not change the value of a digit string.
pub proof fn lemma_zero_prefix_value(z: Seq<char>, s: Seq<char>, base: nat)
    requires
        1 <= base,
        forall|i: int| 0 <= i < z.len() ==> z[i] == '0',
    ensures
        digits_value(z + s, base) == digits_value(s, base),
    decreases s.len(),
{
    if s.len() == 0 {
        assert(z + s =~= z);
        lemma_all_zero_value(z, base);
    } else {
        assert((z + s).drop_last() =~= z + s.drop_last());
        assert((z + s).last() == s.last());
        lemma_zero_prefix_value(z, s.drop_last(), base);
    }
}

/// A string of `'0'` characters has value zero.
pub proof fn lemma_all_zero_value(z: Seq<char>, base: nat)
    requires
        forall|i: int| 0 <= i < z.len() ==> z[i] == '0',
    ensures
        digits_value(z, base) == 0,
    decreases z.len(),
{
    if z.len() != 0 {
        lemma_all_zero_value(z.drop_last(), base);
        assert(z.last() == z[z.len() - 1]);
        assert(z.last() == '0');
        assert(digits_value(z, base) == digits_value(z.drop_last(), base) * base + digit_value(
            z.last(),
        ));
    }
}

} // verus!
