//! The parser: recognizes an optional two-character base prefix (`0x`,
//! `0b`, `0o`) and decodes the digits behind it as an unsigned 64-bit
//! pattern, or the whole input as signed decimal.

use vstd::prelude::*;
use crate::digits::{
    all_base_digits, digit_value, digits_value, is_base_digit, lemma_digits_value_step,
    lemma_digits_value_take_monotone, lemma_valid_prefix_lower, lemma_valid_prefix_stops,
    valid_prefix_len,
};

verus! {

/// The ways an input can fail to parse.
#[derive(Clone, Copy, Debug, PartialEq, Eq, Structural)]
pub enum ParseError {
    /// A character that is no digit of the selected base.
    InvalidDigit,
    /// No digits: the input, or the part behind its prefix or sign, is empty.
    EmptyDigits,
    /// The digits denote a value outside the 64-bit range.
    OutOfRange,
}

impl ParseError {
    /// A human-readable description of the failure.
    pub fn description(&self) -> (r: String)
        ensures
            *self is InvalidDigit ==> r@ == "invalid digit found in string"@,
            *self is EmptyDigits ==> r@ == "cannot parse integer from empty string"@,
            *self is OutOfRange ==> r@ == "number too large to fit in target type"@,
    {
        match self {
            ParseError::InvalidDigit => String::from_str("invalid digit found in string"),
            ParseError::EmptyDigits => String::from_str("cannot parse integer from empty string"),
            ParseError::OutOfRange => String::from_str("number too large to fit in target type"),
        }
    }
}

/// Result of reading a digit string in `base`: the digits' value when
/// every character is a digit of the base and the value stays within
/// `bound`; otherwise the error the scan hits first, reading from the
/// left and failing on an oversized value as soon as the digits seen so
/// far exceed `bound`.
pub open spec fn spec_parse_digits(s: Seq<char>, base: nat, bound: nat) -> Result<u64, ParseError>
    recommends
        bound < 0x1_0000_0000_0000_0000,
{
    if s.len() == 0 {
        Err(ParseError::EmptyDigits)
    } else if all_base_digits(s, base) && digits_value(s, base) <= bound {
        Ok(digits_value(s, base) as u64)
    } else if digits_value(s.take(valid_prefix_len(s, base) as int), base) > bound {
        Err(ParseError::OutOfRange)
    } else {
        Err(ParseError::InvalidDigit)
    }
}

/// Signed decimal reading: an optional leading `-` followed by decimal
/// digits, within the 64-bit signed range.
pub open spec fn spec_parse_decimal(s: Seq<char>) -> Result<i64, ParseError> {
    if s.len() >= 1 && s[0] == '-' {
        match spec_parse_digits(s.skip(1), 10, 0x8000_0000_0000_0000) {
            Ok(m) => Ok((-(m as int)) as i64),
            Err(e) => Err(e),
        }
    } else {
        match spec_parse_digits(s, 10, 0x7FFF_FFFF_FFFF_FFFF) {
            Ok(m) => Ok(m as i64),
            Err(e) => Err(e),
        }
    }
}

/// The signed value whose 64-bit two's-complement pattern is `p`.
pub open spec fn value_of_pattern(p: nat) -> int
    recommends
        p < 0x1_0000_0000_0000_0000,
{
    if p < 0x8000_0000_0000_0000 {
        p as int
    } else {
        p - 0x1_0000_0000_0000_0000
    }
}

/// The 64-bit two's-complement pattern of `n`.
pub open spec fn pattern_of(n: i64) -> nat {
    if n >= 0 {
        n as nat
    } else {
        (n + 0x1_0000_0000_0000_0000) as nat
    }
}

/// Pattern and value are inverse to one another.
pub proof fn lemma_pattern_value_inverse(n: i64)
    ensures
        pattern_of(n) < 0x1_0000_0000_0000_0000,
        value_of_pattern(pattern_of(n)) == n as int,
{
}

/// Base-tagged reading: the digits fill the 64-bit pattern, whose signed
/// value is returned.
pub open spec fn spec_parse_tagged(s: Seq<char>, base: nat) -> Result<i64, ParseError> {
    match spec_parse_digits(s, base, 0xFFFF_FFFF_FFFF_FFFF) {
        Ok(p) => Ok(value_of_pattern(p as nat) as i64),
        Err(e) => Err(e),
    }
}

/// What `parse_user_input` returns: inputs of fewer than two characters
/// and inputs without a recognized prefix read as signed decimal; behind
/// a `0x`, `0b` or `0o` prefix the digits fill the 64-bit pattern.
pub open spec fn spec_parse_user_input(s: Seq<char>) -> Result<i64, ParseError> {
    if s.len() < 2 {
        spec_parse_decimal(s)
    } else if s[0] == '0' && s[1] == 'x' {
        spec_parse_tagged(s.skip(2), 16)
    } else if s[0] == '0' && s[1] == 'b' {
        spec_parse_tagged(s.skip(2), 2)
    } else if s[0] == '0' && s[1] == 'o' {
        spec_parse_tagged(s.skip(2), 8)
    } else {
        spec_parse_decimal(s)
    }
}

/// The digit value of `c` in `base`, or `None` when `c` is no digit of
/// that base.
fn digit_of_char(c: char, base: u64) -> (r: Option<u64>)
    requires
        2 <= base <= 16,
    ensures
        match r {
            Option::Some(v) => is_base_digit(c, base as nat) && v as nat == digit_value(c),
            Option::None => !is_base_digit(c, base as nat),
        },
{
    let v: u64 = match c {
        '0' => 0,
        '1' => 1,
        '2' => 2,
        '3' => 3,
        '4' => 4,
        '5' => 5,
        '6' => 6,
        '7' => 7,
        '8' => 8,
        '9' => 9,
        'A' | 'a' => 10,
        'B' | 'b' => 11,
        'C' | 'c' => 12,
        'D' | 'd' => 13,
        'E' | 'e' => 14,
        'F' | 'f' => 15,
        _ => 16,
    };
    if v < base {
        Some(v)
    } else {
        None
    }
}

/// Reads the characters of `sl` from position `from` on as digits of
/// `base`, accepting values up to `bound`.
#[verifier::loop_isolation(false)]
fn parse_digits(sl: &str, from: usize, base: u64, bound: u64) -> (r: Result<u64, ParseError>)
    requires
        2 <= base <= 16,
        16 <= bound,
        from <= sl@.len(),
    ensures
        r == spec_parse_digits(sl@.skip(from as int), base as nat, bound as nat),
{
    let n = sl.unicode_len();
    let ghost t = sl@.skip(from as int);
    let ghost bn = base as nat;
    if from == n {
        return Err(ParseError::EmptyDigits);
    }
    let mut acc: u64 = 0;
    let mut i: usize = from;
    while i < n
        invariant
            from <= i <= n,
            all_base_digits(t.take(i - from), bn),
            acc as nat == digits_value(t.take(i - from), bn),
            acc <= bound,
        decreases n - i,
    {
        let c = sl.get_char(i);
        proof {
            assert(t[i - from] == sl@[i as int]);
        }
        match digit_of_char(c, base) {
            None => {
                proof {
                    lemma_valid_prefix_stops(t, bn, i - from);
                    assert(!all_base_digits(t, bn));
                }
                return Err(ParseError::InvalidDigit);
            },
            Some(d) => {
                let q: u64 = (bound - d) / base;
                proof {
                    vstd::arithmetic::div_mod::lemma_fundamental_div_mod(
                        (bound - d) as int,
                        base as int,
                    );
                    lemma_digits_value_step(t, bn, i - from);
                    assert(all_base_digits(t.take(i - from + 1), bn)) by {
                        assert forall|k: int| 0 <= k < i - from + 1 implies is_base_digit(
                            #[trigger] t.take(i - from + 1)[k],
                            bn,
                        ) by {
                            if k < i - from {
                                assert(t.take(i - from + 1)[k] == t.take(i - from)[k]);
                            } else {
                                assert(t.take(i - from + 1)[k] == t[i - from]);
                            }
                        }
                    }
                }
                if acc > q {
                    proof {
                        let bd = (bound - d) as int;
                        let bs = base as int;
                        let qq = bd / bs;
                        let rr = bd % bs;
                        assert((acc as int) * bs > bd) by (nonlinear_arith)
                            requires
                                acc as int >= qq + 1,
                                bd == bs * qq + rr,
                                rr < bs,
                                bs >= 1,
                        ;
                        assert(digits_value(t.take(i - from + 1), bn) > bound);
                        lemma_valid_prefix_lower(t, bn, i - from + 1);
                        crate::digits::lemma_valid_prefix_bound(t, bn);
                        lemma_digits_value_take_monotone(
                            t,
                            bn,
                            i - from + 1,
                            valid_prefix_len(t, bn) as int,
                        );
                        assert(t.take(t.len() as int) =~= t);
                        if all_base_digits(t, bn) {
                            lemma_digits_value_take_monotone(
                                t,
                                bn,
                                i - from + 1,
                                t.len() as int,
                            );
                        }
                    }
                    return Err(ParseError::OutOfRange);
                }
                proof {
                    let bd = (bound - d) as int;
                    let bs = base as int;
                    let qq = bd / bs;
                    let rr = bd % bs;
                    assert((acc as int) * bs <= bd - rr) by (nonlinear_arith)
                        requires
                            acc as int <= qq,
                            bd == bs * qq + rr,
                            rr >= 0,
                            bs >= 1,
                            acc as int >= 0,
                    ;
                }
                acc = acc * base + d;
                proof {
                    assert(acc as nat == digits_value(t.take(i - from + 1), bn));
                }
            },
        }
        i += 1;
    }
    proof {
        assert(t.take(n - from) =~= t);
    }
    Ok(acc)
}

/// The executable form of `value_of_pattern`.
fn i64_from_pattern(p: u64) -> (r: i64)
    ensures
        r as int == value_of_pattern(p as nat),
{
    if p < 0x8000_0000_0000_0000 {
        p as i64
    } else {
        let q: u64 = p - 0x8000_0000_0000_0000;
        let w: u64 = 0x7FFF_FFFF_FFFF_FFFF - q;
        -(w as i64) - 1
    }
}

/// Negation of a decimal magnitude of at most 2^63.
fn i64_negated(m: u64) -> (r: i64)
    requires
        m <= 0x8000_0000_0000_0000,
    ensures
        r as int == -(m as int),
{
    if m == 0x8000_0000_0000_0000 {
        -0x7FFF_FFFF_FFFF_FFFFi64 - 1
    } else {
        -(m as i64)
    }
}

/// Reads the whole of `sl` as a signed decimal number.
fn parse_decimal(sl: &str) -> (r: Result<i64, ParseError>)
    ensures
        r == spec_parse_decimal(sl@),
{
    let n = sl.unicode_len();
    if n >= 1 && sl.get_char(0) == '-' {
        match parse_digits(sl, 1, 10, 0x8000_0000_0000_0000) {
            Ok(m) => {
                let v = i64_negated(m);
                proof {
                    assert(v == (-(m as int)) as i64);
                }
                Ok(v)
            },
            Err(e) => Err(e),
        }
    } else {
        proof {
            assert(sl@.skip(0) =~= sl@);
        }
        match parse_digits(sl, 0, 10, 0x7FFF_FFFF_FFFF_FFFF) {
            Ok(m) => Ok(m as i64),
            Err(e) => Err(e),
        }
    }
}

/// Reads the digits of `sl` behind its two-character prefix as the
/// 64-bit pattern of the result.
fn parse_tagged(sl: &str, base: u64) -> (r: Result<i64, ParseError>)
    requires
        2 <= base <= 16,
        sl@.len() >= 2,
    ensures
        r == spec_parse_tagged(sl@.skip(2), base as nat),
{
    match parse_digits(sl, 2, base, 0xFFFF_FFFF_FFFF_FFFF) {
        Ok(p) => {
            let v = i64_from_pattern(p);
            proof {
                assert(v == value_of_pattern(p as nat) as i64);
            }
            Ok(v)
        },
        Err(e) => Err(e),
    }
}

/// Parses one line of user input: `0x`, `0b` and `0o` literals fill the
/// 64-bit two's-complement pattern; anything else is read as signed
/// decimal.
pub fn parse_user_input(input: &str) -> (r: Result<i64, ParseError>)
    ensures
        r == spec_parse_user_input(input@),
{
    let n = input.unicode_len();
    if n < 2 {
        return parse_decimal(input);
    }
    let c0 = input.get_char(0);
    let c1 = input.get_char(1);
    if c0 == '0' && c1 == 'x' {
        parse_tagged(input, 16)
    } else if c0 == '0' && c1 == 'b' {
        parse_tagged(input, 2)
    } else if c0 == '0' && c1 == 'o' {
        parse_tagged(input, 8)
    } else {
        parse_decimal(input)
    }
}

} // verus!
