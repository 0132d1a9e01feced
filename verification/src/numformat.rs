//! The formatter: renders a signed 64-bit integer as grouped decimal,
//! grouped hexadecimal, grouped binary and octal strings. Negative values
//! are shown through their two's-complement bit pattern with the repeated
//! sign-extension digits collapsed into a marker.

use vstd::prelude::*;
use crate::digits::{
    digits_of, lemma_digits_of_len2, lemma_numeral_of, numeral_of,
};
use crate::grouping::{group_into, spec_group_into};
use crate::numparse::pattern_of;
use crate::textops::{chars_to_string, push_char};

verus! {

/// `s` with every leading occurrence of `c` removed.
pub open spec fn strip_leading(s: Seq<char>, c: char) -> Seq<char>
    decreases s.len(),
{
    if s.len() > 0 && s[0] == c {
        strip_leading(s.skip(1), c)
    } else {
        s
    }
}

/// The grouped-binary sign-extension marker: a separator followed by one
/// all-ones group.
pub open spec fn ones_group() -> Seq<char> {
    seq![' ', '1', '1', '1', '1']
}

/// `t` with its leading run of ` 1111` groups removed: as long as `t`
/// still begins with the marker, the marker is dropped.
pub open spec fn drop_ones_groups(t: Seq<char>) -> Seq<char>
    decreases t.len(),
{
    if t.len() >= 5 && t.take(5) == ones_group() {
        drop_ones_groups(t.skip(5))
    } else {
        t
    }
}

/// The absolute value of `n`.
pub open spec fn magnitude_of(n: i64) -> nat {
    if n >= 0 {
        n as nat
    } else {
        (-(n as int)) as nat
    }
}

/// The plain decimal rendering of `n`: an optional `-` followed by the
/// decimal digits of its magnitude.
pub open spec fn decimal_seq(n: i64) -> Seq<char> {
    if n >= 0 {
        numeral_of(n as nat, 10)
    } else {
        seq!['-'] + numeral_of(magnitude_of(n), 10)
    }
}

/// What `format_decimal` returns: the plain decimal form below one
/// thousand in magnitude; otherwise the magnitude's digits in blocks of
/// three separated by spaces, without padding, and with a leading `-`
/// directly before the first group for negative values.
pub open spec fn spec_format_decimal(n: i64) -> Seq<char> {
    if -1000 < n < 1000 {
        decimal_seq(n)
    } else if n >= 0 {
        spec_group_into(numeral_of(n as nat, 10), 3, seq![' '], Option::None)
    } else {
        seq!['-'] + spec_group_into(numeral_of(magnitude_of(n), 10), 3, seq![' '], Option::None)
    }
}

/// What `format_hex` returns: the hexadecimal digits of the value (of
/// its 64-bit pattern for negative values, with the leading `F` run
/// collapsed to a single `F`), in groups of four, zero-padded.
pub open spec fn spec_format_hex(n: i64) -> Seq<char> {
    if n >= 0 {
        spec_group_into(numeral_of(n as nat, 16), 4, seq![' '], Option::Some('0'))
    } else {
        spec_group_into(
            seq!['F'] + strip_leading(numeral_of(pattern_of(n), 16), 'F'),
            4,
            seq![' '],
            Option::Some('0'),
        )
    }
}

/// What `format_binary` returns: the binary digits of the 64-bit pattern
/// in groups of four, zero-padded; for negative values the first group
/// is kept and the run of ` 1111` sign-extension groups directly behind
/// it is removed, nothing else.
pub open spec fn spec_format_binary(n: i64) -> Seq<char> {
    let g = spec_group_into(numeral_of(pattern_of(n), 2), 4, seq![' '], Option::Some('0'));
    if n >= 0 || g.len() < 4 {
        g
    } else {
        g.take(4) + drop_ones_groups(g.skip(4))
    }
}

/// The octal sign-extension marker.
pub open spec fn octal_marker() -> Seq<char> {
    seq!['1', '7', '[', '7', ']', '7']
}

/// What `format_octal` returns: plain octal digits for a non-negative
/// value; for a negative value the marker `17[7]7` followed by what is
/// left of the pattern's octal digits once the first two characters and
/// the run of `7`s behind them are removed.
pub open spec fn spec_format_octal(n: i64) -> Seq<char> {
    if n >= 0 {
        numeral_of(n as nat, 8)
    } else {
        octal_marker() + strip_leading(numeral_of(pattern_of(n), 8).skip(2), '7')
    }
}

/// The digit characters of `m` in `base`, `"0"` for zero.
#[verifier::loop_isolation(false)]
fn u64_digits(m: u64, base: u64) -> (v: Vec<char>)
    requires
        2 <= base <= 16,
    ensures
        v@ == numeral_of(m as nat, base as nat),
{
    let ghost bn = base as nat;
    if m == 0 {
        let mut v: Vec<char> = Vec::new();
        v.push('0');
        proof {
            assert(v@ =~= numeral_of(0, bn));
        }
        return v;
    }
    let mut rev: Vec<char> = Vec::new();
    let mut x: u64 = m;
    proof {
        assert(digits_of(m as nat, bn) =~= digits_of(m as nat, bn) + rev@.reverse());
    }
    while x > 0
        invariant
            digits_of(m as nat, bn) == digits_of(x as nat, bn) + rev@.reverse(),
        decreases x,
    {
        let d: u64 = x % base;
        let c = char_of_digit(d);
        proof {
            broadcast use vstd::arithmetic::div_mod::lemma_div_decreases;

            assert(digits_of(x as nat, bn) == digits_of((x as nat) / bn, bn).push(
                crate::digits::digit_char((x as nat) % bn),
            ));
            assert(rev@.push(c).reverse() =~= seq![c] + rev@.reverse());
            assert(digits_of((x as nat) / bn, bn).push(c) + rev@.reverse() =~= digits_of(
                (x as nat) / bn,
                bn,
            ) + (seq![c] + rev@.reverse()));
            assert((x as nat) / bn == ((x / base) as nat));
        }
        rev.push(c);
        x = x / base;
    }
    proof {
        assert(digits_of(0, bn) + rev@.reverse() =~= rev@.reverse());
    }
    let n = rev.len();
    let mut v: Vec<char> = Vec::new();
    let mut i: usize = n;
    while i > 0
        invariant
            i <= n,
            n == rev@.len(),
            v@ == rev@.reverse().take(n - i),
        decreases i,
    {
        i = i - 1;
        v.push(rev[i]);
        proof {
            assert(v@ =~= rev@.reverse().take(n - i));
        }
    }
    proof {
        assert(rev@.reverse().take(n as int) =~= rev@.reverse());
        assert(m as nat != 0);
    }
    v
}

/// The digit character for a value below 16.
fn char_of_digit(d: u64) -> (c: char)
    requires
        d < 16,
    ensures
        c == crate::digits::digit_char(d as nat),
{
    match d {
        0 => '0',
        1 => '1',
        2 => '2',
        3 => '3',
        4 => '4',
        5 => '5',
        6 => '6',
        7 => '7',
        8 => '8',
        9 => '9',
        10 => 'A',
        11 => 'B',
        12 => 'C',
        13 => 'D',
        14 => 'E',
        _ => 'F',
    }
}

/// The 64-bit two's-complement pattern of `n`.
fn pattern_of_exec(n: i64) -> (p: u64)
    ensures
        p as nat == pattern_of(n),
{
    if n >= 0 {
        n as u64
    } else {
        let a: u64 = (-(n + 1)) as u64;
        0xFFFF_FFFF_FFFF_FFFF - a
    }
}

/// The absolute value of `n`, as an unsigned number.
fn magnitude_exec(n: i64) -> (m: u64)
    ensures
        m as nat == magnitude_of(n),
{
    if n >= 0 {
        n as u64
    } else {
        let a: u64 = (-(n + 1)) as u64;
        a + 1
    }
}

/// `v` without its leading run of `c` characters.
#[verifier::loop_isolation(false)]
fn strip_leading_chars(v: &Vec<char>, c: char) -> (r: Vec<char>)
    ensures
        r@ == strip_leading(v@, c),
{
    let n = v.len();
    let mut i: usize = 0;
    proof {
        assert(v@.skip(0) =~= v@);
    }
    while i < n && *v.get(i).unwrap() == c
        invariant
            i <= n,
            strip_leading(v@, c) == strip_leading(v@.skip(i as int), c),
        decreases n - i,
    {
        proof {
            assert(v@.skip(i as int)[0] == v@[i as int]);
            assert(v@.skip(i as int).skip(1) =~= v@.skip(i + 1));
        }
        i += 1;
    }
    proof {
        if i < n {
            assert(v@.skip(i as int)[0] == v@[i as int]);
        }
        assert(strip_leading(v@.skip(i as int), c) == v@.skip(i as int));
    }
    let mut r: Vec<char> = Vec::new();
    let mut j: usize = i;
    while j < n
        invariant
            i <= j <= n,
            r@ == v@.subrange(i as int, j as int),
        decreases n - j,
    {
        r.push(*v.get(j).unwrap());
        proof {
            assert(v@.subrange(i as int, j + 1) =~= v@.subrange(i as int, j as int) + seq![
                v@[j as int],
            ]);
        }
        j += 1;
    }
    proof {
        assert(v@.subrange(i as int, n as int) =~= v@.skip(i as int));
    }
    r
}

/// Renders `number` in decimal: plain below one thousand in magnitude,
/// otherwise the magnitude's digits grouped into blocks of three
/// separated by spaces, a leading `-` standing directly before the
/// first group.
pub fn format_decimal(number: i64) -> (r: String)
    ensures
        r@ == spec_format_decimal(number),
{
    let m = magnitude_exec(number);
    let v = u64_digits(m, 10);
    let digits_str = chars_to_string(&v);
    proof {
        lemma_numeral_of(m as nat, 10);
        reveal_strlit(" ");
        assert(" "@ =~= seq![' ']);
    }
    if -1000 < number && number < 1000 {
        if number < 0 {
            let mut out = String::new();
            push_char(&mut out, '-');
            out.append(digits_str.as_str());
            proof {
                assert(out@ =~= decimal_seq(number));
            }
            out
        } else {
            digits_str
        }
    } else {
        let grouped_digits = group_into(digits_str, 3, " ", None);
        if number < 0 {
            let mut out = String::new();
            push_char(&mut out, '-');
            out.append(grouped_digits.as_str());
            proof {
                assert(out@ =~= seq!['-'] + grouped_digits@);
            }
            out
        } else {
            grouped_digits
        }
    }
}

/// Renders `number` in hexadecimal, in groups of four digits with zero
/// padding; for a negative value the leading run of `F` digits collapses
/// to a single `F`.
pub fn format_hex(number: i64) -> (r: String)
    ensures
        r@ == spec_format_hex(number),
{
    proof {
        reveal_strlit(" ");
        assert(" "@ =~= seq![' ']);
    }
    if number >= 0 {
        let v = u64_digits(number as u64, 16);
        proof {
            lemma_numeral_of(number as nat, 16);
        }
        group_into(chars_to_string(&v), 4, " ", Some('0'))
    } else {
        let p = pattern_of_exec(number);
        let v = u64_digits(p, 16);
        let stripped = strip_leading_chars(&v, 'F');
        let mut head = String::new();
        push_char(&mut head, 'F');
        let tail = chars_to_string(&stripped);
        head.append(tail.as_str());
        proof {
            assert(head@ =~= seq!['F'] + strip_leading(numeral_of(pattern_of(number), 16), 'F'));
        }
        group_into(head, 4, " ", Some('0'))
    }
}

/// Renders `number` as the binary digits of its 64-bit pattern, grouped
/// by four with zero padding; for a negative value the first group is
/// kept and the run of ` 1111` sign-extension groups directly behind it
/// is removed.
#[verifier::loop_isolation(false)]
pub fn format_binary(number: i64) -> (r: String)
    ensures
        r@ == spec_format_binary(number),
{
    proof {
        reveal_strlit(" ");
        assert(" "@ =~= seq![' ']);
    }
    let p = pattern_of_exec(number);
    let v = u64_digits(p, 2);
    proof {
        lemma_numeral_of(p as nat, 2);
    }
    let grouped_bin = group_into(chars_to_string(&v), 4, " ", Some('0'));
    if number >= 0 {
        return grouped_bin;
    }
    let s = grouped_bin.as_str();
    let n = s.unicode_len();
    if n < 4 {
        return grouped_bin;
    }
    let mut i: usize = 4;
    while n - i >= 5 && s.get_char(i) == ' ' && s.get_char(i + 1) == '1' && s.get_char(i + 2)
        == '1' && s.get_char(i + 3) == '1' && s.get_char(i + 4) == '1'
        invariant
            4 <= i <= n,
            drop_ones_groups(s@.skip(4)) == drop_ones_groups(s@.skip(i as int)),
        decreases n - i,
    {
        proof {
            let t = s@.skip(i as int);
            assert(t.take(5) =~= ones_group());
            assert(t.skip(5) =~= s@.skip(i + 5));
        }
        i += 5;
    }
    proof {
        let t = s@.skip(i as int);
        if t.len() >= 5 {
            assert(t.take(5) != ones_group()) by {
                if t.take(5) == ones_group() {
                    assert(t.take(5)[0] == s@[i as int]);
                    assert(t.take(5)[1] == s@[i + 1]);
                    assert(t.take(5)[2] == s@[i + 2]);
                    assert(t.take(5)[3] == s@[i + 3]);
                    assert(t.take(5)[4] == s@[i + 4]);
                }
            }
        }
        assert(drop_ones_groups(t) == t);
    }
    let mut out = String::new();
    out.append(s.substring_char(0, 4));
    out.append(s.substring_char(i, n));
    proof {
        assert(s@.subrange(0, 4) =~= s@.take(4));
        assert(s@.subrange(i as int, n as int) =~= s@.skip(i as int));
        assert(out@ =~= s@.take(4) + drop_ones_groups(s@.skip(4)));
    }
    out
}

/// Renders `number` in octal: plain digits for a non-negative value; for
/// a negative value the marker `17[7]7` followed by the significant
/// octal digits of its 64-bit pattern.
pub fn format_octal(number: i64) -> (r: String)
    ensures
        r@ == spec_format_octal(number),
{
    if number >= 0 {
        let v = u64_digits(number as u64, 8);
        chars_to_string(&v)
    } else {
        let p = pattern_of_exec(number);
        let v = u64_digits(p, 8);
        proof {
            assert(p >= 0x8000_0000_0000_0000);
            lemma_digits_of_len2(p as nat, 8);
        }
        let rest = strip_leading_chars(&skip_two(&v), '7');
        let mut out = String::from_str("17[7]7");
        let tail = chars_to_string(&rest);
        out.append(tail.as_str());
        proof {
            reveal_strlit("17[7]7");
            assert("17[7]7"@ =~= octal_marker());
        }
        out
    }
}

/// `v` without its first two characters.
fn skip_two(v: &Vec<char>) -> (r: Vec<char>)
    requires
        v@.len() >= 2,
    ensures
        r@ == v@.skip(2),
{
    let mut r: Vec<char> = Vec::new();
    let mut j: usize = 2;
    while j < v.len()
        invariant
            2 <= j <= v@.len(),
            r@ == v@.subrange(2, j as int),
        decreases v@.len() - j,
    {
        r.push(*v.get(j).unwrap());
        proof {
            assert(v@.subrange(2, j + 1) =~= v@.subrange(2, j as int) + seq![v@[j as int]]);
        }
        j += 1;
    }
    proof {
        assert(v@.subrange(2, v@.len() as int) =~= v@.skip(2));
    }
    r
}

/// The output block printed for one number: the four renderings behind
/// their labels and base prefixes, closed by a separator line of twenty
/// dashes.
pub open spec fn spec_output_block(n: i64) -> Seq<char> {
    "Here's different representations of your number:\n"@ + "Dec:  "@ + spec_format_decimal(n)
        + "\nHex:  0x"@ + spec_format_hex(n) + "\nBin:  0b"@ + spec_format_binary(n)
        + "\nOct:  0o"@ + spec_format_octal(n) + "\n--------------------\n"@
}

/// Builds the full output block for `number`.
pub fn render_output_block(number: i64) -> (r: String)
    ensures
        r@ == spec_output_block(number),
{
    let mut out = String::from_str("Here's different representations of your number:\n");
    out.append("Dec:  ");
    let d = format_decimal(number);
    out.append(d.as_str());
    out.append("\nHex:  0x");
    let h = format_hex(number);
    out.append(h.as_str());
    out.append("\nBin:  0b");
    let b = format_binary(number);
    out.append(b.as_str());
    out.append("\nOct:  0o");
    let o = format_octal(number);
    out.append(o.as_str());
    out.append("\n--------------------\n");
    out
}

} // verus!
