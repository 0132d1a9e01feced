//! The laws of the library, proved once and for all: the shape of every
//! grouped string, and the round trips between the formatter's full
//! renderings and the parser.

use vstd::prelude::*;
use crate::digits::{
    all_base_digits, digit_value, digits_value, is_base_digit, lemma_digits_of_leading,
    lemma_numeral_of, lemma_zero_prefix_value, numeral_of,
};
use crate::grouping::{grouped, pad_len, padded, spec_group_into};
use crate::numformat::decimal_seq;
use crate::numparse::{
    lemma_pattern_value_inverse, pattern_of, spec_parse_decimal, spec_parse_digits,
    spec_parse_tagged, spec_parse_user_input, value_of_pattern, ParseError,
};
use crate::textops::{
    lemma_without_char_absent, lemma_without_char_concat, lemma_without_char_single, without_char,
};

verus! {

/// A grouped string is never shorter than the string it groups.
proof fn lemma_grouped_len_ge(t: Seq<char>, g: nat, sep: Seq<char>)
    requires
        1 <= g,
    ensures
        grouped(t, g, sep).len() >= t.len(),
    decreases t.len(),
{
    if t.len() > g {
        lemma_grouped_len_ge(t.take(t.len() - g), g, sep);
    }
}

/// Length of the grouping of a string of whole groups: the string itself
/// plus one separator between each pair of neighboring groups.
proof fn lemma_grouped_exact_length(t: Seq<char>, g: nat, sep: Seq<char>)
    requires
        1 <= g,
        1 <= t.len(),
        t.len() as int % (g as int) == 0,
    ensures
        grouped(t, g, sep).len() == t.len() + (t.len() as int / g as int - 1) * sep.len(),
    decreases t.len(),
{
    let gi = g as int;
    let li = t.len() as int;
    let sl = sep.len() as int;
    let m = li / gi;
    vstd::arithmetic::div_mod::lemma_fundamental_div_mod(li, gi);
    if t.len() <= g {
        if li < gi {
            vstd::arithmetic::div_mod::lemma_small_mod(t.len(), g);
        }
        assert(li == gi);
        vstd::arithmetic::div_mod::lemma_div_by_self(gi);
        assert((m - 1) * sl == 0) by (nonlinear_arith)
            requires
                m == 1,
        ;
    } else {
        let t1 = t.take(li - gi);
        vstd::arithmetic::div_mod::lemma_mod_sub_multiples_vanish(li, gi);
        lemma_grouped_exact_length(t1, g, sep);
        assert((m - 1) * gi + 0 == gi * m - gi) by (nonlinear_arith);
        vstd::arithmetic::div_mod::lemma_fundamental_div_mod_converse_div(li - gi, gi, m - 1, 0);
        assert((li - gi) / gi == m - 1);
        assert(grouped(t, g, sep).len() == grouped(t1, g, sep).len() + sl + g);
        assert((m - 1 - 1) * sl + sl == (m - 1) * sl) by (nonlinear_arith);
    }
}

/// Padding completes the string to a whole number of groups: the group
/// count is the length divided by `g`, rounded up.
proof fn lemma_padded_group_count(len: nat, g: nat)
    requires
        1 <= g,
        1 <= len,
    ensures
        (len + pad_len(len, g)) as int % (g as int) == 0,
        1 <= len + pad_len(len, g),
        (len + pad_len(len, g)) as int / (g as int) == (len + g - 1) as int / (g as int),
{
    let gi = g as int;
    let li = len as int;
    vstd::arithmetic::div_mod::lemma_fundamental_div_mod(li, gi);
    let q = li / gi;
    let r = li % gi;
    assert(gi * q == q * gi) by (nonlinear_arith);
    if r == 0 {
        vstd::arithmetic::div_mod::lemma_fundamental_div_mod_converse_div(
            li + gi - 1,
            gi,
            q,
            gi - 1,
        );
        vstd::arithmetic::div_mod::lemma_fundamental_div_mod_converse_div(li, gi, q, 0);
        vstd::arithmetic::div_mod::lemma_fundamental_div_mod_converse_mod(li, gi, q, 0);
    } else {
        assert((q + 1) * gi == q * gi + gi) by (nonlinear_arith);
        vstd::arithmetic::div_mod::lemma_fundamental_div_mod_converse_mod(
            li + gi - r,
            gi,
            q + 1,
            0,
        );
        vstd::arithmetic::div_mod::lemma_fundamental_div_mod_converse_div(
            li + gi - r,
            gi,
            q + 1,
            0,
        );
        vstd::arithmetic::div_mod::lemma_fundamental_div_mod_converse_div(
            li + gi - 1,
            gi,
            q + 1,
            r - 1,
        );
    }
}

/// Grouping law: with a padding character, the grouped string has
/// `ceil(len/g)` groups of `g` characters and one separator between each
/// pair of groups.
pub proof fn lemma_group_into_padded_length(s: Seq<char>, g: nat, sep: Seq<char>, p: char)
    requires
        1 <= g,
        1 <= s.len(),
    ensures
        spec_group_into(s, g, sep, Option::Some(p)).len() == (s.len() + g - 1) as int / (
        g as int) * g + ((s.len() + g - 1) as int / (g as int) - 1) * sep.len(),
{
    let t = padded(s, g, Option::Some(p));
    assert(t.len() == s.len() + pad_len(s.len(), g));
    lemma_padded_group_count(s.len(), g);
    lemma_grouped_exact_length(t, g, sep);
    let gi = g as int;
    let m = t.len() as int / gi;
    vstd::arithmetic::div_mod::lemma_fundamental_div_mod(t.len() as int, gi);
    assert(gi * m == m * gi) by (nonlinear_arith);
    assert(t.len() == m * g);
}

/// Grouping law for the space separator: the result's length is
/// `ceil(len/g) * g + ceil(len/g) - 1`.
pub proof fn lemma_group_into_space_length(s: Seq<char>, g: nat, p: char)
    requires
        1 <= g,
        1 <= s.len(),
    ensures
        spec_group_into(s, g, seq![' '], Option::Some(p)).len() == (s.len() + g - 1) as int / (
        g as int) * g + (s.len() + g - 1) as int / (g as int) - 1,
{
    lemma_group_into_padded_length(s, g, seq![' '], p);
    let c = (s.len() + g - 1) as int / (g as int);
    assert((c - 1) * seq![' '].len() == c - 1) by (nonlinear_arith)
        requires
            seq![' '].len() == 1,
    ;
}

/// Shape of a grouping around the single-character separator `c`: the
/// last `g` characters hold no separator, and the character just before
/// them, when there is one, is a separator.
proof fn lemma_grouped_structure(t: Seq<char>, g: nat, c: char)
    requires
        1 <= g,
        g <= t.len(),
        forall|i: int| 0 <= i < t.len() ==> t[i] != c,
    ensures
        grouped(t, g, seq![c]).len() >= g,
        forall|j: int|
            grouped(t, g, seq![c]).len() - g <= j < grouped(t, g, seq![c]).len() ==> grouped(
                t,
                g,
                seq![c],
            )[j] != c,
        grouped(t, g, seq![c]).len() > g ==> grouped(t, g, seq![c])[grouped(
            t,
            g,
            seq![c],
        ).len() - g - 1] == c,
{
    let r = grouped(t, g, seq![c]);
    if t.len() <= g {
        assert(r == t);
    } else {
        let li = t.len() as int;
        let a = grouped(t.take(li - g), g, seq![c]);
        let b = t.skip(li - g);
        assert(r == a + seq![c] + b);
        lemma_grouped_len_ge(t.take(li - g), g, seq![c]);
        assert(a.len() >= 1);
        assert(r.len() == a.len() + 1 + g);
        assert forall|j: int| r.len() - g <= j < r.len() implies r[j] != c by {
            assert(r[j] == b[j - (a.len() + 1)]);
            assert(b[j - (a.len() + 1)] == t[li - g + j - (a.len() + 1)]);
        }
        assert(r[r.len() - g - 1] == (a + seq![c])[a.len() as int]);
    }
}

/// Every character of a grouped string comes from the string grouped or
/// from the separator.
proof fn lemma_grouped_chars(t: Seq<char>, g: nat, sep: Seq<char>)
    requires
        1 <= g,
    ensures
        forall|j: int|
            0 <= j < grouped(t, g, sep).len() ==> sep.contains(#[trigger] grouped(t, g, sep)[j])
                || t.contains(grouped(t, g, sep)[j]),
    decreases t.len(),
{
    let r = grouped(t, g, sep);
    if t.len() <= g {
        assert forall|j: int| 0 <= j < r.len() implies sep.contains(#[trigger] r[j])
            || t.contains(r[j]) by {
            assert(t[j] == r[j]);
            assert(t.contains(r[j]));
        }
    } else {
        let li = t.len() as int;
        let t1 = t.take(li - g);
        let a = grouped(t1, g, sep);
        let b = t.skip(li - g);
        lemma_grouped_chars(t1, g, sep);
        assert forall|j: int| 0 <= j < r.len() implies sep.contains(#[trigger] r[j])
            || t.contains(r[j]) by {
            if j < a.len() {
                assert(r[j] == a[j]);
                if t1.contains(a[j]) {
                    let w = choose|w: int| 0 <= w < t1.len() && t1[w] == a[j];
                    assert(t[w] == a[j]);
                    assert(t.contains(r[j]));
                }
            } else if j < a.len() + sep.len() {
                assert(r[j] == sep[j - a.len()]);
                assert(sep.contains(r[j]));
            } else {
                assert(r[j] == b[j - (a.len() + sep.len())]);
                assert(t[li - g + j - (a.len() + sep.len())] == r[j]);
                assert(t.contains(r[j]));
            }
        }
    }
}

/// Grouping law: with a padding character other than the separator, the
/// rightmost group of the result always holds exactly `g` characters.
pub proof fn lemma_rightmost_group_padded(s: Seq<char>, g: nat, p: char)
    requires
        1 <= g,
        1 <= s.len(),
        p != ' ',
        forall|i: int| 0 <= i < s.len() ==> s[i] != ' ',
    ensures
        spec_group_into(s, g, seq![' '], Option::Some(p)).len() >= g,
        forall|j: int|
            spec_group_into(s, g, seq![' '], Option::Some(p)).len() - g <= j < spec_group_into(
                s,
                g,
                seq![' '],
                Option::Some(p),
            ).len() ==> spec_group_into(s, g, seq![' '], Option::Some(p))[j] != ' ',
        spec_group_into(s, g, seq![' '], Option::Some(p)).len() > g ==> spec_group_into(
            s,
            g,
            seq![' '],
            Option::Some(p),
        )[spec_group_into(s, g, seq![' '], Option::Some(p)).len() - g - 1] == ' ',
{
    let t = padded(s, g, Option::Some(p));
    lemma_padded_group_count(s.len(), g);
    if t.len() < g {
        vstd::arithmetic::div_mod::lemma_small_mod(t.len(), g);
    }
    assert(g <= t.len());
    assert(forall|i: int| 0 <= i < t.len() ==> t[i] != ' ');
    lemma_grouped_structure(t, g, ' ');
}

/// Grouping law: without a padding character the result holds nothing
/// but characters of `s` and separators — in particular no sentinel
/// character — and, when `s` spans at least one whole group, its
/// rightmost group holds exactly `g` characters.
pub proof fn lemma_group_into_no_padding(s: Seq<char>, g: nat)
    requires
        1 <= g,
        g <= s.len(),
        forall|i: int| 0 <= i < s.len() ==> s[i] != ' ',
    ensures
        forall|j: int|
            0 <= j < spec_group_into(s, g, seq![' '], Option::None).len() ==> (spec_group_into(
                s,
                g,
                seq![' '],
                Option::None,
            )[j] == ' ' || s.contains(spec_group_into(s, g, seq![' '], Option::None)[j])),
        spec_group_into(s, g, seq![' '], Option::None).len() >= g,
        forall|j: int|
            spec_group_into(s, g, seq![' '], Option::None).len() - g <= j < spec_group_into(
                s,
                g,
                seq![' '],
                Option::None,
            ).len() ==> spec_group_into(s, g, seq![' '], Option::None)[j] != ' ',
        spec_group_into(s, g, seq![' '], Option::None).len() > g ==> spec_group_into(
            s,
            g,
            seq![' '],
            Option::None,
        )[spec_group_into(s, g, seq![' '], Option::None).len() - g - 1] == ' ',
{
    let r = spec_group_into(s, g, seq![' '], Option::None);
    assert(padded(s, g, Option::None) == s);
    lemma_grouped_chars(s, g, seq![' ']);
    assert forall|j: int| 0 <= j < r.len() implies (r[j] == ' ' || s.contains(r[j])) by {
        if seq![' '].contains(r[j]) {
            let w = choose|w: int| 0 <= w < 1 && seq![' '][w] == r[j];
            assert(r[j] == ' ');
        }
    }
    lemma_grouped_structure(s, g, ' ');
}

/// The digits of `p` in `base`, left-padded with zeros to `width`
/// characters when they are fewer.
pub open spec fn zero_extended(p: nat, base: nat, width: nat) -> Seq<char> {
    if numeral_of(p, base).len() >= width {
        numeral_of(p, base)
    } else {
        Seq::new((width - numeral_of(p, base).len()) as nat, |i: int| '0') + numeral_of(p, base)
    }
}

/// The full `width`-digit rendering of the 64-bit two's-complement
/// pattern of `n` in `base`, grouped by four with zero padding — the
/// formatter's grouped shape without any sign collapse.
pub open spec fn full_pattern_rendering(n: i64, base: nat, width: nat) -> Seq<char> {
    spec_group_into(zero_extended(pattern_of(n), base, width), 4, seq![' '], Option::Some('0'))
}

/// The zero-extended digits of `p` are digits of the base and read back
/// as `p`.
proof fn lemma_zero_extended_props(p: nat, base: nat, width: nat)
    requires
        2 <= base <= 16,
    ensures
        zero_extended(p, base, width).len() >= 1,
        all_base_digits(zero_extended(p, base, width), base),
        digits_value(zero_extended(p, base, width), base) == p,
{
    lemma_numeral_of(p, base);
    let u = numeral_of(p, base);
    if u.len() < width {
        let z = Seq::new((width - u.len()) as nat, |i: int| '0');
        lemma_zero_prefix_value(z, u, base);
        assert forall|i: int| 0 <= i < (z + u).len() implies is_base_digit(
            #[trigger] (z + u)[i],
            base,
        ) by {
            if i < z.len() {
                assert((z + u)[i] == '0');
            } else {
                assert((z + u)[i] == u[i - z.len()]);
            }
        }
    }
}

/// A string of digits of a base holds no space character.
proof fn lemma_digits_hold_no_space(t: Seq<char>, base: nat)
    requires
        base <= 16,
        all_base_digits(t, base),
    ensures
        forall|i: int| 0 <= i < t.len() ==> t[i] != ' ',
{
    assert forall|i: int| 0 <= i < t.len() implies t[i] != ' ' by {
        assert(is_base_digit(t[i], base));
        assert(digit_value(' ') == 16);
    }
}

/// Removing every space undoes grouping with the space separator.
proof fn lemma_without_space_grouped(u: Seq<char>, g: nat)
    requires
        1 <= g,
        forall|i: int| 0 <= i < u.len() ==> u[i] != ' ',
    ensures
        without_char(grouped(u, g, seq![' ']), ' ') == u,
    decreases u.len(),
{
    if u.len() <= g {
        lemma_without_char_absent(u, ' ');
    } else {
        let li = u.len() as int;
        let u1 = u.take(li - g);
        let b = u.skip(li - g);
        assert(forall|i: int| 0 <= i < u1.len() ==> u1[i] != ' ');
        assert(forall|i: int| 0 <= i < b.len() ==> b[i] != ' ');
        lemma_without_space_grouped(u1, g);
        lemma_without_char_concat(grouped(u1, g, seq![' ']) + seq![' '], b, ' ');
        lemma_without_char_concat(grouped(u1, g, seq![' ']), seq![' '], ' ');
        lemma_without_char_single(' ', ' ');
        lemma_without_char_absent(b, ' ');
        assert((u1 + Seq::<char>::empty()) + b =~= u);
    }
}

/// A digit string that reads back as the pattern of `n` parses, behind a
/// base tag, to `n`.
proof fn lemma_pattern_parse(w: Seq<char>, base: nat, n: i64)
    requires
        2 <= base <= 16,
        w.len() >= 1,
        all_base_digits(w, base),
        digits_value(w, base) == pattern_of(n),
    ensures
        spec_parse_tagged(w, base) == Ok::<i64, ParseError>(n),
{
    lemma_pattern_value_inverse(n);
    assert(digits_value(w, base) <= 0xFFFF_FFFF_FFFF_FFFF);
    assert(spec_parse_digits(w, base, 0xFFFF_FFFF_FFFF_FFFF) == Ok::<u64, ParseError>(
        digits_value(w, base) as u64,
    ));
    assert(value_of_pattern(pattern_of(n)) == n as int);
}

/// Everything behind the two-character tag: the tagged input dispatches
/// to the tagged reading of its remainder.
proof fn lemma_tag_dispatch(c: char, w: Seq<char>)
    requires
        w.len() >= 1,
        c == 'x' || c == 'b' || c == 'o',
    ensures
        (seq!['0', c] + w).len() >= 2,
        (seq!['0', c] + w)[0] == '0',
        (seq!['0', c] + w)[1] == c,
        (seq!['0', c] + w).skip(2) == w,
{
    assert((seq!['0', c] + w).skip(2) =~= w);
}

/// Round-trip law: parsing `0x` followed by the full 64-bit hexadecimal
/// rendering of `n`, its spaces removed, yields `n` again.
pub proof fn lemma_hex_round_trip(n: i64)
    ensures
        spec_parse_user_input(
            seq!['0', 'x'] + without_char(full_pattern_rendering(n, 16, 16), ' '),
        ) == Ok::<i64, ParseError>(n),
{
    lemma_base_round_trip(n, 16, 16, 'x');
}

/// Round-trip law: parsing `0b` followed by the full 64-bit binary
/// rendering of `n`, its spaces removed, yields `n` again.
pub proof fn lemma_binary_round_trip(n: i64)
    ensures
        spec_parse_user_input(
            seq!['0', 'b'] + without_char(full_pattern_rendering(n, 2, 64), ' '),
        ) == Ok::<i64, ParseError>(n),
{
    lemma_base_round_trip(n, 2, 64, 'b');
}

/// Round-trip law: parsing `0o` followed by the octal digits of the
/// 64-bit pattern of `n` yields `n` again.
pub proof fn lemma_octal_round_trip(n: i64)
    ensures
        spec_parse_user_input(seq!['0', 'o'] + numeral_of(pattern_of(n), 8)) == Ok::<
            i64,
            ParseError,
        >(n),
{
    let u = numeral_of(pattern_of(n), 8);
    lemma_numeral_of(pattern_of(n), 8);
    lemma_tag_dispatch('o', u);
    lemma_pattern_parse(u, 8, n);
}

/// The common part of the hexadecimal and binary round trips.
proof fn lemma_base_round_trip(n: i64, base: nat, width: nat, c: char)
    requires
        2 <= base <= 16,
        c == 'x' && base == 16 || c == 'b' && base == 2,
    ensures
        spec_parse_user_input(
            seq!['0', c] + without_char(full_pattern_rendering(n, base, width), ' '),
        ) == Ok::<i64, ParseError>(n),
{
    let p = pattern_of(n);
    let t = zero_extended(p, base, width);
    lemma_zero_extended_props(p, base, width);
    lemma_digits_hold_no_space(t, base);
    let z = Seq::new(pad_len(t.len(), 4), |i: int| '0');
    let pd = padded(t, 4, Option::Some('0'));
    assert(pd == z + t);
    assert(forall|i: int| 0 <= i < pd.len() ==> pd[i] != ' ') by {
        assert forall|i: int| 0 <= i < pd.len() implies pd[i] != ' ' by {
            if i < z.len() {
                assert(pd[i] == '0');
            } else {
                assert(pd[i] == t[i - z.len()]);
            }
        }
    }
    lemma_without_space_grouped(pd, 4);
    assert(without_char(full_pattern_rendering(n, base, width), ' ') == pd);
    lemma_zero_prefix_value(z, t, base);
    assert(all_base_digits(pd, base)) by {
        assert forall|i: int| 0 <= i < pd.len() implies is_base_digit(
            #[trigger] pd[i],
            base,
        ) by {
            if i < z.len() {
                assert(pd[i] == '0');
            } else {
                assert(pd[i] == t[i - z.len()]);
            }
        }
    }
    lemma_tag_dispatch(c, pd);
    lemma_pattern_parse(pd, base, n);
}

/// Round-trip law: parsing the decimal rendering of `n` yields `n`
/// again.
pub proof fn lemma_decimal_round_trip(n: i64)
    ensures
        spec_parse_user_input(decimal_seq(n)) == Ok::<i64, ParseError>(n),
{
    if n >= 0 {
        let s = numeral_of(n as nat, 10);
        lemma_numeral_of(n as nat, 10);
        assert(is_base_digit(s[0], 10));
        assert(s[0] != '-');
        if s.len() >= 2 {
            lemma_digits_of_leading(n as nat, 10);
            assert(s[0] != '0');
        }
        assert(digits_value(s, 10) <= 0x7FFF_FFFF_FFFF_FFFF);
        assert(spec_parse_decimal(s) == Ok::<i64, ParseError>(n));
    } else {
        let u = numeral_of(crate::numformat::magnitude_of(n), 10);
        lemma_numeral_of(crate::numformat::magnitude_of(n), 10);
        let s = seq!['-'] + u;
        assert(s.len() >= 2);
        assert(s[0] == '-');
        assert(s.skip(1) =~= u);
        assert(digits_value(u, 10) <= 0x8000_0000_0000_0000);
        assert(spec_parse_decimal(s) == Ok::<i64, ParseError>(n));
    }
}

} // verus!
