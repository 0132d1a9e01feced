//! Right-aligned grouping of digit strings: the string is split into
//! groups of a fixed size counted from its right end, the groups are
//! joined by a separator, and the first group may be filled up with a
//! padding character.

use vstd::prelude::*;
use crate::textops::push_char;

verus! {

/// `s` split from the right into groups of `g` characters joined by
/// `sep`; the leftmost group keeps whatever is left over and may be
/// shorter than `g`.
pub open spec fn grouped(s: Seq<char>, g: nat, sep: Seq<char>) -> Seq<char>
    recommends
        1 <= g,
    decreases s.len(),
{
    if g < 1 || s.len() <= g {
        s
    } else {
        grouped(s.take(s.len() - g), g, sep) + sep + s.skip(s.len() - g)
    }
}

/// How many padding characters complete the first group of a string of
/// length `n` to exactly `g` characters.
pub open spec fn pad_len(n: nat, g: nat) -> nat
    recommends
        1 <= g,
{
    if g < 1 || n % g == 0 {
        0
    } else {
        (g - n % g) as nat
    }
}

/// `s` preceded by the padding characters that complete its first group,
/// or `s` itself when no padding character is supplied.
pub open spec fn padded(s: Seq<char>, g: nat, pad: Option<char>) -> Seq<char> {
    match pad {
        Option::Some(p) => Seq::new(pad_len(s.len(), g), |q: int| p) + s,
        Option::None => s,
    }
}

/// What `group_into` returns: the padded string, grouped.
pub open spec fn spec_group_into(s: Seq<char>, g: nat, sep: Seq<char>, pad: Option<char>) -> Seq<
    char,
> {
    grouped(padded(s, g, pad), g, sep)
}

/// Groups `ungrouped` into batches of `group_size` characters, counted
/// from the right end, joined by `separator`. When a padding character is
/// supplied it fills the first batch up to `group_size` characters;
/// otherwise the first batch may be shorter.
#[verifier::loop_isolation(false)]
pub fn group_into(
    ungrouped: String,
    group_size: usize,
    separator: &str,
    padding_char: Option<char>,
) -> (result: String)
    requires
        1 <= group_size,
        1 <= ungrouped@.len(),
    ensures
        result@ == spec_group_into(ungrouped@, group_size as nat, separator@, padding_char),
{
    let g = group_size;
    let sl = ungrouped.as_str();
    let n = sl.unicode_len();
    let rem = n % g;
    let ghost s = ungrouped@;
    let ghost gn = g as nat;
    let ghost sep = separator@;
    let ghost pd = padded(s, gn, padding_char);
    let ghost kk: int = if padding_char is Some {
        pad_len(n as nat, gn) as int
    } else {
        0
    };
    proof {
        assert(pd.len() == n + kk);
        if rem == 0 && n < g {
            vstd::arithmetic::div_mod::lemma_small_mod(n as nat, gn);
        }
        assert(rem == 0 ==> n >= g);
        vstd::arithmetic::div_mod::lemma_fundamental_div_mod(n as int, g as int);
        vstd::arithmetic::div_mod::lemma_mod_multiples_basic(n as int / g as int, g as int);
        assert((n - rem) % (g as int) == 0);
    }
    let mut out = String::new();
    let mut i: usize;
    if rem != 0 && padding_char.is_some() {
        let p = padding_char.unwrap();
        let k = g - rem;
        let mut j: usize = 0;
        while j < k
            invariant
                j <= k,
                out@ == Seq::new(j as nat, |q: int| p),
            decreases k - j,
        {
            push_char(&mut out, p);
            proof {
                assert(out@ =~= Seq::new((j + 1) as nat, |q: int| p));
            }
            j += 1;
        }
        out.append(sl.substring_char(0, rem));
        i = rem;
        proof {
            assert(kk == k);
            assert(out@ =~= pd.take(g as int));
            assert(out@ == grouped(pd.take(i + kk), gn, sep));
        }
    } else {
        let f = if rem == 0 {
            g
        } else {
            rem
        };
        proof {
            assert(pd =~= s);
            assert(f <= n) by {
                vstd::arithmetic::div_mod::lemma_mod_decreases(n as nat, gn);
            }
        }
        out.append(sl.substring_char(0, f));
        i = f;
        proof {
            assert(out@ =~= pd.take(f as int));
            assert(out@ == grouped(pd.take(i + kk), gn, sep));
        }
    }
    proof {
        assert((n - i) % (g as int) == 0) by {
            if rem == 0 {
                vstd::arithmetic::div_mod::lemma_mod_sub_multiples_vanish(n as int, g as int);
            }
        }
    }
    while i < n
        invariant
            i <= n,
            1 <= i + kk,
            (n - i) % (g as int) == 0,
            out@ == grouped(pd.take(i + kk), gn, sep),
        decreases n - i,
    {
        proof {
            if n - i < g {
                vstd::arithmetic::div_mod::lemma_small_mod((n - i) as nat, gn);
            }
            assert(i + g <= n);
        }
        out.append(separator);
        out.append(sl.substring_char(i, i + g));
        proof {
            let t = pd.take(i + kk + g);
            assert(t.take(i + kk) =~= pd.take(i + kk));
            assert(t.skip(i + kk) =~= s.subrange(i as int, i + g));
            assert(grouped(t, gn, sep) == grouped(t.take(i + kk), gn, sep) + sep + t.skip(
                i + kk,
            ));
            assert(out@ == grouped(pd.take(i + kk + g), gn, sep));
            vstd::arithmetic::div_mod::lemma_mod_sub_multiples_vanish((n - i) as int, g as int);
        }
        i += g;
    }
    proof {
        assert(pd.take(n + kk) =~= pd);
    }
    out
}

} // verus!
