//! Small string utilities: appending single characters, comparing string
//! slices, removing space characters, and recognizing the terminal-clear
//! control words.

use vstd::prelude::*;

verus! {

/// Relies on alloc's `ToString` for `char`: the returned `String` holds
/// exactly the one character it was built from.
#[verifier::external_body]
fn char_to_string(c: char) -> (r: String)
    ensures
        r@ == seq![c],
{
    c.to_string()
}

/// Appends one character to a string.
pub fn push_char(s: &mut String, c: char)
    ensures
        final (s)@ == old(s)@ + seq![c],
{
    let t = char_to_string(c);
    s.append(t.as_str());
}

/// Builds the string holding exactly the characters of `v`, in order.
pub fn chars_to_string(v: &Vec<char>) -> (r: String)
    ensures
        r@ == v@,
{
    let mut out = String::new();
    let mut i: usize = 0;
    while i < v.len()
        invariant
            i <= v.len(),
            out@ == v@.take(i as int),
        decreases v.len() - i,
    {
        push_char(&mut out, v[i]);
        proof {
            assert(v@.take(i + 1) =~= v@.take(i as int) + seq![v@[i as int]]);
        }
        i += 1;
    }
    proof {
        assert(v@.take(v.len() as int) =~= v@);
    }
    out
}

/// Character-wise equality of two string slices.
pub fn str_eq(a: &str, b: &str) -> (r: bool)
    ensures
        r == (a@ == b@),
{
    let na = a.unicode_len();
    let nb = b.unicode_len();
    if na != nb {
        return false;
    }
    let mut i: usize = 0;
    while i < na
        invariant
            i <= na,
            na == a@.len(),
            na == b@.len(),
            forall|k: int| 0 <= k < i ==> a@[k] == b@[k],
        decreases na - i,
    {
        let ca = a.get_char(i);
        let cb = b.get_char(i);
        if ca != cb {
            return false;
        }
        i += 1;
    }
    proof {
        assert(a@ =~= b@);
    }
    true
}

/// Whether the input is one of the control words that ask for the terminal
/// to be cleared.
pub fn is_clear_command(s: &str) -> (r: bool)
    ensures
        r == (s@ == "c"@ || s@ == "clear"@ || s@ == "cls"@),
{
    str_eq(s, "c") || str_eq(s, "clear") || str_eq(s, "cls")
}

/// `s` with every occurrence of `c` removed, the remaining characters
/// keeping their order.
pub open spec fn without_char(s: Seq<char>, c: char) -> Seq<char>
    decreases s.len(),
{
    if s.len() == 0 {
        Seq::empty()
    } else if s[0] == c {
        without_char(s.skip(1), c)
    } else {
        seq![s[0]] + without_char(s.skip(1), c)
    }
}

/// Removing a character distributes over concatenation.
pub proof fn lemma_without_char_concat(a: Seq<char>, b: Seq<char>, c: char)
    ensures
        without_char(a + b, c) == without_char(a, c) + without_char(b, c),
    decreases a.len(),
{
    if a.len() == 0 {
        assert(a + b =~= b);
        assert(without_char(a, c) + without_char(b, c) =~= without_char(b, c));
    } else {
        assert((a + b).len() != 0);
        assert((a + b)[0] == a[0]);
        assert((a + b).skip(1) =~= a.skip(1) + b);
        lemma_without_char_concat(a.skip(1), b, c);
        if a[0] != c {
            assert(seq![(a + b)[0]] + (without_char(a.skip(1), c) + without_char(b, c)) =~= (seq![
                a[0],
            ] + without_char(a.skip(1), c)) + without_char(b, c));
        }
    }
}

/// Removing a character from a one-character string keeps or drops that
/// character.
pub proof fn lemma_without_char_single(x: char, c: char)
    ensures
        without_char(seq![x], c) == if x == c {
            Seq::<char>::empty()
        } else {
            seq![x]
        },
{
    let s = seq![x];
    assert(s.len() == 1);
    assert(s[0] == x);
    assert(s.skip(1) =~= Seq::<char>::empty());
    assert(without_char(s.skip(1), c) == Seq::<char>::empty());
    if x == c {
        assert(without_char(s, c) == without_char(s.skip(1), c));
    } else {
        assert(without_char(s, c) == seq![s[0]] + without_char(s.skip(1), c));
        assert(seq![x] + Seq::<char>::empty() =~= seq![x]);
    }
}

/// Removing a character from a string that never holds it changes nothing.
pub proof fn lemma_without_char_absent(s: Seq<char>, c: char)
    requires
        forall|i: int| 0 <= i < s.len() ==> s[i] != c,
    ensures
        without_char(s, c) == s,
    decreases s.len(),
{
    if s.len() != 0 {
        lemma_without_char_absent(s.skip(1), c);
        assert(seq![s[0]] + s.skip(1) =~= s);
    }
}

/// Removes every space character from `s`.
pub fn strip_spaces(s: &str) -> (r: String)
    ensures
        r@ == without_char(s@, ' '),
{
    let n = s.unicode_len();
    let mut out = String::new();
    let mut i: usize = 0;
    while i < n
        invariant
            i <= n,
            n == s@.len(),
            out@ == without_char(s@.take(i as int), ' '),
        decreases n - i,
    {
        let ch = s.get_char(i);
        proof {
            lemma_without_char_concat(s@.take(i as int), seq![s@[i as int]], ' ');
            lemma_without_char_single(s@[i as int], ' ');
            assert(s@.take(i + 1) =~= s@.take(i as int) + seq![s@[i as int]]);
            if s@[i as int] == ' ' {
                assert(without_char(s@.take(i + 1), ' ') =~= without_char(
                    s@.take(i as int),
                    ' ',
                ));
            }
        }
        if ch != ' ' {
            push_char(&mut out, ch);
        }
        i += 1;
    }
    proof {
        assert(s@.take(n as int) =~= s@);
    }
    out
}

} // verus!
