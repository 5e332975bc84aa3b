//! Text building blocks: decimal rendering of unsigned integers, the
//! lexicographic order of byte strings, and trimming of prefixes.

use vstd::prelude::*;

verus! {

/// The character that stands for the decimal digit `d`; a number above nine
/// is taken for nine.
pub open spec fn digit_char(d: nat) -> char {
    if d == 0 {
        '0'
    } else if d == 1 {
        '1'
    } else if d == 2 {
        '2'
    } else if d == 3 {
        '3'
    } else if d == 4 {
        '4'
    } else if d == 5 {
        '5'
    } else if d == 6 {
        '6'
    } else if d == 7 {
        '7'
    } else if d == 8 {
        '8'
    } else {
        '9'
    }
}

/// The decimal numeral of `n`, most significant digit first, without leading zeros.
pub open spec fn decimal(n: nat) -> Seq<char>
    decreases n,
{
    if n < 10 {
        seq![digit_char(n)]
    } else {
        decimal(n / 10).push(digit_char(n % 10))
    }
}

/// The one-character string for a decimal digit; a number above nine is taken
/// for nine.
pub fn digit_str(d: u8) -> (s: &'static str)
    ensures
        s@ == seq![digit_char(d as nat)],
{
    proof {
        reveal_strlit("0");
        reveal_strlit("1");
        reveal_strlit("2");
        reveal_strlit("3");
        reveal_strlit("4");
        reveal_strlit("5");
        reveal_strlit("6");
        reveal_strlit("7");
        reveal_strlit("8");
        reveal_strlit("9");
    }
    match d {
        0 => "0",
        1 => "1",
        2 => "2",
        3 => "3",
        4 => "4",
        5 => "5",
        6 => "6",
        7 => "7",
        8 => "8",
        _ => "9",
    }
}

/// Appends the decimal numeral of `n` to `out`.
pub fn push_decimal(out: &mut String, n: u128)
    ensures
        final(out)@ == old(out)@ + decimal(n as nat),
    decreases n,
{
    if n >= 10 {
        push_decimal(out, n / 10);
    }
    let d: u8 = (n % 10) as u8;
    out.append(digit_str(d));
}

/// Whether `a` comes strictly before `b` in lexicographic order: at the first
/// position where they differ `a` has the smaller byte, or `a` ends there and
/// `b` goes on.
pub open spec fn lex_before(a: Seq<u8>, b: Seq<u8>) -> bool
    decreases a.len(),
{
    if b.len() == 0 {
        false
    } else if a.len() == 0 {
        true
    } else if a[0] != b[0] {
        a[0] < b[0]
    } else {
        lex_before(a.drop_first(), b.drop_first())
    }
}

/// No byte string comes before itself, and of two byte strings at most one
/// comes before the other.
pub proof fn lemma_lex_before_asymmetric(a: Seq<u8>, b: Seq<u8>)
    ensures
        !(lex_before(a, b) && lex_before(b, a)),
    decreases a.len(),
{
    if a.len() > 0 && b.len() > 0 && a[0] == b[0] {
        lemma_lex_before_asymmetric(a.drop_first(), b.drop_first());
    }
}

/// If `a` does not come before `b`, and `b` does not come before `c`, then `a`
/// does not come before `c`.
pub proof fn lemma_lex_before_negatively_transitive(a: Seq<u8>, b: Seq<u8>, c: Seq<u8>)
    requires
        !lex_before(a, b),
        !lex_before(b, c),
    ensures
        !lex_before(a, c),
    decreases a.len(),
{
    if a.len() > 0 && b.len() > 0 && c.len() > 0 && a[0] == b[0] && b[0] == c[0] {
        lemma_lex_before_negatively_transitive(a.drop_first(), b.drop_first(), c.drop_first());
    }
}

/// Decides the lexicographic order of two byte strings.
pub fn bytes_before(a: &[u8], b: &[u8]) -> (before: bool)
    ensures
        before == lex_before(a@, b@),
{
    let mut i: usize = 0;
    assert(a@.skip(0) =~= a@ && b@.skip(0) =~= b@);
    while i < a.len() && i < b.len()
        invariant
            i <= a@.len(),
            i <= b@.len(),
            lex_before(a@, b@) == lex_before(a@.skip(i as int), b@.skip(i as int)),
        decreases a@.len() - i,
    {
        proof {
            assert(a@.skip(i as int).drop_first() =~= a@.skip(i + 1));
            assert(b@.skip(i as int).drop_first() =~= b@.skip(i + 1));
        }
        if a[i] != b[i] {
            return a[i] < b[i];
        }
        i += 1;
    }
    i < b.len()
}

/// A text without its first character; the empty text stays empty.
pub open spec fn without_first(s: Seq<char>) -> Seq<char> {
    if s.len() > 0 {
        s.subrange(1, s.len() as int)
    } else {
        s
    }
}

/// Drops the first character of a text; the empty text stays empty.
pub fn drop_first_char(s: &str) -> (rest: &str)
    ensures
        rest@ == without_first(s@),
{
    let n = s.unicode_len();
    if n > 0 {
        s.substring_char(1, n)
    } else {
        s
    }
}

/// A text without any leading repetitions of a prefix. An empty prefix removes
/// nothing.
pub open spec fn trimmed(s: Seq<char>, prefix: Seq<char>) -> Seq<char>
    decreases s.len(),
{
    if prefix.len() > 0 && prefix.is_prefix_of(s) {
        trimmed(s.skip(prefix.len() as int), prefix)
    } else {
        s
    }
}

/// Whether `prefix` stands in `s` at the character position `start`.
fn occurs_at(s: &str, len: usize, start: usize, prefix: &str, prefix_len: usize) -> (found: bool)
    requires
        len == s@.len(),
        prefix_len == prefix@.len(),
        start <= len,
    ensures
        found == prefix@.is_prefix_of(s@.skip(start as int)),
{
    if prefix_len > len - start {
        return false;
    }
    let mut j: usize = 0;
    while j < prefix_len
        invariant
            j <= prefix_len,
            len == s@.len(),
            prefix_len == prefix@.len(),
            start + prefix_len <= len,
            forall|k: int| 0 <= k < j ==> prefix@[k] == s@[start + k],
        decreases prefix_len - j,
    {
        if s.get_char(start + j) != prefix.get_char(j) {
            return false;
        }
        j += 1;
    }
    true
}

/// Removes every leading repetition of `prefix` from `s`.
pub fn trim_prefix<'a>(s: &'a str, prefix: &str) -> (rest: &'a str)
    ensures
        rest@ == trimmed(s@, prefix@),
{
    let len = s.unicode_len();
    let prefix_len = prefix.unicode_len();
    if prefix_len == 0 {
        return s;
    }
    let mut start: usize = 0;
    assert(s@.skip(0) =~= s@);
    while occurs_at(s, len, start, prefix, prefix_len)
        invariant
            len == s@.len(),
            prefix_len == prefix@.len(),
            prefix_len > 0,
            start <= len,
            trimmed(s@, prefix@) == trimmed(s@.skip(start as int), prefix@),
        decreases len - start,
    {
        assert(s@.skip(start as int).skip(prefix_len as int) =~= s@.skip(start + prefix_len));
        start += prefix_len;
    }
    s.substring_char(start, len)
}

} // verus!
