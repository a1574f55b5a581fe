//! Character classes and small string utilities that the validator,
//! the dispatcher and the renderer share.
use vstd::prelude::*;

verus! {

/// A character is a decimal digit.
pub open spec fn is_digit(c: char) -> bool {
    '0' <= c && c <= '9'
}

/// Decimal value of a digit character.
pub open spec fn digit_val(c: char) -> int {
    c as int - '0' as int
}

/// A character is a hexadecimal digit.
pub open spec fn is_hex_digit(c: char) -> bool {
    is_digit(c) || ('a' <= c && c <= 'f') || ('A' <= c && c <= 'F')
}

/// Splitting a character sequence on a separator: the list of parts
/// between occurrences of `c`, in order. The empty sequence has one
/// (empty) part, and each separator ends the current part.
pub open spec fn split_char(s: Seq<char>, c: char) -> Seq<Seq<char>>
    decreases s.len(),
{
    if s.len() == 0 {
        seq![Seq::<char>::empty()]
    } else if s[0] == c {
        seq![Seq::<char>::empty()] + split_char(s.drop_first(), c)
    } else {
        let rest = split_char(s.drop_first(), c);
        seq![seq![s[0]] + rest[0]] + rest.drop_first()
    }
}

pub proof fn lemma_split_char_len(s: Seq<char>, c: char)
    ensures
        split_char(s, c).len() >= 1,
    decreases s.len(),
{
    if s.len() != 0 && s[0] != c {
        lemma_split_char_len(s.drop_first(), c);
    }
}

/// A sequence without the separator splits into itself alone.
pub proof fn lemma_split_no_sep(s: Seq<char>, c: char)
    requires
        forall|i: int| 0 <= i < s.len() ==> s[i] != c,
    ensures
        split_char(s, c) =~~= seq![s],
    decreases s.len(),
{
    if s.len() == 0 {
        assert(split_char(s, c) =~~= seq![s]);
    } else {
        lemma_split_no_sep(s.drop_first(), c);
        assert(seq![s[0]] + s.drop_first() =~= s);
        assert(split_char(s, c) =~~= seq![s]);
    }
}

/// Splitting `a + [c] + b` when `a` holds no separator: `a` is the first
/// part and the rest splits `b`.
pub proof fn lemma_split_prefix(a: Seq<char>, b: Seq<char>, c: char)
    requires
        forall|i: int| 0 <= i < a.len() ==> a[i] != c,
    ensures
        split_char(a + seq![c] + b, c) =~~= seq![a] + split_char(b, c),
    decreases a.len(),
{
    let s = a + seq![c] + b;
    if a.len() == 0 {
        assert(s =~= seq![c] + b);
        assert(s[0] == c);
        assert(s.drop_first() =~= b);
    } else {
        lemma_split_prefix(a.drop_first(), b, c);
        assert(s[0] == a[0]);
        assert(s[0] != c);
        assert(s.drop_first() =~= a.drop_first() + seq![c] + b);
        let rest = split_char(s.drop_first(), c);
        assert(rest =~~= seq![a.drop_first()] + split_char(b, c));
        assert(seq![s[0]] + rest[0] =~= a);
        assert(rest.drop_first() =~~= split_char(b, c));
    }
}

/// Split a string on a separator character. The parts, as character
/// sequences, are exactly `split_char` of the input.
pub fn split_on(s: &str, c: char) -> (parts: Vec<String>)
    ensures
        parts.deep_view() =~~= split_char(s@, c),
{
    let n = s.unicode_len();
    let mut parts: Vec<String> = Vec::new();
    let mut start: usize = 0;
    let mut i: usize = 0;
    assert(s@.subrange(0, n as int) =~= s@);
    assert(parts.deep_view() =~~= Seq::<Seq<char>>::empty());
    while i < n
        invariant
            0 <= start <= i <= n == s@.len(),
            split_char(s@, c) =~~= parts.deep_view() + split_char(
                s@.subrange(start as int, n as int),
                c,
            ),
            forall|j: int| start <= j < i ==> s@[j] != c,
        decreases n - i,
    {
        if s.get_char(i) == c {
            let part = String::from_str(s.substring_char(start, i));
            proof {
                let a = s@.subrange(start as int, i as int);
                let b = s@.subrange(i + 1, n as int);
                assert(s@.subrange(start as int, n as int) =~= a + seq![c] + b);
                lemma_split_prefix(a, b, c);
                assert((parts.deep_view() + seq![a]) + split_char(b, c) =~~= parts.deep_view()
                    + (seq![a] + split_char(b, c)));
            }
            parts.push(part);
            assert(parts.deep_view() =~~= parts.deep_view().drop_last() + seq![
                s@.subrange(start as int, i as int),
            ]);
            start = i + 1;
        }
        i += 1;
    }
    let last = String::from_str(s.substring_char(start, n));
    proof {
        lemma_split_no_sep(s@.subrange(start as int, n as int), c);
    }
    parts.push(last);
    assert(parts.deep_view() =~~= parts.deep_view().drop_last() + seq![
        s@.subrange(start as int, n as int),
    ]);
    parts
}

/// ASCII upper-casing of one character; all others are unchanged.
pub open spec fn upper_char(c: char) -> char {
    if 'a' <= c && c <= 'z' {
        ((c as u8) - 32) as char
    } else {
        c
    }
}

/// ASCII upper-casing of a character sequence.
pub open spec fn upper_seq(s: Seq<char>) -> Seq<char> {
    s.map_values(|c: char| upper_char(c))
}

/// Upper-case the ASCII letters of a string.
pub fn ascii_upper(s: &str) -> (r: String)
    ensures
        r@ =~= upper_seq(s@),
{
    let n = s.unicode_len();
    let mut out: Vec<char> = Vec::new();
    let mut i: usize = 0;
    while i < n
        invariant
            0 <= i <= n == s@.len(),
            out@ =~= upper_seq(s@.subrange(0, i as int)),
        decreases n - i,
    {
        let ch = s.get_char(i);
        if 'a' <= ch && ch <= 'z' {
            out.push(((ch as u8) - 32) as char);
        } else {
            out.push(ch);
        }
        assert(s@.subrange(0, i + 1).drop_last() =~= s@.subrange(0, i as int));
        assert(out@ =~= upper_seq(s@.subrange(0, i + 1)));
        i += 1;
    }
    assert(s@.subrange(0, n as int) =~= s@);
    chars_to_string(&out)
}

/// Relies on `core::iter::Iterator::collect` (via `String::from_iter`):
/// collecting characters yields the string of exactly those characters.
#[verifier::external_body]
pub(crate) fn chars_to_string(cs: &Vec<char>) -> (r: String)
    ensures
        r@ == cs@,
{
    cs.iter().collect()
}

/// The character of one decimal digit.
pub open spec fn digit_char(d: int) -> char {
    (('0' as u8) + (d as u8)) as char
}

/// Decimal representation of a natural number, most significant digit first.
pub open spec fn dec_rep(n: nat) -> Seq<char>
    decreases n,
{
    if n < 10 {
        seq![digit_char(n as int)]
    } else {
        dec_rep(n / 10) + seq![digit_char((n % 10) as int)]
    }
}

/// Append the decimal digits of `n` to `out`.
pub fn push_dec_u16(n: u16, out: &mut Vec<char>)
    ensures
        final(out)@ =~= old(out)@ + dec_rep(n as nat),
    decreases n,
{
    if n < 10 {
        out.push((('0' as u8) + (n as u8)) as char);
    } else {
        push_dec_u16(n / 10, out);
        out.push((('0' as u8) + ((n % 10) as u8)) as char);
    }
}

} // verus!
