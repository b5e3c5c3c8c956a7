//! Character-level helpers shared by the regex engine, the searcher and the
//! command-line front end: UTF-8 widths and byte offsets, ASCII case folding,
//! word characters and decimal rendering of numbers.
use vstd::prelude::*;
use vstd::utf8::*;

verus! {

/// Number of bytes of the UTF-8 encoding of `c`.
pub open spec fn utf8_width(c: char) -> nat {
    let n = c as u32;
    if n <= 0x7F {
        1
    } else if n <= 0x7FF {
        2
    } else if n <= 0xFFFF {
        3
    } else {
        4
    }
}

/// Number of bytes of the UTF-8 encoding of a character sequence.
pub open spec fn byte_len(s: Seq<char>) -> nat
    decreases s.len(),
{
    if s.len() == 0 {
        0
    } else {
        byte_len(s.drop_last()) + utf8_width(s.last())
    }
}

/// Byte offset, in the UTF-8 encoding of `s`, of the character at index `k`.
pub open spec fn byte_pos(s: Seq<char>, k: int) -> nat {
    byte_len(s.take(k))
}

pub proof fn lemma_byte_len_concat(a: Seq<char>, b: Seq<char>)
    ensures
        byte_len(a + b) == byte_len(a) + byte_len(b),
    decreases b.len(),
{
    if b.len() == 0 {
        assert(a + b =~= a);
    } else {
        lemma_byte_len_concat(a, b.drop_last());
        assert((a + b).drop_last() =~= a + b.drop_last());
    }
}

pub proof fn lemma_byte_pos_step(s: Seq<char>, k: int)
    requires
        0 <= k < s.len(),
    ensures
        byte_pos(s, k + 1) == byte_pos(s, k) + utf8_width(s[k]),
{
    assert(s.take(k + 1).drop_last() =~= s.take(k));
}

pub proof fn lemma_byte_pos_mono(s: Seq<char>, k1: int, k2: int)
    requires
        0 <= k1 <= k2 <= s.len(),
    ensures
        byte_pos(s, k1) <= byte_pos(s, k2) <= byte_len(s),
        k1 < k2 ==> byte_pos(s, k1) < byte_pos(s, k2),
{
    assert(s.take(k2) =~= s.take(k1) + s.subrange(k1, k2));
    lemma_byte_len_concat(s.take(k1), s.subrange(k1, k2));
    assert(s =~= s.take(k2) + s.skip(k2));
    lemma_byte_len_concat(s.take(k2), s.skip(k2));
    if k1 < k2 {
        let m = s.subrange(k1, k2);
        assert(m.drop_last() + seq![m.last()] =~= m);
        lemma_byte_len_concat(m.drop_last(), seq![m.last()]);
        assert(seq![m.last()].drop_last() =~= Seq::<char>::empty());
    }
}

/// Distinct character indices have distinct byte offsets.
pub proof fn lemma_byte_pos_injective(s: Seq<char>, k1: int, k2: int)
    requires
        0 <= k1 <= s.len(),
        0 <= k2 <= s.len(),
        byte_pos(s, k1) == byte_pos(s, k2),
    ensures
        k1 == k2,
{
    if k1 < k2 {
        lemma_byte_pos_mono(s, k1, k2);
    } else if k2 < k1 {
        lemma_byte_pos_mono(s, k2, k1);
    }
}

pub proof fn lemma_encode_len(s: Seq<char>)
    ensures
        encode_utf8(s).len() == byte_len(s),
    decreases s.len(),
{
    if s.len() > 0 {
        lemma_encode_len(s.drop_first());
        assert(s =~= seq![s[0]] + s.drop_first());
        lemma_byte_len_concat(seq![s[0]], s.drop_first());
        assert(seq![s[0]].drop_last() =~= Seq::<char>::empty());
        vstd::utf8::char_is_scalar(s[0]);
        let v = s[0] as u32;
        assert(encode_scalar(v).len() == utf8_width(s[0]));
        assert(encode_utf8(s) == encode_scalar(v) + encode_utf8(s.drop_first()));
        assert(byte_len(Seq::<char>::empty()) == 0);
        assert(byte_len(seq![s[0]]) == utf8_width(s[0]));
    }
}

/// The byte length of a string slice, which always fits in `usize`.
pub fn str_byte_len(s: &str) -> (n: usize)
    ensures
        n == byte_len(s@),
{
    proof {
        lemma_encode_len(s@);
    }
    let b = s.as_bytes();
    b.len()
}

/// Width in bytes of the UTF-8 encoding of `c`.
pub fn char_width(c: char) -> (w: usize)
    ensures
        w == utf8_width(c),
        1 <= w <= 4,
{
    let n = c as u32;
    if n <= 0x7F {
        1
    } else if n <= 0x7FF {
        2
    } else if n <= 0xFFFF {
        3
    } else {
        4
    }
}

/// The characters of a string slice, in order.
pub fn chars_of(s: &str) -> (v: Vec<char>)
    ensures
        v@ == s@,
{
    let mut v: Vec<char> = Vec::new();
    for c in it: s.chars()
        invariant
            v@ == it.seq().take(it.index() as int),
    {
        v.push(c);
    }
    v
}

/// Byte offset of character index `k` in a character sequence whose whole
/// encoding is `total` bytes long.
pub fn byte_offset(s: &[char], k: usize, Ghost(total): Ghost<nat>) -> (b: usize)
    requires
        k <= s@.len(),
        byte_len(s@) == total,
        total <= usize::MAX,
    ensures
        b == byte_pos(s@, k as int),
{
    let mut b: usize = 0;
    let mut i: usize = 0;
    while i < k
        invariant
            i <= k <= s@.len(),
            byte_len(s@) == total,
            total <= usize::MAX,
            b == byte_pos(s@, i as int),
        decreases k - i,
    {
        proof {
            lemma_byte_pos_step(s@, i as int);
            lemma_byte_pos_mono(s@, (i + 1) as int, s@.len() as int);
            assert(s@.take(s@.len() as int) =~= s@);
        }
        b = b + char_width(s[i]);
        i = i + 1;
    }
    b
}

/// Character index whose byte offset is `b`, if `b` falls on a character
/// boundary.
pub fn char_index_of_byte(s: &[char], b: usize) -> (r: Option<usize>)
    ensures
        r matches Some(k) ==> k <= s@.len() && byte_pos(s@, k as int) == b,
        r is None ==> forall|k: int| 0 <= k <= s@.len() ==> byte_pos(s@, k) != b,
{
    let mut acc: usize = 0;
    let mut i: usize = 0;
    while i < s.len()
        invariant
            i <= s@.len(),
            acc == byte_pos(s@, i as int),
            acc <= b,
            forall|k: int| 0 <= k < i ==> byte_pos(s@, k) < acc || i == 0 || byte_pos(s@, k) != b,
            forall|k: int| 0 <= k < i ==> byte_pos(s@, k) != b,
        decreases s@.len() - i,
    {
        if acc == b {
            return Some(i);
        }
        proof {
            lemma_byte_pos_step(s@, i as int);
        }
        let w = char_width(s[i]);
        if w > b - acc {
            proof {
                assert forall|k: int| 0 <= k <= s@.len() implies byte_pos(s@, k) != b by {
                    if k > i {
                        lemma_byte_pos_mono(s@, i + 1, k);
                    }
                }
            }
            return None;
        }
        acc = acc + w;
        i = i + 1;
    }
    if acc == b {
        Some(i)
    } else {
        None
    }
}

/// ASCII lower-case of a character; other characters are unchanged.
pub open spec fn lower(c: char) -> char {
    if 'A' <= c && c <= 'Z' {
        ((c as u32) + 32) as char
    } else {
        c
    }
}

/// ASCII upper-case of a character; other characters are unchanged.
pub open spec fn upper(c: char) -> char {
    if 'a' <= c && c <= 'z' {
        ((c as u32) - 32) as char
    } else {
        c
    }
}

/// ASCII lower-casing takes every capital `A` to `Z` to its small letter, 32
/// code points further on, never leaves a capital, and leaves every other
/// character as it is.
pub proof fn lemma_lower_folds_capitals(c: char)
    ensures
        ('A' <= c && c <= 'Z') ==> lower(c) as u32 == c as u32 + 32 && 'a' <= lower(c) && lower(c) <= 'z',
        !('A' <= c && c <= 'Z') ==> lower(c) == c,
        !('A' <= lower(c) && lower(c) <= 'Z'),
{
}

/// A letter and its capital fold to the same character, whichever case is
/// folded first.
pub proof fn lemma_case_folds_agree(c: char)
    ensures
        lower(upper(c)) == lower(c),
        upper(lower(c)) == upper(c),
{
}

pub fn to_lower(c: char) -> (r: char)
    ensures
        r == lower(c),
{
    if 'A' <= c && c <= 'Z' {
        let n = (c as u32 + 32) as u8;
        n as char
    } else {
        c
    }
}

pub fn to_upper(c: char) -> (r: char)
    ensures
        r == upper(c),
{
    if 'a' <= c && c <= 'z' {
        let n = (c as u32 - 32) as u8;
        n as char
    } else {
        c
    }
}

/// Whether `c` is an ASCII letter or digit.
pub open spec fn is_ascii_alnum(c: char) -> bool {
    ('a' <= c && c <= 'z') || ('A' <= c && c <= 'Z') || ('0' <= c && c <= '9')
}

/// What `char::is_alphanumeric` answers for `c` (Unicode Alphabetic or
/// Numeric); it depends on `c` alone.
pub uninterp spec fn unicode_alphanumeric(c: char) -> bool;

/// Calls `char::is_alphanumeric`. Its result is named `unicode_alphanumeric`;
/// for ASCII characters std documents it to be exactly the letters and digits.
#[verifier::external_body]
fn is_alphanumeric(c: char) -> (r: bool)
    ensures
        r == unicode_alphanumeric(c),
        (c as u32) < 128 ==> (r <==> is_ascii_alnum(c)),
{
    c.is_alphanumeric()
}

/// Word characters: alphanumerics and underscore.
pub open spec fn word_char(c: char) -> bool {
    unicode_alphanumeric(c) || c == '_'
}

pub fn is_word_char(c: char) -> (r: bool)
    ensures
        r == word_char(c),
        (c as u32) < 128 ==> (r <==> (is_ascii_alnum(c) || c == '_')),
{
    is_alphanumeric(c) || c == '_'
}

/// Decimal digits of a natural number, most significant first.
pub open spec fn decimal(n: nat) -> Seq<char>
    decreases n,
{
    if n < 10 {
        seq![digit_char(n)]
    } else {
        decimal(n / 10).push(digit_char(n % 10))
    }
}

pub open spec fn digit_char(d: nat) -> char {
    (('0' as u32) + d) as char
}

fn digit(d: usize) -> (c: char)
    requires
        d < 10,
    ensures
        c == digit_char(d as nat),
{
    let n = (d as u8) + 48u8;
    n as char
}

/// Appends the decimal rendering of `n` to `out`.
pub fn push_decimal(out: &mut String, n: usize)
    ensures
        final(out)@ == old(out)@ + decimal(n as nat),
    decreases n,
{
    if n < 10 {
        out.push(digit(n));
    } else {
        push_decimal(out, n / 10);
        out.push(digit(n % 10));
    }
}

/// Appends every character of `s` to `out`.
pub fn push_chars(out: &mut String, s: &[char])
    ensures
        final(out)@ == old(out)@ + s@,
{
    let mut i: usize = 0;
    while i < s.len()
        invariant
            i <= s@.len(),
            out@ == old(out)@ + s@.take(i as int),
        decreases s@.len() - i,
    {
        out.push(s[i]);
        i = i + 1;
        assert(out@ =~= old(out)@ + s@.take(i as int));
    }
    assert(s@.take(s@.len() as int) =~= s@);
}

/// A string made of the given characters.
pub fn string_of(s: &[char]) -> (r: String)
    ensures
        r@ == s@,
{
    let mut r = String::new();
    push_chars(&mut r, s);
    r
}

/// Gives `String::push` the contract std documents: the character is
/// appended at the end.
pub assume_specification[ String::push ](s: &mut String, ch: char)
    ensures
        final(s)@ == old(s)@.push(ch),
;

/// Gives `char::from_u32` the contract std documents: a character exactly
/// for the Unicode scalar values, with that code point.
pub assume_specification[ char::from_u32 ](i: u32) -> (r: Option<char>)
    ensures
        r is Some <==> (i <= 0xD7FF || (0xE000 <= i && i <= 0x10FFFF)),
        r matches Some(c) ==> c as u32 == i,
;

} // verus!
