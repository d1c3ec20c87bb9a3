//! Character-level helpers: UTF-8 widths, byte offsets of character
//! positions and the conversion of a `str` into its characters.
use vstd::prelude::*;

verus! {

/// Number of bytes of the UTF-8 encoding of `c`.
pub open spec fn char_width(c: char) -> nat {
    if (c as u32) < 0x80 {
        1
    } else if (c as u32) < 0x800 {
        2
    } else if (c as u32) < 0x10000 {
        3
    } else {
        4
    }
}

/// Number of bytes of the UTF-8 encoding of `cs`.
pub open spec fn utf8_len(cs: Seq<char>) -> nat
    decreases cs.len(),
{
    if cs.len() == 0 {
        0
    } else {
        char_width(cs[0]) + utf8_len(cs.drop_first())
    }
}

/// Byte offset of the character position `i` of `cs`.
pub open spec fn byte_offset(cs: Seq<char>, i: int) -> nat {
    utf8_len(cs.take(i))
}

proof fn lemma_utf8_len_concat(a: Seq<char>, b: Seq<char>)
    ensures
        utf8_len(a + b) == utf8_len(a) + utf8_len(b),
    decreases a.len(),
{
    if a.len() == 0 {
        assert(a + b =~= b);
    } else {
        assert((a + b).drop_first() =~= a.drop_first() + b);
        lemma_utf8_len_concat(a.drop_first(), b);
    }
}

/// Moving one character forward adds that character's width.
pub(crate) proof fn lemma_byte_offset_step(cs: Seq<char>, i: int)
    requires
        0 <= i < cs.len(),
    ensures
        byte_offset(cs, i + 1) == byte_offset(cs, i) + char_width(cs[i]),
{
    assert(cs.take(i + 1) =~= cs.take(i) + seq![cs[i]]);
    lemma_utf8_len_concat(cs.take(i), seq![cs[i]]);
    assert(seq![cs[i]].drop_first() =~= Seq::<char>::empty());
    assert(utf8_len(Seq::<char>::empty()) == 0);
    assert(utf8_len(seq![cs[i]]) == char_width(cs[i]));
}

/// Byte offsets grow with the character position.
pub(crate) proof fn lemma_byte_offset_mono(cs: Seq<char>, i: int, j: int)
    requires
        0 <= i <= j <= cs.len(),
    ensures
        byte_offset(cs, i) <= byte_offset(cs, j),
    decreases j - i,
{
    if i < j {
        lemma_byte_offset_mono(cs, i, j - 1);
        lemma_byte_offset_step(cs, j - 1);
    }
}

/// The width of a character is the length of its UTF-8 encoding.
proof fn lemma_char_width_encoding(c: char)
    ensures
        char_width(c) == vstd::utf8::encode_scalar(c as u32).len(),
{
}

/// The byte length of a character sequence is the length of its UTF-8 encoding.
pub(crate) proof fn lemma_utf8_len_encoding(cs: Seq<char>)
    ensures
        utf8_len(cs) == vstd::utf8::encode_utf8(cs).len(),
    decreases cs.len(),
{
    if cs.len() > 0 {
        lemma_char_width_encoding(cs[0]);
        lemma_utf8_len_encoding(cs.drop_first());
    }
}

/// The number of UTF-8 bytes of `c`.
pub fn char_width_exec(c: char) -> (w: usize)
    ensures
        w == char_width(c),
{
    let v = c as u32;
    if v < 0x80 {
        1
    } else if v < 0x800 {
        2
    } else if v < 0x10000 {
        3
    } else {
        4
    }
}

/// Byte offsets of every character position of `cs`, end included.
pub(crate) fn char_offsets(cs: &Vec<char>, total: usize) -> (offsets: Vec<usize>)
    requires
        utf8_len(cs@) == total,
    ensures
        offsets.len() == cs.len() + 1,
        forall|k: int| 0 <= k <= cs.len() ==> offsets@[k] == byte_offset(cs@, k),
{
    let mut offsets: Vec<usize> = Vec::new();
    let mut acc: usize = 0;
    let mut k: usize = 0;
    proof {
        assert(cs@.take(0) =~= Seq::<char>::empty());
        assert(cs@.take(cs.len() as int) =~= cs@);
    }
    while k < cs.len()
        invariant
            k <= cs.len(),
            utf8_len(cs@) == total,
            cs@.take(cs.len() as int) == cs@,
            offsets.len() == k,
            acc == byte_offset(cs@, k as int),
            forall|m: int| 0 <= m < k ==> offsets@[m] == byte_offset(cs@, m),
        decreases cs.len() - k,
    {
        offsets.push(acc);
        proof {
            lemma_byte_offset_step(cs@, k as int);
            lemma_byte_offset_mono(cs@, k + 1, cs.len() as int);
        }
        acc = acc + char_width_exec(cs[k]);
        k = k + 1;
    }
    offsets.push(acc);
    offsets
}

/// The characters of `s`, in order.
pub fn chars_of(s: &str) -> (v: Vec<char>)
    ensures
        v@ == s@,
{
    let mut v: Vec<char> = Vec::new();
    for c in it: s.chars()
        invariant
            v@ == it.seq().take(it.index() as int),
    {
        v.push(c);
    }
    v
}

/// Whether the non-ASCII character `c` has the Unicode `Alphabetic`
/// property, as `char::is_alphabetic` reports it.
pub uninterp spec fn unicode_alphabetic(c: char) -> bool;

/// Whether the non-ASCII character `c` is alphabetic or numeric in Unicode,
/// as `char::is_alphanumeric` reports it.
pub uninterp spec fn unicode_alphanumeric(c: char) -> bool;

/// Whether `c` is alphabetic, as `char::is_alphabetic` reports it: in
/// ASCII the letters.
pub open spec fn is_alphabetic(c: char) -> bool {
    if (c as u32) < 128 {
        ('a' <= c && c <= 'z') || ('A' <= c && c <= 'Z')
    } else {
        unicode_alphabetic(c)
    }
}

/// Whether `c` is alphabetic or numeric, as `char::is_alphanumeric` reports
/// it: in ASCII the letters and the digits.
pub open spec fn is_alphanumeric(c: char) -> bool {
    if (c as u32) < 128 {
        ('a' <= c && c <= 'z') || ('A' <= c && c <= 'Z') || ('0' <= c && c <= '9')
    } else {
        unicode_alphanumeric(c)
    }
}

/// Whether `c` has the Unicode `White_Space` property (the 25 code points
/// U+0009 to U+000D, U+0020, U+0085, U+00A0, U+1680, U+2000 to U+200A,
/// U+2028, U+2029, U+202F, U+205F and U+3000), as `char::is_whitespace`
/// reports it.
pub open spec fn is_whitespace(c: char) -> bool {
    ||| ('\u{9}' <= c && c <= '\u{d}')
    ||| c == ' '
    ||| c == '\u{85}'
    ||| c == '\u{a0}'
    ||| c == '\u{1680}'
    ||| ('\u{2000}' <= c && c <= '\u{200a}')
    ||| c == '\u{2028}'
    ||| c == '\u{2029}'
    ||| c == '\u{202f}'
    ||| c == '\u{205f}'
    ||| c == '\u{3000}'
}

/// Calls `char::is_alphabetic`. Its result depends on the character alone
/// (the Unicode `Alphabetic` property): in ASCII the letters, outside ASCII
/// the named result `unicode_alphabetic`.
#[verifier::external_body]
pub(crate) fn char_is_alphabetic(c: char) -> (r: bool)
    ensures
        r == is_alphabetic(c),
        (c as u32) >= 128 ==> r == unicode_alphabetic(c),
{
    c.is_alphabetic()
}

/// Calls `char::is_alphanumeric`. Its result depends on the character alone
/// (alphabetic or numeric in Unicode): in ASCII the letters and the digits,
/// outside ASCII the named result `unicode_alphanumeric`.
#[verifier::external_body]
pub(crate) fn char_is_alphanumeric(c: char) -> (r: bool)
    ensures
        r == is_alphanumeric(c),
        (c as u32) >= 128 ==> r == unicode_alphanumeric(c),
{
    c.is_alphanumeric()
}

/// Whether `c` is white space (the Unicode `White_Space` property).
pub fn char_is_whitespace(c: char) -> (r: bool)
    ensures
        r == is_whitespace(c),
{
    ('\u{9}' <= c && c <= '\u{d}') || c == ' ' || c == '\u{85}' || c == '\u{a0}' || c
        == '\u{1680}' || ('\u{2000}' <= c && c <= '\u{200a}') || c == '\u{2028}' || c
        == '\u{2029}' || c == '\u{202f}' || c == '\u{205f}' || c == '\u{3000}'
}

/// Calls `String::push`, which appends one character.
#[verifier::external_body]
pub(crate) fn push_char(s: &mut String, c: char)
    ensures
        final(s)@ == old(s)@.push(c),
{
    s.push(c);
}

/// A `String` holding `lit`.
pub fn owned(lit: &str) -> (s: String)
    ensures
        s@ == lit@,
{
    lit.to_owned()
}

/// Appends the characters `cs[start..end]` to `s`.
pub(crate) fn append_range(s: &mut String, cs: &Vec<char>, start: usize, end: usize)
    requires
        start <= end <= cs.len(),
    ensures
        final(s)@ == old(s)@ + cs@.subrange(start as int, end as int),
{
    let mut k = start;
    while k < end
        invariant
            start <= k <= end <= cs.len(),
            s@ == old(s)@ + cs@.subrange(start as int, k as int),
        decreases end - k,
    {
        push_char(s, cs[k]);
        k = k + 1;
        assert(s@ =~= old(s)@ + cs@.subrange(start as int, k as int));
    }
}

/// Appends `lit` to `s`.
pub(crate) fn append_literal(s: &mut String, lit: &str)
    ensures
        final(s)@ == old(s)@ + lit@,
{
    let cs = chars_of(lit);
    append_range(s, &cs, 0, cs.len());
    assert(cs@.subrange(0, cs.len() as int) =~= lit@);
}

/// A `String` holding the characters `cs[start..end]`.
pub fn string_of(cs: &Vec<char>, start: usize, end: usize) -> (s: String)
    requires
        start <= end <= cs.len(),
    ensures
        s@ == cs@.subrange(start as int, end as int),
{
    let mut s = String::new();
    let mut k = start;
    while k < end
        invariant
            start <= k <= end <= cs.len(),
            s@ == cs@.subrange(start as int, k as int),
        decreases end - k,
    {
        push_char(&mut s, cs[k]);
        k = k + 1;
        assert(s@ =~= cs@.subrange(start as int, k as int));
    }
    s
}

/// Whether `cs[start..end]` is exactly the characters of `lit`.
pub fn matches_literal(cs: &Vec<char>, start: usize, end: usize, lit: &str) -> (b: bool)
    requires
        start <= end <= cs.len(),
    ensures
        b == (cs@.subrange(start as int, end as int) == lit@),
{
    let l = chars_of(lit);
    if end - start != l.len() {
        return false;
    }
    let mut k: usize = 0;
    while k < l.len()
        invariant
            start <= end <= cs.len(),
            end - start == l.len(),
            l@ == lit@,
            k <= l.len(),
            forall|m: int| 0 <= m < k ==> cs@[start + m] == l@[m],
        decreases l.len() - k,
    {
        if cs[start + k] != l[k] {
            assert(cs@.subrange(start as int, end as int)[k as int] != lit@[k as int]);
            return false;
        }
        k = k + 1;
    }
    assert(cs@.subrange(start as int, end as int) =~= lit@);
    true
}

} // verus!
