//! Character classes and UTF-8 facts used by the chunker and the tokenizer.
use vstd::prelude::*;
use vstd::utf8::*;

verus! {

broadcast use vstd::utf8::group_utf8_lib;

/// The Unicode `Alphabetic` property of a character beyond ASCII, as
/// `char::is_alphabetic` reports it.
pub uninterp spec fn alphabetic_beyond_ascii(c: char) -> bool;

/// Whether a character beyond ASCII is in one of the Unicode numeric general
/// categories (`Nd`, `Nl`, `No`), as `char::is_numeric` reports it.
pub uninterp spec fn numeric_beyond_ascii(c: char) -> bool;

/// An ASCII letter, `A` to `Z` or `a` to `z`.
pub open spec fn ascii_letter(c: char) -> bool {
    ('A' <= c && c <= 'Z') || ('a' <= c && c <= 'z')
}

/// An ASCII digit, `0` to `9`.
pub open spec fn ascii_digit(c: char) -> bool {
    '0' <= c && c <= '9'
}

/// The Unicode `Alphabetic` property: in ASCII exactly the letters.
pub open spec fn unicode_alphabetic(c: char) -> bool {
    if (c as u32) < 0x80 {
        ascii_letter(c)
    } else {
        alphabetic_beyond_ascii(c)
    }
}

/// The Unicode numeric general categories: in ASCII exactly the digits.
pub open spec fn unicode_numeric(c: char) -> bool {
    if (c as u32) < 0x80 {
        ascii_digit(c)
    } else {
        numeric_beyond_ascii(c)
    }
}

/// The Unicode `White_Space` property (PropList.txt), as `char::is_whitespace`
/// reports it: tab to carriage return, space, next line, no-break space,
/// ogham space mark, the spaces U+2000 to U+200A, the line and paragraph
/// separators, the narrow no-break space, the medium mathematical space and
/// the ideographic space.
pub open spec fn unicode_whitespace(c: char) -> bool {
    let u = c as u32;
    ||| 0x09 <= u <= 0x0D
    ||| u == 0x20
    ||| u == 0x85
    ||| u == 0xA0
    ||| u == 0x1680
    ||| 0x2000 <= u <= 0x200A
    ||| u == 0x2028
    ||| u == 0x2029
    ||| u == 0x202F
    ||| u == 0x205F
    ||| u == 0x3000
}


/// `char::is_alphanumeric` is documented as "alphabetic or numeric".
pub open spec fn unicode_alphanumeric(c: char) -> bool {
    unicode_alphabetic(c) || unicode_numeric(c)
}

/// Calls `char::is_alphabetic`, which reports the `Alphabetic` property. In
/// ASCII that property holds of the 52 letters and nothing else; beyond ASCII
/// the result is left to the name `alphabetic_beyond_ascii`.
#[verifier::external_body]
pub(crate) fn is_alphabetic(c: char) -> (r: bool)
    ensures
        (c as u32) < 0x80 ==> (r <==> ascii_letter(c)),
        (c as u32) >= 0x80 ==> r == alphabetic_beyond_ascii(c),
{
    c.is_alphabetic()
}

/// Calls `char::is_numeric`, which reports the numeric general categories. In
/// ASCII only the ten digits are in one (`Nd`); beyond ASCII the result is
/// left to the name `numeric_beyond_ascii`.
#[verifier::external_body]
pub(crate) fn is_numeric(c: char) -> (r: bool)
    ensures
        (c as u32) < 0x80 ==> (r <==> ascii_digit(c)),
        (c as u32) >= 0x80 ==> r == numeric_beyond_ascii(c),
{
    c.is_numeric()
}

/// `char::is_whitespace`: the `White_Space` property, a fixed list of code
/// points.
pub(crate) fn is_whitespace(c: char) -> (r: bool)
    ensures
        r == unicode_whitespace(c),
{
    let u = c as u32;
    (0x09 <= u && u <= 0x0D) || u == 0x20 || u == 0x85 || u == 0xA0 || u == 0x1680 || (0x2000
        <= u && u <= 0x200A) || u == 0x2028 || u == 0x2029 || u == 0x202F || u == 0x205F || u
        == 0x3000
}

/// `char::is_alphanumeric`, written out as its documentation defines it.
pub(crate) fn is_alphanumeric(c: char) -> (r: bool)
    ensures
        r == unicode_alphanumeric(c),
{
    is_alphabetic(c) || is_numeric(c)
}

/// Number of bytes in the UTF-8 encoding of `c` (what `char::len_utf8` returns).
pub(crate) fn utf8_width(c: char) -> (n: usize)
    ensures
        n == encode_scalar(c as u32).len(),
        1 <= n <= 4,
{
    let u = c as u32;
    if u <= 0x7F {
        1
    } else if u <= 0x7FF {
        2
    } else if u <= 0xFFFF {
        3
    } else {
        4
    }
}

/// The characters of `s`, collected in order.
pub(crate) fn chars_of(s: &str) -> (out: Vec<char>)
    ensures
        out@ == s@,
{
    let mut out: Vec<char> = Vec::new();
    for c in it: s.chars()
        invariant
            out@ == it.seq().take(it.index() as int),
    {
        out.push(c);
    }
    out
}

/// Calls `String::push`, which appends one character.
#[verifier::external_body]
pub(crate) fn push_char(s: &mut String, c: char)
    ensures
        final(s)@ == old(s)@.push(c),
{
    s.push(c);
}

/// Calls `std::str::from_utf8`, which succeeds exactly on valid UTF-8 and then
/// holds the characters those bytes encode.
#[verifier::external_body]
pub(crate) fn str_from_utf8(bytes: &[u8]) -> (r: Option<&str>)
    ensures
        r is Some <==> valid_utf8(bytes@),
        r matches Some(s) ==> s@ == decode_utf8(bytes@),
{
    std::str::from_utf8(bytes).ok()
}

/// What `String::from_utf8_lossy` makes of a byte sequence.
pub uninterp spec fn utf8_lossy(bytes: Seq<u8>) -> Seq<char>;

/// Calls `String::from_utf8_lossy`. Its documentation promises that valid
/// UTF-8 comes back unchanged; how invalid sequences are replaced by U+FFFD is
/// left to the name `utf8_lossy`.
#[verifier::external_body]
pub(crate) fn string_from_utf8_lossy(bytes: &[u8]) -> (s: String)
    ensures
        s@ == utf8_lossy(bytes@),
        valid_utf8(bytes@) ==> s@ == decode_utf8(bytes@),
{
    String::from_utf8_lossy(bytes).into_owned()
}

/// What the `Debug` formatting of a string prints: the text in double quotes,
/// with quotes, backslashes, control and non-printable characters escaped.
pub uninterp spec fn debug_str(s: Seq<char>) -> Seq<char>;

/// Formats a string with `{:?}`. The escaping rules depend on Unicode tables,
/// so the result is left to the name `debug_str`.
#[verifier::external_body]
pub(crate) fn debug_format(s: &str) -> (r: String)
    ensures
        r@ == debug_str(s@),
{
    format!("{:?}", s)
}

/// UTF-8 encoding distributes over concatenation.
pub proof fn lemma_encode_utf8_concat(a: Seq<char>, b: Seq<char>)
    ensures
        encode_utf8(a + b) == encode_utf8(a) + encode_utf8(b),
    decreases a.len(),
{
    if a.len() == 0 {
        assert(a + b =~= b);
        assert(encode_utf8(a) =~= Seq::<u8>::empty());
        assert(encode_utf8(a) + encode_utf8(b) =~= encode_utf8(b));
    } else {
        lemma_encode_utf8_concat(a.drop_first(), b);
        assert((a + b).drop_first() =~= a.drop_first() + b);
        assert((a + b)[0] == a[0]);
        assert(encode_utf8(a + b) =~= encode_utf8(a) + encode_utf8(b));
    }
}

/// Two character sequences with the same encoding are equal.
pub proof fn lemma_encode_utf8_injective(a: Seq<char>, b: Seq<char>)
    requires
        encode_utf8(a) == encode_utf8(b),
    ensures
        a == b,
{
    assert(decode_utf8(encode_utf8(a)) == a);
    assert(decode_utf8(encode_utf8(b)) == b);
}

/// The encoding of a prefix is a prefix of the encoding.
pub proof fn lemma_encode_utf8_take(cs: Seq<char>, k: int)
    requires
        0 <= k <= cs.len(),
    ensures
        encode_utf8(cs.take(k)) == encode_utf8(cs).take(encode_utf8(cs.take(k)).len() as int),
        encode_utf8(cs.skip(k)) == encode_utf8(cs).skip(encode_utf8(cs.take(k)).len() as int),
        encode_utf8(cs.take(k)).len() <= encode_utf8(cs).len(),
{
    lemma_encode_utf8_concat(cs.take(k), cs.skip(k));
    assert(cs.take(k) + cs.skip(k) =~= cs);
    let n = encode_utf8(cs.take(k)).len() as int;
    assert(encode_utf8(cs).take(n) =~= encode_utf8(cs.take(k)));
    assert(encode_utf8(cs).skip(n) =~= encode_utf8(cs.skip(k)));
}

/// Encoding the characters `i..e` gives the bytes between the encodings of the
/// two prefixes.
pub proof fn lemma_encode_utf8_subrange(cs: Seq<char>, i: int, e: int)
    requires
        0 <= i <= e <= cs.len(),
    ensures
        encode_utf8(cs.take(i)).len() <= encode_utf8(cs.take(e)).len(),
        encode_utf8(cs.subrange(i, e)) == encode_utf8(cs).subrange(
            encode_utf8(cs.take(i)).len() as int,
            encode_utf8(cs.take(e)).len() as int,
        ),
{
    let pre = cs.take(e);
    lemma_encode_utf8_take(cs, e);
    lemma_encode_utf8_take(pre, i);
    assert(pre.take(i) =~= cs.take(i));
    assert(pre.skip(i) =~= cs.subrange(i, e));
    let a = encode_utf8(cs.take(i)).len() as int;
    let b = encode_utf8(cs.take(e)).len() as int;
    assert(encode_utf8(cs).subrange(a, b) =~= encode_utf8(pre).skip(a));
}

/// The end of an encoded prefix is a character boundary.
pub proof fn lemma_encode_utf8_boundary(cs: Seq<char>, k: int)
    requires
        0 <= k <= cs.len(),
    ensures
        is_char_boundary(encode_utf8(cs), encode_utf8(cs.take(k)).len() as int),
    decreases k,
{
    let bytes = encode_utf8(cs);
    assert(valid_utf8(bytes));
    if k == 0 {
        assert(cs.take(0) =~= Seq::<char>::empty());
        assert(encode_utf8(cs.take(0)).len() == 0);
    } else {
        encode_utf8_first_scalar(cs);
        let rest = cs.drop_first();
        assert(pop_first_scalar(bytes) =~= encode_utf8(rest));
        lemma_encode_utf8_boundary(rest, k - 1);
        assert(cs.take(k).drop_first() =~= rest.take(k - 1));
        assert(cs.take(k)[0] == cs[0]);
        assert(encode_utf8(cs.take(k)).len() == encode_scalar(cs[0] as u32).len() + encode_utf8(
            rest.take(k - 1),
        ).len());
        lemma_encode_utf8_take(cs, k);
    }
}

/// A character sequence never encodes to fewer bytes than it has characters.
pub proof fn lemma_encode_utf8_len(cs: Seq<char>)
    ensures
        cs.len() <= encode_utf8(cs).len() <= 4 * cs.len(),
    decreases cs.len(),
{
    if cs.len() > 0 {
        lemma_encode_utf8_len(cs.drop_first());
        char_is_scalar(cs[0]);
    }
}

} // verus!
