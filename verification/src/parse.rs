//! Reading text line by line and word by word, and reading numbers.
use vstd::prelude::*;
use crate::unicode::{is_whitespace, unicode_whitespace};

verus! {

/// Index of the first `'\n'` at or after `i`, or the length if there is none.
pub open spec fn newline_from(s: Seq<char>, i: int) -> int
    decreases s.len() - i,
{
    if i < 0 || i >= s.len() {
        s.len() as int
    } else if s[i] == '\n' {
        i
    } else {
        newline_from(s, i + 1)
    }
}

/// A line without the `'\r'` of a `"\r\n"` ending.
pub open spec fn strip_cr(l: Seq<char>) -> Seq<char> {
    if l.len() > 0 && l.last() == '\r' {
        l.drop_last()
    } else {
        l
    }
}

/// The lines from index `i` on, as `str::lines` yields them: split after
/// each `'\n'`, which is dropped together with a `'\r'` before it; a final
/// line ending adds no empty line.
pub open spec fn lines_from(s: Seq<char>, i: int) -> Seq<Seq<char>>
    decreases s.len() - i,
{
    if i < 0 || i >= s.len() {
        seq![]
    } else {
        let e = newline_from(s, i);
        if e >= s.len() || e < i {
            seq![s.subrange(i, s.len() as int)]
        } else {
            seq![strip_cr(s.subrange(i, e))] + lines_from(s, e + 1)
        }
    }
}

/// The lines of a text, as `str::lines` yields them.
pub open spec fn lines(s: Seq<char>) -> Seq<Seq<char>> {
    lines_from(s, 0)
}

/// Holds only whitespace (what `trim` would make empty).
pub open spec fn is_blank(l: Seq<char>) -> bool {
    forall|k: int| 0 <= k < l.len() ==> #[trigger] unicode_whitespace(l[k])
}

/// First index at or after `i` that is not whitespace.
pub open spec fn skip_space(l: Seq<char>, i: int) -> int
    decreases l.len() - i,
{
    if 0 <= i < l.len() && unicode_whitespace(l[i]) {
        skip_space(l, i + 1)
    } else {
        i
    }
}

/// First index at or after `i` that is whitespace.
pub open spec fn word_end(l: Seq<char>, i: int) -> int
    decreases l.len() - i,
{
    if 0 <= i < l.len() && !unicode_whitespace(l[i]) {
        word_end(l, i + 1)
    } else {
        i
    }
}

/// The words from index `i` on, as `str::split_whitespace` yields them.
pub open spec fn words_from(l: Seq<char>, i: int) -> Seq<Seq<char>>
    decreases l.len() - i,
{
    let a = skip_space(l, i);
    if a < i || a >= l.len() {
        seq![]
    } else {
        let e = word_end(l, a);
        if e <= a || e > l.len() {
            seq![]
        } else {
            seq![l.subrange(a, e)] + words_from(l, e)
        }
    }
}

/// The words of a line, as `str::split_whitespace` yields them.
pub open spec fn words(l: Seq<char>) -> Seq<Seq<char>> {
    words_from(l, 0)
}

/// The value of the decimal digits `s`, continuing from `acc`, as
/// `u32::from_str` reads them: the first character that is not a digit is
/// an error, and so is the first digit that takes the value past `u32::MAX`.
pub open spec fn digits_value(s: Seq<char>, acc: int) -> Result<u32, Seq<char>>
    decreases s.len(),
{
    if s.len() == 0 {
        Ok(acc as u32)
    } else if !('0' <= s[0] <= '9') {
        Err("invalid digit found in string"@)
    } else {
        let v = acc * 10 + (s[0] as int - 48);
        if v > u32::MAX {
            Err("number too large to fit in target type"@)
        } else {
            digits_value(s.drop_first(), v)
        }
    }
}

/// `s.parse::<u32>()`, with the error as its message: an optional `'+'`,
/// then decimal digits.
pub open spec fn parse_u32(s: Seq<char>) -> Result<u32, Seq<char>> {
    if s.len() == 0 {
        Err("cannot parse integer from empty string"@)
    } else if s.len() == 1 && (s[0] == '+' || s[0] == '-') {
        Err("invalid digit found in string"@)
    } else if s[0] == '+' {
        digits_value(s.drop_first(), 0)
    } else {
        digits_value(s, 0)
    }
}

pub proof fn lemma_newline_from(s: Seq<char>, i: int)
    requires
        0 <= i <= s.len(),
    ensures
        i <= newline_from(s, i) <= s.len(),
        newline_from(s, i) < s.len() ==> s[newline_from(s, i)] == '\n',
        forall|k: int| i <= k < newline_from(s, i) ==> #[trigger] s[k] != '\n',
    decreases s.len() - i,
{
    if i < s.len() && s[i] != '\n' {
        lemma_newline_from(s, i + 1);
    }
}

/// The text a list of lines makes when each line is ended by `'\n'`.
pub open spec fn newline_terminated(ls: Seq<Seq<char>>) -> Seq<char> {
    ls.map_values(|l: Seq<char>| l + seq!['\n']).flatten()
}

proof fn lemma_lines_from_rejoin(s: Seq<char>, i: int)
    requires
        0 <= i <= s.len(),
        forall|k: int| 0 <= k < s.len() ==> #[trigger] s[k] != '\r',
    ensures
        newline_terminated(lines_from(s, i)) == (if i == s.len() || s.last() == '\n' {
            s.skip(i)
        } else {
            s.skip(i).push('\n')
        }),
        forall|j: int, k: int|
            0 <= j < lines_from(s, i).len() && 0 <= k < lines_from(s, i)[j].len() ==> #[trigger] lines_from(
                s,
                i,
            )[j][k] != '\n',
    decreases s.len() - i,
{
    let f = |l: Seq<char>| l + seq!['\n'];
    let ls = lines_from(s, i);
    if i == s.len() {
        assert(ls.map_values(f) =~= Seq::<Seq<char>>::empty());
        assert(s.skip(i) =~= Seq::<char>::empty());
    } else {
        lemma_newline_from(s, i);
        let e = newline_from(s, i);
        if e >= s.len() {
            let l = s.subrange(i, s.len() as int);
            assert(ls == seq![l]);
            assert(ls.map_values(f) =~= Seq::<Seq<char>>::empty().push(f(l)));
            Seq::<Seq<char>>::empty().lemma_flatten_push(f(l));
            assert(Seq::<Seq<char>>::empty().flatten() =~= Seq::<char>::empty());
            assert(s.last() == s[s.len() - 1]);
            assert(s.last() != '\n');
            assert(l =~= s.skip(i));
            assert(newline_terminated(ls) =~= s.skip(i).push('\n'));
        } else {
            lemma_lines_from_rejoin(s, e + 1);
            let l = s.subrange(i, e);
            if l.len() > 0 {
                assert(l.last() == s[e - 1]);
            }
            assert(strip_cr(l) == l);
            let rest = lines_from(s, e + 1);
            assert(ls == seq![l] + rest);
            assert(ls.map_values(f) =~= seq![f(l)] + rest.map_values(f));
            assert(ls.map_values(f).drop_first() =~= rest.map_values(f));
            assert(newline_terminated(ls) == f(l) + newline_terminated(rest));
            if e + 1 == s.len() {
                assert(s.last() == '\n');
            }
            assert(s.subrange(i, e) + seq!['\n'] + s.skip(e + 1) =~= s.skip(i));
            assert(s.subrange(i, e) + seq!['\n'] + s.skip(e + 1).push('\n') =~= s.skip(i).push('\n'));
            assert forall|j: int, k: int|
                0 <= j < ls.len() && 0 <= k < ls[j].len() implies #[trigger] ls[j][k] != '\n' by {
                if j > 0 {
                    assert(ls[j] == rest[j - 1]);
                } else {
                    assert(ls[j][k] == s[i + k]);
                }
            }
        }
    }
}

/// Lines split a text without losing any of it: for a text without `'\r'`,
/// no line holds a `'\n'`, and ending every line with `'\n'` gives the text
/// back, followed by one `'\n'` where the text's last line had none. So a
/// final line without a line ending is still a line.
pub proof fn lemma_lines_rejoin(s: Seq<char>)
    requires
        forall|k: int| 0 <= k < s.len() ==> #[trigger] s[k] != '\r',
    ensures
        newline_terminated(lines(s)) == (if s.len() == 0 || s.last() == '\n' {
            s
        } else {
            s.push('\n')
        }),
        forall|j: int, k: int|
            0 <= j < lines(s).len() && 0 <= k < lines(s)[j].len() ==> #[trigger] lines(s)[j][k] != '\n',
{
    lemma_lines_from_rejoin(s, 0);
    assert(s.skip(0) =~= s);
}

pub proof fn lemma_skip_space(l: Seq<char>, i: int)
    requires
        0 <= i <= l.len(),
    ensures
        i <= skip_space(l, i) <= l.len(),
        forall|k: int| i <= k < skip_space(l, i) ==> unicode_whitespace(#[trigger] l[k]),
        skip_space(l, i) < l.len() ==> !unicode_whitespace(l[skip_space(l, i)]),
    decreases l.len() - i,
{
    if i < l.len() && unicode_whitespace(l[i]) {
        lemma_skip_space(l, i + 1);
    }
}

pub proof fn lemma_word_end(l: Seq<char>, i: int)
    requires
        0 <= i <= l.len(),
    ensures
        i <= word_end(l, i) <= l.len(),
        i < l.len() && !unicode_whitespace(l[i]) ==> i < word_end(l, i),
        forall|k: int| i <= k < word_end(l, i) ==> !unicode_whitespace(#[trigger] l[k]),
        word_end(l, i) < l.len() ==> unicode_whitespace(l[word_end(l, i)]),
    decreases l.len() - i,
{
    if i < l.len() && !unicode_whitespace(l[i]) {
        lemma_word_end(l, i + 1);
    }
}

/// First index in `lo..hi` of `cs` that is a `'\n'`, or `hi`.
pub(crate) fn find_newline(cs: &Vec<char>, i: usize) -> (e: usize)
    requires
        i <= cs.len(),
    ensures
        e == newline_from(cs@, i as int),
{
    let mut k = i;
    while k < cs.len() && cs[k] != '\n'
        invariant
            i <= k <= cs.len(),
            newline_from(cs@, i as int) == newline_from(cs@, k as int),
        decreases cs.len() - k,
    {
        k = k + 1;
    }
    k
}

/// First index at or after `i` that is not whitespace.
pub(crate) fn skip_space_at(l: &Vec<char>, i: usize) -> (r: usize)
    requires
        i <= l.len(),
    ensures
        r == skip_space(l@, i as int),
{
    let mut k = i;
    while k < l.len() && is_whitespace(l[k])
        invariant
            i <= k <= l.len(),
            skip_space(l@, i as int) == skip_space(l@, k as int),
        decreases l.len() - k,
    {
        k = k + 1;
    }
    k
}

/// First index at or after `i` that is whitespace.
pub(crate) fn word_end_at(l: &Vec<char>, i: usize) -> (r: usize)
    requires
        i <= l.len(),
    ensures
        r == word_end(l@, i as int),
{
    let mut k = i;
    while k < l.len() && !is_whitespace(l[k])
        invariant
            i <= k <= l.len(),
            word_end(l@, i as int) == word_end(l@, k as int),
        decreases l.len() - k,
    {
        k = k + 1;
    }
    k
}

/// The characters `cs[a..e]`.
pub(crate) fn copy_range(cs: &Vec<char>, a: usize, e: usize) -> (out: Vec<char>)
    requires
        a <= e <= cs.len(),
    ensures
        out@ == cs@.subrange(a as int, e as int),
{
    let mut out: Vec<char> = Vec::new();
    let mut k = a;
    while k < e
        invariant
            a <= k <= e,
            e <= cs.len(),
            out@ == cs@.subrange(a as int, k as int),
        decreases e - k,
    {
        out.push(cs[k]);
        k = k + 1;
        proof {
            assert(out@ =~= cs@.subrange(a as int, k as int));
        }
    }
    out
}

/// Whether `cs[a..e]` spells `lit`.
pub(crate) fn range_is(cs: &Vec<char>, a: usize, e: usize, lit: &str) -> (r: bool)
    requires
        a <= e <= cs.len(),
    ensures
        r == (cs@.subrange(a as int, e as int) == lit@),
{
    let want = crate::unicode::chars_of(lit);
    if e - a != want.len() {
        return false;
    }
    let mut k: usize = 0;
    while k < want.len()
        invariant
            k <= want.len(),
            e - a == want.len(),
            a <= e <= cs.len(),
            want@ == lit@,
            forall|j: int| 0 <= j < k ==> cs@[a + j] == want@[j],
        decreases want.len() - k,
    {
        if cs[a + k] != want[k] {
            proof {
                assert(cs@.subrange(a as int, e as int)[k as int] != lit@[k as int]);
            }
            return false;
        }
        k = k + 1;
    }
    proof {
        assert(cs@.subrange(a as int, e as int) =~= lit@);
    }
    true
}

/// The characters as a `String`.
pub(crate) fn string_of(cs: &Vec<char>) -> (s: String)
    ensures
        s@ == cs@,
{
    let mut s = String::new();
    let mut k: usize = 0;
    while k < cs.len()
        invariant
            k <= cs.len(),
            s@ == cs@.take(k as int),
        decreases cs.len() - k,
    {
        crate::unicode::push_char(&mut s, cs[k]);
        k = k + 1;
        proof {
            assert(s@ =~= cs@.take(k as int));
        }
    }
    proof {
        assert(cs@.take(k as int) =~= cs@);
    }
    s
}

/// Reads `cs[a..e]` as `u32::from_str` does.
pub(crate) fn parse_u32_in(cs: &Vec<char>, a: usize, e: usize) -> (r: Result<u32, String>)
    requires
        a <= e <= cs.len(),
    ensures
        match r {
            Ok(v) => parse_u32(cs@.subrange(a as int, e as int)) == Ok::<u32, Seq<char>>(v),
            Err(msg) => parse_u32(cs@.subrange(a as int, e as int)) == Err::<u32, Seq<char>>(msg@),
        },
{
    let ghost s = cs@.subrange(a as int, e as int);
    if a == e {
        return Err(String::from_str("cannot parse integer from empty string"));
    }
    if e - a == 1 && (cs[a] == '+' || cs[a] == '-') {
        return Err(String::from_str("invalid digit found in string"));
    }
    let mut k = a;
    if cs[a] == '+' {
        k = a + 1;
    }
    let ghost start = k;
    proof {
        if cs[a as int] == '+' {
            assert(s.drop_first() =~= cs@.subrange(k as int, e as int));
        } else {
            assert(s =~= cs@.subrange(k as int, e as int));
        }
    }
    let mut acc: u64 = 0;
    while k < e
        invariant
            a <= k <= e,
            e <= cs.len(),
            acc <= u32::MAX,
            s == cs@.subrange(a as int, e as int),
            parse_u32(s) == digits_value(cs@.subrange(k as int, e as int), acc as int),
        decreases e - k,
    {
        let c = cs[k];
        let ghost rest = cs@.subrange(k as int, e as int);
        proof {
            assert(rest[0] == c);
            assert(rest.drop_first() =~= cs@.subrange(k + 1, e as int));
        }
        if !('0' <= c && c <= '9') {
            return Err(String::from_str("invalid digit found in string"));
        }
        let d = (c as u32 - 48) as u64;
        let v = acc * 10 + d;
        if v > 0xFFFF_FFFF {
            return Err(String::from_str("number too large to fit in target type"));
        }
        acc = v;
        k = k + 1;
    }
    proof {
        assert(cs@.subrange(k as int, e as int) =~= Seq::<char>::empty());
    }
    Ok(acc as u32)
}

} // verus!
