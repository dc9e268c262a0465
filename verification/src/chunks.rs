//! The pre-tokenizer: cuts text into chunks that BPE never merges across.
use vstd::prelude::*;
use vstd::utf8::*;
use vstd::string::StringSliceAdditionalSpecFns;
use crate::unicode::{
    chars_of, is_alphabetic, is_alphanumeric, is_numeric, is_whitespace, lemma_encode_utf8_boundary,
    lemma_encode_utf8_concat, lemma_encode_utf8_injective, lemma_encode_utf8_subrange,
    lemma_encode_utf8_take, unicode_alphabetic, unicode_alphanumeric, unicode_numeric,
    unicode_whitespace, utf8_width,
};

verus! {

broadcast use vstd::utf8::group_utf8_lib;

/// First index at or after `j` that is not alphabetic.
pub open spec fn letter_run_end(cs: Seq<char>, j: int) -> int
    decreases cs.len() - j,
{
    if 0 <= j < cs.len() && unicode_alphabetic(cs[j]) {
        letter_run_end(cs, j + 1)
    } else {
        j
    }
}

/// First index at or after `j` that holds whitespace or an alphanumeric character.
pub open spec fn symbol_run_end(cs: Seq<char>, j: int) -> int
    decreases cs.len() - j,
{
    if 0 <= j < cs.len() && !unicode_whitespace(cs[j]) && !unicode_alphanumeric(cs[j]) {
        symbol_run_end(cs, j + 1)
    } else {
        j
    }
}

/// First index at or after `j` that is not whitespace.
pub open spec fn space_run_end(cs: Seq<char>, j: int) -> int
    decreases cs.len() - j,
{
    if 0 <= j < cs.len() && unicode_whitespace(cs[j]) {
        space_run_end(cs, j + 1)
    } else {
        j
    }
}

/// Where the class of the chunk starting at `i` is decided: one past a
/// single space that precedes a non-whitespace character, else `i` itself.
pub open spec fn class_start(cs: Seq<char>, i: int) -> int {
    if cs[i] == ' ' && i + 1 < cs.len() && !unicode_whitespace(cs[i + 1]) {
        i + 1
    } else {
        i
    }
}

/// End (exclusive) of the chunk that starts at `i`:
/// optional space + letters, optional space + one digit, optional space +
/// symbols, or a whitespace run that leaves its last space to the next word.
pub open spec fn chunk_end(cs: Seq<char>, i: int) -> int {
    let j = class_start(cs, i);
    let c = cs[j];
    if unicode_alphabetic(c) {
        letter_run_end(cs, j)
    } else if unicode_numeric(c) {
        j + 1
    } else if !unicode_whitespace(c) {
        symbol_run_end(cs, j)
    } else {
        let e = space_run_end(cs, j);
        if e < cs.len() && e - j > 1 && cs[e - 1] == ' ' {
            e - 1
        } else {
            e
        }
    }
}

/// The chunks of `cs` from index `i` on.
pub open spec fn chunks_from(cs: Seq<char>, i: int) -> Seq<Seq<char>>
    decreases cs.len() - i,
{
    if i < 0 || i >= cs.len() {
        seq![]
    } else {
        let e = chunk_end(cs, i);
        if e <= i || e > cs.len() {
            seq![]
        } else {
            seq![cs.subrange(i, e)] + chunks_from(cs, e)
        }
    }
}

/// The chunks of a whole text.
pub open spec fn chunks(cs: Seq<char>) -> Seq<Seq<char>> {
    chunks_from(cs, 0)
}

proof fn lemma_letter_run_end(cs: Seq<char>, j: int)
    requires
        0 <= j <= cs.len(),
    ensures
        j <= letter_run_end(cs, j) <= cs.len(),
        j < cs.len() && unicode_alphabetic(cs[j]) ==> j < letter_run_end(cs, j),
        forall|k: int| j <= k < letter_run_end(cs, j) ==> unicode_alphabetic(#[trigger] cs[k]),
        letter_run_end(cs, j) < cs.len() ==> !unicode_alphabetic(cs[letter_run_end(cs, j)]),
    decreases cs.len() - j,
{
    if j < cs.len() && unicode_alphabetic(cs[j]) {
        lemma_letter_run_end(cs, j + 1);
    }
}

proof fn lemma_symbol_run_end(cs: Seq<char>, j: int)
    requires
        0 <= j <= cs.len(),
    ensures
        j <= symbol_run_end(cs, j) <= cs.len(),
        j < cs.len() && !unicode_whitespace(cs[j]) && !unicode_alphanumeric(cs[j]) ==> j
            < symbol_run_end(cs, j),
        forall|k: int|
            j <= k < symbol_run_end(cs, j) ==> !unicode_whitespace(#[trigger] cs[k])
                && !unicode_alphanumeric(cs[k]),
        symbol_run_end(cs, j) < cs.len() ==> (unicode_whitespace(cs[symbol_run_end(cs, j)])
            || unicode_alphanumeric(cs[symbol_run_end(cs, j)])),
    decreases cs.len() - j,
{
    if j < cs.len() && !unicode_whitespace(cs[j]) && !unicode_alphanumeric(cs[j]) {
        lemma_symbol_run_end(cs, j + 1);
    }
}

proof fn lemma_space_run_end(cs: Seq<char>, j: int)
    requires
        0 <= j <= cs.len(),
    ensures
        j <= space_run_end(cs, j) <= cs.len(),
        j < cs.len() && unicode_whitespace(cs[j]) ==> j < space_run_end(cs, j),
        forall|k: int| j <= k < space_run_end(cs, j) ==> unicode_whitespace(#[trigger] cs[k]),
        space_run_end(cs, j) < cs.len() ==> !unicode_whitespace(cs[space_run_end(cs, j)]),
    decreases cs.len() - j,
{
    if j < cs.len() && unicode_whitespace(cs[j]) {
        lemma_space_run_end(cs, j + 1);
    }
}

/// Every chunk is non-empty and stays inside the text.
pub proof fn lemma_chunk_end_bounds(cs: Seq<char>, i: int)
    requires
        0 <= i < cs.len(),
    ensures
        i < chunk_end(cs, i) <= cs.len(),
{
    let j = class_start(cs, i);
    lemma_letter_run_end(cs, j);
    lemma_symbol_run_end(cs, j);
    lemma_space_run_end(cs, j);
}


proof fn lemma_chunks_from_cover(cs: Seq<char>, i: int)
    requires
        0 <= i <= cs.len(),
    ensures
        chunks_from(cs, i).flatten() == cs.skip(i),
        forall|k: int|
            0 <= k < chunks_from(cs, i).len() ==> (#[trigger] chunks_from(cs, i)[k]).len() > 0,
    decreases cs.len() - i,
{
    if i == cs.len() {
        assert(cs.skip(i) =~= Seq::<char>::empty());
    } else {
        lemma_chunk_end_bounds(cs, i);
        let e = chunk_end(cs, i);
        lemma_chunks_from_cover(cs, e);
        let rest = chunks_from(cs, e);
        let all = chunks_from(cs, i);
        assert(all == seq![cs.subrange(i, e)] + rest);
        assert(all.drop_first() =~= rest);
        assert(cs.subrange(i, e) + cs.skip(e) =~= cs.skip(i));
        assert forall|k: int| 0 <= k < all.len() implies (#[trigger] all[k]).len() > 0 by {
            if k > 0 {
                assert(all[k] == rest[k - 1]);
            }
        }
    }
}

/// Splitting loses nothing: the chunks, concatenated, are the text again,
/// and none of them is empty.
pub proof fn lemma_chunks_lossless(cs: Seq<char>)
    ensures
        chunks(cs).flatten() == cs,
        forall|k: int| 0 <= k < chunks(cs).len() ==> (#[trigger] chunks(cs)[k]).len() > 0,
{
    lemma_chunks_from_cover(cs, 0);
    assert(cs.skip(0) =~= cs);
}

fn letter_run(cs: &Vec<char>, j: usize) -> (e: usize)
    requires
        j <= cs.len(),
    ensures
        e == letter_run_end(cs@, j as int),
{
    let mut k = j;
    while k < cs.len() && is_alphabetic(cs[k])
        invariant
            j <= k <= cs.len(),
            letter_run_end(cs@, j as int) == letter_run_end(cs@, k as int),
        decreases cs.len() - k,
    {
        k = k + 1;
    }
    k
}

fn symbol_run(cs: &Vec<char>, j: usize) -> (e: usize)
    requires
        j <= cs.len(),
    ensures
        e == symbol_run_end(cs@, j as int),
{
    let mut k = j;
    while k < cs.len() && !is_whitespace(cs[k]) && !is_alphanumeric(cs[k])
        invariant
            j <= k <= cs.len(),
            symbol_run_end(cs@, j as int) == symbol_run_end(cs@, k as int),
        decreases cs.len() - k,
    {
        k = k + 1;
    }
    k
}

fn space_run(cs: &Vec<char>, j: usize) -> (e: usize)
    requires
        j <= cs.len(),
    ensures
        e == space_run_end(cs@, j as int),
{
    let mut k = j;
    while k < cs.len() && is_whitespace(cs[k])
        invariant
            j <= k <= cs.len(),
            space_run_end(cs@, j as int) == space_run_end(cs@, k as int),
        decreases cs.len() - k,
    {
        k = k + 1;
    }
    k
}

fn next_chunk_end(cs: &Vec<char>, i: usize) -> (e: usize)
    requires
        i < cs.len(),
    ensures
        e == chunk_end(cs@, i as int),
{
    let mut j = i;
    if cs[i] == ' ' && i + 1 < cs.len() && !is_whitespace(cs[i + 1]) {
        j = i + 1;
    }
    assert(j == class_start(cs@, i as int));
    let c = cs[j];
    if is_alphabetic(c) {
        letter_run(cs, j)
    } else if is_numeric(c) {
        j + 1
    } else if !is_whitespace(c) {
        symbol_run(cs, j)
    } else {
        let e = space_run(cs, j);
        proof {
            lemma_space_run_end(cs@, j as int);
        }
        if e < cs.len() && e - j > 1 && cs[e - 1] == ' ' {
            e - 1
        } else {
            e
        }
    }
}

/// Splits text into chunks that BPE may not merge across.
///
/// Four classes, each able to keep one leading space, which is why `" der"`
/// and `"der"` end up as different tokens: a space followed by a run of
/// letters, a space followed by a *single* digit, a space followed by a run
/// of symbols, or a run of whitespace. Digits come one at a time so that the
/// same number always gets the same tokens.
pub fn split_chunks(text: &str) -> (out: Vec<&str>)
    ensures
        out.len() == chunks(text@).len(),
        forall|k: int| 0 <= k < out.len() ==> (#[trigger] out[k])@ == chunks(text@)[k],
{
    let cs = chars_of(text);
    let n = cs.len();
    let total = text.as_bytes().len();
    proof {
        lemma_encode_utf8_take(cs@, n as int);
        assert(cs@.take(n as int) =~= cs@);
    }
    // offs[k] is the byte offset of character k.
    let mut offs: Vec<usize> = Vec::new();
    offs.push(0);
    proof {
        assert(cs@.take(0) =~= Seq::<char>::empty());
    }
    let mut k: usize = 0;
    while k < n
        invariant
            k <= n,
            n == cs.len(),
            cs@ == text@,
            total == encode_utf8(cs@).len(),
            offs.len() == k + 1,
            forall|m: int| 0 <= m <= k ==> #[trigger] offs[m] == encode_utf8(cs@.take(m)).len(),
        decreases n - k,
    {
        let w = utf8_width(cs[k]);
        proof {
            let a = cs@.take(k as int);
            let b = seq![cs@[k as int]];
            lemma_encode_utf8_concat(a, b);
            assert(a + b =~= cs@.take(k + 1));
            assert(b.drop_first() =~= Seq::<char>::empty());
            assert(b[0] == cs@[k as int]);
            assert(encode_utf8(b.drop_first()) =~= Seq::<u8>::empty());
            assert(encode_utf8(b) == encode_scalar(b[0] as u32) + encode_utf8(b.drop_first()));
            assert(encode_utf8(b) =~= encode_scalar(cs@[k as int] as u32));
            lemma_encode_utf8_take(cs@, k + 1);
        }
        let next = offs[k] + w;
        offs.push(next);
        k = k + 1;
    }
    let mut out: Vec<&str> = Vec::new();
    let ghost mut done: Seq<Seq<char>> = seq![];
    let mut i: usize = 0;
    while i < n
        invariant
            i <= n,
            n == cs.len(),
            cs@ == text@,
            offs.len() == n + 1,
            forall|m: int| 0 <= m <= n ==> #[trigger] offs[m] == encode_utf8(cs@.take(m)).len(),
            out.len() == done.len(),
            forall|m: int| 0 <= m < out.len() ==> (#[trigger] out[m])@ == done[m],
            chunks(cs@) == done + chunks_from(cs@, i as int),
        decreases n - i,
    {
        let e = next_chunk_end(&cs, i);
        proof {
            lemma_chunk_end_bounds(cs@, i as int);
            lemma_encode_utf8_boundary(cs@, e as int);
            lemma_encode_utf8_take(cs@, e as int);
        }
        let (left, _rest) = text.split_at(offs[e]);
        proof {
            let pre = cs@.take(e as int);
            assert(left.spec_bytes() == encode_utf8(pre));
            assert(pre.take(i as int) =~= cs@.take(i as int));
            lemma_encode_utf8_boundary(pre, i as int);
            lemma_encode_utf8_take(pre, i as int);
        }
        let (_head, piece) = left.split_at(offs[i]);
        proof {
            lemma_encode_utf8_subrange(cs@, i as int, e as int);
            let pre = cs@.take(e as int);
            assert(piece.spec_bytes() =~= encode_utf8(cs@.subrange(i as int, e as int)));
            lemma_encode_utf8_injective(piece@, cs@.subrange(i as int, e as int));
            let old_done = done;
            done = done.push(cs@.subrange(i as int, e as int));
            assert(chunks_from(cs@, i as int) == seq![cs@.subrange(i as int, e as int)]
                + chunks_from(cs@, e as int));
            assert(done + chunks_from(cs@, e as int) =~= old_done + chunks_from(cs@, i as int));
        }
        out.push(piece);
        i = e;
    }
    proof {
        assert(done + chunks_from(cs@, n as int) =~= done);
    }
    out
}

} // verus!
verus! {

/// All whitespace, or a space at most in front.
pub open spec fn space_only_in_front(ch: Seq<char>) -> bool {
    ||| forall|k: int| 0 <= k < ch.len() ==> unicode_whitespace(#[trigger] ch[k])
    ||| forall|k: int| 1 <= k < ch.len() ==> #[trigger] ch[k] != ' '
}

/// Inside a chunk a space can only come first, unless the chunk is all
/// whitespace: no chunk carries a space into the middle of a word.
pub proof fn lemma_space_only_leads(cs: Seq<char>)
    ensures
        forall|c: int| 0 <= c < chunks(cs).len() ==> space_only_in_front(#[trigger] chunks(cs)[c]),
{
    lemma_space_only_leads_from(cs, 0);
}

proof fn lemma_space_only_leads_from(cs: Seq<char>, i: int)
    requires
        0 <= i <= cs.len(),
    ensures
        forall|c: int|
            0 <= c < chunks_from(cs, i).len() ==> space_only_in_front(#[trigger] chunks_from(cs, i)[c]),
    decreases cs.len() - i,
{
    if i < cs.len() {
        lemma_chunk_end_bounds(cs, i);
        let e = chunk_end(cs, i);
        lemma_space_only_leads_from(cs, e);
        let all = chunks_from(cs, i);
        let rest = chunks_from(cs, e);
        let ch = cs.subrange(i, e);
        assert(all == seq![ch] + rest);
        let j = class_start(cs, i);
        lemma_letter_run_end(cs, j);
        lemma_symbol_run_end(cs, j);
        lemma_space_run_end(cs, j);
        assert(space_only_in_front(ch)) by {
            if unicode_alphabetic(cs[j]) || unicode_numeric(cs[j]) {
                assert forall|k: int| 1 <= k < ch.len() implies #[trigger] ch[k] != ' ' by {
                    assert(ch[k] == cs[i + k]);
                }
            } else if !unicode_whitespace(cs[j]) {
                assert forall|k: int| 1 <= k < ch.len() implies #[trigger] ch[k] != ' ' by {
                    assert(ch[k] == cs[i + k]);
                    assert(i + k >= j);
                }
            } else {
                assert forall|k: int| 0 <= k < ch.len() implies unicode_whitespace(#[trigger] ch[k]) by {
                    assert(ch[k] == cs[i + k]);
                }
            }
        }
        assert forall|c: int| 0 <= c < all.len() implies space_only_in_front(#[trigger] all[c]) by {
            if c > 0 {
                assert(all[c] == rest[c - 1]);
            }
        }
    }
}

/// A number character comes alone: the chunk holding it is that character,
/// or a space and that character. So `"1234"` is four chunks however often
/// it occurs.
pub proof fn lemma_digits_alone(cs: Seq<char>)
    ensures
        forall|c: int, k: int|
            0 <= c < chunks(cs).len() && 0 <= k < chunks(cs)[c].len() && unicode_numeric(
                #[trigger] chunks(cs)[c][k],
            ) && !unicode_alphabetic(chunks(cs)[c][k]) && !unicode_whitespace(chunks(cs)[c][k])
                ==> chunks(cs)[c] == seq![chunks(cs)[c][k]] || chunks(cs)[c] == seq![' ', chunks(cs)[c][k]],
{
    lemma_digits_alone_from(cs, 0);
}

proof fn lemma_digits_alone_from(cs: Seq<char>, i: int)
    requires
        0 <= i <= cs.len(),
    ensures
        forall|c: int, k: int|
            0 <= c < chunks_from(cs, i).len() && 0 <= k < chunks_from(cs, i)[c].len()
                && unicode_numeric(#[trigger] chunks_from(cs, i)[c][k]) && !unicode_alphabetic(
                chunks_from(cs, i)[c][k],
            ) && !unicode_whitespace(chunks_from(cs, i)[c][k]) ==> chunks_from(cs, i)[c] == seq![
                chunks_from(cs, i)[c][k],
            ] || chunks_from(cs, i)[c] == seq![' ', chunks_from(cs, i)[c][k]],
    decreases cs.len() - i,
{
    if i < cs.len() {
        lemma_chunk_end_bounds(cs, i);
        let e = chunk_end(cs, i);
        lemma_digits_alone_from(cs, e);
        let all = chunks_from(cs, i);
        let rest = chunks_from(cs, e);
        let ch = cs.subrange(i, e);
        assert(all == seq![ch] + rest);
        let j = class_start(cs, i);
        lemma_letter_run_end(cs, j);
        lemma_symbol_run_end(cs, j);
        lemma_space_run_end(cs, j);
        assert forall|k: int|
            0 <= k < ch.len() && unicode_numeric(#[trigger] ch[k]) && !unicode_alphabetic(ch[k])
                && !unicode_whitespace(ch[k]) implies ch == seq![ch[k]] || ch == seq![' ', ch[k]] by {
            assert(ch[k] == cs[i + k]);
            if i + k >= j {
                assert(!unicode_whitespace(cs[j]));
                assert(!unicode_alphabetic(cs[j]));
                if j == i {
                    assert(ch =~= seq![ch[k]]);
                } else {
                    assert(ch =~= seq![' ', ch[k]]);
                }
            }
        }
        assert forall|c: int, k: int|
            0 <= c < all.len() && 0 <= k < all[c].len() && unicode_numeric(#[trigger] all[c][k])
                && !unicode_alphabetic(all[c][k]) && !unicode_whitespace(all[c][k]) implies all[c]
            == seq![all[c][k]] || all[c] == seq![' ', all[c][k]] by {
            if c > 0 {
                assert(all[c] == rest[c - 1]);
            } else {
                assert(all[c] == ch);
            }
        }
    }
}

} // verus!
verus! {

/// Every character of a chunk is a character of the text.
pub proof fn lemma_chunk_in_text(cs: Seq<char>, c: int, k: int)
    requires
        0 <= c < chunks(cs).len(),
        0 <= k < chunks(cs)[c].len(),
    ensures
        exists|i: int| 0 <= i < cs.len() && cs[i] == chunks(cs)[c][k],
{
    lemma_chunk_in_text_from(cs, 0, c, k);
}

proof fn lemma_chunk_in_text_from(cs: Seq<char>, i: int, c: int, k: int)
    requires
        0 <= i <= cs.len(),
        0 <= c < chunks_from(cs, i).len(),
        0 <= k < chunks_from(cs, i)[c].len(),
    ensures
        exists|j: int| 0 <= j < cs.len() && cs[j] == chunks_from(cs, i)[c][k],
    decreases cs.len() - i,
{
    lemma_chunk_end_bounds(cs, i);
    let e = chunk_end(cs, i);
    let all = chunks_from(cs, i);
    let rest = chunks_from(cs, e);
    assert(all == seq![cs.subrange(i, e)] + rest);
    if c == 0 {
        assert(all[0][k] == cs[i + k]);
    } else {
        assert(all[c] == rest[c - 1]);
        lemma_chunk_in_text_from(cs, e, c - 1, k);
    }
}

proof fn lemma_letter_run_sub(cs: Seq<char>, i: int, e: int, j: int)
    requires
        0 <= i <= j <= e <= cs.len(),
    ensures
        letter_run_end(cs.subrange(i, e), j - i) == (if letter_run_end(cs, j) < e {
            letter_run_end(cs, j)
        } else {
            e
        }) - i,
    decreases e - j,
{
    let sub = cs.subrange(i, e);
    lemma_letter_run_end(cs, j);
    if j < e {
        assert(sub[j - i] == cs[j]);
        if unicode_alphabetic(cs[j]) {
            lemma_letter_run_sub(cs, i, e, j + 1);
        }
    }
}

proof fn lemma_symbol_run_sub(cs: Seq<char>, i: int, e: int, j: int)
    requires
        0 <= i <= j <= e <= cs.len(),
    ensures
        symbol_run_end(cs.subrange(i, e), j - i) == (if symbol_run_end(cs, j) < e {
            symbol_run_end(cs, j)
        } else {
            e
        }) - i,
    decreases e - j,
{
    let sub = cs.subrange(i, e);
    lemma_symbol_run_end(cs, j);
    if j < e {
        assert(sub[j - i] == cs[j]);
        if !unicode_whitespace(cs[j]) && !unicode_alphanumeric(cs[j]) {
            lemma_symbol_run_sub(cs, i, e, j + 1);
        }
    }
}

proof fn lemma_space_run_sub(cs: Seq<char>, i: int, e: int, j: int)
    requires
        0 <= i <= j <= e <= cs.len(),
    ensures
        space_run_end(cs.subrange(i, e), j - i) == (if space_run_end(cs, j) < e {
            space_run_end(cs, j)
        } else {
            e
        }) - i,
    decreases e - j,
{
    let sub = cs.subrange(i, e);
    lemma_space_run_end(cs, j);
    if j < e {
        assert(sub[j - i] == cs[j]);
        if unicode_whitespace(cs[j]) {
            lemma_space_run_sub(cs, i, e, j + 1);
        }
    }
}

/// A chunk, cut out of its text, is a single chunk on its own.
proof fn lemma_chunk_alone(cs: Seq<char>, i: int)
    requires
        0 <= i < cs.len(),
    ensures
        chunks(cs.subrange(i, chunk_end(cs, i))) == seq![cs.subrange(i, chunk_end(cs, i))],
{
    lemma_chunk_end_bounds(cs, i);
    let e = chunk_end(cs, i);
    let ch = cs.subrange(i, e);
    let j = class_start(cs, i);
    lemma_letter_run_end(cs, j);
    lemma_symbol_run_end(cs, j);
    lemma_space_run_end(cs, j);
    let c = cs[j];
    // The class is decided at the same place inside the chunk.
    assert(class_start(ch, 0) == j - i) by {
        assert(ch[0] == cs[i]);
        if j == i + 1 {
            assert(e > i + 1);
            assert(ch[1] == cs[i + 1]);
        } else if ch.len() >= 2 {
            assert(ch[1] == cs[i + 1]);
        }
    }
    assert(ch[j - i] == c);
    lemma_letter_run_sub(cs, i, e, j);
    lemma_symbol_run_sub(cs, i, e, j);
    lemma_space_run_sub(cs, i, e, j);
    if !unicode_alphabetic(c) && !unicode_numeric(c) && unicode_whitespace(c) {
        let r = space_run_end(cs, j);
        if r < cs.len() && r - j > 1 && cs[r - 1] == ' ' {
            assert(e == r - 1);
        }
    }
    assert(chunk_end(ch, 0) == ch.len());
    assert(chunks_from(ch, ch.len() as int) =~= Seq::<Seq<char>>::empty());
    assert(ch.subrange(0, ch.len() as int) =~= ch);
}

proof fn lemma_chunks_alone_from(cs: Seq<char>, i: int)
    requires
        0 <= i <= cs.len(),
    ensures
        forall|c: int|
            0 <= c < chunks_from(cs, i).len() ==> chunks(#[trigger] chunks_from(cs, i)[c]) == seq![
                chunks_from(cs, i)[c],
            ],
    decreases cs.len() - i,
{
    if i < cs.len() {
        lemma_chunk_end_bounds(cs, i);
        let e = chunk_end(cs, i);
        lemma_chunks_alone_from(cs, e);
        lemma_chunk_alone(cs, i);
        let all = chunks_from(cs, i);
        let rest = chunks_from(cs, e);
        assert(all == seq![cs.subrange(i, e)] + rest);
        assert forall|c: int| 0 <= c < all.len() implies chunks(#[trigger] all[c]) == seq![all[c]] by {
            if c > 0 {
                assert(all[c] == rest[c - 1]);
            }
        }
    }
}

/// Splitting a chunk again gives that chunk back, alone: the split is
/// stable, so text can be handled chunk by chunk.
pub proof fn lemma_chunks_are_stable(cs: Seq<char>)
    ensures
        forall|c: int|
            0 <= c < chunks(cs).len() ==> chunks(#[trigger] chunks(cs)[c]) == seq![chunks(cs)[c]],
{
    lemma_chunks_alone_from(cs, 0);
}

/// A line-break or tab character: U+0009 (tab) to U+000D (carriage return).
pub open spec fn control_space(c: char) -> bool {
    0x09 <= (c as u32) && (c as u32) <= 0x0D
}

/// The chunk classes see every control space (tab, line feed, vertical tab,
/// form feed, carriage return) as whitespace, and neither as a letter nor as
/// a number.
pub proof fn lemma_control_space_is_whitespace(c: char)
    requires
        control_space(c),
    ensures
        unicode_whitespace(c),
        !unicode_alphabetic(c),
        !unicode_numeric(c),
{
}

/// A run of tabs and line breaks, `"\r\n"` among them, is one chunk.
pub proof fn lemma_line_breaks_one_chunk(w: Seq<char>)
    requires
        w.len() > 0,
        forall|k: int| 0 <= k < w.len() ==> control_space(#[trigger] w[k]),
    ensures
        chunks(w) == seq![w],
{
    assert(control_space(w[0]));
    assert(class_start(w, 0) == 0);
    lemma_space_run_end(w, 0);
    let e = space_run_end(w, 0);
    if e < w.len() {
        assert(control_space(w[e]));
    }
    assert(chunk_end(w, 0) == w.len());
    assert(chunks_from(w, w.len() as int) =~= Seq::<Seq<char>>::empty());
    assert(w.subrange(0, w.len() as int) =~= w);
}

/// Two ASCII words with tabs and line breaks between them are three chunks:
/// the first word, the line breaks, the second word. So `"Hallo\r\nWelt"`
/// splits into `"Hallo"`, `"\r\n"`, `"Welt"`, and the words of a text with
/// Windows line endings chunk as they do with Unix ones.
pub proof fn lemma_words_around_line_breaks(a: Seq<char>, w: Seq<char>, b: Seq<char>)
    requires
        a.len() > 0,
        w.len() > 0,
        b.len() > 0,
        forall|k: int| 0 <= k < a.len() ==> crate::unicode::ascii_letter(#[trigger] a[k]),
        forall|k: int| 0 <= k < w.len() ==> control_space(#[trigger] w[k]),
        forall|k: int| 0 <= k < b.len() ==> crate::unicode::ascii_letter(#[trigger] b[k]),
    ensures
        chunks(a + w + b) == seq![a, w, b],
{
    let cs = a + w + b;
    let i1 = a.len() as int;
    let i2 = i1 + w.len();
    let n = cs.len() as int;
    assert forall|k: int| 0 <= k < i1 implies unicode_alphabetic(#[trigger] cs[k]) by {
        assert(cs[k] == a[k]);
        assert(crate::unicode::ascii_letter(a[k]));
    }
    assert forall|k: int| i1 <= k < i2 implies control_space(#[trigger] cs[k]) by {
        assert(cs[k] == w[k - i1]);
    }
    assert forall|k: int| i2 <= k < n implies unicode_alphabetic(#[trigger] cs[k]) by {
        assert(cs[k] == b[k - i2]);
        assert(crate::unicode::ascii_letter(b[k - i2]));
    }
    assert(control_space(cs[i1]));
    assert(unicode_alphabetic(cs[i2]));
    // The first word.
    assert(class_start(cs, 0) == 0);
    lemma_letter_run_end(cs, 0);
    let e0 = letter_run_end(cs, 0);
    if e0 < i1 {
        assert(unicode_alphabetic(cs[e0]));
    }
    if e0 > i1 {
        assert(unicode_alphabetic(cs[i1]));
    }
    assert(chunk_end(cs, 0) == i1);
    // The line breaks.
    assert(class_start(cs, i1) == i1);
    lemma_space_run_end(cs, i1);
    let e1 = space_run_end(cs, i1);
    if e1 < i2 {
        assert(control_space(cs[e1]));
    }
    if e1 > i2 {
        assert(unicode_whitespace(cs[i2]));
    }
    assert(control_space(cs[i2 - 1]));
    assert(chunk_end(cs, i1) == i2);
    // The second word.
    assert(class_start(cs, i2) == i2);
    lemma_letter_run_end(cs, i2);
    assert(chunk_end(cs, i2) == n);
    assert(chunks_from(cs, n) =~= Seq::<Seq<char>>::empty());
    assert(chunks_from(cs, i2) == seq![cs.subrange(i2, n)]);
    assert(chunks_from(cs, i1) == seq![cs.subrange(i1, i2)] + chunks_from(cs, i2));
    assert(chunks_from(cs, 0) == seq![cs.subrange(0, i1)] + chunks_from(cs, i1));
    assert(cs.subrange(0, i1) =~= a);
    assert(cs.subrange(i1, i2) =~= w);
    assert(cs.subrange(i2, n) =~= b);
    assert(chunks(cs) =~= seq![a, w, b]);
}

/// The whitespace class of the chunker is exactly the Unicode `White_Space`
/// property (PropList.txt): tab, line feed, vertical tab, form feed and
/// carriage return, space, next line, no-break space, ogham space mark, the
/// spaces from en quad to hair space, line and paragraph separator, narrow
/// no-break space, medium mathematical space and ideographic space.
pub proof fn lemma_whitespace_class(c: char)
    ensures
        unicode_whitespace(c) <==> {
            ||| '\t' <= c && c <= '\r'
            ||| c == ' '
            ||| c == '\u{85}'
            ||| c == '\u{A0}'
            ||| c == '\u{1680}'
            ||| '\u{2000}' <= c && c <= '\u{200A}'
            ||| c == '\u{2028}'
            ||| c == '\u{2029}'
            ||| c == '\u{202F}'
            ||| c == '\u{205F}'
            ||| c == '\u{3000}'
        },
{
}

} // verus!
