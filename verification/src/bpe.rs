//! Byte-level byte pair encoding.
use vstd::prelude::*;

pub mod inspect;
pub mod persist;
pub mod replay;
pub mod spans;
pub mod train;
use vstd::utf8::*;
use std::collections::HashMap;
use crate::chunks::{chunks, lemma_chunks_lossless, lemma_digits_alone, split_chunks};
use crate::pairs::{
    lemma_merge_len, lemma_pair_count_bound, lemma_pair_key, merge, merge_seq, pack, pair_key,
};
use crate::unicode::{
    lemma_encode_utf8_concat, string_from_utf8_lossy, unicode_alphabetic, unicode_numeric,
    unicode_whitespace,
};

verus! {

broadcast use vstd::utf8::group_utf8_lib;

/// The merge ranks as a map from pairs, read off the packed-key table.
pub open spec fn ranks_of(m: Map<u64, u32>) -> Map<(u32, u32), u32> {
    Map::new(|p: (u32, u32)| m.contains_key(pair_key(p)), |p: (u32, u32)| m[pair_key(p)])
}

/// The abstract state of a tokenizer.
pub struct BpeModel {
    /// Pair -> rank. Lower rank = learned earlier = applied first.
    pub ranks: Map<(u32, u32), u32>,
    /// Merges in learned order.
    pub merges: Seq<(u32, u32)>,
    /// Id -> the bytes it stands for; ids are the indices.
    pub vocab: Seq<Seq<u8>>,
}

/// The byte sequence of a single byte.
pub open spec fn byte_token(b: int) -> Seq<u8> {
    seq![b as u8]
}

impl BpeModel {
    /// What every tokenizer satisfies: the 256 byte ids exist, each merge
    /// added one id after them (the merge of rank `r` made id `256 + r`), ids
    /// fit in `u32`, and every rank names an id that exists.
    pub open spec fn wf(self) -> bool {
        &&& 256 <= self.vocab.len() <= 0x1_0000_0000
        &&& self.vocab.len() == 256 + self.merges.len()
        &&& forall|p: (u32, u32)| #[trigger]
            self.ranks.contains_key(p) ==> 256 + self.ranks[p] < self.vocab.len()
    }

    /// A tokenizer whose every merge rule produces exactly the bytes of its
    /// two parts, on top of the raw bytes. Encoding and decoding invert each
    /// other on such a tokenizer.
    pub open spec fn consistent(self) -> bool {
        &&& self.wf()
        &&& forall|b: int| 0 <= b < 256 ==> #[trigger] self.vocab[b] == byte_token(b)
        &&& forall|p: (u32, u32)| #[trigger]
            self.ranks.contains_key(p) ==> {
                &&& p.0 < self.vocab.len()
                &&& p.1 < self.vocab.len()
                &&& self.vocab[256 + self.ranks[p]] == self.vocab[p.0 as int] + self.vocab[p.1 as int]
            }
    }

    /// The bytes an id decodes to; unknown ids give U+FFFD.
    pub open spec fn token_bytes(self, id: u32) -> Seq<u8> {
        if id < self.vocab.len() {
            self.vocab[id as int]
        } else {
            seq![0xEFu8, 0xBFu8, 0xBDu8]
        }
    }

    /// The bytes a sequence of ids decodes to.
    pub open spec fn decode_bytes(self, ids: Seq<u32>) -> Seq<u8>
        decreases ids.len(),
    {
        if ids.len() == 0 {
            seq![]
        } else {
            self.token_bytes(ids[0]) + self.decode_bytes(ids.drop_first())
        }
    }

    /// The text a sequence of ids decodes to: the characters of the decoded
    /// bytes, or their lossy reading when they are not valid UTF-8.
    pub open spec fn decode_text(self, ids: Seq<u32>) -> Seq<char> {
        let bytes = self.decode_bytes(ids);
        if valid_utf8(bytes) {
            decode_utf8(bytes)
        } else {
            crate::unicode::utf8_lossy(bytes)
        }
    }
}

/// Bytes read as ids.
pub open spec fn byte_ids(bs: Seq<u8>) -> Seq<u32> {
    bs.map_values(|b: u8| b as u32)
}

/// The adjacent pair at position `w`.
pub open spec fn window(ids: Seq<u32>, w: int) -> (u32, u32) {
    (ids[w], ids[w + 1])
}

/// Position `w` holds a pair that has a rank.
pub open spec fn ranked(ranks: Map<(u32, u32), u32>, ids: Seq<u32>, w: int) -> bool {
    0 <= w < ids.len() - 1 && ranks.contains_key(window(ids, w))
}

/// Position `w` holds the lowest rank present, and is the first such position.
pub open spec fn is_first_min_window(ranks: Map<(u32, u32), u32>, ids: Seq<u32>, w: int) -> bool {
    &&& ranked(ranks, ids, w)
    &&& forall|v: int| #[trigger]
        ranked(ranks, ids, v) ==> ranks[window(ids, w)] <= ranks[window(ids, v)]
    &&& forall|v: int| #[trigger]
        ranked(ranks, ids, v) && v < w ==> ranks[window(ids, w)] < ranks[window(ids, v)]
}

/// Encodes one chunk's ids: repeatedly merge the pair of lowest rank
/// (the first one, on ties), until no adjacent pair has a rank.
pub open spec fn encode_ids(ranks: Map<(u32, u32), u32>, ids: Seq<u32>) -> Seq<u32>
    decreases ids.len(),
{
    if exists|w: int| is_first_min_window(ranks, ids, w) {
        let w = choose|w: int| is_first_min_window(ranks, ids, w);
        let p = window(ids, w);
        let m = merge_seq(ids, p, (256 + ranks[p]) as u32);
        if m.len() < ids.len() {
            encode_ids(ranks, m)
        } else {
            ids
        }
    } else {
        ids
    }
}

impl BpeModel {
    /// The ids of one chunk of text.
    pub open spec fn encode_chunk(self, c: Seq<char>) -> Seq<u32> {
        encode_ids(self.ranks, byte_ids(encode_utf8(c)))
    }

    /// The ids of a text: each chunk encoded on its own, then concatenated.
    pub open spec fn encode(self, text: Seq<char>) -> Seq<u32> {
        chunks(text).map_values(|c: Seq<char>| self.encode_chunk(c)).flatten()
    }
}

pub proof fn lemma_first_min_window_unique(
    ranks: Map<(u32, u32), u32>,
    ids: Seq<u32>,
    w1: int,
    w2: int,
)
    requires
        is_first_min_window(ranks, ids, w1),
        is_first_min_window(ranks, ids, w2),
    ensures
        w1 == w2,
{
    assert(ranked(ranks, ids, w1));
    assert(ranked(ranks, ids, w2));
}

proof fn lemma_decode_single(m: BpeModel, x: u32)
    ensures
        m.decode_bytes(seq![x]) == m.token_bytes(x),
{
    let single = seq![x];
    assert(single.drop_first() =~= Seq::<u32>::empty());
    assert(single[0] == x);
    assert(m.decode_bytes(single.drop_first()) =~= Seq::<u8>::empty());
    assert(m.decode_bytes(single) == m.token_bytes(single[0]) + m.decode_bytes(single.drop_first()));
    assert(m.decode_bytes(single) =~= m.token_bytes(x));
}

proof fn lemma_merge_keeps_bytes(m: BpeModel, s: Seq<u32>, p: (u32, u32), id: u32)
    requires
        m.token_bytes(id) == m.token_bytes(p.0) + m.token_bytes(p.1),
    ensures
        m.decode_bytes(merge_seq(s, p, id)) == m.decode_bytes(s),
    decreases s.len(),
{
    if s.len() == 0 {
    } else if s.len() >= 2 && s[0] == p.0 && s[1] == p.1 {
        lemma_merge_keeps_bytes(m, s.skip(2), p, id);
        let rest = merge_seq(s.skip(2), p, id);
        lemma_decode_bytes_concat(m, seq![id], rest);
        lemma_decode_bytes_concat(m, seq![p.0, p.1], s.skip(2));
        assert(seq![p.0, p.1] + s.skip(2) =~= s);
        lemma_decode_single(m, id);
        lemma_decode_single(m, p.0);
        lemma_decode_single(m, p.1);
        lemma_decode_bytes_concat(m, seq![p.0], seq![p.1]);
        assert(seq![p.0] + seq![p.1] =~= seq![p.0, p.1]);
    } else {
        lemma_merge_keeps_bytes(m, s.skip(1), p, id);
        assert(s.skip(1) =~= s.drop_first());
        let rest = merge_seq(s.skip(1), p, id);
        lemma_decode_bytes_concat(m, seq![s[0]], rest);
        lemma_decode_single(m, s[0]);
        assert(seq![s[0]] + s.skip(1) =~= s);
    }
}

proof fn lemma_encode_ids_keeps_bytes(m: BpeModel, s: Seq<u32>)
    requires
        m.consistent(),
    ensures
        m.decode_bytes(encode_ids(m.ranks, s)) == m.decode_bytes(s),
    decreases s.len(),
{
    if exists|w: int| is_first_min_window(m.ranks, s, w) {
        let w = choose|w: int| is_first_min_window(m.ranks, s, w);
        let p = window(s, w);
        let id = (256 + m.ranks[p]) as u32;
        let merged = merge_seq(s, p, id);
        assert(m.ranks.contains_key(p));
        assert(m.token_bytes(id) == m.token_bytes(p.0) + m.token_bytes(p.1));
        lemma_merge_keeps_bytes(m, s, p, id);
        if merged.len() < s.len() {
            lemma_encode_ids_keeps_bytes(m, merged);
        }
    }
}

proof fn lemma_byte_ids_decode(m: BpeModel, bs: Seq<u8>)
    requires
        m.consistent(),
    ensures
        m.decode_bytes(byte_ids(bs)) == bs,
    decreases bs.len(),
{
    if bs.len() > 0 {
        lemma_byte_ids_decode(m, bs.drop_first());
        assert(byte_ids(bs).drop_first() =~= byte_ids(bs.drop_first()));
        let b = bs[0];
        assert(byte_ids(bs)[0] == b as u32);
        assert(m.vocab[b as int] == byte_token(b as int));
        assert(m.token_bytes(b as u32) =~= seq![b]);
        assert(m.decode_bytes(byte_ids(bs)) =~= bs);
    }
}

proof fn lemma_decode_chunks(m: BpeModel, cs: Seq<Seq<char>>)
    requires
        m.consistent(),
    ensures
        m.decode_bytes(cs.map_values(|c: Seq<char>| m.encode_chunk(c)).flatten()) == encode_utf8(
            cs.flatten(),
        ),
    decreases cs.len(),
{
    let f = |c: Seq<char>| m.encode_chunk(c);
    if cs.len() == 0 {
        assert(cs.map_values(f) =~= Seq::<Seq<u32>>::empty());
    } else {
        lemma_decode_chunks(m, cs.drop_first());
        let ms = cs.map_values(f);
        assert(ms.drop_first() =~= cs.drop_first().map_values(f));
        assert(ms[0] == m.encode_chunk(cs[0]));
        lemma_decode_bytes_concat(m, ms[0], ms.drop_first().flatten());
        lemma_encode_ids_keeps_bytes(m, byte_ids(encode_utf8(cs[0])));
        lemma_byte_ids_decode(m, encode_utf8(cs[0]));
        lemma_encode_utf8_concat(cs[0], cs.drop_first().flatten());
    }
}

/// Decoding what was encoded gives the text back, for every text, on a
/// tokenizer whose merge rules are consistent (a fresh one, one read back
/// from its merge table, or one trained from either, any number of times).
pub proof fn lemma_decode_encode_roundtrip(m: BpeModel, text: Seq<char>)
    requires
        m.consistent(),
    ensures
        m.decode_text(m.encode(text)) == text,
{
    lemma_decode_chunks(m, chunks(text));
    lemma_chunks_lossless(text);
    assert(m.decode_bytes(m.encode(text)) == encode_utf8(text));
}

/// Encoding works chunk by chunk with the same split: the ids of a text are
/// the ids of its chunks, each encoded as a text of its own, one after the
/// other. So no token spans two chunks.
pub proof fn lemma_encode_by_chunks(m: BpeModel, text: Seq<char>)
    ensures
        m.encode(text) == chunks(text).map_values(|c: Seq<char>| m.encode(c)).flatten(),
{
    let cs = chunks(text);
    crate::chunks::lemma_chunks_are_stable(text);
    let f = |c: Seq<char>| m.encode_chunk(c);
    let g = |c: Seq<char>| m.encode(c);
    assert forall|k: int| 0 <= k < cs.len() implies #[trigger] cs.map_values(g)[k] == cs.map_values(
        f,
    )[k] by {
        let ch = cs[k];
        assert(chunks(ch) == seq![ch]);
        assert(chunks(ch).map_values(f) =~= Seq::<Seq<u32>>::empty().push(f(ch)));
        Seq::<Seq<u32>>::empty().lemma_flatten_push(f(ch));
        assert(Seq::<Seq<u32>>::empty().flatten() =~= Seq::<u32>::empty());
        assert(m.encode(ch) =~= f(ch));
    }
    assert(cs.map_values(g) =~= cs.map_values(f));
}

/// Records one merge rule: its pair gets `rank`, a new id (`256 + rank` on a
/// tokenizer with `rank` merges) stands for the bytes of the two parts, and
/// the pair is appended to the merges.
pub open spec fn add_merge(m: BpeModel, p: (u32, u32), rank: u32) -> BpeModel {
    BpeModel {
        ranks: m.ranks.insert(p, rank),
        merges: m.merges.push(p),
        vocab: m.vocab.push(m.vocab[p.0 as int] + m.vocab[p.1 as int]),
    }
}

/// Records the merge rules `ps` in order after the merges `m` already has:
/// the k-th gets the next rank, `m.merges.len() + k`.
pub open spec fn add_merges(m: BpeModel, ps: Seq<(u32, u32)>) -> BpeModel
    decreases ps.len(),
{
    if ps.len() == 0 {
        m
    } else {
        add_merge(
            add_merges(m, ps.drop_last()),
            ps.last(),
            (m.merges.len() + ps.len() - 1) as u32,
        )
    }
}

/// Adding merges appends them to the merge list and one id per merge to
/// the vocabulary, and leaves the ids that were there before as they were.
pub proof fn lemma_add_merges_shape(m: BpeModel, ps: Seq<(u32, u32)>)
    ensures
        add_merges(m, ps).merges == m.merges + ps,
        add_merges(m, ps).vocab.len() == m.vocab.len() + ps.len(),
        forall|x: int| 0 <= x < m.vocab.len() ==> #[trigger] add_merges(m, ps).vocab[x] == m.vocab[x],
    decreases ps.len(),
{
    if ps.len() > 0 {
        lemma_add_merges_shape(m, ps.drop_last());
        assert(m.merges + ps.drop_last().push(ps.last()) =~= m.merges + ps);
    } else {
        assert(m.merges + ps =~= m.merges);
    }
}

/// Merges listed in the order they were learned: the parts of the k-th are
/// ids that existed before it (below `256 + k`), and there are few enough
/// of them for their ids to fit in `u32`.
pub open spec fn merges_in_order(ms: Seq<(u32, u32)>) -> bool {
    &&& ms.len() <= 0xFFFF_FF00
    &&& forall|j: int| 0 <= j < ms.len() ==> (#[trigger] ms[j]).0 < 256 + j && ms[j].1 < 256 + j
}

impl BpeModel {
    /// A tokenizer that its merges alone determine: the fresh tokenizer with
    /// those merges added in order. Every tokenizer that `new`, `train` and
    /// `from_string_repr` make is one.
    pub open spec fn built(self) -> bool {
        &&& merges_in_order(self.merges)
        &&& self == add_merges(fresh_model(), self.merges)
    }
}

/// Adding two lists of merges one after the other is adding them joined.
pub proof fn lemma_add_merges_append(m: BpeModel, a: Seq<(u32, u32)>, b: Seq<(u32, u32)>)
    ensures
        add_merges(add_merges(m, a), b) == add_merges(m, a + b),
    decreases b.len(),
{
    if b.len() == 0 {
        assert(a + b =~= a);
    } else {
        lemma_add_merges_append(m, a, b.drop_last());
        lemma_add_merges_shape(m, a);
        assert((a + b).drop_last() =~= a + b.drop_last());
        assert((a + b).last() == b.last());
    }
}

/// A built tokenizer is consistent, so what it encodes decodes back.
pub proof fn lemma_built_consistent(m: BpeModel)
    requires
        m.built(),
    ensures
        m.consistent(),
        m.vocab.len() == 256 + m.merges.len(),
{
    lemma_add_merges_len(fresh_model(), m.merges);
    assert(fresh_model().merges + m.merges =~= m.merges);
}

/// One merge on top of a consistent tokenizer whose ids run up to
/// `256 + rank` keeps it consistent.
pub(crate) proof fn lemma_add_merge_consistent(m: BpeModel, p: (u32, u32), rank: u32)
    requires
        m.consistent(),
        m.merges.len() == rank,
        256 + rank < 0x1_0000_0000,
        p.0 < m.vocab.len(),
        p.1 < m.vocab.len(),
    ensures
        add_merge(m, p, rank).consistent(),
        add_merge(m, p, rank).vocab.len() == 256 + rank + 1,
{
    let b = add_merge(m, p, rank);
    assert forall|x: int| 0 <= x < 256 implies #[trigger] b.vocab[x] == byte_token(x) by {
        assert(b.vocab[x] == m.vocab[x]);
    }
    assert forall|q: (u32, u32)| #[trigger] b.ranks.contains_key(q) implies {
        &&& q.0 < b.vocab.len()
        &&& q.1 < b.vocab.len()
        &&& b.vocab[256 + b.ranks[q]] == b.vocab[q.0 as int] + b.vocab[q.1 as int]
    } by {
        if q == p {
            assert(b.ranks[q] == rank);
        } else {
            assert(m.ranks.contains_key(q));
            assert(b.ranks[q] == m.ranks[q]);
        }
    }
}

pub(crate) proof fn lemma_add_merges_len(m: BpeModel, ps: Seq<(u32, u32)>)
    requires
        m.consistent(),
        m.merges.len() + ps.len() <= 0xFFFF_FF00,
        forall|j: int|
            0 <= j < ps.len() ==> (#[trigger] ps[j]).0 < 256 + m.merges.len() + j && ps[j].1 < 256
                + m.merges.len() + j,
    ensures
        add_merges(m, ps).vocab.len() == 256 + m.merges.len() + ps.len(),
        add_merges(m, ps).consistent(),
        add_merges(m, ps).merges == m.merges + ps,
{
    lemma_add_merges_consistent(m, ps);
    lemma_add_merges_shape(m, ps);
}

/// Merges whose parts exist when each is added keep a consistent tokenizer
/// consistent.
pub proof fn lemma_add_merges_consistent(m: BpeModel, ps: Seq<(u32, u32)>)
    requires
        m.consistent(),
        m.merges.len() + ps.len() <= 0xFFFF_FF00,
        forall|j: int|
            0 <= j < ps.len() ==> (#[trigger] ps[j]).0 < 256 + m.merges.len() + j && ps[j].1 < 256
                + m.merges.len() + j,
    ensures
        add_merges(m, ps).consistent(),
    decreases ps.len(),
{
    lemma_add_merges_shape(m, ps);
    if ps.len() > 0 {
        let prev = ps.drop_last();
        assert forall|j: int| 0 <= j < prev.len() implies (#[trigger] prev[j]).0 < 256
            + m.merges.len() + j && prev[j].1 < 256 + m.merges.len() + j by {
            assert(prev[j] == ps[j]);
        }
        lemma_add_merges_consistent(m, prev);
        lemma_add_merges_shape(m, prev);
        let a = add_merges(m, prev);
        let k = (m.merges.len() + ps.len() - 1) as u32;
        let p = ps.last();
        assert(p == ps[ps.len() - 1]);
        assert(a.merges.len() == k);
        lemma_add_merge_consistent(a, p, k);
    }
}

proof fn lemma_singleton_chunks(m: BpeModel, cl: Seq<Seq<char>>)
    requires
        forall|c: int| 0 <= c < cl.len() ==> (#[trigger] cl[c]).len() == 1 && (cl[c][0] as u32) < 0x80,
    ensures
        cl.map_values(|c: Seq<char>| m.encode_chunk(c)).flatten().len() == cl.len(),
        cl.flatten().len() == cl.len(),
    decreases cl.len(),
{
    let f = |c: Seq<char>| m.encode_chunk(c);
    if cl.len() == 0 {
        assert(cl.map_values(f) =~= Seq::<Seq<u32>>::empty());
    } else {
        let rest = cl.drop_first();
        assert forall|c: int| 0 <= c < rest.len() implies (#[trigger] rest[c]).len() == 1 && (
        rest[c][0] as u32) < 0x80 by {
            assert(rest[c] == cl[c + 1]);
        }
        lemma_singleton_chunks(m, rest);
        assert(cl.map_values(f).drop_first() =~= rest.map_values(f));
        let ch = cl[0];
        assert(ch.len() == 1);
        assert(ch.drop_first() =~= Seq::<char>::empty());
        assert(encode_utf8(ch.drop_first()) =~= Seq::<u8>::empty());
        assert(encode_utf8(ch).len() == 1);
        let ids = byte_ids(encode_utf8(ch));
        assert(ids.len() == 1);
        assert(!exists|w: int| is_first_min_window(m.ranks, ids, w));
        assert(m.encode_chunk(ch) == ids);
    }
}

/// A text of ASCII digits gets one token per digit, whatever was learned:
/// each digit is a chunk of its own.
pub proof fn lemma_digits_stay_single(m: BpeModel, text: Seq<char>)
    requires
        forall|k: int| 0 <= k < text.len() ==> crate::unicode::ascii_digit(#[trigger] text[k]),
    ensures
        m.encode(text).len() == text.len(),
{
    let cl = chunks(text);
    lemma_chunks_lossless(text);
    lemma_digits_alone(text);
    assert forall|c: int| 0 <= c < cl.len() implies (#[trigger] cl[c]).len() == 1 && (cl[c][0] as u32) < 0x80 by {
        let ch = cl[c];
        assert(ch.len() > 0);
        crate::chunks::lemma_chunk_in_text(text, c, 0);
        let x = ch[0];
        assert((x as u32) < 0x80);
        assert(unicode_numeric(x) && !unicode_alphabetic(x) && !unicode_whitespace(x));
        assert(ch == seq![x] || ch == seq![' ', x]);
        if ch == seq![' ', x] {
            assert(x == ' ');
        }
    }
    lemma_singleton_chunks(m, cl);
}

/// The state of a fresh tokenizer: the 256 byte ids and no merges.
pub open spec fn fresh_model() -> BpeModel {
    BpeModel {
        ranks: Map::empty(),
        merges: seq![],
        vocab: Seq::new(256, |b: int| byte_token(b)),
    }
}

pub proof fn lemma_decode_bytes_concat(m: BpeModel, a: Seq<u32>, b: Seq<u32>)
    ensures
        m.decode_bytes(a + b) == m.decode_bytes(a) + m.decode_bytes(b),
    decreases a.len(),
{
    if a.len() == 0 {
        assert(a + b =~= b);
        assert(m.decode_bytes(a) + m.decode_bytes(b) =~= m.decode_bytes(b));
    } else {
        lemma_decode_bytes_concat(m, a.drop_first(), b);
        assert((a + b).drop_first() =~= a.drop_first() + b);
        assert((a + b)[0] == a[0]);
        assert(m.decode_bytes(a + b) =~= m.decode_bytes(a) + m.decode_bytes(b));
    }
}

/// This is the tokenizer: byte-level byte pair encoding.
///
/// Ids `0..=255` are the raw bytes; every merge creates a new id from 256 up.
/// Byte-level means any UTF-8 input is encodable and there is no unknown
/// token. Umlauts start out as two bytes and grow back together through
/// merges.
#[derive(Debug, Clone)]
pub struct Bpe {
    /// Packed pair -> rank.
    pub(crate) ranks: HashMap<u64, u32>,
    /// Merges in learned order.
    pub(crate) merges: Vec<(u32, u32)>,
    /// Id -> byte sequence; ids are the indices.
    pub(crate) vocab: Vec<Vec<u8>>,
}

impl View for Bpe {
    type V = BpeModel;

    closed spec fn view(&self) -> BpeModel {
        BpeModel {
            ranks: ranks_of(self.ranks@),
            merges: self.merges@,
            vocab: self.vocab@.map_values(|v: Vec<u8>| v@),
        }
    }
}

/// Bytes as ids.
fn bytes_to_ids(bytes: &[u8]) -> (ids: Vec<u32>)
    ensures
        ids@ == byte_ids(bytes@),
{
    let mut ids: Vec<u32> = Vec::new();
    let mut k: usize = 0;
    while k < bytes.len()
        invariant
            k <= bytes.len(),
            ids@ == byte_ids(bytes@.take(k as int)),
        decreases bytes.len() - k,
    {
        ids.push(bytes[k] as u32);
        k = k + 1;
        proof {
            assert(ids@ =~= byte_ids(bytes@.take(k as int)));
        }
    }
    proof {
        assert(bytes@.take(k as int) =~= bytes@);
    }
    ids
}

/// The bytes of `a` followed by those of `b`.
fn concat_bytes(a: &Vec<u8>, b: &Vec<u8>) -> (out: Vec<u8>)
    ensures
        out@ == a@ + b@,
{
    let mut out: Vec<u8> = Vec::new();
    let mut k: usize = 0;
    while k < a.len()
        invariant
            k <= a.len(),
            out@ == a@.take(k as int),
        decreases a.len() - k,
    {
        out.push(a[k]);
        k = k + 1;
        proof {
            assert(out@ =~= a@.take(k as int));
        }
    }
    let mut j: usize = 0;
    proof {
        assert(a@.take(k as int) =~= a@);
    }
    while j < b.len()
        invariant
            j <= b.len(),
            out@ == a@ + b@.take(j as int),
        decreases b.len() - j,
    {
        out.push(b[j]);
        j = j + 1;
        proof {
            assert(out@ =~= a@ + b@.take(j as int));
        }
    }
    proof {
        assert(b@.take(j as int) =~= b@);
    }
    out
}

impl Bpe {
    /// Records the merge rule `pair` with the next rank, `rank`: the new id
    /// `256 + rank` gets the bytes of the two parts.
    fn record_merge(&mut self, pair: (u32, u32), rank: u32)
        requires
            old(self).wf(),
            pair.0 < old(self)@.vocab.len(),
            pair.1 < old(self)@.vocab.len(),
            rank == old(self)@.merges.len(),
            256 + rank <= u32::MAX,
        ensures
            final(self)@ == add_merge(old(self)@, pair, rank),
            final(self).wf(),
            final(self)@.vocab.len() == 256 + rank + 1,
    {
        let ghost before = self@;
        let bytes = concat_bytes(&self.vocab[pair.0 as usize], &self.vocab[pair.1 as usize]);
        let ghost m0 = self.ranks@;
        self.vocab.push(bytes);
        self.ranks.insert(pack(pair.0, pair.1), rank);
        self.merges.push(pair);
        proof {
            assert(self.ranks@ == m0.insert(pair_key(pair), rank));
            let lhs = ranks_of(m0.insert(pair_key(pair), rank));
            let rhs = ranks_of(m0).insert(pair, rank);
            assert forall|q: (u32, u32)| #[trigger]
                lhs.dom().contains(q) <==> rhs.dom().contains(q) by {
                lemma_pair_key(q, pair);
            }
            assert forall|q: (u32, u32)| #[trigger] lhs.dom().contains(q) implies lhs[q] == rhs[q] by {
                lemma_pair_key(q, pair);
            }
            assert(lhs =~= rhs);
            assert(self@.ranks == before.ranks.insert(pair, rank));
            assert(self@.merges =~= before.merges.push(pair));
            let nb = before.vocab[pair.0 as int] + before.vocab[pair.1 as int];
            assert(self@.vocab =~= before.vocab.push(nb));
        }
    }

    pub open spec fn wf(&self) -> bool {
        self@.wf()
    }

    pub fn new() -> (r: Self)
        ensures
            r@ == fresh_model(),
            r@.consistent(),
            r@.built(),
            r.wf(),
    {
        let mut vocab: Vec<Vec<u8>> = Vec::new();
        let mut b: u32 = 0;
        while b < 256
            invariant
                b <= 256,
                vocab.len() == b,
                forall|i: int| 0 <= i < b ==> (#[trigger] vocab@[i])@ == byte_token(i),
            decreases 256 - b,
        {
            let mut one: Vec<u8> = Vec::new();
            one.push(b as u8);
            proof {
                assert(one@ =~= byte_token(b as int));
            }
            vocab.push(one);
            b = b + 1;
        }
        let r = Bpe { ranks: HashMap::new(), merges: Vec::new(), vocab };
        proof {
            assert(r@.vocab =~= fresh_model().vocab);
            assert(r@.ranks =~= fresh_model().ranks);
            assert(r@.merges =~= fresh_model().merges);
            assert(add_merges(fresh_model(), r@.merges) == fresh_model());
        }
        r
    }

    /// The first window holding the lowest rank, and that rank.
    fn min_rank_window(&self, ids: &Vec<u32>) -> (r: Option<(usize, u32)>)
        requires
            ids.len() >= 2,
        ensures
            r is None <==> !exists|w: int| #[trigger] ranked(self@.ranks, ids@, w),
            r matches Some((w, rk)) ==> is_first_min_window(self@.ranks, ids@, w as int) && rk
                == self@.ranks[window(ids@, w as int)],
    {
        let ghost ranks = self@.ranks;
        let mut best: Option<(usize, u32)> = None;
        let mut w: usize = 0;
        while w + 1 < ids.len()
            invariant
                w + 1 <= ids.len(),
                ranks == self@.ranks,
                best is None ==> forall|v: int| 0 <= v < w ==> !#[trigger] ranked(ranks, ids@, v),
                best matches Some((bw, br)) ==> {
                    &&& bw < w
                    &&& ranked(ranks, ids@, bw as int)
                    &&& br == ranks[window(ids@, bw as int)]
                    &&& forall|v: int| #[trigger]
                        ranked(ranks, ids@, v) && v < w ==> br <= ranks[window(ids@, v)]
                    &&& forall|v: int| #[trigger]
                        ranked(ranks, ids@, v) && v < bw ==> br < ranks[window(ids@, v)]
                },
            decreases ids.len() - w,
        {
            let key = pack(ids[w], ids[w + 1]);
            let found = self.ranks.get(&key);
            proof {
                lemma_pair_key(window(ids@, w as int), window(ids@, w as int));
                assert(ranked(ranks, ids@, w as int) <==> self.ranks@.contains_key(key));
            }
            match found {
                Some(r) => {
                    let r = *r;
                    proof {
                        assert(ranks[window(ids@, w as int)] == r);
                    }
                    match best {
                        None => {
                            best = Some((w, r));
                        },
                        Some((bw, br)) => {
                            if r < br {
                                best = Some((w, r));
                            }
                        },
                    }
                },
                None => {},
            }
            w = w + 1;
        }
        proof {
            if best is None {
                assert forall|v: int| !#[trigger] ranked(ranks, ids@, v) by {
                    if 0 <= v < w {
                    }
                }
            }
        }
        best
    }

    /// Applies the learned merges to one chunk, lowest rank first.
    fn encode_chunk(&self, chunk: &str) -> (out: Vec<u32>)
        requires
            self.wf(),
        ensures
            out@ == self@.encode_chunk(chunk@),
    {
        let mut ids = bytes_to_ids(chunk.as_bytes());
        let ghost target = self@.encode_chunk(chunk@);
        while ids.len() >= 2
            invariant
                self.wf(),
                target == self@.encode_chunk(chunk@),
                encode_ids(self@.ranks, ids@) == target,
            decreases ids.len(),
        {
            match self.min_rank_window(&ids) {
                None => {
                    proof {
                        assert(!exists|w: int| is_first_min_window(self@.ranks, ids@, w));
                        assert(encode_ids(self@.ranks, ids@) == ids@);
                    }
                    return ids;
                },
                Some((w, rank)) => {
                    let pair = (ids[w], ids[w + 1]);
                    proof {
                        let p = window(ids@, w as int);
                        assert(pair == p);
                        assert(self@.ranks.contains_key(p));
                        assert(256 + rank < self@.vocab.len());
                        lemma_pair_count_bound(ids@, p);
                        assert(ids@[w as int] == p.0 && ids@[w + 1] == p.1);
                        lemma_merge_len(ids@, p, (256 + rank) as u32);
                        let c = choose|v: int| is_first_min_window(self@.ranks, ids@, v);
                        lemma_first_min_window_unique(self@.ranks, ids@, c, w as int);
                    }
                    ids = merge(&ids, pair, 256 + rank);
                },
            }
        }
        proof {
            assert(!exists|w: int| is_first_min_window(self@.ranks, ids@, w));
        }
        ids
    }

    /// Text to ids. The text is split into chunks exactly as for training,
    /// and each chunk gets the learned merges in rank order: always the
    /// lowest rank still present, which is what keeps encoding consistent
    /// with training.
    pub fn encode(&self, text: &str) -> (out: Vec<u32>)
        requires
            self.wf(),
        ensures
            out@ == self@.encode(text@),
    {
        let pieces = split_chunks(text);
        let ghost cs = chunks(text@);
        let ghost f = |c: Seq<char>| self@.encode_chunk(c);
        let mut out: Vec<u32> = Vec::new();
        let mut k: usize = 0;
        proof {
            assert(cs.take(0).map_values(f) =~= Seq::<Seq<u32>>::empty());
        }
        while k < pieces.len()
            invariant
                self.wf(),
                k <= pieces.len(),
                cs == chunks(text@),
                f == (|c: Seq<char>| self@.encode_chunk(c)),
                pieces.len() == cs.len(),
                forall|m: int| 0 <= m < pieces.len() ==> (#[trigger] pieces[m])@ == cs[m],
                out@ == cs.take(k as int).map_values(f).flatten(),
            decreases pieces.len() - k,
        {
            let mut ids = self.encode_chunk(pieces[k]);
            proof {
                let prev = cs.take(k as int).map_values(f);
                assert(cs.take(k + 1).map_values(f) =~= prev.push(f(cs[k as int])));
                prev.lemma_flatten_push(f(cs[k as int]));
            }
            out.append(&mut ids);
            k = k + 1;
        }
        proof {
            assert(cs.take(k as int) =~= cs);
        }
        out
    }

    pub fn vocab_size(&self) -> (n: usize)
        ensures
            n == self@.vocab.len(),
    {
        self.vocab.len()
    }

    /// Ids back to text. Unknown ids become U+FFFD; the bytes are read
    /// lossily, because a partial token can end in the middle of a UTF-8
    /// sequence.
    pub fn decode(&self, ids: &[u32]) -> (s: String)
        ensures
            s@ == self@.decode_text(ids@),
    {
        let mut bytes: Vec<u8> = Vec::new();
        let mut i: usize = 0;
        proof {
            assert(ids@.take(0) =~= Seq::<u32>::empty());
        }
        while i < ids.len()
            invariant
                i <= ids.len(),
                bytes@ == self@.decode_bytes(ids@.take(i as int)),
            decreases ids.len() - i,
        {
            let id = ids[i];
            let ghost before = bytes@;
            if (id as usize) < self.vocab.len() {
                let tok = &self.vocab[id as usize];
                let mut k: usize = 0;
                while k < tok.len()
                    invariant
                        k <= tok.len(),
                        bytes@ == before + tok@.take(k as int),
                    decreases tok.len() - k,
                {
                    bytes.push(tok[k]);
                    k = k + 1;
                    proof {
                        assert(tok@.take(k as int) =~= tok@.take(k - 1).push(tok@[k - 1]));
                    }
                }
                proof {
                    assert(tok@.take(k as int) =~= tok@);
                    assert(self@.vocab[id as int] == tok@);
                }
            } else {
                bytes.push(0xEF);
                bytes.push(0xBF);
                bytes.push(0xBD);
            }
            proof {
                let single = seq![id];
                assert(single.drop_first() =~= Seq::<u32>::empty());
                assert(single[0] == id);
                assert(self@.decode_bytes(single.drop_first()) =~= Seq::<u8>::empty());
                assert(self@.decode_bytes(single) == self@.token_bytes(single[0])
                    + self@.decode_bytes(single.drop_first()));
                assert(self@.decode_bytes(single) =~= self@.token_bytes(id));
                lemma_decode_bytes_concat(self@, ids@.take(i as int), single);
                assert(ids@.take(i as int) + single =~= ids@.take(i + 1));
                assert(bytes@ =~= before + self@.token_bytes(id));
            }
            i = i + 1;
        }
        proof {
            assert(ids@.take(i as int) =~= ids@);
        }
        string_from_utf8_lossy(bytes.as_slice())
    }
}

} // verus!
