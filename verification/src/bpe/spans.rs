//! Training never learns a token that reaches across a chunk boundary.
use vstd::prelude::*;
use vstd::utf8::*;
use super::{
    add_merge, add_merges, byte_ids, fresh_model, lemma_add_merges_len, lemma_byte_ids_decode,
    lemma_decode_bytes_concat, lemma_decode_single, lemma_merge_keeps_bytes, BpeModel,
};
use super::train::{corpus_ids, learned, lemma_training_pairs, step_pairs, training_steps};
use crate::chunks::chunks;
use crate::pairs::{
    ids_below, is_best_pair, lemma_merge_all_below, lemma_occurring_pair_below, lemma_pair_occurs,
    merge_all, merge_seq, total_pair_count,
};

verus! {

/// `bytes` occurs, contiguously, inside the encoding of one of the chunks.
pub open spec fn inside_a_chunk(cl: Seq<Seq<char>>, bytes: Seq<u8>) -> bool {
    exists|c: int, a: int|
        0 <= c < cl.len() && 0 <= a && a + bytes.len() <= encode_utf8(cl[c]).len()
            && #[trigger] encode_utf8(cl[c]).subrange(a, a + bytes.len()) == bytes
}

/// The id sequences after the first `i` of the merges `ps`.
pub open spec fn state_after(init: Seq<Seq<u32>>, ps: Seq<(u32, u32)>, i: nat) -> Seq<Seq<u32>>
    decreases i,
{
    if i == 0 {
        init
    } else {
        merge_all(state_after(init, ps, (i - 1) as nat), ps[i - 1], (256 + i - 1) as u32)
    }
}

proof fn lemma_learned_unfold(init: Seq<Seq<u32>>, n: int, i: nat)
    requires
        i <= learned(init, 0, n).len(),
    ensures
        learned(init, 0, n).skip(i as int) == learned(
            state_after(init, step_pairs(learned(init, 0, n)), i),
            i as int,
            n,
        ),
    decreases i,
{
    let steps = learned(init, 0, n);
    let ps = step_pairs(steps);
    if i == 0 {
        assert(steps.skip(0) =~= steps);
    } else {
        lemma_learned_unfold(init, n, (i - 1) as nat);
        let prev = state_after(init, ps, (i - 1) as nat);
        let st = learned(prev, i - 1, n);
        assert(st == steps.skip(i - 1));
        assert(st.len() > 0);
        let p = choose|p: (u32, u32)| is_best_pair(prev, p);
        assert(st == seq![(p, total_pair_count(prev, p))] + learned(
            merge_all(prev, p, (256 + i - 1) as u32),
            i as int,
            n,
        ));
        assert(st[0] == steps[i - 1]);
        assert(ps[i - 1] == p);
        assert(steps.skip(i as int) =~= st.drop_first());
    }
}

pub(crate) proof fn lemma_learned_step(init: Seq<Seq<u32>>, n: int, i: nat)
    requires
        i < learned(init, 0, n).len(),
    ensures
        ({
            let ps = step_pairs(learned(init, 0, n));
            let s = state_after(init, ps, i);
            &&& is_best_pair(s, ps[i as int])
            &&& total_pair_count(s, ps[i as int]) >= 2
        }),
{
    lemma_learned_unfold(init, n, i);
    let steps = learned(init, 0, n);
    let ps = step_pairs(steps);
    let s = state_after(init, ps, i);
    let st = learned(s, i as int, n);
    assert(st == steps.skip(i as int));
    assert(st.len() > 0);
    let p = choose|p: (u32, u32)| is_best_pair(s, p);
    assert(st[0] == (p, total_pair_count(s, p)));
    assert(steps[i as int] == st[0]);
}

proof fn lemma_decode_agree(m1: BpeModel, m2: BpeModel, s: Seq<u32>, bound: int)
    requires
        bound <= m1.vocab.len(),
        bound <= m2.vocab.len(),
        forall|id: int| 0 <= id < bound ==> #[trigger] m1.vocab[id] == m2.vocab[id],
        forall|k: int| 0 <= k < s.len() ==> #[trigger] s[k] < bound,
    ensures
        m1.decode_bytes(s) == m2.decode_bytes(s),
    decreases s.len(),
{
    if s.len() > 0 {
        assert(s[0] < bound);
        lemma_decode_agree(m1, m2, s.drop_first(), bound);
    }
}

proof fn lemma_window_bytes(m: BpeModel, s: Seq<u32>, w: int)
    requires
        0 <= w < s.len() - 1,
    ensures
        ({
            let b = m.token_bytes(s[w]) + m.token_bytes(s[w + 1]);
            let a = m.decode_bytes(s.take(w)).len() as int;
            &&& a + b.len() <= m.decode_bytes(s).len()
            &&& m.decode_bytes(s).subrange(a, a + b.len()) == b
        }),
{
    let pre = s.take(w);
    let mid = seq![s[w], s[w + 1]];
    let post = s.skip(w + 2);
    assert(pre + mid + post =~= s);
    lemma_decode_bytes_concat(m, pre + mid, post);
    lemma_decode_bytes_concat(m, pre, mid);
    lemma_decode_bytes_concat(m, seq![s[w]], seq![s[w + 1]]);
    assert(seq![s[w]] + seq![s[w + 1]] =~= mid);
    lemma_decode_single(m, s[w]);
    lemma_decode_single(m, s[w + 1]);
    let b = m.token_bytes(s[w]) + m.token_bytes(s[w + 1]);
    let a = m.decode_bytes(pre).len() as int;
    assert(m.decode_bytes(s).subrange(a, a + b.len()) =~= b);
}

/// What holds after `i` learned merges: each chunk's ids still decode to the
/// chunk's bytes, all ids exist, and every learned token lies inside a chunk.
pub(crate) proof fn lemma_spans_after(corpus: Seq<char>, num_merges: u32, i: nat)
    requires
        num_merges <= 0xFFFF_FF00 || encode_utf8(corpus).len() <= 0xFFFF_FF00,
        i <= training_steps(corpus, 0, num_merges).len(),
    ensures
        ({
            let cl = chunks(corpus);
            let ps = step_pairs(training_steps(corpus, 0, num_merges));
            let m = add_merges(fresh_model(), ps.take(i as int));
            let s = state_after(corpus_ids(corpus), ps, i);
            &&& m.vocab.len() == 256 + i
            &&& s.len() == cl.len()
            &&& ids_below(s, 256 + i as int)
            &&& forall|c: int| 0 <= c < cl.len() ==> #[trigger] m.decode_bytes(s[c]) == encode_utf8(cl[c])
            &&& forall|id: int| 256 <= id < 256 + i ==> inside_a_chunk(cl, #[trigger] m.vocab[id])
        }),
    decreases i,
{
    let cl = chunks(corpus);
    let init = corpus_ids(corpus);
    let steps = training_steps(corpus, 0, num_merges);
    let ps = step_pairs(steps);
    lemma_training_pairs(corpus, 0, num_merges);
    let pre = ps.take(i as int);
    assert forall|j: int| 0 <= j < pre.len() implies (#[trigger] pre[j]).0 < 256 + j && pre[j].1 < 256 + j by {
        assert(pre[j] == ps[j]);
    }
    lemma_add_merges_len(fresh_model(), pre);
    if i == 0 {
        let m = add_merges(fresh_model(), pre);
        assert(pre =~= Seq::<(u32, u32)>::empty());
        assert(m == fresh_model());
        assert(ids_below(init, 256)) by {
            assert forall|c: int, j: int| 0 <= c < init.len() && 0 <= j < init[c].len() implies #[trigger] init[c][j]
                < 256 by {
                assert(init[c] == byte_ids(encode_utf8(cl[c])));
            }
        }
        assert forall|c: int| 0 <= c < cl.len() implies #[trigger] m.decode_bytes(init[c]) == encode_utf8(cl[c]) by {
            assert(init[c] == byte_ids(encode_utf8(cl[c])));
            lemma_byte_ids_decode(m, encode_utf8(cl[c]));
        }
    } else {
        let k = (i - 1) as nat;
        lemma_spans_after(corpus, num_merges, k);
        let pk = ps.take(k as int);
        let mk = add_merges(fresh_model(), pk);
        let sk = state_after(init, ps, k);
        let p = ps[k as int];
        let id = (256 + k) as u32;
        lemma_learned_step(init, num_merges as int, k);
        assert(total_pair_count(sk, p) > 0);
        lemma_occurring_pair_below(sk, p, 256 + k as int);
        assert(pre.drop_last() =~= pk);
        assert(pre.last() == p);
        let m = add_merges(fresh_model(), pre);
        assert(m == add_merge(mk, p, k as u32));
        let b = mk.vocab[p.0 as int] + mk.vocab[p.1 as int];
        assert(m.vocab =~= mk.vocab.push(b));
        let s = state_after(init, ps, i);
        assert(s == merge_all(sk, p, id));
        lemma_merge_all_below(sk, p, id, 256 + i as int);
        // The new token is made of a pair that sits in some chunk.
        lemma_pair_occurs(sk, p);
        let (c0, w) = choose|c: int, w: int|
            0 <= c < sk.len() && 0 <= w < sk[c].len() - 1 && #[trigger] sk[c][w] == p.0 && sk[c][w + 1] == p.1;
        lemma_window_bytes(mk, sk[c0], w);
        assert(mk.token_bytes(p.0) == mk.vocab[p.0 as int]);
        assert(mk.token_bytes(p.1) == mk.vocab[p.1 as int]);
        assert(mk.decode_bytes(sk[c0]) == encode_utf8(cl[c0]));
        let a = mk.decode_bytes(sk[c0].take(w)).len() as int;
        assert(encode_utf8(cl[c0]).subrange(a, a + b.len()) == b);
        assert(inside_a_chunk(cl, b));
        assert forall|x: int| 256 <= x < 256 + i implies inside_a_chunk(cl, #[trigger] m.vocab[x]) by {
            if x < 256 + k {
                assert(m.vocab[x] == mk.vocab[x]);
            } else {
                assert(m.vocab[x] == b);
            }
        }
        // Every chunk still decodes to its bytes.
        assert forall|c: int| 0 <= c < cl.len() implies #[trigger] m.decode_bytes(s[c]) == encode_utf8(cl[c]) by {
            assert(s[c] == merge_seq(sk[c], p, id));
            assert(m.token_bytes(id) == b);
            assert(m.token_bytes(p.0) == mk.vocab[p.0 as int]);
            assert(m.token_bytes(p.1) == mk.vocab[p.1 as int]);
            lemma_merge_keeps_bytes(m, sk[c], p, id);
            assert forall|j: int| 0 <= j < sk[c].len() implies #[trigger] sk[c][j] < 256 + k by {}
            assert forall|x: int| 0 <= x < 256 + k implies #[trigger] m.vocab[x] == mk.vocab[x] by {}
            lemma_decode_agree(m, mk, sk[c], 256 + k as int);
        }
    }
}

/// Training never learns a token that reaches across a chunk boundary: the
/// bytes of every learned token occur inside one chunk of the corpus. With
/// the chunks being words with at most a leading space, no token joins two
/// words.
pub proof fn lemma_tokens_stay_in_chunks(corpus: Seq<char>, num_merges: u32)
    requires
        num_merges <= 0xFFFF_FF00 || encode_utf8(corpus).len() <= 0xFFFF_FF00,
    ensures
        ({
            let m = add_merges(fresh_model(), step_pairs(training_steps(corpus, 0, num_merges)));
            forall|id: int| 256 <= id < m.vocab.len() ==> inside_a_chunk(chunks(corpus), #[trigger] m.vocab[id])
        }),
{
    let ps = step_pairs(training_steps(corpus, 0, num_merges));
    lemma_spans_after(corpus, num_merges, ps.len());
    assert(ps.take(ps.len() as int) =~= ps);
}

} // verus!
