//! Encoding with the learned merges, lowest rank first, replays training.
use vstd::prelude::*;
use vstd::utf8::*;
use super::{
    add_merges, byte_ids, encode_ids, fresh_model, is_first_min_window, merges_in_order, ranked,
    window,
};
use super::spans::{lemma_learned_step, lemma_spans_after, state_after};
use super::train::{corpus_ids, lemma_training_pairs, step_pairs, training_steps};
use crate::chunks::chunks;
use crate::pairs::{
    first_occurrence, lemma_first_occurrence, lemma_merge_absent, lemma_merge_leaves_no_pair,
    lemma_merge_len, merge_all, merge_seq, pair_count, total_pair_count,
};

verus! {

proof fn lemma_no_pair_anywhere(ss: Seq<Seq<u32>>, q: (u32, u32))
    requires
        forall|c: int| 0 <= c < ss.len() ==> pair_count(#[trigger] ss[c], q) == 0,
    ensures
        total_pair_count(ss, q) == 0,
    decreases ss.len(),
{
    if ss.len() > 0 {
        assert(pair_count(ss[0], q) == 0);
        assert forall|c: int| 0 <= c < ss.drop_first().len() implies pair_count(
            #[trigger] ss.drop_first()[c],
            q,
        ) == 0 by {
            assert(ss.drop_first()[c] == ss[c + 1]);
        }
        lemma_no_pair_anywhere(ss.drop_first(), q);
    }
}

/// Once learned, a pair never occurs again: merging removed every
/// occurrence, and later merges only bring in new ids.
proof fn lemma_learned_pair_gone(corpus: Seq<char>, num_merges: u32, j: nat, k: nat)
    requires
        num_merges <= 0xFFFF_FF00 || encode_utf8(corpus).len() <= 0xFFFF_FF00,
        j < k <= training_steps(corpus, 0, num_merges).len(),
    ensures
        ({
            let ps = step_pairs(training_steps(corpus, 0, num_merges));
            let s = state_after(corpus_ids(corpus), ps, k);
            forall|c: int| 0 <= c < s.len() ==> pair_count(#[trigger] s[c], ps[j as int]) == 0
        }),
    decreases k,
{
    let ps = step_pairs(training_steps(corpus, 0, num_merges));
    let init = corpus_ids(corpus);
    lemma_training_pairs(corpus, 0, num_merges);
    let q = ps[j as int];
    let prev = state_after(init, ps, (k - 1) as nat);
    let s = state_after(init, ps, k);
    let id = (256 + k - 1) as u32;
    assert(s == merge_all(prev, ps[k - 1], id));
    if k > j + 1 {
        lemma_learned_pair_gone(corpus, num_merges, j, (k - 1) as nat);
    }
    assert forall|c: int| 0 <= c < s.len() implies pair_count(#[trigger] s[c], q) == 0 by {
        assert(s[c] == merge_seq(prev[c], ps[k - 1], id));
        lemma_merge_leaves_no_pair(prev[c], ps[k - 1], q, id);
    }
}

/// Every pair is learned at most once.
proof fn lemma_learned_pairs_distinct(corpus: Seq<char>, num_merges: u32, j: nat, k: nat)
    requires
        num_merges <= 0xFFFF_FF00 || encode_utf8(corpus).len() <= 0xFFFF_FF00,
        j < k < training_steps(corpus, 0, num_merges).len(),
    ensures
        step_pairs(training_steps(corpus, 0, num_merges))[j as int] != step_pairs(
            training_steps(corpus, 0, num_merges),
        )[k as int],
{
    let ps = step_pairs(training_steps(corpus, 0, num_merges));
    let init = corpus_ids(corpus);
    lemma_learned_pair_gone(corpus, num_merges, j, k);
    lemma_no_pair_anywhere(state_after(init, ps, k), ps[j as int]);
    lemma_learned_step(init, num_merges as int, k);
}

/// The ranks of a tokenizer built by merges that are all different: each
/// pair's rank is its position.
proof fn lemma_ranks_of_merges(ps: Seq<(u32, u32)>)
    requires
        ps.len() <= 0xFFFF_FF00,
        forall|j: int, k: int| 0 <= j < k < ps.len() ==> ps[j] != ps[k],
    ensures
        ({
            let r = add_merges(fresh_model(), ps).ranks;
            &&& forall|q: (u32, u32)| #[trigger] r.contains_key(q) ==> exists|j: int|
                0 <= j < ps.len() && ps[j] == q
            &&& forall|j: int| 0 <= j < ps.len() ==> #[trigger] r.contains_key(ps[j]) && r[ps[j]] == j
        }),
    decreases ps.len(),
{
    if ps.len() > 0 {
        let pre = ps.drop_last();
        assert forall|j: int, k: int| 0 <= j < k < pre.len() implies pre[j] != pre[k] by {
            assert(pre[j] == ps[j]);
            assert(pre[k] == ps[k]);
        }
        lemma_ranks_of_merges(pre);
        let r0 = add_merges(fresh_model(), pre).ranks;
        let r = add_merges(fresh_model(), ps).ranks;
        let last = ps.last();
        assert(r == r0.insert(last, (ps.len() - 1) as u32));
        assert forall|q: (u32, u32)| #[trigger] r.contains_key(q) implies exists|j: int|
            0 <= j < ps.len() && ps[j] == q by {
            if q == last {
                assert(ps[ps.len() - 1] == q);
            } else {
                assert(r0.contains_key(q));
                let j = choose|j: int| 0 <= j < pre.len() && pre[j] == q;
                assert(ps[j] == q);
            }
        }
        assert forall|j: int| 0 <= j < ps.len() implies #[trigger] r.contains_key(ps[j]) && r[ps[j]] == j by {
            if j < ps.len() - 1 {
                assert(ps[j] == pre[j]);
                assert(ps[j] != last);
            }
        }
    }
}

/// Encoding from the state after `k` merges ends where training ended.
proof fn lemma_replay_from(corpus: Seq<char>, num_merges: u32, k: nat, c: int)
    requires
        num_merges <= 0xFFFF_FF00 || encode_utf8(corpus).len() <= 0xFFFF_FF00,
        k <= training_steps(corpus, 0, num_merges).len(),
        0 <= c < chunks(corpus).len(),
    ensures
        ({
            let ps = step_pairs(training_steps(corpus, 0, num_merges));
            let init = corpus_ids(corpus);
            let n = ps.len();
            encode_ids(add_merges(fresh_model(), ps).ranks, state_after(init, ps, k)[c])
                == state_after(init, ps, n)[c]
        }),
    decreases training_steps(corpus, 0, num_merges).len() - k,
{
    let ps = step_pairs(training_steps(corpus, 0, num_merges));
    let init = corpus_ids(corpus);
    let n = ps.len();
    let r = add_merges(fresh_model(), ps).ranks;
    assert forall|j: int, k2: int| 0 <= j < k2 < ps.len() implies ps[j] != ps[k2] by {
        lemma_learned_pairs_distinct(corpus, num_merges, j as nat, k2 as nat);
    }
    lemma_training_pairs(corpus, 0, num_merges);
    lemma_ranks_of_merges(ps);
    lemma_spans_after(corpus, num_merges, k);
    let s = state_after(init, ps, k)[c];
    // Pairs learned before step k are gone, so every rank present is at least k.
    assert forall|v: int| #[trigger] ranked(r, s, v) implies r[window(s, v)] >= k by {
        let q = window(s, v);
        let j = choose|j: int| 0 <= j < ps.len() && ps[j] == q;
        assert(r[q] == j);
        if j < k {
            lemma_learned_pair_gone(corpus, num_merges, j as nat, k);
            crate::pairs::lemma_pair_count_bound(s, q);
            assert(s[v] == q.0 && s[v + 1] == q.1);
        }
    }
    if k == n {
        assert forall|w: int| !#[trigger] is_first_min_window(r, s, w) by {
            if is_first_min_window(r, s, w) {
                let q = window(s, w);
                let j = choose|j: int| 0 <= j < ps.len() && ps[j] == q;
                assert(r[q] == j);
            }
        }
    } else {
        lemma_replay_from(corpus, num_merges, k + 1, c);
        let p = ps[k as int];
        let id = (256 + k) as u32;
        let next = state_after(init, ps, k + 1);
        assert(next == merge_all(state_after(init, ps, k), p, id));
        assert(next[c] == merge_seq(s, p, id));
        if pair_count(s, p) == 0 {
            lemma_merge_absent(s, p, id);
        } else {
            lemma_first_occurrence(s, p);
            let w = choose|w: int| #[trigger] first_occurrence(s, p, w);
            assert(window(s, w) == p);
            assert(r.contains_key(ps[k as int]));
            assert(r[ps[k as int]] == k);
            assert(is_first_min_window(r, s, w)) by {
                assert(ranked(r, s, w));
                assert forall|v: int| #[trigger] ranked(r, s, v) && v < w implies r[window(s, w)]
                    < r[window(s, v)] by {
                    let q = window(s, v);
                    assert(q != p);
                    let j = choose|j: int| 0 <= j < ps.len() && ps[j] == q;
                    assert(r[q] == j);
                    assert(j != k);
                }
            }
            let w2 = choose|w2: int| is_first_min_window(r, s, w2);
            super::lemma_first_min_window_unique(r, s, w, w2);
            crate::pairs::lemma_pair_count_bound(s, p);
            lemma_merge_len(s, p, id);
            assert((256 + r[p]) as u32 == id);
        }
    }
}

/// Encoding a chunk of the training corpus with the trained tokenizer,
/// lowest rank first, gives exactly the ids training ended with for that
/// chunk: encoding is consistent with training.
pub proof fn lemma_encode_replays_training(corpus: Seq<char>, num_merges: u32)
    requires
        num_merges <= 0xFFFF_FF00 || encode_utf8(corpus).len() <= 0xFFFF_FF00,
    ensures
        ({
            let ps = step_pairs(training_steps(corpus, 0, num_merges));
            let m = add_merges(fresh_model(), ps);
            forall|c: int|
                0 <= c < chunks(corpus).len() ==> #[trigger] m.encode_chunk(chunks(corpus)[c])
                    == state_after(corpus_ids(corpus), ps, ps.len())[c]
        }),
{
    let ps = step_pairs(training_steps(corpus, 0, num_merges));
    let m = add_merges(fresh_model(), ps);
    let init = corpus_ids(corpus);
    assert forall|c: int| 0 <= c < chunks(corpus).len() implies #[trigger] m.encode_chunk(
        chunks(corpus)[c],
    ) == state_after(init, ps, ps.len())[c] by {
        lemma_replay_from(corpus, num_merges, 0, c);
        assert(init[c] == byte_ids(encode_utf8(chunks(corpus)[c])));
    }
}

/// The ids `s` becomes when the merges `ps[k..]` are applied one after the
/// other, in rank order, the merge of rank `j` making the id `256 + j`.
pub open spec fn apply_merges(s: Seq<u32>, ps: Seq<(u32, u32)>, k: int) -> Seq<u32>
    decreases ps.len() - k,
{
    if k < 0 || k >= ps.len() {
        s
    } else {
        apply_merges(merge_seq(s, ps[k], (256 + k) as u32), ps, k + 1)
    }
}

/// No pair is listed twice.
pub open spec fn merges_distinct(ps: Seq<(u32, u32)>) -> bool {
    forall|j: int, k: int| 0 <= j < k < ps.len() ==> ps[j] != ps[k]
}

proof fn lemma_encode_ids_fold(ps: Seq<(u32, u32)>, s: Seq<u32>, k: int)
    requires
        merges_in_order(ps),
        merges_distinct(ps),
        0 <= k <= ps.len(),
        forall|j: int| 0 <= j < k ==> pair_count(s, #[trigger] ps[j]) == 0,
    ensures
        encode_ids(add_merges(fresh_model(), ps).ranks, s) == apply_merges(s, ps, k),
    decreases ps.len() - k,
{
    let r = add_merges(fresh_model(), ps).ranks;
    lemma_ranks_of_merges(ps);
    // Every rank present in `s` is at least `k`.
    assert forall|v: int| #[trigger] ranked(r, s, v) implies r[window(s, v)] >= k by {
        let q = window(s, v);
        let j = choose|j: int| 0 <= j < ps.len() && ps[j] == q;
        assert(r[q] == j);
        if j < k {
            crate::pairs::lemma_pair_count_bound(s, q);
            assert(s[v] == q.0 && s[v + 1] == q.1);
        }
    }
    if k == ps.len() {
        assert forall|w: int| !#[trigger] is_first_min_window(r, s, w) by {
            if is_first_min_window(r, s, w) {
                let q = window(s, w);
                let j = choose|j: int| 0 <= j < ps.len() && ps[j] == q;
                assert(r[q] == j);
            }
        }
    } else {
        let p = ps[k];
        let id = (256 + k) as u32;
        let t = merge_seq(s, p, id);
        assert forall|j: int| 0 <= j < k + 1 implies pair_count(t, #[trigger] ps[j]) == 0 by {
            assert(ps[j].0 < 256 + j && ps[j].1 < 256 + j);
            lemma_merge_leaves_no_pair(s, p, ps[j], id);
        }
        lemma_encode_ids_fold(ps, t, k + 1);
        assert(apply_merges(s, ps, k) == apply_merges(t, ps, k + 1));
        if pair_count(s, p) == 0 {
            lemma_merge_absent(s, p, id);
        } else {
            lemma_first_occurrence(s, p);
            let w = choose|w: int| #[trigger] first_occurrence(s, p, w);
            assert(window(s, w) == p);
            assert(r.contains_key(ps[k]));
            assert(r[ps[k]] == k);
            assert(is_first_min_window(r, s, w)) by {
                assert(ranked(r, s, w));
                assert forall|v: int| #[trigger] ranked(r, s, v) && v < w implies r[window(s, w)]
                    < r[window(s, v)] by {
                    let q = window(s, v);
                    assert(q != p);
                    let j = choose|j: int| 0 <= j < ps.len() && ps[j] == q;
                    assert(r[q] == j);
                    assert(j != k);
                }
            }
            let w2 = choose|w2: int| is_first_min_window(r, s, w2);
            super::lemma_first_min_window_unique(r, s, w, w2);
            crate::pairs::lemma_pair_count_bound(s, p);
            lemma_merge_len(s, p, id);
            assert((256 + r[p]) as u32 == id);
        }
    }
}

/// On a tokenizer built from distinct merges listed in the order they were
/// learned, encoding a chunk is the same as applying every merge once, in
/// rank order, to the chunk's bytes: merges apply by lowest rank still
/// present, never by how often a pair occurs in the input.
pub proof fn lemma_encode_chunk_applies_merges_in_order(m: super::BpeModel, c: Seq<char>)
    requires
        m.built(),
        merges_distinct(m.merges),
    ensures
        m.encode_chunk(c) == apply_merges(byte_ids(encode_utf8(c)), m.merges, 0),
{
    lemma_encode_ids_fold(m.merges, byte_ids(encode_utf8(c)), 0);
}

} // verus!
