//! Learning merge rules from a corpus.
use vstd::prelude::*;
use vstd::utf8::*;
use super::{
    add_merges, lemma_add_merges_shape, byte_ids, bytes_to_ids, fresh_model, lemma_add_merges_consistent,
    lemma_add_merges_len, Bpe, BpeModel,
};
use crate::chunks::{chunks, lemma_chunks_lossless, split_chunks};
use crate::pairs::{
    ids_below, ids_view, is_best_pair, lemma_best_pair_unique, lemma_merge_all_below,
    lemma_merge_all_shrinks, lemma_occurring_pair_below, lemma_total_pair_count_len, merge_all,
    merge_each, select_pair, total_len, total_pair_count,
};
use crate::render::{decimal, pad_left, push_decimal, push_decimal_padded, push_str};
use crate::unicode::{
    debug_format, debug_str, lemma_encode_utf8_concat, string_from_utf8_lossy, utf8_lossy,
};

verus! {

broadcast use vstd::utf8::group_utf8_lib;

/// The id sequences training starts from: the bytes of each chunk.
pub open spec fn corpus_ids(text: Seq<char>) -> Seq<Seq<u32>> {
    chunks(text).map_values(|c: Seq<char>| byte_ids(encode_utf8(c)))
}

/// The merges training learns from step `i` on, each with how often its
/// pair occurred: the most frequent pair (smallest on ties), as long as it
/// occurs at least twice and fewer than `n` steps were taken.
pub open spec fn learned(ss: Seq<Seq<u32>>, i: int, n: int) -> Seq<((u32, u32), nat)>
    decreases n - i,
{
    if i >= n || !(exists|p: (u32, u32)| is_best_pair(ss, p)) {
        seq![]
    } else {
        let p = choose|p: (u32, u32)| is_best_pair(ss, p);
        let c = total_pair_count(ss, p);
        if c < 2 {
            seq![]
        } else {
            seq![(p, c)] + learned(merge_all(ss, p, (256 + i) as u32), i + 1, n)
        }
    }
}

/// The merges `train` learns from a corpus on a tokenizer that already has
/// `base` merges: their ranks run on from `base`.
pub open spec fn training_steps(corpus: Seq<char>, base: nat, num_merges: u32) -> Seq<
    ((u32, u32), nat),
> {
    learned(corpus_ids(corpus), base as int, base + num_merges)
}

/// The pairs of a list of training steps.
pub open spec fn step_pairs(steps: Seq<((u32, u32), nat)>) -> Seq<(u32, u32)> {
    steps.map_values(|s: ((u32, u32), nat)| s.0)
}

/// The line training reports for a learned merge, e.g.
/// `merge    0: (101, 114) -> 256 = "er"  [57x]`.
pub open spec fn merge_log_line(rank: u32, p: (u32, u32), bytes: Seq<u8>, count: nat) -> Seq<char> {
    "merge "@ + pad_left(decimal(rank as nat), 4) + ": ("@ + decimal(p.0 as nat) + ", "@ + decimal(
        p.1 as nat,
    ) + ") -> "@ + decimal((256 + rank) as nat) + " = "@ + debug_str(utf8_lossy(bytes)) + "  ["@ + decimal(count)
        + "x]"@
}

/// The log lines of a training run that learned `steps` on top of `m`.
pub open spec fn training_log(m: BpeModel, steps: Seq<((u32, u32), nat)>) -> Seq<Seq<char>> {
    Seq::new(
        steps.len(),
        |k: int|
            {
                let before = add_merges(m, step_pairs(steps.take(k)));
                let p = steps[k].0;
                merge_log_line(
                    (m.merges.len() + k) as u32,
                    p,
                    before.vocab[p.0 as int] + before.vocab[p.1 as int],
                    steps[k].1,
                )
            },
    )
}

fn log_line(rank: u32, pair: (u32, u32), bytes: &Vec<u8>, count: usize) -> (line: String)
    ensures
        line@ == merge_log_line(rank, pair, bytes@, count as nat),
{
    let mut s = String::new();
    push_str(&mut s, "merge ");
    push_decimal_padded(&mut s, rank as u64, 4);
    push_str(&mut s, ": (");
    push_decimal(&mut s, pair.0 as u64);
    push_str(&mut s, ", ");
    push_decimal(&mut s, pair.1 as u64);
    push_str(&mut s, ") -> ");
    push_decimal(&mut s, 256 + rank as u64);
    push_str(&mut s, " = ");
    let text = string_from_utf8_lossy(bytes.as_slice());
    let shown = debug_format(text.as_str());
    push_str(&mut s, shown.as_str());
    push_str(&mut s, "  [");
    push_decimal(&mut s, count as u64);
    push_str(&mut s, "x]");
    proof {
        assert(s@ =~= merge_log_line(rank, pair, bytes@, count as nat));
    }
    s
}

/// Every learned pair is made of ids that exist when it is learned, and
/// there are no more steps than ids to merge away.
proof fn lemma_learned_shape(ss: Seq<Seq<u32>>, i: int, n: int)
    requires
        0 <= i,
        ids_below(ss, 256 + i),
    ensures
        ({
            let st = learned(ss, i, n);
            &&& st.len() <= total_len(ss)
            &&& forall|j: int|
                0 <= j < st.len() ==> (#[trigger] st[j]).0.0 < 256 + i + j && st[j].0.1 < 256 + i
                    + j
        }),
    decreases n - i,
{
    if i >= n || !(exists|p: (u32, u32)| is_best_pair(ss, p)) {
    } else {
        let p = choose|p: (u32, u32)| is_best_pair(ss, p);
        let c = total_pair_count(ss, p);
        if c >= 2 {
            let id = (256 + i) as u32;
            let next = merge_all(ss, p, id);
            lemma_occurring_pair_below(ss, p, 256 + i);
            lemma_merge_all_below(ss, p, id, 256 + i + 1);
            lemma_merge_all_shrinks(ss, p, id);
            lemma_learned_shape(next, i + 1, n);
            let st = learned(ss, i, n);
            let rest = learned(next, i + 1, n);
            assert(st == seq![(p, c)] + rest);
            assert forall|j: int| 0 <= j < st.len() implies (#[trigger] st[j]).0.0 < 256 + i + j
                && st[j].0.1 < 256 + i + j by {
                if j > 0 {
                    assert(st[j] == rest[j - 1]);
                }
            }
        }
    }
}

/// The pairs training learns are made of ids that exist when each is
/// learned, and there are few enough of them for their ids to fit in `u32`.
pub(crate) proof fn lemma_training_pairs(corpus: Seq<char>, base: nat, num_merges: u32)
    requires
        base + num_merges <= 0xFFFF_FF00 || base + encode_utf8(corpus).len() <= 0xFFFF_FF00,
    ensures
        ({
            let ps = step_pairs(training_steps(corpus, base, num_merges));
            &&& base + ps.len() <= 0xFFFF_FF00
            &&& forall|j: int|
                0 <= j < ps.len() ==> (#[trigger] ps[j]).0 < 256 + base + j && ps[j].1 < 256 + base
                    + j
        }),
{
    let init = corpus_ids(corpus);
    let cs = chunks(corpus);
    assert(ids_below(init, 256 + base as int)) by {
        assert forall|c: int, j: int| 0 <= c < init.len() && 0 <= j < init[c].len() implies #[trigger] init[c][j]
            < 256 + base by {
            assert(init[c] == byte_ids(encode_utf8(cs[c])));
        }
    }
    lemma_learned_shape(init, base as int, base + num_merges);
    lemma_learned_len(init, base as int, base + num_merges);
    lemma_corpus_ids_len(cs);
    lemma_chunks_lossless(corpus);
    let st = training_steps(corpus, base, num_merges);
    let ps = step_pairs(st);
    assert forall|j: int| 0 <= j < ps.len() implies (#[trigger] ps[j]).0 < 256 + base + j && ps[j].1
        < 256 + base + j by {
        assert(ps[j] == st[j].0);
    }
}

/// A tokenizer trained from fresh writes a merge table that reads back as
/// the same tokenizer.
pub proof fn lemma_trained_table_roundtrip(corpus: Seq<char>, num_merges: u32)
    requires
        num_merges <= 0xFFFF_FF00 || encode_utf8(corpus).len() <= 0xFFFF_FF00,
    ensures
        ({
            let m = add_merges(fresh_model(), step_pairs(training_steps(corpus, 0, num_merges)));
            super::persist::from_repr(super::persist::repr_text(m.merges)) == Ok::<BpeModel, Seq<char>>(m)
        }),
{
    let ps = step_pairs(training_steps(corpus, 0, num_merges));
    lemma_training_pairs(corpus, 0, num_merges);
    lemma_add_merges_len(fresh_model(), ps);
    assert(fresh_model().merges + ps =~= ps);
    super::persist::lemma_repr_roundtrip(ps);
}

/// Training a consistent tokenizer (a fresh one, one read back from its
/// merge table, or one trained before) yields a consistent tokenizer, so
/// what it encodes decodes back to the text.
pub proof fn lemma_trained_consistent(m: BpeModel, corpus: Seq<char>, num_merges: u32)
    requires
        m.consistent(),
        m.merges.len() + num_merges <= 0xFFFF_FF00 || m.merges.len() + encode_utf8(corpus).len()
            <= 0xFFFF_FF00,
    ensures
        add_merges(m, step_pairs(training_steps(corpus, m.merges.len(), num_merges))).consistent(),
{
    lemma_training_pairs(corpus, m.merges.len(), num_merges);
    lemma_add_merges_consistent(m, step_pairs(training_steps(corpus, m.merges.len(), num_merges)));
}

/// Training a tokenizer built from its merges leaves one built from its
/// merges: the learned rules are added after the old ones.
proof fn lemma_trained_built(m: BpeModel, corpus: Seq<char>, num_merges: u32)
    requires
        m.built(),
        m.merges.len() + num_merges <= 0xFFFF_FF00 || m.merges.len() + encode_utf8(corpus).len()
            <= 0xFFFF_FF00,
    ensures
        add_merges(m, step_pairs(training_steps(corpus, m.merges.len(), num_merges))).built(),
{
    let ps = step_pairs(training_steps(corpus, m.merges.len(), num_merges));
    lemma_training_pairs(corpus, m.merges.len(), num_merges);
    lemma_add_merges_shape(m, ps);
    super::lemma_add_merges_append(fresh_model(), m.merges, ps);
    let all = m.merges + ps;
    assert forall|j: int| 0 <= j < all.len() implies (#[trigger] all[j]).0 < 256 + j && all[j].1
        < 256 + j by {
        if j >= m.merges.len() {
            assert(all[j] == ps[j - m.merges.len()]);
        } else {
            assert(all[j] == m.merges[j]);
        }
    }
}

proof fn lemma_learned_prefix(ss: Seq<Seq<u32>>, i: int, n1: int, n2: int)
    requires
        n1 <= n2,
    ensures
        learned(ss, i, n1).len() <= learned(ss, i, n2).len(),
        learned(ss, i, n2).take(learned(ss, i, n1).len() as int) == learned(ss, i, n1),
        learned(ss, i, n1).len() < n1 - i ==> learned(ss, i, n2) == learned(ss, i, n1),
    decreases n2 - i,
{
    let a = learned(ss, i, n1);
    let b = learned(ss, i, n2);
    if i >= n1 {
        assert(b.take(0) =~= a);
    } else if !(exists|p: (u32, u32)| is_best_pair(ss, p)) {
        assert(b.take(0) =~= a);
    } else {
        let p = choose|p: (u32, u32)| is_best_pair(ss, p);
        let c = total_pair_count(ss, p);
        if c < 2 {
            assert(b.take(0) =~= a);
        } else {
            let next = merge_all(ss, p, (256 + i) as u32);
            lemma_learned_prefix(next, i + 1, n1, n2);
            let a1 = learned(next, i + 1, n1);
            let b1 = learned(next, i + 1, n2);
            assert(a == seq![(p, c)] + a1);
            assert(b == seq![(p, c)] + b1);
            assert(b.take(a.len() as int) =~= seq![(p, c)] + b1.take(a1.len() as int));
        }
    }
}

/// Asking for more merges never changes the ones a run with fewer learns:
/// the shorter run's rules are the start of the longer run's, and a run that
/// stopped before its limit learned everything a longer run learns.
pub proof fn lemma_more_merges_extend(corpus: Seq<char>, base: nat, n1: u32, n2: u32)
    requires
        n1 <= n2,
    ensures
        ({
            let a = training_steps(corpus, base, n1);
            let b = training_steps(corpus, base, n2);
            &&& a.len() <= b.len()
            &&& b.take(a.len() as int) == a
            &&& a.len() < n1 ==> b == a
        }),
{
    lemma_learned_prefix(corpus_ids(corpus), base as int, base + n1, base + n2);
}

/// No more steps than allowed.
proof fn lemma_learned_len(ss: Seq<Seq<u32>>, i: int, n: int)
    ensures
        learned(ss, i, n).len() <= if n > i { n - i } else { 0 },
    decreases n - i,
{
    if i >= n || !(exists|p: (u32, u32)| is_best_pair(ss, p)) {
    } else {
        let p = choose|p: (u32, u32)| is_best_pair(ss, p);
        if total_pair_count(ss, p) >= 2 {
            lemma_learned_len(merge_all(ss, p, (256 + i) as u32), i + 1, n);
        }
    }
}

proof fn lemma_corpus_ids_len(cs: Seq<Seq<char>>)
    ensures
        total_len(cs.map_values(|c: Seq<char>| byte_ids(encode_utf8(c)))) == encode_utf8(
            cs.flatten(),
        ).len(),
    decreases cs.len(),
{
    let g = |c: Seq<char>| byte_ids(encode_utf8(c));
    if cs.len() > 0 {
        lemma_corpus_ids_len(cs.drop_first());
        assert(cs.map_values(g).drop_first() =~= cs.drop_first().map_values(g));
        lemma_encode_utf8_concat(cs[0], cs.drop_first().flatten());
    } else {
        assert(cs.map_values(g) =~= Seq::<Seq<u32>>::empty());
    }
}

impl Bpe {
    /// Trains up to `num_merges` merge rules on the corpus.
    ///
    /// The corpus is cut into chunks first and pairs are only ever counted and
    /// merged inside a chunk, so no token grows across a word boundary. Each
    /// step merges the most frequent pair, the smallest pair on ties, and
    /// stops early once no pair occurs twice. The new rules come after the
    /// ones already learned: on a tokenizer with `R` merges the k-th new rule
    /// gets rank `R + k` and the new id `256 + R + k`, and every earlier rule
    /// and id stays as it was.
    pub fn train(&mut self, corpus: &str, num_merges: u32, verbose: bool) -> (log: Vec<String>)
        requires
            old(self).wf(),
            old(self)@.merges.len() + num_merges <= 0xFFFF_FF00 || old(self)@.merges.len()
                + encode_utf8(corpus@).len() <= 0xFFFF_FF00,
        ensures
            final(self).wf(),
            final(self)@ == add_merges(
                old(self)@,
                step_pairs(training_steps(corpus@, old(self)@.merges.len(), num_merges)),
            ),
            final(self)@.merges == old(self)@.merges + step_pairs(
                training_steps(corpus@, old(self)@.merges.len(), num_merges),
            ),
            forall|x: int|
                0 <= x < old(self)@.vocab.len() ==> #[trigger] final(self)@.vocab[x] == old(
                    self,
                )@.vocab[x],
            verbose ==> log.len() == training_steps(corpus@, old(self)@.merges.len(), num_merges).len(),
            verbose ==> forall|k: int|
                0 <= k < log.len() ==> (#[trigger] log[k])@ == training_log(
                    old(self)@,
                    training_steps(corpus@, old(self)@.merges.len(), num_merges),
                )[k],
            !verbose ==> log.len() == 0,
            old(self)@.consistent() ==> final(self)@.consistent(),
            old(self)@.built() ==> final(self)@.built(),
    {
        let ghost base_n: nat = self@.merges.len();
        proof {
            if old(self)@.consistent() {
                lemma_trained_consistent(old(self)@, corpus@, num_merges);
            }
            if old(self)@.built() {
                lemma_trained_built(old(self)@, corpus@, num_merges);
            }
            lemma_add_merges_shape(
                old(self)@,
                step_pairs(training_steps(corpus@, base_n, num_merges)),
            );
        }
        let base: u32 = self.merges.len() as u32;
        let pieces = split_chunks(corpus);
        let ghost cs = chunks(corpus@);
        let ghost init = corpus_ids(corpus@);
        let mut work: Vec<Vec<u32>> = Vec::new();
        let mut k: usize = 0;
        proof {
            assert(ids_view(work@) =~= init.take(0));
        }
        while k < pieces.len()
            invariant
                k <= pieces.len(),
                cs == chunks(corpus@),
                init == corpus_ids(corpus@),
                pieces.len() == cs.len(),
                init.len() == cs.len(),
                forall|m: int| 0 <= m < pieces.len() ==> (#[trigger] pieces[m])@ == cs[m],
                ids_view(work@) == init.take(k as int),
            decreases pieces.len() - k,
        {
            let ids = bytes_to_ids(pieces[k].as_bytes());
            let ghost idv = ids@;
            let ghost prev = work@;
            proof {
                assert(ids_view(prev).len() == prev.len());
                assert(prev.len() == k);
                assert(pieces[k as int]@ == cs[k as int]);
                assert(init[k as int] == byte_ids(encode_utf8(cs[k as int])));
                assert(ids@ == init[k as int]);
            }
            work.push(ids);
            k = k + 1;
            proof {
                assert(work@ == prev.push(ids));
                assert(work@[k - 1]@ == idv);
                assert forall|j: int| 0 <= j < k - 1 implies #[trigger] work@[j]@ == init[j] by {
                    assert(work@[j] == prev[j]);
                    assert(ids_view(prev)[j] == init.take(k - 1)[j]);
                }
                assert(ids_view(work@) =~= init.take(k as int));
            }
        }
        let total = corpus.as_bytes().len();
        proof {
            assert(init.take(k as int) =~= init);
            lemma_corpus_ids_len(cs);
            lemma_chunks_lossless(corpus@);
            assert(total_len(init) == total);
            assert forall|c: int, j: int|
                0 <= c < init.len() && 0 <= j < init[c].len() implies #[trigger] init[c][j]
                < self@.vocab.len() by {
                assert(init[c] == byte_ids(encode_utf8(cs[c])));
            }
        }
        let ghost start = self@;
        let ghost n = base + num_merges;
        let ghost mut steps: Seq<((u32, u32), nat)> = seq![];
        let mut log: Vec<String> = Vec::new();
        let mut i: u32 = 0;
        proof {
            assert(steps + learned(init, base as int, n) =~= learned(init, base as int, n));
            assert(step_pairs(steps) =~= Seq::<(u32, u32)>::empty());
        }
        loop
            invariant
                self.wf(),
                i <= num_merges,
                base == start.merges.len(),
                n == base + num_merges,
                steps.len() == i,
                learned(init, base as int, n) == steps + learned(ids_view(work@), base + i, n),
                self@ == add_merges(start, step_pairs(steps)),
                self@.vocab.len() == 256 + base + i,
                ids_below(ids_view(work@), self@.vocab.len() as int),
                total_len(ids_view(work@)) + i <= total_len(init),
                total_len(init) == total,
                base + num_merges <= 0xFFFF_FF00 || base + total_len(init) <= 0xFFFF_FF00,
                verbose ==> log.len() == i,
                verbose ==> forall|k: int|
                    0 <= k < log.len() ==> (#[trigger] log[k])@ == training_log(start, steps)[k],
                !verbose ==> log.len() == 0,
            ensures
                self.wf(),
                self@ == add_merges(start, step_pairs(steps)),
                steps == learned(init, base as int, n),
                verbose ==> log.len() == steps.len(),
                verbose ==> forall|k: int|
                    0 <= k < log.len() ==> (#[trigger] log[k])@ == training_log(start, steps)[k],
                !verbose ==> log.len() == 0,
            decreases num_merges - i,
        {
            let ghost cur = ids_view(work@);
            if i >= num_merges {
                proof {
                    assert(learned(cur, base + i, n) =~= Seq::<((u32, u32), nat)>::empty());
                    assert(steps + learned(cur, base + i, n) =~= steps);
                }
                break;
            }
            match select_pair(&work) {
                None => {
                    proof {
                        assert(learned(cur, base + i, n) =~= Seq::<((u32, u32), nat)>::empty());
                        assert(steps + learned(cur, base + i, n) =~= steps);
                    }
                    break;
                },
                Some((pair, count)) => {
                    proof {
                        let q = choose|q: (u32, u32)| is_best_pair(cur, q);
                        lemma_best_pair_unique(cur, pair, q);
                    }
                    if count < 2 {
                        proof {
                            assert(learned(cur, base + i, n) =~= Seq::<((u32, u32), nat)>::empty());
                            assert(steps + learned(cur, base + i, n) =~= steps);
                        }
                        break;
                    }
                    proof {
                        lemma_total_pair_count_len(cur, pair);
                        lemma_occurring_pair_below(cur, pair, self@.vocab.len() as int);
                    }
                    let new_id = 256 + base + i;
                    let ghost before = self@;
                    merge_each(&mut work, pair, new_id);
                    self.record_merge(pair, base + i);
                    if verbose {
                        let line = log_line(base + i, pair, &self.vocab[new_id as usize], count);
                        let ghost log_before = log@;
                        log.push(line);
                        proof {
                            let next = steps.push((pair, count as nat));
                            assert forall|k: int| 0 <= k < log.len() implies (#[trigger] log[k])@
                                == training_log(start, next)[k] by {
                                assert(next.take(k) =~= steps.take(k)) by {
                                    if k < i {
                                    } else {
                                        assert(steps.take(k) =~= steps);
                                    }
                                }
                                if k == i {
                                    assert(steps.take(k) =~= steps);
                                    assert(next[k] == (pair, count as nat));
                                    assert(self@.vocab[256 + base + i] == before.vocab[pair.0 as int]
                                        + before.vocab[pair.1 as int]);
                                } else {
                                    assert(log[k] == log_before[k]);
                                    assert(next[k] == steps[k]);
                                }
                            }
                        }
                    }
                    proof {
                        let step = (pair, count as nat);
                        let old_steps = steps;
                        steps = steps.push(step);
                        assert(learned(cur, base + i, n) == seq![step] + learned(
                            merge_all(cur, pair, new_id),
                            base + i + 1,
                            n,
                        ));
                        assert(steps + learned(ids_view(work@), base + i + 1, n) =~= old_steps + learned(
                            cur,
                            base + i,
                            n,
                        ));
                        assert(step_pairs(steps) =~= step_pairs(old_steps).push(pair));
                        assert(step_pairs(steps).drop_last() =~= step_pairs(old_steps));
                        lemma_merge_all_shrinks(cur, pair, new_id);
                        lemma_merge_all_below(cur, pair, new_id, self@.vocab.len() as int);
                        assert(ids_below(cur, self@.vocab.len() as int)) by {
                            assert forall|c: int, j: int|
                                0 <= c < cur.len() && 0 <= j < cur[c].len() implies #[trigger] cur[c][j]
                                < self@.vocab.len() by {
                                assert(cur[c][j] < before.vocab.len());
                            }
                        }
                    }
                    i = i + 1;
                },
            }
        }
        log
    }

}

} // verus!
