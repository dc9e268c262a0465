//! Adjacent id pairs: counting them and merging them into a new id.
use vstd::prelude::*;
use std::collections::HashMap;

verus! {

/// A pair packed into one integer: the first id in the high half.
pub open spec fn pair_key(p: (u32, u32)) -> u64 {
    ((p.0 as u64) << 32u64) | (p.1 as u64)
}

/// The pair a packed key stands for.
pub open spec fn key_pair(k: u64) -> (u32, u32) {
    ((k >> 32u64) as u32, (k & 0xFFFF_FFFFu64) as u32)
}

/// Lexicographic order on pairs, the order `(u32, u32)` has in Rust.
pub open spec fn pair_le(p: (u32, u32), q: (u32, u32)) -> bool {
    p.0 < q.0 || (p.0 == q.0 && p.1 <= q.1)
}

/// Packing and unpacking are inverse, and packing keeps the pair order.
pub proof fn lemma_pair_key(p: (u32, u32), q: (u32, u32))
    ensures
        key_pair(pair_key(p)) == p,
        pair_le(p, q) <==> pair_key(p) <= pair_key(q),
        pair_key(p) == pair_key(q) <==> p == q,
{
    let (a, b) = p;
    let (c, d) = q;
    assert((((a as u64) << 32u64) | (b as u64)) >> 32u64 == a as u64) by (bit_vector);
    assert(((((a as u64) << 32u64) | (b as u64)) & 0xFFFF_FFFFu64) == b as u64) by (bit_vector);
    assert((a < c || (a == c && b <= d)) <==> (((a as u64) << 32u64) | (b as u64)) <= (((
    c as u64) << 32u64) | (d as u64))) by (bit_vector);
    assert(((((a as u64) << 32u64) | (b as u64)) == (((c as u64) << 32u64) | (d as u64))) <==> (a
        == c && b == d)) by (bit_vector);
}

/// Every key is the key of its pair.
pub proof fn lemma_key_pair(k: u64)
    ensures
        pair_key(key_pair(k)) == k,
{
    assert(((((k >> 32u64) as u32) as u64) << 32u64) | (((k & 0xFFFF_FFFFu64) as u32) as u64) == k)
        by (bit_vector);
}

pub(crate) fn pack(a: u32, b: u32) -> (k: u64)
    ensures
        k == pair_key((a, b)),
{
    ((a as u64) << 32) | (b as u64)
}

/// Replaces every occurrence of `p`, scanning left to right without overlap,
/// by `id`.
pub open spec fn merge_seq(s: Seq<u32>, p: (u32, u32), id: u32) -> Seq<u32>
    decreases s.len(),
{
    if s.len() == 0 {
        s
    } else if s.len() >= 2 && s[0] == p.0 && s[1] == p.1 {
        seq![id] + merge_seq(s.skip(2), p, id)
    } else {
        seq![s[0]] + merge_seq(s.skip(1), p, id)
    }
}

/// Number of positions `i` with `(s[i], s[i + 1]) == p`.
pub open spec fn pair_count(s: Seq<u32>, p: (u32, u32)) -> nat
    decreases s.len(),
{
    if s.len() < 2 {
        0
    } else {
        (if s[0] == p.0 && s[1] == p.1 {
            1nat
        } else {
            0nat
        }) + pair_count(s.drop_first(), p)
    }
}

/// Occurrences of `p` over all sequences.
pub open spec fn total_pair_count(ss: Seq<Seq<u32>>, p: (u32, u32)) -> nat
    decreases ss.len(),
{
    if ss.len() == 0 {
        0
    } else {
        pair_count(ss[0], p) + total_pair_count(ss.drop_first(), p)
    }
}

/// Total number of ids over all sequences.
pub open spec fn total_len(ss: Seq<Seq<u32>>) -> nat
    decreases ss.len(),
{
    if ss.len() == 0 {
        0
    } else {
        ss[0].len() + total_len(ss.drop_first())
    }
}

/// Merging never lengthens, and shortens whenever the pair occurs.
pub proof fn lemma_merge_len(s: Seq<u32>, p: (u32, u32), id: u32)
    ensures
        merge_seq(s, p, id).len() <= s.len(),
        pair_count(s, p) > 0 ==> merge_seq(s, p, id).len() < s.len(),
    decreases s.len(),
{
    if s.len() == 0 {
    } else if s.len() >= 2 && s[0] == p.0 && s[1] == p.1 {
        lemma_merge_len(s.skip(2), p, id);
    } else {
        lemma_merge_len(s.skip(1), p, id);
        assert(s.skip(1) =~= s.drop_first());
    }
}

pub proof fn lemma_pair_count_bound(s: Seq<u32>, p: (u32, u32))
    ensures
        pair_count(s, p) <= s.len(),
        pair_count(s, p) > 0 <==> exists|i: int|
            0 <= i < s.len() - 1 && s[i] == p.0 && #[trigger] s[i + 1] == p.1,
    decreases s.len(),
{
    if s.len() >= 2 {
        lemma_pair_count_bound(s.drop_first(), p);
        if pair_count(s.drop_first(), p) > 0 {
            let i = choose|i: int|
                0 <= i < s.drop_first().len() - 1 && s.drop_first()[i] == p.0
                    && #[trigger] s.drop_first()[i + 1] == p.1;
            assert(s[i + 1] == p.0 && s[i + 2] == p.1);
        }
        if s[0] == p.0 && s[1] == p.1 {
            assert(s[0int + 1] == p.1);
        }
        assert forall|i: int|
            0 <= i < s.len() - 1 && s[i] == p.0 && #[trigger] s[i + 1] == p.1 implies pair_count(
            s,
            p,
        ) > 0 by {
            if i > 0 {
                assert(s.drop_first()[i - 1] == p.0 && s.drop_first()[(i - 1) + 1] == p.1);
            }
        }
    }
}

pub proof fn lemma_total_pair_count_bound(ss: Seq<Seq<u32>>, p: (u32, u32))
    ensures
        total_pair_count(ss, p) <= total_len(ss),
    decreases ss.len(),
{
    if ss.len() > 0 {
        lemma_pair_count_bound(ss[0], p);
        lemma_total_pair_count_bound(ss.drop_first(), p);
    }
}

/// The merged sequence.
pub(crate) fn merge(ids: &Vec<u32>, pair: (u32, u32), new_id: u32) -> (out: Vec<u32>)
    ensures
        out@ == merge_seq(ids@, pair, new_id),
{
    let mut out: Vec<u32> = Vec::with_capacity(ids.len());
    let mut i: usize = 0;
    proof {
        assert(ids@.skip(0) =~= ids@);
        assert(out@ + merge_seq(ids@, pair, new_id) =~= merge_seq(ids@, pair, new_id));
    }
    while i < ids.len()
        invariant
            i <= ids.len(),
            out@ + merge_seq(ids@.skip(i as int), pair, new_id) == merge_seq(ids@, pair, new_id),
        decreases ids.len() - i,
    {
        let ghost rest = ids@.skip(i as int);
        if i + 1 < ids.len() && ids[i] == pair.0 && ids[i + 1] == pair.1 {
            proof {
                assert(rest.skip(2) =~= ids@.skip(i + 2));
                assert(merge_seq(rest, pair, new_id) == seq![new_id] + merge_seq(
                    rest.skip(2),
                    pair,
                    new_id,
                ));
                assert(out@.push(new_id) + merge_seq(ids@.skip(i + 2), pair, new_id) =~= out@
                    + merge_seq(rest, pair, new_id));
            }
            out.push(new_id);
            i = i + 2;
        } else {
            proof {
                assert(rest.skip(1) =~= ids@.skip(i + 1));
                assert(merge_seq(rest, pair, new_id) == seq![ids@[i as int]] + merge_seq(
                    rest.skip(1),
                    pair,
                    new_id,
                ));
                assert(out@.push(ids@[i as int]) + merge_seq(ids@.skip(i + 1), pair, new_id)
                    =~= out@ + merge_seq(rest, pair, new_id));
            }
            out.push(ids[i]);
            i = i + 1;
        }
    }
    proof {
        assert(ids@.skip(i as int) =~= Seq::<u32>::empty());
        assert(out@ + Seq::<u32>::empty() =~= out@);
    }
    out
}

/// How many times `p` has been counted in `stats`.
pub open spec fn counted(stats: Map<u64, usize>, p: (u32, u32)) -> nat {
    if stats.contains_key(pair_key(p)) {
        stats[pair_key(p)] as nat
    } else {
        0
    }
}

/// Adds the adjacent pairs of `ids` to the counts in `stats`.
pub(crate) fn count_pairs_into(ids: &Vec<u32>, stats: &mut HashMap<u64, usize>)
    requires
        forall|k: u64| #[trigger] old(stats)@.contains_key(k) ==> old(stats)@[k] + ids.len() <= usize::MAX,
    ensures
        forall|p: (u32, u32)| #[trigger] counted(final(stats)@, p) == counted(old(stats)@, p) + pair_count(ids@, p),
        forall|k: u64| #[trigger] final(stats)@.contains_key(k) ==> (old(stats)@.contains_key(k)
            || pair_count(ids@, key_pair(k)) > 0),
        forall|k: u64| #[trigger] final(stats)@.contains_key(k) ==> final(stats)@[k] > 0 || old(stats)@.contains_key(k),
{
    let ghost base = stats@;
    let n = ids.len();
    if n < 2 {
        return;
    }
    let mut w: usize = 0;
    proof {
        assert(ids@.skip(0) =~= ids@);
    }
    while w + 1 < n
        invariant
            n == ids.len(),
            n >= 2,
            w + 1 <= n,
            forall|k: u64| #[trigger] base.contains_key(k) ==> base[k] + n <= usize::MAX,
            forall|p: (u32, u32)|
                #[trigger] counted(stats@, p) + pair_count(ids@.skip(w as int), p) == counted(base, p)
                    + pair_count(ids@, p),
            forall|k: u64| #[trigger] stats@.contains_key(k) ==> (base.contains_key(k)
                || pair_count(ids@, key_pair(k)) > 0),
            forall|k: u64| #[trigger] stats@.contains_key(k) ==> stats@[k] > 0 || base.contains_key(k),
            forall|k: u64| #[trigger] stats@.contains_key(k) ==> stats@[k] <= (if base.contains_key(k) { base[k] as int } else { 0 }) + w,
        decreases n - w,
    {
        let a = ids[w];
        let b = ids[w + 1];
        let key = pack(a, b);
        let current: usize = match stats.get(&key) {
            Some(c) => *c,
            None => 0,
        };
        proof {
            assert(stats@.contains_key(key) ==> current == stats@[key]);
            assert(!stats@.contains_key(key) ==> current == 0);
        }
        let ghost before = stats@;
        stats.insert(key, current + 1);
        proof {
            let rest = ids@.skip(w as int);
            assert(rest.drop_first() =~= ids@.skip(w + 1));
            assert(rest[0] == a && rest[1] == b);
            lemma_pair_key((a, b), (a, b));
            assert forall|p: (u32, u32)|
                #[trigger] counted(stats@, p) + pair_count(ids@.skip(w + 1), p) == counted(base, p)
                    + pair_count(ids@, p) by {
                lemma_pair_key(p, (a, b));
                assert(counted(before, p) + pair_count(rest, p) == counted(base, p) + pair_count(
                    ids@,
                    p,
                ));
                assert(rest.len() >= 2);
                if p == (a, b) {
                    assert(counted(stats@, p) == current + 1);
                    assert(counted(before, p) == current);
                } else {
                    assert(pair_key(p) != key);
                    assert(counted(stats@, p) == counted(before, p));
                }
                assert(pair_count(rest, p) == (if rest[0] == p.0 && rest[1] == p.1 {
                    1nat
                } else {
                    0nat
                }) + pair_count(ids@.skip(w + 1), p));
            }
            assert forall|k: u64| #[trigger] stats@.contains_key(k) implies (base.contains_key(k)
                || pair_count(ids@, key_pair(k)) > 0) by {
                if k == key && !base.contains_key(k) {
                    lemma_pair_key((a, b), (a, b));
                    lemma_pair_count_bound(ids@, (a, b));
                    assert(ids@[w as int] == a && ids@[w + 1] == b);
                }
            }
        }
        w = w + 1;
    }
    proof {
        assert forall|p: (u32, u32)| #[trigger] counted(stats@, p) == counted(base, p) + pair_count(ids@, p) by {
            assert(ids@.skip(w as int).len() < 2);
        }
    }
}

} // verus!
verus! {

/// The most frequent key, the smallest one among equally frequent keys.
pub(crate) fn most_frequent(stats: &HashMap<u64, usize>) -> (r: Option<(u64, usize)>)
    ensures
        r is None ==> forall|k: u64| !#[trigger] stats@.contains_key(k),
        r matches Some((k, c)) ==> {
            &&& stats@.contains_key(k)
            &&& stats@[k] == c
            &&& forall|k2: u64| #[trigger]
                stats@.contains_key(k2) ==> stats@[k2] < c || (stats@[k2] == c && k <= k2)
        },
{
    let mut best: Option<(u64, usize)> = None;
    for (k, c) in it: stats.iter()
        invariant
            best is None ==> it.index() == 0,
            best matches Some((bk, bc)) ==> {
                &&& stats@.contains_key(bk)
                &&& stats@[bk] == bc
                &&& forall|j: int| #![trigger it.seq()[j]]
                    0 <= j < it.index() ==> {
                        let (k2, c2) = it.seq()[j];
                        *c2 < bc || (*c2 == bc && bk <= *k2)
                    }
            },
    {
        match best {
            None => {
                best = Some((*k, *c));
            },
            Some((bk, bc)) => {
                if *c > bc || (*c == bc && *k < bk) {
                    best = Some((*k, *c));
                }
            },
        }
    }
    best
}

} // verus!
verus! {

/// `p` occurs, and no pair occurs more often; among equally frequent pairs
/// it is the smallest.
pub open spec fn is_best_pair(ss: Seq<Seq<u32>>, p: (u32, u32)) -> bool {
    &&& total_pair_count(ss, p) > 0
    &&& forall|q: (u32, u32)| #[trigger]
        total_pair_count(ss, q) > 0 ==> total_pair_count(ss, q) < total_pair_count(ss, p) || (
        total_pair_count(ss, q) == total_pair_count(ss, p) && pair_le(p, q))
}

/// Every sequence with `p` merged into `id`.
pub open spec fn merge_all(ss: Seq<Seq<u32>>, p: (u32, u32), id: u32) -> Seq<Seq<u32>> {
    ss.map_values(|s: Seq<u32>| merge_seq(s, p, id))
}

/// All ids in all sequences are below `bound`.
pub open spec fn ids_below(ss: Seq<Seq<u32>>, bound: int) -> bool {
    forall|c: int, k: int| 0 <= c < ss.len() && 0 <= k < ss[c].len() ==> #[trigger] ss[c][k] < bound
}

pub proof fn lemma_best_pair_unique(ss: Seq<Seq<u32>>, p: (u32, u32), q: (u32, u32))
    requires
        is_best_pair(ss, p),
        is_best_pair(ss, q),
    ensures
        p == q,
{
    assert(total_pair_count(ss, q) > 0);
    assert(total_pair_count(ss, p) > 0);
}

pub proof fn lemma_total_push(ss: Seq<Seq<u32>>, s: Seq<u32>, p: (u32, u32))
    ensures
        total_pair_count(ss.push(s), p) == total_pair_count(ss, p) + pair_count(s, p),
        total_len(ss.push(s)) == total_len(ss) + s.len(),
    decreases ss.len(),
{
    if ss.len() == 0 {
        let e = Seq::<Seq<u32>>::empty();
        assert(ss.push(s).drop_first() =~= e);
        assert(ss.push(s)[0] == s);
        assert(total_pair_count(e, p) == 0);
        assert(total_len(e) == 0);
    } else {
        lemma_total_push(ss.drop_first(), s, p);
        assert(ss.push(s).drop_first() =~= ss.drop_first().push(s));
        assert(ss.push(s)[0] == ss[0]);
    }
}

pub proof fn lemma_total_len_push(ss: Seq<Seq<u32>>, s: Seq<u32>)
    ensures
        total_len(ss.push(s)) == total_len(ss) + s.len(),
{
    lemma_total_push(ss, s, (0, 0));
}

proof fn lemma_total_take(ss: Seq<Seq<u32>>, c: int)
    requires
        0 <= c <= ss.len(),
    ensures
        total_len(ss.take(c)) <= total_len(ss),
    decreases ss.len() - c,
{
    if c < ss.len() {
        lemma_total_take(ss, c + 1);
        lemma_total_len_push(ss.take(c), ss[c]);
        assert(ss.take(c).push(ss[c]) =~= ss.take(c + 1));
    } else {
        assert(ss.take(c) =~= ss);
    }
}

/// A prefix of the sequences together with the next one holds no more ids
/// than all of them.
pub proof fn lemma_total_len_prefix(ss: Seq<Seq<u32>>, c: int)
    requires
        0 <= c < ss.len(),
    ensures
        total_len(ss.take(c)) + ss[c].len() <= total_len(ss),
{
    lemma_total_take(ss, c + 1);
    lemma_total_len_push(ss.take(c), ss[c]);
    assert(ss.take(c).push(ss[c]) =~= ss.take(c + 1));
}

proof fn lemma_merge_seq_below(s: Seq<u32>, p: (u32, u32), id: u32, bound: int)
    requires
        forall|k: int| 0 <= k < s.len() ==> #[trigger] s[k] < bound,
        id < bound,
    ensures
        forall|k: int|
            0 <= k < merge_seq(s, p, id).len() ==> #[trigger] merge_seq(s, p, id)[k] < bound,
    decreases s.len(),
{
    if s.len() == 0 {
    } else if s.len() >= 2 && s[0] == p.0 && s[1] == p.1 {
        lemma_merge_seq_below(s.skip(2), p, id, bound);
        let rest = merge_seq(s.skip(2), p, id);
        assert forall|k: int| 0 <= k < merge_seq(s, p, id).len() implies #[trigger] merge_seq(
            s,
            p,
            id,
        )[k] < bound by {
            if k > 0 {
                assert(merge_seq(s, p, id)[k] == rest[k - 1]);
            }
        }
    } else {
        lemma_merge_seq_below(s.skip(1), p, id, bound);
        let rest = merge_seq(s.skip(1), p, id);
        assert forall|k: int| 0 <= k < merge_seq(s, p, id).len() implies #[trigger] merge_seq(
            s,
            p,
            id,
        )[k] < bound by {
            if k > 0 {
                assert(merge_seq(s, p, id)[k] == rest[k - 1]);
            }
        }
    }
}

/// Merging keeps every id below a bound that the new id is below too.
pub proof fn lemma_merge_all_below(ss: Seq<Seq<u32>>, p: (u32, u32), id: u32, bound: int)
    requires
        ids_below(ss, bound),
        id < bound,
    ensures
        ids_below(merge_all(ss, p, id), bound),
{
    assert forall|c: int, k: int|
        0 <= c < merge_all(ss, p, id).len() && 0 <= k < merge_all(ss, p, id)[c].len() implies #[trigger] merge_all(
        ss,
        p,
        id,
    )[c][k] < bound by {
        assert forall|j: int| 0 <= j < ss[c].len() implies #[trigger] ss[c][j] < bound by {}
        lemma_merge_seq_below(ss[c], p, id, bound);
    }
}

/// Merging a pair that occurs makes the total strictly shorter.
pub proof fn lemma_merge_all_shrinks(ss: Seq<Seq<u32>>, p: (u32, u32), id: u32)
    ensures
        total_len(merge_all(ss, p, id)) <= total_len(ss),
        total_pair_count(ss, p) > 0 ==> total_len(merge_all(ss, p, id)) < total_len(ss),
    decreases ss.len(),
{
    if ss.len() > 0 {
        lemma_merge_all_shrinks(ss.drop_first(), p, id);
        assert(merge_all(ss, p, id).drop_first() =~= merge_all(ss.drop_first(), p, id));
        lemma_merge_len(ss[0], p, id);
    }
}

/// A sequence with a pair in it has at least two ids.
pub proof fn lemma_total_pair_count_len(ss: Seq<Seq<u32>>, p: (u32, u32))
    requires
        total_pair_count(ss, p) > 0,
    ensures
        total_len(ss) >= 2,
    decreases ss.len(),
{
    if pair_count(ss[0], p) == 0 {
        lemma_total_pair_count_len(ss.drop_first(), p);
    }
}

} // verus!
verus! {

/// The id sequences held in a vector of vectors.
pub open spec fn ids_view(v: Seq<Vec<u32>>) -> Seq<Seq<u32>> {
    v.map_values(|x: Vec<u32>| x@)
}

/// Counts every adjacent pair over all sequences.
pub(crate) fn count_all(chunks: &Vec<Vec<u32>>) -> (stats: HashMap<u64, usize>)
    requires
        total_len(ids_view(chunks@)) <= usize::MAX,
    ensures
        forall|p: (u32, u32)| #[trigger]
            counted(stats@, p) == total_pair_count(ids_view(chunks@), p),
        forall|k: u64| #[trigger] stats@.contains_key(k) ==> stats@[k] > 0,
{
    let ghost ss = ids_view(chunks@);
    let mut stats: HashMap<u64, usize> = HashMap::new();
    let mut c: usize = 0;
    proof {
        assert(ss.take(0) =~= Seq::<Seq<u32>>::empty());
        assert forall|p: (u32, u32)| #[trigger] counted(stats@, p) == total_pair_count(ss.take(0), p) by {
            assert(total_pair_count(ss.take(0), p) == 0);
        }
        assert(total_len(ss.take(0)) == 0);
    }
    while c < chunks.len()
        invariant
            c <= chunks.len(),
            ss == ids_view(chunks@),
            total_len(ss) <= usize::MAX,
            forall|p: (u32, u32)| #[trigger] counted(stats@, p) == total_pair_count(ss.take(c as int), p),
            forall|k: u64| #[trigger] stats@.contains_key(k) ==> stats@[k] > 0,
        decreases chunks.len() - c,
    {
        let ghost before = stats@;
        let ghost pre = ss.take(c as int);
        proof {
            lemma_total_len_prefix(ss, c as int);
            assert(ss[c as int] == chunks@[c as int]@);
            assert forall|k: u64| #[trigger] before.contains_key(k) implies before[k] + chunks@[c as int]@.len() <= usize::MAX by {
                lemma_key_pair(k);
                assert(counted(before, key_pair(k)) == before[k]);
                lemma_total_pair_count_bound(pre, key_pair(k));
            }
        }
        count_pairs_into(&chunks[c], &mut stats);
        proof {
            assert(pre.push(ss[c as int]) =~= ss.take(c + 1));
            assert forall|p: (u32, u32)| #[trigger] counted(stats@, p) == total_pair_count(ss.take(c + 1), p) by {
                lemma_total_push(pre, ss[c as int], p);
                assert(counted(before, p) == total_pair_count(pre, p));
            }
            assert forall|k: u64| #[trigger] stats@.contains_key(k) implies stats@[k] > 0 by {
                if before.contains_key(k) {
                    lemma_key_pair(k);
                    assert(counted(before, key_pair(k)) == before[k]);
                    assert(counted(stats@, key_pair(k)) == stats@[k]);
                }
            }
        }
        c = c + 1;
    }
    proof {
        assert(ss.take(c as int) =~= ss);
    }
    stats
}

/// The pair to merge next and how often it occurs, if any pair occurs.
pub(crate) fn select_pair(chunks: &Vec<Vec<u32>>) -> (r: Option<((u32, u32), usize)>)
    requires
        total_len(ids_view(chunks@)) <= usize::MAX,
    ensures
        r is None ==> !exists|p: (u32, u32)| #[trigger] is_best_pair(ids_view(chunks@), p),
        r matches Some((p, c)) ==> is_best_pair(ids_view(chunks@), p) && c == total_pair_count(
            ids_view(chunks@),
            p,
        ),
{
    let ghost ss = ids_view(chunks@);
    let stats = count_all(chunks);
    match most_frequent(&stats) {
        None => {
            proof {
                assert forall|p: (u32, u32)| !#[trigger] is_best_pair(ss, p) by {
                    assert(counted(stats@, p) == total_pair_count(ss, p));
                }
            }
            None
        },
        Some((key, count)) => {
            let a = (key >> 32) as u32;
            let b = (key & 0xFFFF_FFFF) as u32;
            let p = (a, b);
            proof {
                assert(p == key_pair(key));
                lemma_key_pair(key);
                assert(counted(stats@, p) == count);
                assert forall|q: (u32, u32)| #[trigger] total_pair_count(ss, q) > 0 implies total_pair_count(ss, q)
                    < total_pair_count(ss, p) || (total_pair_count(ss, q) == total_pair_count(ss, p)
                    && pair_le(p, q)) by {
                    assert(counted(stats@, q) == total_pair_count(ss, q));
                    lemma_pair_key(p, q);
                    assert(stats@.contains_key(pair_key(q)));
                }
            }
            Some((p, count))
        },
    }
}

/// Merges `p` into `id` in every sequence.
pub(crate) fn merge_each(chunks: &mut Vec<Vec<u32>>, p: (u32, u32), id: u32)
    ensures
        ids_view(final(chunks)@) == merge_all(ids_view(old(chunks)@), p, id),
{
    let ghost ss = ids_view(chunks@);
    let mut c: usize = 0;
    while c < chunks.len()
        invariant
            c <= chunks.len(),
            chunks.len() == ss.len(),
            forall|k: int| 0 <= k < c ==> (#[trigger] chunks@[k])@ == merge_seq(ss[k], p, id),
            forall|k: int| c <= k < chunks.len() ==> (#[trigger] chunks@[k])@ == ss[k],
        decreases ss.len() - c,
    {
        let merged = merge(&chunks[c], p, id);
        chunks.set(c, merged);
        c = c + 1;
    }
    proof {
        assert(ids_view(chunks@) =~= merge_all(ss, p, id));
    }
}

} // verus!
verus! {

/// A pair that occurs is made of ids that occur.
pub proof fn lemma_occurring_pair_below(ss: Seq<Seq<u32>>, p: (u32, u32), bound: int)
    requires
        total_pair_count(ss, p) > 0,
        ids_below(ss, bound),
    ensures
        p.0 < bound,
        p.1 < bound,
    decreases ss.len(),
{
    if pair_count(ss[0], p) > 0 {
        lemma_pair_count_bound(ss[0], p);
        let i = choose|i: int| 0 <= i < ss[0].len() - 1 && ss[0][i] == p.0 && #[trigger] ss[0][i + 1] == p.1;
        assert(ss[0][i] < bound);
        assert(ss[0][i + 1] < bound);
    } else {
        assert forall|c: int, k: int| 0 <= c < ss.drop_first().len() && 0 <= k < ss.drop_first()[c].len() implies #[trigger] ss.drop_first()[c][k] < bound by {
            assert(ss.drop_first()[c] == ss[c + 1]);
        }
        lemma_occurring_pair_below(ss.drop_first(), p, bound);
    }
}

} // verus!
verus! {

/// A pair that occurs somewhere occurs at some position of some sequence.
pub proof fn lemma_pair_occurs(ss: Seq<Seq<u32>>, p: (u32, u32))
    requires
        total_pair_count(ss, p) > 0,
    ensures
        exists|c: int, w: int|
            0 <= c < ss.len() && 0 <= w < ss[c].len() - 1 && #[trigger] ss[c][w] == p.0 && ss[c][w
                + 1] == p.1,
    decreases ss.len(),
{
    if pair_count(ss[0], p) > 0 {
        lemma_pair_count_bound(ss[0], p);
        let w = choose|w: int| 0 <= w < ss[0].len() - 1 && ss[0][w] == p.0 && #[trigger] ss[0][w + 1] == p.1;
        assert(ss[0][w] == p.0);
    } else {
        lemma_pair_occurs(ss.drop_first(), p);
        let (c, w) = choose|c: int, w: int|
            0 <= c < ss.drop_first().len() && 0 <= w < ss.drop_first()[c].len() - 1
                && #[trigger] ss.drop_first()[c][w] == p.0 && ss.drop_first()[c][w + 1] == p.1;
        assert(ss[c + 1][w] == p.0);
    }
}

} // verus!
verus! {

/// Merging a pair that does not occur changes nothing.
pub proof fn lemma_merge_absent(s: Seq<u32>, p: (u32, u32), id: u32)
    requires
        pair_count(s, p) == 0,
    ensures
        merge_seq(s, p, id) == s,
    decreases s.len(),
{
    if s.len() > 0 {
        assert(!(s.len() >= 2 && s[0] == p.0 && s[1] == p.1));
        assert(s.skip(1) =~= s.drop_first());
        if s.len() >= 2 {
            assert(pair_count(s.drop_first(), p) == 0);
        }
        lemma_merge_absent(s.skip(1), p, id);
        assert(seq![s[0]] + s.skip(1) =~= s);
    }
}

proof fn lemma_pair_count_skip(s: Seq<u32>, q: (u32, u32), k: int)
    requires
        0 <= k <= s.len(),
    ensures
        pair_count(s.skip(k), q) <= pair_count(s, q),
    decreases k,
{
    if k > 0 {
        lemma_pair_count_skip(s, q, k - 1);
        let t = s.skip(k - 1);
        assert(t.drop_first() =~= s.skip(k));
    } else {
        assert(s.skip(0) =~= s);
    }
}

/// After merging, no pair `q` is left when `q` is the merged pair or did not
/// occur before, and the new id is not part of `q`.
pub proof fn lemma_merge_leaves_no_pair(s: Seq<u32>, p: (u32, u32), q: (u32, u32), id: u32)
    requires
        q == p || pair_count(s, q) == 0,
        id != q.0,
        id != q.1,
    ensures
        pair_count(merge_seq(s, p, id), q) == 0,
    decreases s.len(),
{
    if s.len() == 0 {
    } else if s.len() >= 2 && s[0] == p.0 && s[1] == p.1 {
        lemma_pair_count_skip(s, q, 2);
        lemma_merge_leaves_no_pair(s.skip(2), p, q, id);
        let r = merge_seq(s.skip(2), p, id);
        let out = merge_seq(s, p, id);
        assert(out == seq![id] + r);
        if out.len() >= 2 {
            assert(out.drop_first() =~= r);
        }
    } else {
        lemma_pair_count_skip(s, q, 1);
        lemma_merge_leaves_no_pair(s.skip(1), p, q, id);
        let t = s.skip(1);
        let r = merge_seq(t, p, id);
        let out = merge_seq(s, p, id);
        assert(out == seq![s[0]] + r);
        if out.len() >= 2 {
            assert(out.drop_first() =~= r);
            if t.len() >= 2 && t[0] == p.0 && t[1] == p.1 {
                assert(r[0] == id);
            } else {
                assert(r[0] == t[0]);
                assert(t[0] == s[1]);
                if q != p {
                    assert(s.len() >= 2);
                    assert(!(s[0] == q.0 && s[1] == q.1));
                }
            }
        }
    }
}

/// Position `w` holds `p`, and no earlier position does.
pub open spec fn first_occurrence(s: Seq<u32>, p: (u32, u32), w: int) -> bool {
    &&& 0 <= w < s.len() - 1
    &&& s[w] == p.0
    &&& s[w + 1] == p.1
    &&& forall|v: int| 0 <= v < w ==> !(#[trigger] s[v] == p.0 && s[v + 1] == p.1)
}

/// A pair that occurs has a first occurrence.
pub proof fn lemma_first_occurrence(s: Seq<u32>, p: (u32, u32))
    requires
        pair_count(s, p) > 0,
    ensures
        exists|w: int| #[trigger] first_occurrence(s, p, w),
    decreases s.len(),
{
    if s[0] == p.0 && s[1] == p.1 {
        assert(first_occurrence(s, p, 0));
    } else {
        let t = s.drop_first();
        lemma_first_occurrence(t, p);
        let w = choose|w: int| #[trigger] first_occurrence(t, p, w);
        assert forall|v: int| 0 <= v < w + 1 implies !(#[trigger] s[v] == p.0 && s[v + 1] == p.1) by {
            if v > 0 {
                assert(s[v] == t[v - 1]);
                assert(s[v + 1] == t[v]);
            }
        }
        assert(s[w + 1] == t[w]);
        assert(first_occurrence(s, p, w + 1));
    }
}

} // verus!
