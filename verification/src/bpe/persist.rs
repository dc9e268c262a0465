//! The merge table as text: writing it out and reading it back.
use vstd::prelude::*;
use super::{add_merge, add_merges, fresh_model, merges_in_order, Bpe, BpeModel};
use crate::parse::{
    copy_range, digits_value, find_newline, is_blank, lemma_newline_from, lemma_skip_space, lemma_word_end,
    lines, lines_from, newline_from, parse_u32, parse_u32_in, range_is, skip_space, skip_space_at,
    string_of, strip_cr, word_end, word_end_at, words, words_from,
};
use crate::render::{decimal, digit_char, push_decimal, push_str};
use crate::unicode::{chars_of, debug_format, debug_str};

verus! {

/// One merge as a line of the table: the two ids in decimal.
pub open spec fn merge_line(p: (u32, u32)) -> Seq<char> {
    decimal(p.0 as nat) + " "@ + decimal(p.1 as nat) + "\n"@
}

/// The merge table: a header line, then one line per merge in rank order.
pub open spec fn repr_text(merges: Seq<(u32, u32)>) -> Seq<char> {
    "pllm bpe v1\n"@ + merges.map_values(|p: (u32, u32)| merge_line(p)).flatten()
}

/// The message for a table whose first line is not the header.
pub open spec fn header_error(first: Option<Seq<char>>) -> Seq<char> {
    "unbekannter Header: "@ + match first {
        None => "None"@,
        Some(l) => "Some("@ + debug_str(l) + ")"@,
    }
}

/// The pair a table line names, or why it names none.
pub open spec fn read_pair(l: Seq<char>) -> Result<(u32, u32), Seq<char>> {
    let ws = words(l);
    if ws.len() < 1 {
        Err("Paar unvollständig"@)
    } else {
        match parse_u32(ws[0]) {
            Err(e) => Err(e),
            Ok(a) => if ws.len() < 2 {
                Err("Paar unvollständig"@)
            } else {
                match parse_u32(ws[1]) {
                    Err(e) => Err(e),
                    Ok(b) => Ok((a, b)),
                }
            },
        }
    }
}

/// Records the merges of the table lines `ls`, skipping blank lines; the
/// next merge gets `rank`.
pub open spec fn read_merges(m: BpeModel, ls: Seq<Seq<char>>, rank: int) -> Result<
    BpeModel,
    Seq<char>,
>
    decreases ls.len(),
{
    if ls.len() == 0 {
        Ok(m)
    } else if is_blank(ls[0]) {
        read_merges(m, ls.drop_first(), rank)
    } else {
        match read_pair(ls[0]) {
            Err(e) => Err(e),
            Ok(p) => if p.0 >= m.vocab.len() || p.1 >= m.vocab.len() {
                Err("unbekannte ID"@)
            } else {
                read_merges(add_merge(m, p, rank as u32), ls.drop_first(), rank + 1)
            },
        }
    }
}

/// A tokenizer read from its merge table.
pub open spec fn from_repr(s: Seq<char>) -> Result<BpeModel, Seq<char>> {
    let ls = lines(s);
    if ls.len() == 0 {
        Err(header_error(None))
    } else if ls[0] != "pllm bpe v1"@ {
        Err(header_error(Some(ls[0])))
    } else {
        read_merges(fresh_model(), ls.drop_first(), 0)
    }
}

/// How many lines hold more than whitespace.
pub open spec fn nonblank_count(ls: Seq<Seq<char>>) -> nat
    decreases ls.len(),
{
    if ls.len() == 0 {
        0
    } else {
        (if is_blank(ls[0]) {
            0nat
        } else {
            1nat
        }) + nonblank_count(ls.drop_first())
    }
}

/// Reading a table on top of a consistent tokenizer keeps it consistent.
proof fn lemma_read_merges_consistent(m: BpeModel, ls: Seq<Seq<char>>, rank: int)
    requires
        m.consistent(),
        0 <= rank,
        m.vocab.len() == 256 + rank,
        rank + nonblank_count(ls) <= 0xFFFF_FF00,
    ensures
        read_merges(m, ls, rank) matches Ok(r) ==> r.consistent(),
    decreases ls.len(),
{
    if ls.len() > 0 {
        if is_blank(ls[0]) {
            lemma_read_merges_consistent(m, ls.drop_first(), rank);
        } else if let Ok(p) = read_pair(ls[0]) {
            if p.0 < m.vocab.len() && p.1 < m.vocab.len() {
                super::lemma_add_merge_consistent(m, p, rank as u32);
                lemma_read_merges_consistent(add_merge(m, p, rank as u32), ls.drop_first(), rank + 1);
            }
        }
    }
}

/// Reading a table on top of the tokenizer that merges `pre` build leaves a
/// tokenizer built from its merges.
proof fn lemma_read_merges_built(pre: Seq<(u32, u32)>, ls: Seq<Seq<char>>)
    requires
        merges_in_order(pre),
        pre.len() + nonblank_count(ls) <= 0xFFFF_FF00,
    ensures
        read_merges(add_merges(fresh_model(), pre), ls, pre.len() as int) matches Ok(r) ==> r.built(),
    decreases ls.len(),
{
    let m = add_merges(fresh_model(), pre);
    super::lemma_add_merges_shape(fresh_model(), pre);
    assert(fresh_model().merges + pre =~= pre);
    if ls.len() > 0 {
        if is_blank(ls[0]) {
            lemma_read_merges_built(pre, ls.drop_first());
        } else if let Ok(p) = read_pair(ls[0]) {
            if p.0 < m.vocab.len() && p.1 < m.vocab.len() {
                let next = pre.push(p);
                assert(next.drop_last() =~= pre);
                assert(add_merges(fresh_model(), next) == add_merge(m, p, pre.len() as u32));
                assert forall|j: int| 0 <= j < next.len() implies (#[trigger] next[j]).0 < 256 + j
                    && next[j].1 < 256 + j by {
                    if j < pre.len() {
                        assert(next[j] == pre[j]);
                    }
                }
                lemma_read_merges_built(next, ls.drop_first());
            }
        }
    } else {
        assert(m.merges == pre);
    }
}

/// How many non-blank lines a rendered table has after its header: one per
/// merge.
proof fn lemma_pair_lines_count(ms: Seq<(u32, u32)>)
    ensures
        nonblank_count(ms.map_values(|p: (u32, u32)| pair_text(p))) == ms.len(),
    decreases ms.len(),
{
    let g = |p: (u32, u32)| pair_text(p);
    if ms.len() > 0 {
        lemma_pair_lines_count(ms.drop_first());
        assert(ms.map_values(g).drop_first() =~= ms.drop_first().map_values(g));
        lemma_pair_text(ms[0]);
    } else {
        assert(ms.map_values(g) =~= Seq::<Seq<char>>::empty());
    }
}

proof fn lemma_blank_iff(l: Seq<char>)
    ensures
        is_blank(l) <==> skip_space(l, 0) >= l.len(),
{
    lemma_skip_space(l, 0);
    if skip_space(l, 0) < l.len() {
        assert(!crate::unicode::unicode_whitespace(l[skip_space(l, 0)]));
    }
}

impl Bpe {
    /// The merge table as text. Only the merges are written; everything else
    /// is rebuilt from them.
    pub fn to_string_repr(&self) -> (s: String)
        ensures
            s@ == repr_text(self@.merges),
    {
        let mut s = String::new();
        push_str(&mut s, "pllm bpe v1\n");
        let ghost f = |p: (u32, u32)| merge_line(p);
        let mut k: usize = 0;
        proof {
            assert(self@.merges.take(0).map_values(f) =~= Seq::<Seq<char>>::empty());
            assert(s@ =~= "pllm bpe v1\n"@ + self@.merges.take(0).map_values(f).flatten());
        }
        while k < self.merges.len()
            invariant
                k <= self.merges.len(),
                f == (|p: (u32, u32)| merge_line(p)),
                s@ == "pllm bpe v1\n"@ + self@.merges.take(k as int).map_values(f).flatten(),
            decreases self.merges.len() - k,
        {
            let (a, b) = self.merges[k];
            let ghost before = s@;
            push_decimal(&mut s, a as u64);
            push_str(&mut s, " ");
            push_decimal(&mut s, b as u64);
            push_str(&mut s, "\n");
            proof {
                let prev = self@.merges.take(k as int).map_values(f);
                assert(self@.merges[k as int] == (a, b));
                assert(self@.merges.take(k + 1).map_values(f) =~= prev.push(merge_line((a, b))));
                prev.lemma_flatten_push(merge_line((a, b)));
                assert(s@ =~= "pllm bpe v1\n"@ + self@.merges.take(k + 1).map_values(f).flatten());
            }
            k = k + 1;
        }
        proof {
            assert(self@.merges.take(k as int) =~= self@.merges);
        }
        s
    }

    /// Reads a merge table written by `to_string_repr`.
    ///
    /// The header must be the first line; blank lines are skipped; each other
    /// line names a pair of known ids, and the k-th such line becomes the merge
    /// of rank k.
    pub fn from_string_repr(s: &str) -> (r: Result<Self, String>)
        requires
            nonblank_count(lines(s@).drop_first()) <= 0xFFFF_FF00,
        ensures
            match r {
                Ok(b) => from_repr(s@) == Ok::<BpeModel, Seq<char>>(b@) && b.wf() && b@.consistent()
                    && b@.built(),
                Err(e) => from_repr(s@) == Err::<BpeModel, Seq<char>>(e@),
            },
    {
        let cs = chars_of(s);
        let n = cs.len();
        let ghost ls = lines(cs@);
        if n == 0 {
            let mut msg = String::new();
            push_str(&mut msg, "unbekannter Header: ");
            push_str(&mut msg, "None");
            proof {
                assert(ls.len() == 0);
                assert(msg@ =~= header_error(None));
            }
            return Err(msg);
        }
        let e0 = find_newline(&cs, 0);
        proof {
            lemma_newline_from(cs@, 0);
        }
        let end0 = if e0 < n && e0 > 0 && cs[e0 - 1] == '\r' {
            e0 - 1
        } else {
            e0
        };
        let next0 = if e0 < n {
            e0 + 1
        } else {
            n
        };
        proof {
            assert(ls == lines_from(cs@, 0));
            if e0 < n {
                assert(strip_cr(cs@.subrange(0, e0 as int)) =~= cs@.subrange(0, end0 as int));
                assert(ls == seq![cs@.subrange(0, end0 as int)] + lines_from(cs@, next0 as int));
            } else {
                assert(lines_from(cs@, n as int) =~= Seq::<Seq<char>>::empty());
                assert(ls =~= seq![cs@.subrange(0, end0 as int)] + lines_from(cs@, next0 as int));
            }
            assert(ls[0] == cs@.subrange(0, end0 as int));
            assert(ls.drop_first() =~= lines_from(cs@, next0 as int));
        }
        if !range_is(&cs, 0, end0, "pllm bpe v1") {
            let first = copy_range(&cs, 0, end0);
            let first = string_of(&first);
            let shown = debug_format(first.as_str());
            let mut msg = String::new();
            push_str(&mut msg, "unbekannter Header: ");
            push_str(&mut msg, "Some(");
            push_str(&mut msg, shown.as_str());
            push_str(&mut msg, ")");
            proof {
                assert(msg@ =~= header_error(Some(ls[0])));
            }
            return Err(msg);
        }
        let mut bpe = Bpe::new();
        let mut rank: u32 = 0;
        let mut i = next0;
        proof {
            lemma_read_merges_consistent(fresh_model(), ls.drop_first(), 0);
            lemma_read_merges_built(seq![], ls.drop_first());
            assert(add_merges(fresh_model(), seq![]) == fresh_model());
            assert(from_repr(s@) == read_merges(fresh_model(), lines_from(cs@, i as int), 0));
        }
        while i < n
            invariant
                n == cs.len(),
                cs@ == s@,
                i <= n,
                bpe.wf(),
                bpe@.vocab.len() == 256 + rank,
                rank + nonblank_count(lines_from(cs@, i as int)) <= 0xFFFF_FF00,
                from_repr(s@) == read_merges(bpe@, lines_from(cs@, i as int), rank as int),
            decreases n - i,
        {
            let e = find_newline(&cs, i);
            proof {
                lemma_newline_from(cs@, i as int);
            }
            let end = if e < n && e > i && cs[e - 1] == '\r' {
                e - 1
            } else {
                e
            };
            let next = if e < n {
                e + 1
            } else {
                n
            };
            let line = copy_range(&cs, i, end);
            let ghost rest = lines_from(cs@, i as int);
            proof {
                if e < n {
                    assert(strip_cr(cs@.subrange(i as int, e as int)) =~= cs@.subrange(
                        i as int,
                        end as int,
                    ));
                    assert(rest == seq![line@] + lines_from(cs@, next as int));
                } else {
                    assert(lines_from(cs@, n as int) =~= Seq::<Seq<char>>::empty());
                    assert(rest =~= seq![line@] + lines_from(cs@, next as int));
                }
                assert(rest[0] == line@);
                assert(rest.drop_first() =~= lines_from(cs@, next as int));
                lemma_blank_iff(line@);
            }
            let a0 = skip_space_at(&line, 0);
            if a0 < line.len() {
                proof {
                    lemma_skip_space(line@, 0);
                    lemma_word_end(line@, a0 as int);
                }
                let e1 = word_end_at(&line, a0);
                let ghost ws = words(line@);
                proof {
                    assert(ws == seq![line@.subrange(a0 as int, e1 as int)] + words_from(
                        line@,
                        e1 as int,
                    ));
                    assert(ws[0] == line@.subrange(a0 as int, e1 as int));
                }
                let a = match parse_u32_in(&line, a0, e1) {
                    Ok(v) => v,
                    Err(msg) => {
                        return Err(msg);
                    },
                };
                let a1 = skip_space_at(&line, e1);
                proof {
                    lemma_skip_space(line@, e1 as int);
                }
                if a1 >= line.len() {
                    proof {
                        assert(words_from(line@, e1 as int) =~= Seq::<Seq<char>>::empty());
                        assert(ws.len() == 1);
                    }
                    return Err(String::from_str("Paar unvollständig"));
                }
                proof {
                    lemma_word_end(line@, a1 as int);
                }
                let e2 = word_end_at(&line, a1);
                proof {
                    assert(words_from(line@, e1 as int) == seq![line@.subrange(a1 as int, e2 as int)]
                        + words_from(line@, e2 as int));
                    assert(ws[1] == line@.subrange(a1 as int, e2 as int));
                }
                let b = match parse_u32_in(&line, a1, e2) {
                    Ok(v) => v,
                    Err(msg) => {
                        return Err(msg);
                    },
                };
                if (a as usize) >= bpe.vocab_size() || (b as usize) >= bpe.vocab_size() {
                    return Err(String::from_str("unbekannte ID"));
                }
                proof {
                    assert(read_pair(line@) == Ok::<(u32, u32), Seq<char>>((a, b)));
                }
                bpe.record_merge((a, b), rank);
                rank = rank + 1;
            }
            i = next;
        }
        proof {
            assert(lines_from(cs@, i as int) =~= Seq::<Seq<char>>::empty());
        }
        Ok(bpe)
    }
}

} // verus!
verus! {

proof fn lemma_newline_shift(s: Seq<char>, i: int, j: int)
    requires
        0 <= i <= s.len(),
        0 <= j,
    ensures
        newline_from(s, i + j) == i + newline_from(s.skip(i), j),
    decreases s.len() - i - j,
{
    let t = s.skip(i);
    if i + j < s.len() {
        assert(t[j] == s[i + j]);
        if s[i + j] != '\n' {
            lemma_newline_shift(s, i, j + 1);
        }
    }
}

proof fn lemma_lines_shift(s: Seq<char>, i: int, j: int)
    requires
        0 <= i <= s.len(),
        0 <= j,
    ensures
        lines_from(s, i + j) == lines_from(s.skip(i), j),
    decreases s.len() - i - j,
{
    let t = s.skip(i);
    if i + j < s.len() {
        lemma_newline_shift(s, i, j);
        lemma_newline_from(s, i + j);
        let e = newline_from(s, i + j);
        if e < s.len() {
            lemma_lines_shift(s, i, e + 1 - i);
            assert(s.subrange(i + j, e) =~= t.subrange(j, e - i));
        } else {
            assert(s.subrange(i + j, s.len() as int) =~= t.subrange(j, t.len() as int));
        }
    }
}

/// A line without a newline, a newline, then more text: the first line
/// comes off whole.
proof fn lemma_lines_cons(l: Seq<char>, rest: Seq<char>)
    requires
        forall|k: int| 0 <= k < l.len() ==> #[trigger] l[k] != '\n',
    ensures
        lines(l + "\n"@ + rest) == seq![strip_cr(l)] + lines(rest),
{
    reveal_strlit("\n");
    let s = l + "\n"@ + rest;
    assert forall|k: int| 0 <= k < l.len() implies #[trigger] s[k] != '\n' by {
        assert(s[k] == l[k]);
    }
    assert(s[l.len() as int] == '\n');
    assert(newline_from(s, 0) == l.len()) by {
        lemma_newline_from(s, 0);
        if newline_from(s, 0) < l.len() {
            assert(s[newline_from(s, 0)] == '\n');
        }
    }
    assert(s.subrange(0, l.len() as int) =~= l);
    lemma_lines_shift(s, l.len() as int + 1, 0);
    assert(s.skip(l.len() as int + 1) =~= rest);
}

/// Every character of a decimal number is a digit.
proof fn lemma_decimal_digits(n: nat)
    ensures
        forall|k: int| 0 <= k < decimal(n).len() ==> '0' <= #[trigger] decimal(n)[k] <= '9',
        decimal(n).len() >= 1,
    decreases n,
{
    if n >= 10 {
        lemma_decimal_digits(n / 10);
        assert forall|k: int| 0 <= k < decimal(n).len() implies '0' <= #[trigger] decimal(n)[k] <= '9' by {
            if k < decimal(n / 10).len() {
                assert(decimal(n)[k] == decimal(n / 10)[k]);
            }
        }
    }
}

/// The number the digits `s` spell, read from the right.
spec fn digits_number(s: Seq<char>) -> nat
    decreases s.len(),
{
    if s.len() == 0 {
        0
    } else {
        digits_number(s.drop_last()) * 10 + (s.last() as int - 48) as nat
    }
}

proof fn lemma_digit_char(d: nat)
    requires
        d < 10,
    ensures
        digit_char(d) as int == d + 48,
{
    let b = (d + 48) as u8;
    assert(b as int == d + 48);
    assert((b as char) as u32 == b as u32);
}

proof fn lemma_decimal_number(n: nat)
    ensures
        digits_number(decimal(n)) == n,
        forall|k: int| 0 <= k <= decimal(n).len() ==> #[trigger] digits_number(decimal(n).take(k)) <= n,
    decreases n,
{
    lemma_decimal_digits(n);
    lemma_digit_char(n % 10);
    if n < 10 {
        assert(decimal(n).drop_last() =~= Seq::<char>::empty());
        assert(digits_number(Seq::<char>::empty()) == 0);
        assert(decimal(n).last() == digit_char(n));
        assert forall|k: int| 0 <= k <= decimal(n).len() implies #[trigger] digits_number(decimal(n).take(k)) <= n by {
            if k == 0 {
                assert(decimal(n).take(k) =~= Seq::<char>::empty());
            } else {
                assert(decimal(n).take(k) =~= decimal(n));
            }
        }
    } else {
        lemma_decimal_number(n / 10);
        let d = decimal(n);
        assert(d.drop_last() =~= decimal(n / 10));
        assert(d.last() == digit_char(n % 10));
        assert forall|k: int| 0 <= k <= d.len() implies #[trigger] digits_number(d.take(k)) <= n by {
            if k == d.len() {
                assert(d.take(k) =~= d);
            } else {
                assert(d.take(k) =~= decimal(n / 10).take(k));
            }
        }
    }
}

proof fn lemma_digits_value(s: Seq<char>, k: int)
    requires
        0 <= k <= s.len(),
        forall|j: int| 0 <= j < s.len() ==> '0' <= #[trigger] s[j] <= '9',
        forall|j: int| 0 <= j <= s.len() ==> #[trigger] digits_number(s.take(j)) <= u32::MAX,
    ensures
        digits_value(s.skip(k), digits_number(s.take(k)) as int) == Ok::<u32, Seq<char>>(
            digits_number(s) as u32,
        ),
    decreases s.len() - k,
{
    if k == s.len() {
        assert(s.take(k) =~= s);
        assert(s.skip(k) =~= Seq::<char>::empty());
    } else {
        lemma_digits_value(s, k + 1);
        let t = s.skip(k);
        assert(t[0] == s[k]);
        assert(t.drop_first() =~= s.skip(k + 1));
        assert(s.take(k + 1).drop_last() =~= s.take(k));
        assert(s.take(k + 1).last() == s[k]);
        assert(digits_number(s.take(k + 1)) <= u32::MAX);
    }
}

/// Reading a number written in decimal gives the number back.
proof fn lemma_parse_decimal(n: u32)
    ensures
        parse_u32(decimal(n as nat)) == Ok::<u32, Seq<char>>(n),
{
    let d = decimal(n as nat);
    lemma_decimal_digits(n as nat);
    lemma_decimal_number(n as nat);
    lemma_digits_value(d, 0);
    assert(d.take(0) =~= Seq::<char>::empty());
    assert(d.skip(0) =~= d);
    assert(d[0] != '+' && d[0] != '-');
}

/// The text of a table line, without its newline.
pub open spec fn pair_text(p: (u32, u32)) -> Seq<char> {
    decimal(p.0 as nat) + " "@ + decimal(p.1 as nat)
}

proof fn lemma_pair_text(p: (u32, u32))
    ensures
        !is_blank(pair_text(p)),
        forall|k: int| 0 <= k < pair_text(p).len() ==> #[trigger] pair_text(p)[k] != '\n',
        strip_cr(pair_text(p)) == pair_text(p),
        read_pair(pair_text(p)) == Ok::<(u32, u32), Seq<char>>(p),
{
    reveal_strlit(" ");
    let da = decimal(p.0 as nat);
    let db = decimal(p.1 as nat);
    let l = pair_text(p);
    lemma_decimal_digits(p.0 as nat);
    lemma_decimal_digits(p.1 as nat);
    let na = da.len() as int;
    assert forall|k: int| 0 <= k < l.len() implies #[trigger] l[k] != '\n' && (k != na ==> '0' <= l[k] <= '9') by {
        if k < na {
            assert(l[k] == da[k]);
        } else if k > na {
            assert(l[k] == db[k - na - 1]);
        } else {
            assert(l[k] == ' ');
        }
    }
    assert(l[0] == da[0]);
    assert(!crate::unicode::unicode_whitespace(l[0]));
    assert(l.last() == db.last());
    lemma_skip_space(l, 0);
    assert(skip_space(l, 0) == 0);
    assert(word_end(l, na) == na) by {
        assert(l[na] == ' ');
    }
    assert(word_end(l, 0) == na) by {
        lemma_word_end(l, 0);
        if word_end(l, 0) < na {
            assert(crate::unicode::unicode_whitespace(l[word_end(l, 0)]));
        }
        if word_end(l, 0) > na {
            assert(!crate::unicode::unicode_whitespace(l[na]));
        }
    }
    assert(skip_space(l, na) == na + 1) by {
        assert(crate::unicode::unicode_whitespace(l[na]));
        assert(skip_space(l, na) == skip_space(l, na + 1));
        assert(l[na + 1] == db[0]);
    }
    assert(word_end(l, na + 1) == l.len()) by {
        lemma_word_end(l, na + 1);
        if word_end(l, na + 1) < l.len() {
            assert(crate::unicode::unicode_whitespace(l[word_end(l, na + 1)]));
        }
    }
    assert(words_from(l, l.len() as int) =~= Seq::<Seq<char>>::empty());
    assert(words_from(l, na) == seq![l.subrange(na + 1, l.len() as int)] + words_from(l, l.len() as int));
    assert(words(l) == seq![l.subrange(0, na)] + words_from(l, na));
    assert(l.subrange(0, na) =~= da);
    assert(l.subrange(na + 1, l.len() as int) =~= db);
    lemma_parse_decimal(p.0);
    lemma_parse_decimal(p.1);
}

proof fn lemma_table_lines(ms: Seq<(u32, u32)>)
    ensures
        lines(ms.map_values(|p: (u32, u32)| merge_line(p)).flatten()) == ms.map_values(
            |p: (u32, u32)| pair_text(p),
        ),
    decreases ms.len(),
{
    let f = |p: (u32, u32)| merge_line(p);
    let g = |p: (u32, u32)| pair_text(p);
    if ms.len() == 0 {
        assert(ms.map_values(f) =~= Seq::<Seq<char>>::empty());
        assert(ms.map_values(g) =~= Seq::<Seq<char>>::empty());
        assert(lines(Seq::<char>::empty()) =~= Seq::<Seq<char>>::empty());
    } else {
        lemma_table_lines(ms.drop_first());
        assert(ms.map_values(f).drop_first() =~= ms.drop_first().map_values(f));
        assert(ms.map_values(g) =~= seq![pair_text(ms[0])] + ms.drop_first().map_values(g));
        lemma_pair_text(ms[0]);
        assert(merge_line(ms[0]) =~= pair_text(ms[0]) + "\n"@);
        lemma_lines_cons(pair_text(ms[0]), ms.drop_first().map_values(f).flatten());
        assert(ms.map_values(f).flatten() =~= pair_text(ms[0]) + "\n"@ + ms.drop_first().map_values(
            f,
        ).flatten());
    }
}

proof fn lemma_fresh_consistent()
    ensures
        fresh_model().consistent(),
        fresh_model().vocab.len() == 256,
{
}

proof fn lemma_read_table(ms: Seq<(u32, u32)>, k: int)
    requires
        0 <= k <= ms.len(),
        ms.len() <= 0xFFFF_FF00,
        forall|j: int| 0 <= j < ms.len() ==> (#[trigger] ms[j]).0 < 256 + j && ms[j].1 < 256 + j,
    ensures
        read_merges(
            super::add_merges(fresh_model(), ms.take(k)),
            ms.map_values(|p: (u32, u32)| pair_text(p)).skip(k),
            k,
        ) == Ok::<BpeModel, Seq<char>>(super::add_merges(fresh_model(), ms)),
    decreases ms.len() - k,
{
    let g = |p: (u32, u32)| pair_text(p);
    let ts = ms.map_values(g);
    if k == ms.len() {
        assert(ms.take(k) =~= ms);
        assert(ts.skip(k) =~= Seq::<Seq<char>>::empty());
    } else {
        lemma_read_table(ms, k + 1);
        let pre = ms.take(k);
        assert forall|j: int| 0 <= j < pre.len() implies (#[trigger] pre[j]).0 < 256 + j && pre[j].1
            < 256 + j by {
            assert(pre[j] == ms[j]);
        }
        lemma_fresh_consistent();
        super::lemma_add_merges_len(fresh_model(), pre);
        let m = super::add_merges(fresh_model(), pre);
        let line = ts.skip(k)[0];
        assert(line == pair_text(ms[k]));
        lemma_pair_text(ms[k]);
        assert(ts.skip(k).drop_first() =~= ts.skip(k + 1));
        assert(ms.take(k + 1).drop_last() =~= pre);
        assert(ms.take(k + 1).last() == ms[k]);
        assert(read_merges(m, ts.skip(k), k) == read_merges(
            add_merge(m, ms[k], k as u32),
            ts.skip(k + 1),
            k + 1,
        ));
    }
}

/// Writing merges as a table and reading the table back gives the tokenizer
/// those merges build, for merges whose parts exist when they are learned.
pub proof fn lemma_repr_roundtrip(ms: Seq<(u32, u32)>)
    requires
        ms.len() <= 0xFFFF_FF00,
        forall|j: int| 0 <= j < ms.len() ==> (#[trigger] ms[j]).0 < 256 + j && ms[j].1 < 256 + j,
    ensures
        from_repr(repr_text(ms)) == Ok::<BpeModel, Seq<char>>(super::add_merges(fresh_model(), ms)),
        lines(repr_text(ms)).drop_first() == ms.map_values(|p: (u32, u32)| pair_text(p)),
{
    reveal_strlit("pllm bpe v1\n");
    reveal_strlit("pllm bpe v1");
    let f = |p: (u32, u32)| merge_line(p);
    let body = ms.map_values(f).flatten();
    let head = "pllm bpe v1"@;
    assert forall|k: int| 0 <= k < head.len() implies #[trigger] head[k] != '\n' by {}
    assert("pllm bpe v1\n"@ + body =~= head + "\n"@ + body) by {
        reveal_strlit("\n");
    }
    lemma_lines_cons(head, body);
    assert(strip_cr(head) == head);
    lemma_table_lines(ms);
    let ls = lines(repr_text(ms));
    assert(ls[0] == head);
    assert(ls.drop_first() =~= ms.map_values(|p: (u32, u32)| pair_text(p)));
    lemma_read_table(ms, 0);
    assert(ms.take(0) =~= Seq::<(u32, u32)>::empty());
    assert(ms.map_values(|p: (u32, u32)| pair_text(p)).skip(0) =~= ms.map_values(
        |p: (u32, u32)| pair_text(p),
    ));
}

/// How a table is cut into lines, as `str::lines` does it: a line ends at
/// each line feed, which is dropped together with a carriage return right
/// before it, and a last line without a line ending is still a line.
pub proof fn lemma_lines_split(l: Seq<char>, rest: Seq<char>)
    requires
        forall|k: int| 0 <= k < l.len() ==> #[trigger] l[k] != '\n' && l[k] != '\r',
    ensures
        lines(l + seq!['\n'] + rest) == seq![l] + lines(rest),
        lines(l + seq!['\r', '\n'] + rest) == seq![l] + lines(rest),
        l.len() > 0 ==> lines(l) == seq![l],
        lines(Seq::<char>::empty()) == Seq::<Seq<char>>::empty(),
{
    reveal_strlit("\n");
    assert("\n"@ =~= seq!['\n']);
    lemma_lines_cons(l, rest);
    if l.len() > 0 {
        assert(l.last() == l[l.len() - 1]);
    }
    assert(strip_cr(l) == l);
    let lr = l.push('\r');
    assert forall|k: int| 0 <= k < lr.len() implies #[trigger] lr[k] != '\n' by {
        if k < l.len() {
            assert(lr[k] == l[k]);
        }
    }
    lemma_lines_cons(lr, rest);
    assert(strip_cr(lr) =~= l);
    assert(lr + seq!['\n'] + rest =~= l + seq!['\r', '\n'] + rest);
    if l.len() > 0 {
        crate::parse::lemma_newline_from(l, 0);
        assert(newline_from(l, 0) == l.len());
        assert(l.subrange(0, l.len() as int) =~= l);
    }
}

/// The table a tokenizer writes can always be read back (it has one line
/// per merge, so `from_string_repr` accepts it), and reading it gives the
/// same tokenizer: for a tokenizer built from its merges, the merges alone
/// determine everything else.
pub proof fn lemma_table_reads_back(m: BpeModel)
    requires
        m.built(),
    ensures
        nonblank_count(lines(repr_text(m.merges)).drop_first()) == m.merges.len(),
        m.merges.len() <= 0xFFFF_FF00,
        from_repr(repr_text(m.merges)) == Ok::<BpeModel, Seq<char>>(m),
{
    lemma_repr_roundtrip(m.merges);
    lemma_pair_lines_count(m.merges);
}

} // verus!
