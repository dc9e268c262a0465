//! Looking at what a tokenizer learned: single tokens, the merge table,
//! and the longest tokens.
use vstd::prelude::*;
use vstd::utf8::*;
use super::{Bpe, BpeModel};
use crate::render::{
    decimal, hex_byte, pad_left, push_decimal, push_decimal_padded, push_hex_byte, push_str,
};
use crate::unicode::{chars_of, debug_format, debug_str, push_char, str_from_utf8};

verus! {

/// Whitespace made visible: space, newline and tab become `␣`, `⏎` and `⇥`.
pub open spec fn visible(c: char) -> char {
    if c == ' ' {
        '\u{2423}'
    } else if c == '\n' {
        '\u{23CE}'
    } else if c == '\t' {
        '\u{21E5}'
    } else {
        c
    }
}

/// Every byte as `<XX>` in upper-case hexadecimal.
pub open spec fn hex_bytes(bs: Seq<u8>) -> Seq<char>
    decreases bs.len(),
{
    if bs.len() == 0 {
        seq![]
    } else {
        hex_bytes(bs.drop_last()) + "<"@ + hex_byte(bs.last()) + ">"@
    }
}

/// A token rendered for human eyes: its text with whitespace made visible,
/// or its raw bytes when they are not valid UTF-8 on their own, or a note
/// that the id is unknown.
pub open spec fn token_text(m: BpeModel, id: u32) -> Seq<char> {
    if id >= m.vocab.len() {
        "<unknown "@ + decimal(id as nat) + ">"@
    } else if valid_utf8(m.vocab[id as int]) {
        decode_utf8(m.vocab[id as int]).map_values(|c: char| visible(c))
    } else {
        hex_bytes(m.vocab[id as int])
    }
}

/// The line of the merge table for the merge of rank `rank`.
pub open spec fn table_line(m: BpeModel, rank: nat, p: (u32, u32)) -> Seq<char> {
    pad_left(decimal(rank), 5) + "  "@ + pad_left(decimal(256 + rank), 6) + "  "@ + debug_str(
        token_text(m, p.0),
    ) + " + "@ + debug_str(token_text(m, p.1)) + " -> "@ + debug_str(
        token_text(m, (256 + rank) as u32),
    ) + "\n"@
}

/// The merge table, one line per merge in rank order.
pub open spec fn table_text(m: BpeModel) -> Seq<char> {
    Seq::new(m.merges.len(), |r: int| table_line(m, r as nat, m.merges[r])).flatten()
}

/// `x` comes before `y` among the longest tokens: it is longer, or as long
/// and a smaller id.
pub open spec fn longer_first(m: BpeModel, x: u32, y: u32) -> bool {
    ||| m.vocab[x as int].len() > m.vocab[y as int].len()
    ||| (m.vocab[x as int].len() == m.vocab[y as int].len() && x < y)
}

/// `y` may come next after the tokens chosen so far.
pub open spec fn eligible(m: BpeModel, chosen: Seq<u32>, y: u32) -> bool {
    chosen.len() == 0 || longer_first(m, chosen.last(), y)
}

/// An id created by a merge.
pub open spec fn learned_id(m: BpeModel, x: u32) -> bool {
    256 <= x < m.vocab.len()
}

impl Bpe {
    /// One token, rendered for human eyes.
    ///
    /// Whitespace is made visible, because where the spaces ended up is the
    /// point of looking at a merge table at all. A token can stop in the
    /// middle of a UTF-8 sequence (the first byte of "ü" is a legal token),
    /// so such a token is shown as its raw bytes rather than as the
    /// replacement character `decode()` would produce.
    pub fn token_repr(&self, id: u32) -> (s: String)
        ensures
            s@ == token_text(self@, id),
    {
        let mut s = String::new();
        if (id as usize) >= self.vocab.len() {
            push_str(&mut s, "<unknown ");
            push_decimal(&mut s, id as u64);
            push_str(&mut s, ">");
            proof {
                assert(s@ =~= token_text(self@, id));
            }
            return s;
        }
        let bytes = &self.vocab[id as usize];
        proof {
            assert(bytes@ == self@.vocab[id as int]);
        }
        match str_from_utf8(bytes.as_slice()) {
            Some(text) => {
                let cs = chars_of(text);
                let ghost want = cs@.map_values(|c: char| visible(c));
                let mut k: usize = 0;
                while k < cs.len()
                    invariant
                        k <= cs.len(),
                        want == cs@.map_values(|c: char| visible(c)),
                        s@ == want.take(k as int),
                    decreases cs.len() - k,
                {
                    let c = cs[k];
                    let shown = if c == ' ' {
                        '\u{2423}'
                    } else if c == '\n' {
                        '\u{23CE}'
                    } else if c == '\t' {
                        '\u{21E5}'
                    } else {
                        c
                    };
                    push_char(&mut s, shown);
                    k = k + 1;
                    proof {
                        assert(s@ =~= want.take(k as int));
                    }
                }
                proof {
                    assert(want.take(k as int) =~= want);
                }
                s
            },
            None => {
                let mut k: usize = 0;
                while k < bytes.len()
                    invariant
                        k <= bytes.len(),
                        s@ == hex_bytes(bytes@.take(k as int)),
                    decreases bytes.len() - k,
                {
                    push_str(&mut s, "<");
                    push_hex_byte(&mut s, bytes[k]);
                    push_str(&mut s, ">");
                    proof {
                        let t = bytes@.take(k + 1);
                        assert(t.drop_last() =~= bytes@.take(k as int));
                        assert(t.last() == bytes@[k as int]);
                    }
                    k = k + 1;
                    proof {
                        assert(s@ =~= hex_bytes(bytes@.take(k as int)));
                    }
                }
                proof {
                    assert(bytes@.take(k as int) =~= bytes@);
                }
                s
            },
        }
    }

    /// The learned merges in rank order, one line each:
    ///
    /// ```text
    ///     0     256  "e" + "r" -> "er"
    ///     1     257  "␣d" + "er" -> "␣der"
    /// ```
    ///
    /// Reading it top to bottom is reading the corpus statistics: letter
    /// pairs first, then syllables, then whole frequent words with their
    /// leading space. `to_string_repr` is the machine-readable counterpart.
    pub fn merge_table(&self) -> (s: String)
        requires
            self@.merges.len() <= 0xFFFF_FF00,
        ensures
            s@ == table_text(self@),
    {
        let mut s = String::new();
        let ghost lines = Seq::new(
            self@.merges.len(),
            |r: int| table_line(self@, r as nat, self@.merges[r]),
        );
        let mut rank: usize = 0;
        proof {
            assert(lines.take(0) =~= Seq::<Seq<char>>::empty());
        }
        while rank < self.merges.len()
            invariant
                rank <= self.merges.len(),
                self@.merges.len() <= 0xFFFF_FF00,
                lines == Seq::new(
                    self@.merges.len(),
                    |r: int| table_line(self@, r as nat, self@.merges[r]),
                ),
                s@ == lines.take(rank as int).flatten(),
            decreases self.merges.len() - rank,
        {
            let (a, b) = self.merges[rank];
            let new_id = 256 + rank as u32;
            push_decimal_padded(&mut s, rank as u64, 5);
            push_str(&mut s, "  ");
            push_decimal_padded(&mut s, new_id as u64, 6);
            push_str(&mut s, "  ");
            let ta = self.token_repr(a);
            push_str(&mut s, debug_format(ta.as_str()).as_str());
            push_str(&mut s, " + ");
            let tb = self.token_repr(b);
            push_str(&mut s, debug_format(tb.as_str()).as_str());
            push_str(&mut s, " -> ");
            let tn = self.token_repr(new_id);
            push_str(&mut s, debug_format(tn.as_str()).as_str());
            push_str(&mut s, "\n");
            proof {
                let prev = lines.take(rank as int);
                assert(lines.take(rank + 1) =~= prev.push(lines[rank as int]));
                prev.lemma_flatten_push(lines[rank as int]);
                assert(self@.merges[rank as int] == (a, b));
                assert(s@ =~= lines.take(rank + 1).flatten());
            }
            rank = rank + 1;
        }
        proof {
            assert(lines.take(rank as int) =~= lines);
        }
        s
    }

    /// The `n` longest learned tokens, longest first, ties by id. Raw bytes
    /// are skipped.
    ///
    /// Length is the interesting axis: the longest tokens are whatever the
    /// corpus repeats most, which is where compounds show up.
    pub fn longest_tokens(&self, n: usize) -> (r: Vec<(u32, String)>)
        requires
            self.wf(),
        ensures
            r.len() <= n,
            forall|i: int| 0 <= i < r.len() ==> learned_id(self@, #[trigger] r[i].0),
            forall|i: int| 0 <= i < r.len() ==> (#[trigger] r[i]).1@ == token_text(self@, r[i].0),
            forall|i: int, j: int|
                0 <= i < j < r.len() ==> longer_first(self@, #[trigger] r[i].0, #[trigger] r[j].0),
            forall|x: u32|
                learned_id(self@, x) && (forall|i: int| 0 <= i < r.len() ==> #[trigger] r[i].0 != x)
                    ==> forall|i: int| 0 <= i < r.len() ==> longer_first(self@, #[trigger] r[i].0, x),
            r.len() < n ==> forall|x: u32|
                learned_id(self@, x) ==> exists|i: int| 0 <= i < r.len() && #[trigger] r[i].0 == x,
    {
        let ghost m = self@;
        let mut chosen: Vec<u32> = Vec::new();
        let len = self.vocab.len();
        loop
            invariant
                self.wf(),
                m == self@,
                len == self@.vocab.len(),
                chosen.len() <= n,
                forall|i: int| 0 <= i < chosen.len() ==> learned_id(m, #[trigger] chosen@[i]),
                forall|i: int, j: int|
                    0 <= i < j < chosen.len() ==> longer_first(m, #[trigger] chosen@[i], #[trigger] chosen@[j]),
                chosen.len() > 0 ==> forall|x: u32|
                    learned_id(m, x) && !chosen@.contains(x) ==> longer_first(m, chosen@.last(), x),
            ensures
                chosen.len() <= n,
                forall|i: int| 0 <= i < chosen.len() ==> learned_id(m, #[trigger] chosen@[i]),
                forall|i: int, j: int|
                    0 <= i < j < chosen.len() ==> longer_first(m, #[trigger] chosen@[i], #[trigger] chosen@[j]),
                chosen.len() > 0 ==> forall|x: u32|
                    learned_id(m, x) && !chosen@.contains(x) ==> longer_first(m, chosen@.last(), x),
                chosen.len() < n ==> forall|x: u32| learned_id(m, x) ==> chosen@.contains(x),
            decreases n - chosen.len(),
        {
            if chosen.len() >= n {
                break;
            }
            let mut best: Option<u32> = None;
            let mut x: usize = 256;
            while x < len
                invariant
                    256 <= x <= len,
                    len == m.vocab.len(),
                    len <= 0x1_0000_0000,
                    m == self@,
                    forall|i: int| 0 <= i < chosen.len() ==> learned_id(m, #[trigger] chosen@[i]),
                    best matches Some(b) ==> {
                        &&& 256 <= b < x
                        &&& eligible(m, chosen@, b)
                        &&& forall|y: u32|
                            256 <= y < x && #[trigger] eligible(m, chosen@, y) && y != b
                                ==> longer_first(m, b, y)
                    },
                    best is None ==> forall|y: u32|
                        256 <= y < x ==> !#[trigger] eligible(m, chosen@, y),
                decreases len - x,
            {
                let id = x as u32;
                let ok = chosen.len() == 0 || self.comes_before(chosen[chosen.len() - 1], id);
                proof {
                    assert(ok == eligible(m, chosen@, id));
                }
                if ok {
                    match best {
                        None => {
                            best = Some(id);
                        },
                        Some(b) => {
                            if self.comes_before(id, b) {
                                best = Some(id);
                            }
                        },
                    }
                }
                x = x + 1;
            }
            match best {
                None => {
                    proof {
                        assert forall|y: u32| learned_id(m, y) implies chosen@.contains(y) by {
                            if !chosen@.contains(y) {
                                assert(!eligible(m, chosen@, y));
                            }
                        }
                    }
                    break;
                },
                Some(b) => {
                    let ghost old_chosen = chosen@;
                    proof {
                        assert(eligible(m, chosen@, b));
                        if chosen.len() > 0 {
                            assert(!old_chosen.contains(b)) by {
                                if old_chosen.contains(b) {
                                    let i = choose|i: int| 0 <= i < old_chosen.len() && old_chosen[i] == b;
                                    if i < old_chosen.len() - 1 {
                                        assert(longer_first(m, old_chosen[i], old_chosen.last()));
                                    }
                                }
                            }
                        }
                    }
                    chosen.push(b);
                    proof {
                        assert forall|i: int, j: int|
                            0 <= i < j < chosen.len() implies longer_first(m, #[trigger] chosen@[i], #[trigger] chosen@[j]) by {
                            if j == chosen.len() - 1 && i < j - 1 {
                                assert(longer_first(m, old_chosen[i], old_chosen.last()));
                            }
                        }
                        assert forall|y: u32| learned_id(m, y) && !chosen@.contains(y) implies longer_first(m, chosen@.last(), y) by {
                            assert(!old_chosen.contains(y)) by {
                                if old_chosen.contains(y) {
                                    let i = choose|i: int| 0 <= i < old_chosen.len() && old_chosen[i] == y;
                                    assert(chosen@[i] == y);
                                }
                            }
                            assert(y != b) by {
                                assert(chosen@[chosen.len() - 1] == b);
                            }
                            assert(eligible(m, old_chosen, y));
                        }
                    }
                },
            }
        }
        let mut out: Vec<(u32, String)> = Vec::new();
        let mut k: usize = 0;
        while k < chosen.len()
            invariant
                k <= chosen.len(),
                m == self@,
                out.len() == k,
                forall|i: int| 0 <= i < k ==> (#[trigger] out[i]).0 == chosen@[i],
                forall|i: int| 0 <= i < k ==> (#[trigger] out[i]).1@ == token_text(m, chosen@[i]),
            decreases chosen.len() - k,
        {
            let id = chosen[k];
            out.push((id, self.token_repr(id)));
            k = k + 1;
        }
        proof {
            assert forall|x: u32|
                learned_id(m, x) && (forall|i: int| 0 <= i < out.len() ==> #[trigger] out[i].0 != x)
                    implies forall|i: int| 0 <= i < out.len() ==> longer_first(m, #[trigger] out[i].0, x) by {
                assert(!chosen@.contains(x)) by {
                    if chosen@.contains(x) {
                        let i = choose|i: int| 0 <= i < chosen.len() && chosen@[i] == x;
                        assert(out[i].0 == x);
                    }
                }
                assert forall|i: int| 0 <= i < out.len() implies longer_first(m, #[trigger] out[i].0, x) by {
                    assert(out[i].0 == chosen@[i]);
                    if i < chosen.len() - 1 {
                        assert(longer_first(m, chosen@[i], chosen@.last()));
                    }
                }
            }
            if out.len() < n {
                assert forall|x: u32| learned_id(m, x) implies exists|i: int| 0 <= i < out.len() && #[trigger] out[i].0 == x by {
                    assert(chosen@.contains(x));
                    let i = choose|i: int| 0 <= i < chosen.len() && chosen@[i] == x;
                    assert(out[i].0 == x);
                }
            }
            assert forall|i: int, j: int| 0 <= i < j < out.len() implies longer_first(m, #[trigger] out[i].0, #[trigger] out[j].0) by {
                assert(out[i].0 == chosen@[i]);
                assert(out[j].0 == chosen@[j]);
            }
        }
        out
    }

    /// `x` comes before `y` among the longest tokens.
    fn comes_before(&self, x: u32, y: u32) -> (r: bool)
        requires
            learned_id(self@, x),
            learned_id(self@, y),
        ensures
            r == longer_first(self@, x, y),
    {
        let lx = self.vocab[x as usize].len();
        let ly = self.vocab[y as usize].len();
        lx > ly || (lx == ly && x < y)
    }
}

/// What `token_repr` shows of a token that is valid UTF-8 is exactly the
/// text `decode` gives for that single id, character for character, with
/// only space, newline and tab replaced by `␣`, `⏎` and `⇥`; raw `<XX>`
/// bytes appear only for a token whose bytes are not valid UTF-8, four
/// characters per byte.
pub proof fn lemma_token_repr_shows_decoded_text(m: super::BpeModel, id: u32)
    requires
        id < m.vocab.len(),
    ensures
        valid_utf8(m.vocab[id as int]) ==> {
            let d = m.decode_text(seq![id]);
            let t = token_text(m, id);
            &&& t.len() == d.len()
            &&& forall|k: int|
                0 <= k < d.len() ==> #[trigger] t[k] == (if d[k] == ' ' {
                    '\u{2423}'
                } else if d[k] == '\n' {
                    '\u{23CE}'
                } else if d[k] == '\t' {
                    '\u{21E5}'
                } else {
                    d[k]
                })
        },
        !valid_utf8(m.vocab[id as int]) ==> token_text(m, id) == hex_bytes(m.vocab[id as int])
            && token_text(m, id).len() == 4 * m.vocab[id as int].len(),
{
    let single = seq![id];
    assert(single.drop_first() =~= Seq::<u32>::empty());
    assert(m.decode_bytes(single.drop_first()) =~= Seq::<u8>::empty());
    assert(m.decode_bytes(single) =~= m.vocab[id as int]);
    lemma_hex_bytes_len(m.vocab[id as int]);
}

proof fn lemma_hex_bytes_len(bs: Seq<u8>)
    ensures
        hex_bytes(bs).len() == 4 * bs.len(),
    decreases bs.len(),
{
    if bs.len() > 0 {
        lemma_hex_bytes_len(bs.drop_last());
        reveal_strlit("<");
        reveal_strlit(">");
    }
}

/// Each line of the merge table names, in its result column, the token the
/// merge created, rendered as `token_repr` renders it: the line for rank `r`
/// starts with `r` and ends with ` -> `, the quoted rendering of id
/// `256 + r`, and a line ending; the table is those lines in rank order.
pub proof fn lemma_merge_table_shows_new_token(m: super::BpeModel)
    ensures
        table_text(m) == Seq::new(m.merges.len(), |r: int| table_line(m, r as nat, m.merges[r])).flatten(),
        forall|r: int|
            0 <= r < m.merges.len() ==> {
                let line = #[trigger] table_line(m, r as nat, m.merges[r]);
                let tail = " -> "@ + debug_str(token_text(m, (256 + r) as u32)) + "\n"@;
                &&& line.len() >= tail.len()
                &&& line.subrange(line.len() - tail.len(), line.len() as int) == tail
                &&& line.subrange(0, pad_left(decimal(r as nat), 5).len() as int) == pad_left(
                    decimal(r as nat),
                    5,
                )
            },
{
    assert forall|r: int| 0 <= r < m.merges.len() implies {
        let line = #[trigger] table_line(m, r as nat, m.merges[r]);
        let tail = " -> "@ + debug_str(token_text(m, (256 + r) as u32)) + "\n"@;
        &&& line.len() >= tail.len()
        &&& line.subrange(line.len() - tail.len(), line.len() as int) == tail
        &&& line.subrange(0, pad_left(decimal(r as nat), 5).len() as int) == pad_left(
            decimal(r as nat),
            5,
        )
    } by {
        let p = m.merges[r];
        let line = table_line(m, r as nat, p);
        let head = pad_left(decimal(r as nat), 5);
        let mid = "  "@ + pad_left(decimal(256 + r as nat), 6) + "  "@ + debug_str(token_text(m, p.0))
            + " + "@ + debug_str(token_text(m, p.1));
        let tail = " -> "@ + debug_str(token_text(m, (256 + r) as u32)) + "\n"@;
        assert(line =~= head + mid + tail);
        assert(line.subrange(line.len() - tail.len(), line.len() as int) =~= tail);
        assert(line.subrange(0, head.len() as int) =~= head);
    }
}

} // verus!
