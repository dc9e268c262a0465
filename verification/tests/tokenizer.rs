use pllm::{ids_from_bytes, ids_to_bytes, split_chunks, Bpe};

#[test]
fn roundtrip_without_training() {
    let bpe = Bpe::new();
    let text = "Grüezi, Zürich! 🇨🇭";
    assert_eq!(bpe.decode(&bpe.encode(text)), text);
}

#[test]
fn roundtrip_with_training() {
    let corpus = "der Hund und die Katze und der Vogel und die Maus ".repeat(50);
    let mut bpe = Bpe::new();
    bpe.train(&corpus, 60, false);

    let text = "der Hund und die Katze";
    let ids = bpe.encode(text);

    assert_eq!(bpe.decode(&ids), text);
    // compression must be measurable, otherwise encode() is wrong
    assert!(ids.len() < text.len(), "{} vs {}", ids.len(), text.len());
}

#[test]
fn chunks_keep_the_leading_space() {
    assert_eq!(split_chunks("der Hund"), vec!["der", " Hund"]);
    assert_eq!(split_chunks("Hallo, Welt!\n"), vec!["Hallo", ",", " Welt", "!", "\n"]);
    assert_eq!(split_chunks("  x"), vec![" ", " x"]);
}

#[test]
fn no_merge_crosses_a_word_boundary() {
    // "der Hund" is the most frequent pair sequence here, so without the
    // pre-split BPE would happily learn it as one token.
    let corpus = "der Hund der Hund der Hund ".repeat(100);
    let mut bpe = Bpe::new();
    bpe.train(&corpus, 80, false);

    for id in 256..bpe.vocab_size() as u32 {
        let text = bpe.decode(&[id]);
        let bytes = text.as_bytes();
        // A space is allowed only as the first byte of a token.
        assert!(
            !bytes[1..].contains(&b' '),
            "token {id} = {:?} spans a word boundary",
            text
        );
    }
}

#[test]
fn digits_stay_single_tokens() {
    let corpus = "1234 1234 1234 ".repeat(100);
    let mut bpe = Bpe::new();
    bpe.train(&corpus, 50, false);

    // Four digits, four tokens — no matter how often "1234" occurred.
    assert_eq!(bpe.encode("1234").len(), 4);
    assert_eq!(bpe.decode(&bpe.encode("1234")), "1234");
}

#[test]
fn training_is_deterministic() {
    // Ties in pair counts are common once chunks are small; HashMap order
    // must not decide which merge is learned.
    let corpus = "ab cd ab cd ef ef ".repeat(40);
    let mut a = Bpe::new();
    let mut b = Bpe::new();
    a.train(&corpus, 30, false);
    b.train(&corpus, 30, false);
    assert_eq!(a.to_string_repr(), b.to_string_repr());
}

#[test]
fn token_repr_makes_whitespace_visible() {
    let mut bpe = Bpe::new();
    bpe.train(&"der Hund der Hund der Hund ".repeat(50), 40, false);

    assert_eq!(bpe.token_repr(b' ' as u32), "␣");
    assert_eq!(bpe.token_repr(b'\n' as u32), "⏎");
    // First byte of "ü" — valid token, invalid UTF-8 on its own.
    assert_eq!(bpe.token_repr(0xC3), "<C3>");
    assert_eq!(bpe.token_repr(9_999), "<unknown 9999>");
}

#[test]
fn merge_table_is_readable() {
    let corpus = "der Hund der Hund der Hund ".repeat(50);
    let mut bpe = Bpe::new();
    bpe.train(&corpus, 40, false);

    let table = bpe.merge_table();
    // One line per learned merge, ranks in order starting at 0.
    assert_eq!(table.lines().count(), bpe.vocab_size() - 256);
    assert!(table.lines().next().unwrap().starts_with("    0     256"));
    // The whole word must be in there, with its leading space marked.
    assert!(table.contains("\"␣Hund\""), "{table}");
}

#[test]
fn longest_tokens_are_sorted_long_first() {
    let corpus = "Donaudampfschifffahrt Donaudampfschifffahrt ab ".repeat(50);
    let mut bpe = Bpe::new();
    bpe.train(&corpus, 60, false);

    let top = bpe.longest_tokens(5);
    assert_eq!(top.len(), 5);
    for pair in top.windows(2) {
        assert!(pair[0].1.chars().count() >= pair[1].1.chars().count(), "{top:?}");
    }
    assert!(top[0].1.contains("Donaudampfschifffahrt"), "{top:?}");
}

#[test]
fn stable_serialization() {
    let corpus = "abababab abcabcabc ".repeat(30);
    let mut a = Bpe::new();
    a.train(&corpus, 20, false);
    let b = Bpe::from_string_repr(&a.to_string_repr()).unwrap();
    assert_eq!(a.encode("abcabc"), b.encode("abcabc"));
}

#[test]
fn ids_roundtrip() {
    let ids = vec![0, 255, 256, 65535];
    let bytes = ids_to_bytes(&ids).unwrap();
    assert_eq!(ids_from_bytes(&bytes).unwrap(), ids);
}

#[test]
fn ids_reject_out_of_range() {
    assert!(ids_to_bytes(&[65536]).is_err());
}

#[test]
fn ids_reject_unknown_header() {
    assert!(ids_from_bytes(b"not the right header\n").is_err());
}
