use pllm::{ids_from_bytes, ids_to_bytes, split_chunks, Bpe};

#[test]
fn digits_are_chunks_of_their_own() {
    assert_eq!(split_chunks("1234"), vec!["1", "2", "3", "4"]);
    assert_eq!(split_chunks("a 12"), vec!["a", " 1", "2"]);
}

#[test]
fn whitespace_runs_leave_their_last_space() {
    assert_eq!(split_chunks("a   b"), vec!["a", "  ", " b"]);
    assert_eq!(split_chunks("a\n\n b"), vec!["a", "\n\n", " b"]);
    assert_eq!(split_chunks("a \n"), vec!["a", " \n"]);
    assert_eq!(split_chunks("x  "), vec!["x", "  "]);
    assert_eq!(split_chunks(""), Vec::<&str>::new());
}

#[test]
fn symbols_and_letters_split() {
    assert_eq!(split_chunks("Grüezi!!! ok"), vec!["Grüezi", "!!!", " ok"]);
    assert_eq!(split_chunks(" ..."), vec![" ..."]);
    assert_eq!(split_chunks("日本語 テキスト"), vec!["日本語", " テキスト"]);
}

#[test]
fn chunks_join_back_to_the_text() {
    let text = "  Der Hund, 42 Katzen!\r\n\tEnde  ";
    assert_eq!(split_chunks(text).concat(), text);
}

#[test]
fn fresh_tokenizer_has_the_byte_vocabulary() {
    let bpe = Bpe::new();
    assert_eq!(bpe.vocab_size(), 256);
    assert_eq!(bpe.encode("Aü"), vec![65, 0xC3, 0xBC]);
    assert_eq!(bpe.to_string_repr(), "pllm bpe v1\n");
}

#[test]
fn decode_marks_unknown_ids() {
    let bpe = Bpe::new();
    assert_eq!(bpe.decode(&[72, 9999, 105]), "H\u{FFFD}i");
    // A lone lead byte is not valid UTF-8 and is read lossily.
    assert_eq!(bpe.decode(&[0xC3]), "\u{FFFD}");
    assert_eq!(bpe.decode(&[]), "");
}

#[test]
fn training_learns_the_most_frequent_pair_first() {
    let mut bpe = Bpe::new();
    let log = bpe.train("aaab aaab", 1, true);
    // (97, 97) occurs four times, more than any other pair.
    assert_eq!(bpe.to_string_repr(), "pllm bpe v1\n97 97\n");
    assert_eq!(log, vec!["merge    0: (97, 97) -> 256 = \"aa\"  [4x]".to_string()]);
    assert_eq!(bpe.vocab_size(), 257);
    assert_eq!(bpe.encode("aaab"), vec![256, 97, 98]);
}

#[test]
fn quiet_training_logs_nothing() {
    let mut bpe = Bpe::new();
    let log = bpe.train("abab abab", 3, false);
    assert!(log.is_empty());
    assert!(bpe.vocab_size() > 256);
}

#[test]
fn ties_go_to_the_smallest_pair() {
    let mut bpe = Bpe::new();
    bpe.train("cd ab cd ab", 1, false);
    // (32, 97), (97, 98) and (99, 100) all occur twice; the smallest wins.
    assert_eq!(bpe.to_string_repr(), "pllm bpe v1\n32 97\n");
}

#[test]
fn training_stops_when_no_pair_repeats() {
    let mut bpe = Bpe::new();
    let log = bpe.train("abc", 10, true);
    assert!(log.is_empty());
    assert_eq!(bpe.vocab_size(), 256);
}

#[test]
fn merge_table_lines_are_exact() {
    let mut bpe = Bpe::new();
    bpe.train("der der der", 2, false);
    let table = bpe.merge_table();
    let lines: Vec<&str> = table.lines().collect();
    assert_eq!(lines.len(), 2);
    assert_eq!(lines[0], "    0     256  \"d\" + \"e\" -> \"de\"");
    assert_eq!(lines[1], "    1     257  \"de\" + \"r\" -> \"der\"");
}

#[test]
fn token_repr_of_learned_and_raw_tokens() {
    let bpe = Bpe::from_string_repr("pllm bpe v1\n32 100\n256 101\n").unwrap();
    assert_eq!(bpe.token_repr(256), "␣d");
    assert_eq!(bpe.token_repr(257), "␣de");
    assert_eq!(bpe.token_repr(b'\t' as u32), "⇥");
    assert_eq!(bpe.token_repr(b'x' as u32), "x");
    assert_eq!(bpe.token_repr(0xFF), "<FF>");
    assert_eq!(bpe.token_repr(258), "<unknown 258>");
}

#[test]
fn longest_tokens_edge_cases() {
    let bpe = Bpe::from_string_repr("pllm bpe v1\n97 98\n99 100\n256 257\n").unwrap();
    assert_eq!(bpe.longest_tokens(0), vec![]);
    let all = bpe.longest_tokens(10);
    assert_eq!(
        all,
        vec![(258, "abcd".to_string()), (256, "ab".to_string()), (257, "cd".to_string())]
    );
    assert_eq!(Bpe::new().longest_tokens(3), vec![]);
}

#[test]
fn merge_table_reads_back() {
    let mut a = Bpe::new();
    a.train(&"Zürich Zürich Zürcher ".repeat(20), 15, false);
    let b = Bpe::from_string_repr(&a.to_string_repr()).unwrap();
    assert_eq!(a.to_string_repr(), b.to_string_repr());
    assert_eq!(a.merge_table(), b.merge_table());
    assert_eq!(a.vocab_size(), b.vocab_size());
}

#[test]
fn merge_table_reading_skips_blank_lines_and_accepts_crlf() {
    let bpe = Bpe::from_string_repr("pllm bpe v1\r\n\r\n 97   98 extra\r\n  \n+256 99\n").unwrap();
    assert_eq!(bpe.vocab_size(), 258);
    assert_eq!(bpe.to_string_repr(), "pllm bpe v1\n97 98\n256 99\n");
    assert_eq!(bpe.decode(&[257]), "abc");
}

#[test]
fn merge_table_errors() {
    assert_eq!(Bpe::from_string_repr("").unwrap_err(), "unbekannter Header: None");
    assert_eq!(
        Bpe::from_string_repr("mini bpe\n1 2\n").unwrap_err(),
        "unbekannter Header: Some(\"mini bpe\")"
    );
    assert_eq!(
        Bpe::from_string_repr("pllm bpe v1\n97\n").unwrap_err(),
        "Paar unvollständig"
    );
    assert_eq!(
        Bpe::from_string_repr("pllm bpe v1\n97 x\n").unwrap_err(),
        "invalid digit found in string"
    );
    assert_eq!(
        Bpe::from_string_repr("pllm bpe v1\n-1 2\n").unwrap_err(),
        "invalid digit found in string"
    );
    assert_eq!(
        Bpe::from_string_repr("pllm bpe v1\n+ 2\n").unwrap_err(),
        "invalid digit found in string"
    );
    assert_eq!(
        Bpe::from_string_repr("pllm bpe v1\n4294967296 2\n").unwrap_err(),
        "number too large to fit in target type"
    );
    assert_eq!(
        Bpe::from_string_repr("pllm bpe v1\n97 256\n").unwrap_err(),
        "unbekannte ID"
    );
}

#[test]
fn trained_roundtrip_on_mixed_text() {
    let corpus = "Grüezi mitenand, Zürich! Grüezi 2024, 🇨🇭 🇨🇭\n".repeat(30);
    let mut bpe = Bpe::new();
    bpe.train(&corpus, 100, false);
    for text in ["Grüezi", "🇨🇭 Zürich 2024", "ganz neu: ÄÖÜ", "", "\n\n  "] {
        assert_eq!(bpe.decode(&bpe.encode(text)), text);
    }
}

#[test]
fn learned_tokens_stay_inside_chunks() {
    let corpus = "ab ab ab cd cd cd ".repeat(20);
    let mut bpe = Bpe::new();
    bpe.train(&corpus, 30, false);
    let chunks = split_chunks(&corpus);
    for id in 256..bpe.vocab_size() as u32 {
        let token = bpe.decode(&[id]);
        assert!(chunks.iter().any(|c| c.contains(token.as_str())), "{token:?}");
    }
}

#[test]
fn ids_file_layout() {
    let bytes = ids_to_bytes(&[1, 258]).unwrap();
    assert_eq!(bytes, b"pllm ids v1\n\x01\x00\x02\x01".to_vec());
}

#[test]
fn ids_errors_are_explained() {
    assert_eq!(ids_to_bytes(&[1, 70000, 80000]).unwrap_err(), "id 70000 does not fit in u16");
    assert_eq!(ids_from_bytes(b"pllm ids v1\n\x01").unwrap_err(), "1 ist keine gerade Anzahl Bytes");
    assert_eq!(ids_from_bytes(b"pllm").unwrap_err(), "unbekannter Header");
    assert_eq!(ids_from_bytes(b"pllm ids v1\n").unwrap(), Vec::<u32>::new());
}

#[test]
fn training_again_continues_the_ranks() {
    let mut bpe = Bpe::new();
    bpe.train("aaab aaab", 1, false);
    let log = bpe.train("cdcd cdcd", 1, true);
    // The second run's rule gets rank 1 and the new id 257; id 256 keeps "aa".
    assert_eq!(log, vec!["merge    1: (99, 100) -> 257 = \"cd\"  [4x]".to_string()]);
    assert_eq!(bpe.vocab_size(), 258);
    assert_eq!(bpe.to_string_repr(), "pllm bpe v1\n97 97\n99 100\n");
    assert_eq!(bpe.decode(&[256]), "aa");
    assert_eq!(bpe.encode("aab cd"), vec![256, 98, 32, 257]);
    let text = "aaab cdcd xyz";
    assert_eq!(bpe.decode(&bpe.encode(text)), text);
    let back = Bpe::from_string_repr(&bpe.to_string_repr()).unwrap();
    assert_eq!(back.encode(text), bpe.encode(text));
}

#[test]
fn more_merges_never_change_earlier_ones() {
    let corpus = "der Hund und die Katze, der Hund und der Igel ".repeat(8);
    let mut few = Bpe::new();
    few.train(&corpus, 5, false);
    let mut many = Bpe::new();
    many.train(&corpus, 25, true);
    assert!(many.to_string_repr().starts_with(&few.to_string_repr()));
    // A run that stopped early learns everything a longer run learns.
    let mut short = Bpe::new();
    short.train("abab", 10, false);
    let mut long = Bpe::new();
    long.train("abab", 50, false);
    assert_eq!(short.to_string_repr(), long.to_string_repr());
}

#[test]
fn encoding_goes_chunk_by_chunk() {
    let mut bpe = Bpe::new();
    bpe.train(&"the cat sat on the mat, 42 times! ".repeat(10), 30, false);
    let text = "the mat sat, 4242 cats!  on";
    let by_chunks: Vec<u32> = split_chunks(text).iter().flat_map(|c| bpe.encode(c)).collect();
    assert_eq!(bpe.encode(text), by_chunks);
    for chunk in split_chunks(text) {
        assert_eq!(split_chunks(chunk), vec![chunk]);
    }
}

#[test]
fn merges_apply_in_rank_order_not_by_frequency() {
    // (98, 98) occurs twice in "abbb" and (97, 98) once, but (97, 98) has
    // the lower rank, so it applies first.
    let bpe = Bpe::from_string_repr("pllm bpe v1\n97 98\n98 98\n").unwrap();
    assert_eq!(bpe.encode("abbb"), vec![256, 257]);
    assert_eq!(bpe.encode("bbab"), vec![257, 256]);
}

#[test]
fn ids_file_written_back_is_the_same_file() {
    let mut file = b"pllm ids v1\n".to_vec();
    file.extend_from_slice(&[1, 0, 255, 255, 0, 1]);
    let ids = ids_from_bytes(&file).unwrap();
    assert_eq!(ids, vec![1, 65535, 256]);
    assert_eq!(ids_to_bytes(&ids).unwrap(), file);
}

#[test]
fn ascii_letters_digits_and_spaces_split_as_expected() {
    assert_eq!(split_chunks("ab"), vec!["ab"]);
    assert_eq!(split_chunks("ab cd"), vec!["ab", " cd"]);
    assert_eq!(split_chunks("a1"), vec!["a", "1"]);
}
