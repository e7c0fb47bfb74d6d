use bpe_tokenizer::pairs::{find_freq_pair, replace_pair};
use bpe_tokenizer::persist::{id_text, parse_id};
use bpe_tokenizer::{BPETokenizerSimple, BpeMerge, TokenizerError};

const MARKER: char = '\u{120}';

fn trained(text: &str, size: usize, specials: &[&str]) -> BPETokenizerSimple {
    let mut t = BPETokenizerSimple::new();
    t.train(text, size, specials.iter().map(|s| s.to_string()).collect());
    t
}

fn sorted_docs(t: &BPETokenizerSimple) -> (Vec<(String, String)>, Vec<(Vec<usize>, usize)>) {
    let (mut v, m) = t.save_vocab_and_merges();
    v.sort();
    let mut m: Vec<(Vec<usize>, usize)> = m.into_iter().map(|e| (e.pair, e.new_id)).collect();
    m.sort();
    (v, m)
}

#[test]
fn first_merge_is_most_frequent_pair() {
    let t = trained("aaabdaaabac", 257 + 2, &[]);
    assert_eq!(t.get_special_token_id("aa"), Some(257));
    assert_eq!(t.get_special_token_id("aaa"), Some(258));
    assert_eq!(t.get_special_token_id(&MARKER.to_string()), Some(256));
    assert_eq!(t.decode(&[257]), Ok("aa".to_string()));
    let (v, m) = sorted_docs(&t);
    assert_eq!(v.len(), 259);
    assert_eq!(m, vec![(vec![97, 97], 257), (vec![257, 97], 258)]);
}

#[test]
fn encode_applies_merges_in_passes() {
    let t = trained("aaabdaaabac", 259, &[]);
    let ids = t.encode("aaabdaaabac");
    assert_eq!(ids, vec![258, 98, 100, 258, 98, 97, 99]);
    assert_eq!(t.decode(&ids), Ok("aaabdaaabac".to_string()));
}

#[test]
fn round_trip_trained_sentence() {
    let corpus = "Jack embraced beauty. He loved art and life. Jack embraced beauty through art.";
    let t = trained(corpus, 300, &["<|endoftext|>"]);
    let ids = t.encode("Jack embraced beauty.");
    assert!(!ids.is_empty());
    assert_eq!(t.decode(&ids), Ok("Jack embraced beauty.".to_string()));
}

#[test]
fn decode_unknown_id_fails() {
    let corpus = "the quick brown fox jumps over the lazy dog and the cat sat on the mat";
    let t = trained(corpus, 300, &[]);
    let (v, _) = t.save_vocab_and_merges();
    assert!(v.len() <= 300);
    assert_eq!(t.decode(&[104, 999999]), Err(TokenizerError::UnknownTokenId(999999)));
    assert_eq!(t.decode(&[999999]), Err(TokenizerError::UnknownTokenId(999999)));
}

#[test]
fn save_then_load_gives_same_tables() {
    let t = trained("low lower lowest newer wider", 280, &["<|endoftext|>"]);
    let (v, m) = t.save_vocab_and_merges();
    let mut fresh = BPETokenizerSimple::new();
    assert_eq!(fresh.load_vocab_and_merges(v, m), Ok(()));
    assert_eq!(sorted_docs(&fresh), sorted_docs(&t));
    let ids = t.encode("lower newest");
    assert_eq!(fresh.encode("lower newest"), ids);
    assert_eq!(fresh.decode(&ids), t.decode(&ids));
}

#[test]
fn round_trip_single_spaced_words() {
    let t = trained("abc cab bca", 262, &[]);
    for text in ["abc", "a b c", "cab abc bca", "ccc aaa"] {
        assert_eq!(t.decode(&t.encode(text)), Ok(text.to_string()));
    }
}

#[test]
fn multiple_spaces_collapse() {
    let t = trained("ab ab", 258, &[]);
    assert_eq!(t.decode(&t.encode("ab   ab\tab\nab")), Ok("ab ab ab ab".to_string()));
    assert_eq!(t.encode(""), Vec::<usize>::new());
    assert_eq!(t.encode("   "), Vec::<usize>::new());
}

#[test]
fn training_is_deterministic() {
    let text = "she sells sea shells by the sea shore";
    let a = trained(text, 290, &["<|endoftext|>", "<pad>"]);
    let b = trained(text, 290, &["<|endoftext|>", "<pad>"]);
    assert_eq!(sorted_docs(&a), sorted_docs(&b));
}

#[test]
fn vocabulary_grows_by_one_per_merge() {
    let text = "she sells sea shells by the sea shore";
    let seed = trained(text, 0, &[]);
    let (v0, m0) = seed.save_vocab_and_merges();
    assert_eq!(v0.len(), 257);
    assert!(m0.is_empty());
    for size in [257usize, 258, 263, 270] {
        let t = trained(text, size, &[]);
        let (v, m) = t.save_vocab_and_merges();
        assert_eq!(v.len(), 257 + m.len());
        assert!(v.len() <= size.max(257));
    }
    let t = trained("ab", 1000, &[]);
    let (v, m) = t.save_vocab_and_merges();
    assert_eq!(m.len(), 1);
    assert_eq!(v.len(), 258);
}

#[test]
fn merge_pairs_are_unique() {
    let t = trained("aaaa aaaa bbbb aaaa abab", 290, &[]);
    let (_, m) = sorted_docs(&t);
    let mut pairs: Vec<Vec<usize>> = m.iter().map(|e| e.0.clone()).collect();
    let n = pairs.len();
    pairs.sort();
    pairs.dedup();
    assert_eq!(pairs.len(), n);
}

#[test]
fn extra_characters_and_specials_are_seeded() {
    let t = trained("\u{3b1}\u{3b2} \u{3b1}", 0, &["<|endoftext|>", "a"]);
    assert_eq!(t.get_special_token_id(&MARKER.to_string()), Some(256));
    assert_eq!(t.get_special_token_id("\u{3b1}"), Some(257));
    assert_eq!(t.get_special_token_id("\u{3b2}"), Some(258));
    assert_eq!(t.get_special_token_id("<|endoftext|>"), Some(259));
    assert_eq!(t.get_special_token_id("a"), Some(97));
    assert_eq!(t.get_special_token_id("missing"), None);
    assert_eq!(t.decode(&[97, 256, 97]), Ok("a a".to_string()));
}

#[test]
fn marker_in_text_is_not_seeded_twice() {
    let t = trained("x\u{120}y z", 0, &[]);
    assert_eq!(t.get_special_token_id(&MARKER.to_string()), Some(256));
    let (v, _) = t.save_vocab_and_merges();
    assert_eq!(v.len(), 257);
}

#[test]
fn unknown_characters_use_unk_or_are_dropped() {
    let mut t = BPETokenizerSimple::new();
    let vocab = vec![
        ("0".to_string(), "a".to_string()),
        ("1".to_string(), "b".to_string()),
        ("2".to_string(), MARKER.to_string()),
    ];
    assert_eq!(t.load_vocab_and_merges(vocab.clone(), vec![]), Ok(()));
    assert_eq!(t.encode("axb b"), vec![0, 1, 2, 1]);
    let mut with_unk = vocab;
    with_unk.push(("3".to_string(), "<UNK>".to_string()));
    assert_eq!(t.load_vocab_and_merges(with_unk, vec![]), Ok(()));
    assert_eq!(t.encode("axb b"), vec![3, 2, 1]);
}

#[test]
fn load_rejects_non_numeric_id() {
    let mut t = BPETokenizerSimple::new();
    let vocab = vec![("0".to_string(), "a".to_string()), ("x1".to_string(), "b".to_string())];
    assert_eq!(
        t.load_vocab_and_merges(vocab, vec![]),
        Err(TokenizerError::InvalidTokenId("x1".to_string()))
    );
}

#[test]
fn load_skips_malformed_merge_entries() {
    let mut t = BPETokenizerSimple::new();
    let vocab = vec![
        ("0".to_string(), "a".to_string()),
        ("1".to_string(), "b".to_string()),
        ("2".to_string(), "ab".to_string()),
    ];
    let merges = vec![
        BpeMerge { pair: vec![0, 1], new_id: 2 },
        BpeMerge { pair: vec![0, 1, 1], new_id: 7 },
    ];
    assert_eq!(t.load_vocab_and_merges(vocab, merges), Ok(()));
    let (_, m) = t.save_vocab_and_merges();
    assert_eq!(m.len(), 1);
    assert_eq!(t.encode("abab"), vec![2, 2]);
}

fn openai_vocab() -> Vec<(String, String)> {
    vec![
        ("a".to_string(), "0".to_string()),
        ("b".to_string(), "1".to_string()),
        ("ab".to_string(), "2".to_string()),
        ("c".to_string(), "3".to_string()),
    ]
}

#[test]
fn import_adds_known_merges() {
    let mut t = BPETokenizerSimple::new();
    let merges = "#version: 0.2\na b\nb c\na b c\n";
    assert_eq!(t.load_vocab_and_merges_from_openai(openai_vocab(), merges), Ok(()));
    let (_, m) = sorted_docs(&t);
    assert_eq!(m, vec![(vec![0, 1], 2)]);
    assert_eq!(t.encode("abc"), vec![2, 3]);
}

#[test]
fn import_skips_absent_concatenation() {
    let mut t = BPETokenizerSimple::new();
    assert_eq!(t.load_vocab_and_merges_from_openai(openai_vocab(), "b c\nc a\nx y"), Ok(()));
    let (_, m) = t.save_vocab_and_merges();
    assert!(m.is_empty());
    assert_eq!(t.encode("abc"), vec![0, 1, 3]);
    assert_eq!(t.encode("bca"), vec![1, 3, 0]);
}

#[test]
fn import_without_header_uses_first_line() {
    let mut t = BPETokenizerSimple::new();
    assert_eq!(t.load_vocab_and_merges_from_openai(openai_vocab(), "a b"), Ok(()));
    let (_, m) = t.save_vocab_and_merges();
    assert_eq!(m.len(), 1);
}

#[test]
fn import_rejects_non_numeric_id() {
    let mut t = BPETokenizerSimple::new();
    let vocab = vec![("a".to_string(), "zero".to_string())];
    assert_eq!(
        t.load_vocab_and_merges_from_openai(vocab, ""),
        Err(TokenizerError::InvalidTokenId("zero".to_string()))
    );
}

#[test]
fn decimal_ids() {
    assert_eq!(parse_id(&['4', '2']), Some(42));
    assert_eq!(parse_id(&['+', '7']), Some(7));
    assert_eq!(parse_id(&['+']), None);
    assert_eq!(parse_id(&[]), None);
    assert_eq!(parse_id(&['1', 'a']), None);
    assert_eq!(parse_id(&['-', '1']), None);
    let big: Vec<char> = "99999999999999999999999".chars().collect();
    assert_eq!(parse_id(&big), None);
    let max: Vec<char> = usize::MAX.to_string().chars().collect();
    assert_eq!(parse_id(&max), Some(usize::MAX));
    assert_eq!(id_text(0), "0");
    assert_eq!(id_text(1234), "1234");
    assert_eq!(id_text(usize::MAX), usize::MAX.to_string());
}

#[test]
fn pair_helpers() {
    assert_eq!(replace_pair(&[1, 1, 1], &(1, 1), 9), vec![9, 1]);
    assert_eq!(replace_pair(&[1, 2, 1, 2, 3], &(1, 2), 7), vec![7, 7, 3]);
    assert_eq!(replace_pair(&[], &(1, 2), 7), Vec::<usize>::new());
    assert_eq!(find_freq_pair(&[5]), None);
    assert_eq!(find_freq_pair(&[3, 4, 1, 2, 1, 2, 3, 4]), Some((3, 4)));
    assert_eq!(find_freq_pair(&[1, 2, 3, 4, 3, 4]), Some((3, 4)));
    assert_eq!(find_freq_pair(&[1, 1, 1]), Some((1, 1)));
}

#[test]
fn pair_spelling_an_existing_token_is_skipped() {
    let t = trained("aa", 300, &["aa"]);
    assert_eq!(t.get_special_token_id("aa"), Some(257));
    let (v, m) = sorted_docs(&t);
    assert_eq!(v.len(), 258);
    assert!(m.is_empty());
    assert_eq!(t.encode("aa"), vec![257]);
    assert_eq!(t.encode("aaa"), vec![97, 97, 97]);
}

#[test]
fn skipped_pair_gives_way_to_next_most_frequent() {
    let t = trained("aabaab", 300, &["aab"]);
    assert_eq!(t.get_special_token_id("aab"), Some(257));
    let (v, m) = sorted_docs(&t);
    assert_eq!(v.len(), 262);
    assert_eq!(
        m,
        vec![(vec![97, 97], 258), (vec![98, 258], 259), (vec![258, 259], 260), (vec![260, 98], 261)]
    );
    assert_eq!(t.get_special_token_id("baa"), Some(259));
    assert_eq!(t.decode(&[261]), Ok("aabaab".to_string()));
}

#[test]
fn load_keeps_first_entry_of_a_pair() {
    let mut t = BPETokenizerSimple::new();
    let vocab = vec![
        ("0".to_string(), "a".to_string()),
        ("1".to_string(), "b".to_string()),
        ("2".to_string(), "ab".to_string()),
        ("5".to_string(), "x".to_string()),
    ];
    let merges = vec![
        BpeMerge { pair: vec![0, 1], new_id: 2 },
        BpeMerge { pair: vec![0, 1], new_id: 5 },
    ];
    assert_eq!(t.load_vocab_and_merges(vocab, merges), Ok(()));
    let (_, m) = sorted_docs(&t);
    assert_eq!(m, vec![(vec![0, 1], 2)]);
    assert_eq!(t.encode("ab"), vec![2]);
    assert_eq!(t.encode("abab"), vec![2, 2]);
}

#[test]
fn import_keeps_pairs_already_present() {
    let mut t = BPETokenizerSimple::new();
    assert_eq!(t.load_vocab_and_merges_from_openai(openai_vocab(), "a b"), Ok(()));
    let more = vec![("ab".to_string(), "7".to_string())];
    assert_eq!(t.load_vocab_and_merges_from_openai(more, "a b\na b"), Ok(()));
    let (_, m) = sorted_docs(&t);
    assert_eq!(m, vec![(vec![0, 1], 2)]);
}

#[test]
fn saved_ids_are_plain_decimals() {
    let t = trained("abc abc", 260, &[]);
    let (v, m) = t.save_vocab_and_merges();
    for (k, _) in &v {
        let n: usize = k.parse().unwrap();
        assert_eq!(*k, n.to_string());
    }
    let mut pairs: Vec<Vec<usize>> = m.into_iter().map(|e| e.pair).collect();
    let n = pairs.len();
    pairs.sort();
    pairs.dedup();
    assert_eq!(pairs.len(), n);
}

#[test]
fn unusable_merge_lines_are_reported() {
    let mut t = BPETokenizerSimple::new();
    let text = "#version: 0.2\na b\nb c\nx y\na b c\n";
    assert_eq!(t.load_vocab_and_merges_from_openai(openai_vocab(), text), Ok(()));
    assert_eq!(t.unusable_merge_lines(text), vec![2, 3, 4]);
    assert_eq!(t.unusable_merge_lines("a b\n\n"), vec![2]);
    assert_eq!(t.unusable_merge_lines(""), Vec::<usize>::new());
    assert_eq!(t.unusable_merge_lines("a b"), Vec::<usize>::new());
}

#[test]
fn encode_failures_are_reported() {
    let mut t = BPETokenizerSimple::new();
    let vocab = vec![
        ("0".to_string(), "a".to_string()),
        ("1".to_string(), "b".to_string()),
        ("2".to_string(), MARKER.to_string()),
    ];
    assert_eq!(t.load_vocab_and_merges(vocab, vec![]), Ok(()));
    let failures = t.encode_failures("axb b yz");
    let marked: Vec<char> = vec![MARKER, 'y', 'z'];
    assert_eq!(
        failures,
        vec![(vec!['a', 'x', 'b'], vec!['x']), (marked, vec!['y', 'z'])]
    );
    assert!(t.encode_failures("ab ba").is_empty());
}

#[test]
fn unicode_whitespace_separates_words() {
    let t = trained("a b", 258, &[]);
    let spaced = t.encode("a b");
    for u in 0u32..0x3100 {
        let c = match char::from_u32(u) {
            Some(c) => c,
            None => continue,
        };
        let text = format!("a{}b", c);
        if c.is_whitespace() {
            assert_eq!(t.encode(&text), spaced, "U+{:04X}", u);
        } else {
            assert_ne!(t.encode(&text), spaced, "U+{:04X}", u);
        }
    }
}
