use nagisa_rs::features::VocabConfig;
use nagisa_rs::pos::{normalize_word, pos_names, postag_inputs, word_is_alnum, TagVocab};
use nagisa_rs::weights::{vocab_from_entries, word_tags_from_entries, Vocab};

fn entries(es: &[(&str, i64)]) -> Vec<(String, i64)> {
    es.iter().map(|(k, v)| (k.to_string(), *v)).collect()
}

fn tag_vocab() -> TagVocab {
    let pos = entries(&[("oov", 0), ("名詞", 3), ("助詞", 5)]);
    let w2p = word_tags_from_entries(&vec![
        ("は".to_string(), vec![5, 5]),
        ("東京".to_string(), vec![3, 0]),
    ]);
    TagVocab::new(&pos, w2p)
}

fn cfg() -> VocabConfig {
    VocabConfig {
        uni2id: vocab_from_entries(&entries(&[("oov", 0), ("東", 7), ("は", 8), ("a", 9)])),
        bi2id: Vocab::new(),
        word2id: vocab_from_entries(&entries(&[("oov", 17), ("東京", 40), ("は", 41)])),
        window_size: 3,
    }
}

fn sorted(mut v: Vec<u32>) -> Vec<u32> {
    v.sort();
    v
}

#[test]
fn inputs_of_words() {
    let words: Vec<String> = ["東京", "は", "ａ1", "。"].iter().map(|s| s.to_string()).collect();
    let t = tag_vocab();
    let x = postag_inputs(&words, &cfg(), &t);
    assert_eq!(x.words, vec!["東京", "は", "a1", "。"]);
    assert_eq!(x.wids, vec![40, 41, 17, 17]);
    assert_eq!(x.cids, vec![vec![7, 0], vec![8], vec![9, 0], vec![0]]);
    // Alphanumeric words (kana and kanji are alphabetic) lose tag 0 and
    // gain the noun tag.
    assert_eq!(sorted(x.tids[0].clone()), vec![3]);
    assert_eq!(sorted(x.tids[1].clone()), vec![3, 5]);
    assert_eq!(x.tids[2], vec![3]);
    assert_eq!(x.tids[3], vec![0]);
}

#[test]
fn no_noun_tag_no_heuristic() {
    let pos = entries(&[("oov", 0), ("助詞", 5)]);
    let t = TagVocab::new(&pos, word_tags_from_entries(&vec![]));
    let words = vec!["abc".to_string()];
    let x = postag_inputs(&words, &cfg(), &t);
    assert_eq!(x.tids, vec![vec![0]]);
}

#[test]
fn empty_word_list() {
    let x = postag_inputs(&[], &cfg(), &tag_vocab());
    assert!(x.words.is_empty() && x.wids.is_empty() && x.cids.is_empty() && x.tids.is_empty());
}

#[test]
fn space_words_keep_their_space() {
    assert_eq!(normalize_word(" "), "\u{3000}");
    assert_eq!(normalize_word("\u{3000}"), "\u{3000}");
    assert_eq!(normalize_word("  "), "");
    assert_eq!(normalize_word("a "), "a");
}

#[test]
fn tag_names() {
    let t = tag_vocab();
    assert_eq!(pos_names(&[3, 5, 0, 9], &t), vec!["名詞", "助詞", "oov", "oov"]);
    // Ids are taken modulo 2^32.
    assert_eq!(pos_names(&[(1usize << 32) + 3], &t), vec!["名詞"]);
}

#[test]
fn tag_tables_invert() {
    let t = tag_vocab();
    assert_eq!(t.pos2id.get("名詞"), Some(&3));
    assert_eq!(t.id2pos.get(&5).map(|s| s.as_str()), Some("助詞"));
    assert_eq!(t.word2postags.get("東京"), Some(&vec![3, 0]));
}

#[test]
fn alnum_words() {
    assert!(word_is_alnum("東京"));
    assert!(word_is_alnum("。a"));
    assert!(!word_is_alnum("。、"));
    assert!(!word_is_alnum(""));
}

#[test]
fn vocab_ids_are_truncated_to_u32() {
    let v = vocab_from_entries(&entries(&[("a", -1), ("b", (1i64 << 32) + 5), ("a", 2)]));
    assert_eq!(v.get("a"), Some(&2));
    assert_eq!(v.get("b"), Some(&5));
    let w = word_tags_from_entries(&vec![("x".to_string(), vec![-1, 4])]);
    assert_eq!(w.get("x"), Some(&vec![u32::MAX, 4]));
}
