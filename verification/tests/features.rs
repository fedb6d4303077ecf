use nagisa_rs::features::{
    chartype, conv_tokens_to_ids, cwin, feature_extraction, get_bigrams, oov_bi, oov_uni,
    oov_word, pad_word, VocabConfig,
};
use nagisa_rs::weights::Vocab;

fn vocab(entries: &[(&str, u32)]) -> Vocab {
    let mut v = Vocab::new();
    for (k, id) in entries {
        v.insert(k.to_string(), *id);
    }
    v
}

fn cfg() -> VocabConfig {
    let mut uni = Vocab::new();
    uni.insert("oov".to_string(), 0);
    uni.insert("pad".to_string(), 1);
    uni.insert("あ".to_string(), 2);
    let mut bi = Vocab::new();
    bi.insert("oov".to_string(), 0);
    bi.insert("pad".to_string(), 1);
    bi.insert("あ<E>".to_string(), 5);
    let mut word = Vocab::new();
    word.insert("oov".to_string(), 17);
    word.insert("pad".to_string(), 1);
    word.insert("あ".to_string(), 3);
    VocabConfig {
        uni2id: uni,
        bi2id: bi,
        word2id: word,
        window_size: 3,
    }
}

#[test]
fn chartype_basic() {
    assert_eq!(chartype('あ'), 0);
    assert_eq!(chartype('ア'), 1);
    assert_eq!(chartype('漢'), 2);
    assert_eq!(chartype('A'), 3);
    assert_eq!(chartype('5'), 4);
    assert_eq!(chartype('。'), 5);
}

#[test]
fn chartype_after_nfkc() {
    // Full-width letters and digits normalise to ASCII.
    assert_eq!(chartype('Ａ'), 3);
    assert_eq!(chartype('９'), 4);
    // Circled digit one normalises to "1".
    assert_eq!(chartype('①'), 4);
    // The half-width katakana is outside the katakana block, and is no letter.
    assert_eq!(chartype('ｱ'), 5);
    assert_eq!(chartype('ゝ'), 0);
    assert_eq!(chartype('ヺ'), 1);
    assert_eq!(chartype('ヿ'), 5);
}

#[test]
fn bigrams_end_symbol() {
    let b = get_bigrams("ab");
    assert_eq!(b, vec!["ab".to_string(), "b<E>".to_string()]);
}

#[test]
fn bigrams_empty_and_single() {
    assert!(get_bigrams("").is_empty());
    assert_eq!(get_bigrams("漢"), vec!["漢<E>".to_string()]);
    assert_eq!(
        get_bigrams("日本語"),
        vec!["日本".to_string(), "本語".to_string(), "語<E>".to_string()]
    );
}

#[test]
fn feature_extraction_short() {
    let f = feature_extraction("あ", &cfg());
    assert_eq!(f.uids.len(), 1);
    assert_eq!(f.uids[0], [1, 2, 1]);
    assert_eq!(f.start[0], vec![3]);
}

#[test]
fn feature_extraction_windows_and_hits() {
    let mut word = Vocab::new();
    word.insert("oov".to_string(), 17);
    word.insert("pad".to_string(), 9);
    word.insert("ab".to_string(), 4);
    word.insert("abc".to_string(), 5);
    word.insert("c".to_string(), 6);
    word.insert("bc".to_string(), 7);
    let cfg = VocabConfig {
        uni2id: vocab(&[("a", 10), ("b", 11)]),
        bi2id: vocab(&[("oov", 2), ("ab", 20), ("c<E>", 21)]),
        word2id: word,
        window_size: 3,
    };
    let f = feature_extraction("abc", &cfg);
    assert_eq!(f.uids.len(), 3);
    assert_eq!(f.bids.len(), 3);
    assert_eq!(f.cids.len(), 3);
    assert_eq!(f.start.len(), 3);
    assert_eq!(f.end.len(), 3);
    // "c" is no unigram: the default oov id 0; padding is word2id["pad"].
    assert_eq!(f.uids, vec![[9, 10, 11], [10, 11, 0], [11, 0, 9]]);
    assert_eq!(f.bids, vec![[9, 20, 2], [20, 2, 21], [2, 21, 9]]);
    assert_eq!(f.cids, vec![[6, 3, 3], [3, 3, 3], [3, 3, 6]]);
    assert_eq!(f.start, vec![vec![4, 5], vec![7], vec![6]]);
    assert_eq!(f.end, vec![vec![17], vec![4], vec![6, 7, 5]]);
}

#[test]
fn feature_extraction_word_length_limit() {
    // Words longer than 8 characters are never looked up.
    let mut word = Vocab::new();
    word.insert("aaaaaaaa".to_string(), 8);
    word.insert("aaaaaaaaa".to_string(), 9);
    let cfg = VocabConfig {
        uni2id: Vocab::new(),
        bi2id: Vocab::new(),
        word2id: word,
        window_size: 3,
    };
    let f = feature_extraction("aaaaaaaaa", &cfg);
    assert_eq!(f.start[0], vec![8]);
    assert_eq!(f.start[1], vec![8]);
    assert_eq!(f.start[2], vec![17]);
    assert_eq!(f.end[7], vec![8]);
    assert_eq!(f.end[8], vec![8]);
    assert_eq!(f.end[6], vec![17]);
    // Without `pad`, the padding id is 1.
    assert_eq!(f.uids[0], [1, 0, 0]);
}

#[test]
fn feature_extraction_empty_text() {
    let f = feature_extraction("", &cfg());
    assert!(f.uids.is_empty());
    assert!(f.bids.is_empty());
    assert!(f.cids.is_empty());
    assert!(f.start.is_empty());
    assert!(f.end.is_empty());
}

#[test]
fn oov_and_pad_defaults() {
    let empty = Vocab::new();
    assert_eq!(oov_uni(&empty), 0);
    assert_eq!(oov_bi(&empty), 0);
    assert_eq!(oov_word(&empty), 17);
    assert_eq!(pad_word(&empty), 1);
    let v = vocab(&[("oov", 42), ("pad", 43)]);
    assert_eq!(oov_uni(&v), 42);
    assert_eq!(oov_bi(&v), 42);
    assert_eq!(oov_word(&v), 42);
    assert_eq!(pad_word(&v), 43);
}

#[test]
fn tokens_to_ids_with_default() {
    let v = vocab(&[("x", 3), ("yz", 4)]);
    let words = vec!["yz".to_string(), "q".to_string(), "x".to_string()];
    assert_eq!(conv_tokens_to_ids(&words, &v, 99), vec![4, 99, 3]);
}

#[test]
fn windows_are_padded() {
    assert_eq!(
        cwin(&[1, 2, 3], 3, 0),
        vec![vec![0, 1, 2], vec![1, 2, 3], vec![2, 3, 0]]
    );
    assert_eq!(
        cwin(&[1, 2], 5, 7),
        vec![vec![7, 7, 1, 2, 7], vec![7, 1, 2, 7, 7]]
    );
    assert_eq!(cwin(&[5], 1, 0), vec![vec![5]]);
    assert!(cwin(&[], 3, 0).is_empty());
}
