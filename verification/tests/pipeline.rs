use nagisa_rs::features::VocabConfig;
use nagisa_rs::weights::Vocab;
use nagisa_rs::{segment, wakati_input};

fn cfg() -> VocabConfig {
    let mut word = Vocab::new();
    word.insert("ab".to_string(), 4);
    VocabConfig {
        uni2id: Vocab::new(),
        bi2id: Vocab::new(),
        word2id: word,
        window_size: 3,
    }
}

#[test]
fn empty_text_has_no_input() {
    assert!(wakati_input("", &cfg()).is_none());
    assert!(wakati_input(" \t\n", &cfg()).is_none());
}

#[test]
fn features_come_from_the_lower_cased_text() {
    let input = wakati_input("ＡB c ", &cfg()).unwrap();
    assert_eq!(input.chars, vec!['A', 'B', '\u{3000}', 'c']);
    // "ab" is found in the lower-cased text.
    assert_eq!(input.features.start[0], vec![4]);
    assert_eq!(input.features.start.len(), 4);
    let words = segment(&input.chars, &[0, 2, 3, 3]);
    assert_eq!(words, vec!["AB", "\u{3000}", "c"]);
}

use nagisa_rs::TaggingResult;

#[test]
fn tagging_results_compare_by_value() {
    let a = TaggingResult {
        words: vec!["猫".to_string()],
        postags: vec!["名詞".to_string()],
    };
    assert_eq!(a.clone(), a);
    assert_ne!(
        a,
        TaggingResult {
            words: vec!["猫".to_string()],
            postags: vec!["動詞".to_string()],
        }
    );
}
