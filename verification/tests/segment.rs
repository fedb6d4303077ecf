use nagisa_rs::segment;

fn chars(s: &str) -> Vec<char> {
    s.chars().collect()
}

#[test]
fn bmes_words() {
    let c = chars("私は東京");
    // S S B E
    assert_eq!(segment(&c, &[3, 3, 0, 2]), vec!["私", "は", "東京"]);
    // B I E S
    assert_eq!(segment(&c, &[0, 1, 2, 3]), vec!["私は東", "京"]);
}

#[test]
fn unfinished_word_is_flushed() {
    let c = chars("abcd");
    assert_eq!(segment(&c, &[0, 1, 1, 1]), vec!["abcd"]);
    // A single after an unfinished word closes it first.
    assert_eq!(segment(&c, &[0, 1, 3, 0]), vec!["ab", "c", "d"]);
}

#[test]
fn other_tags_continue_the_word() {
    let c = chars("abc");
    assert_eq!(segment(&c, &[4, 5, 2]), vec!["abc"]);
}

#[test]
fn shorter_input_bounds_the_output() {
    let c = chars("abcd");
    assert_eq!(segment(&c, &[3, 3]), vec!["a", "b"]);
    assert_eq!(segment(&c[..1], &[0, 2, 3]), vec!["a"]);
    assert!(segment(&[], &[3]).is_empty());
}

#[test]
fn words_concatenate_to_the_text() {
    let c = chars("本日は晴天なり。");
    let tags = [0, 2, 3, 0, 2, 0, 1, 3];
    let words = segment(&c, &tags);
    assert_eq!(words.concat(), "本日は晴天なり。");
    assert!(words.iter().all(|w| !w.is_empty()));
}

use nagisa_rs::segment::viterbi_path;

#[test]
fn viterbi_path_follows_back_pointers() {
    // backptrs[t][j]: best tag at step t - 1 given tag j at step t.
    let backptrs: Vec<Vec<u8>> = vec![vec![4, 4, 4], vec![2, 0, 1], vec![1, 2, 0]];
    // Last tag 0 <- backptrs[2][0] = 1 <- backptrs[1][1] = 0.
    assert_eq!(viterbi_path(&backptrs, 0, 5), vec![0, 1, 0]);
    assert_eq!(viterbi_path(&backptrs, 2, 5), vec![2, 0, 2]);
    assert!(viterbi_path(&vec![], 3, 5).is_empty());
    assert_eq!(viterbi_path(&vec![vec![4, 4]], 1, 5), vec![1]);
}
