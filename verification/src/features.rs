//! Character and word features of a normalised text: unigram, bigram and
//! character-type ids in a window around each position, and the ids of the
//! dictionary words that start or end at each position.

use vstd::prelude::*;
use vstd::slice::{slice_subrange, slice_to_vec};
use crate::preprocess::{is_ascii_text, nfkc_of, normalize_nfkc};
use crate::text::{chars_of, string_from_chars};
use crate::weights::{get_or, lookup_or, Vocab};

verus! {

/// The characters of the key `oov`.
pub open spec fn oov_key() -> Seq<char> {
    seq!['o', 'o', 'v']
}

/// The characters of the key `pad`.
pub open spec fn pad_key() -> Seq<char> {
    seq!['p', 'a', 'd']
}

/// The out-of-vocabulary unigram id: `oov` in `uni2id`, else 0.
pub open spec fn oov_uni_spec(uni2id: Map<Seq<char>, u32>) -> u32 {
    lookup_or(uni2id, oov_key(), 0)
}

/// The out-of-vocabulary bigram id: `oov` in `bi2id`, else 0.
pub open spec fn oov_bi_spec(bi2id: Map<Seq<char>, u32>) -> u32 {
    lookup_or(bi2id, oov_key(), 0)
}

/// The out-of-vocabulary word id: `oov` in `word2id`, else 17.
pub open spec fn oov_word_spec(word2id: Map<Seq<char>, u32>) -> u32 {
    lookup_or(word2id, oov_key(), 17)
}

/// The padding id: `pad` in `word2id`, else 1.
pub open spec fn pad_word_spec(word2id: Map<Seq<char>, u32>) -> u32 {
    lookup_or(word2id, pad_key(), 1)
}

/// Single-character out-of-vocabulary id (`uni2id["oov"]`, 0 by default).
pub fn oov_uni(uni2id: &Vocab) -> (r: u32)
    ensures
        r == oov_uni_spec(uni2id@),
        uni2id@.contains_key(seq!['o', 'o', 'v']) ==> r == uni2id@[seq!['o', 'o', 'v']],
        !uni2id@.contains_key(seq!['o', 'o', 'v']) ==> r == 0,
{
    proof {
        reveal_strlit("oov");
        assert("oov"@ =~= oov_key());
    }
    get_or(uni2id, "oov", 0)
}

/// Bigram out-of-vocabulary id (`bi2id["oov"]`, 0 by default).
pub fn oov_bi(bi2id: &Vocab) -> (r: u32)
    ensures
        r == oov_bi_spec(bi2id@),
        bi2id@.contains_key(seq!['o', 'o', 'v']) ==> r == bi2id@[seq!['o', 'o', 'v']],
        !bi2id@.contains_key(seq!['o', 'o', 'v']) ==> r == 0,
{
    proof {
        reveal_strlit("oov");
        assert("oov"@ =~= oov_key());
    }
    get_or(bi2id, "oov", 0)
}

/// Word out-of-vocabulary id (`word2id["oov"]`, 17 by default).
pub fn oov_word(word2id: &Vocab) -> (r: u32)
    ensures
        r == oov_word_spec(word2id@),
        word2id@.contains_key(seq!['o', 'o', 'v']) ==> r == word2id@[seq!['o', 'o', 'v']],
        !word2id@.contains_key(seq!['o', 'o', 'v']) ==> r == 17,
{
    proof {
        reveal_strlit("oov");
        assert("oov"@ =~= oov_key());
    }
    get_or(word2id, "oov", 17)
}

/// Padding id (`word2id["pad"]`, 1 by default).
pub fn pad_word(word2id: &Vocab) -> (r: u32)
    ensures
        r == pad_word_spec(word2id@),
        word2id@.contains_key(seq!['p', 'a', 'd']) ==> r == word2id@[seq!['p', 'a', 'd']],
        !word2id@.contains_key(seq!['p', 'a', 'd']) ==> r == 1,
{
    proof {
        reveal_strlit("pad");
        assert("pad"@ =~= pad_key());
    }
    get_or(word2id, "pad", 1)
}

pub open spec fn is_ascii_alpha(c: char) -> bool {
    ('A' <= c && c <= 'Z') || ('a' <= c && c <= 'z')
}

pub open spec fn is_ascii_digit(c: char) -> bool {
    '0' <= c && c <= '9'
}

/// Class of a normalised character sequence: 3 if its first ASCII letter or
/// digit is a letter, 4 if it is a digit, 5 if it has neither.
pub open spec fn ascii_class(s: Seq<char>) -> u32
    decreases s.len(),
{
    if s.len() == 0 {
        5
    } else if is_ascii_alpha(s[0]) {
        3
    } else if is_ascii_digit(s[0]) {
        4
    } else {
        ascii_class(s.drop_first())
    }
}

/// Character type: 0 hiragana, 1 katakana, 2 kanji, 3 letter, 4 digit,
/// 5 anything else; letters and digits are judged after NFKC.
pub open spec fn chartype_spec(c: char) -> u32 {
    if '\u{3040}' <= c && c <= '\u{309F}' {
        0
    } else if '\u{30A1}' <= c && c <= '\u{30FA}' {
        1
    } else if '\u{4e00}' <= c && c <= '\u{9fa5}' {
        2
    } else {
        ascii_class(nfkc_of(seq![c]))
    }
}

/// The class of a normalised sequence is 3, 4 or 5.
proof fn lemma_ascii_class_range(s: Seq<char>)
    ensures
        3 <= ascii_class(s) <= 5,
    decreases s.len(),
{
    if s.len() > 0 {
        lemma_ascii_class_range(s.drop_first());
    }
}

/// Types 0, 1 and 2 go exactly to the hiragana block U+3040..=U+309F, the
/// katakana letters U+30A1..=U+30FA and the kanji U+4E00..=U+9FA5; any other
/// character gets 3, 4 or 5.
pub proof fn lemma_chartype_ranges(c: char)
    ensures
        chartype_spec(c) == 0 <==> ('\u{3040}' <= c && c <= '\u{309F}'),
        chartype_spec(c) == 1 <==> ('\u{30A1}' <= c && c <= '\u{30FA}'),
        chartype_spec(c) == 2 <==> ('\u{4e00}' <= c && c <= '\u{9fa5}'),
        chartype_spec(c) <= 5,
{
    lemma_ascii_class_range(nfkc_of(seq![c]));
}

/// The character type of `c` (see `chartype_spec`): hiragana 0, katakana
/// letters 1, kanji 2; ASCII letters 3 and ASCII digits 4.
pub fn chartype(c: char) -> (r: u32)
    ensures
        r == chartype_spec(c),
        r <= 5,
        r == 0 <==> ('\u{3040}' <= c && c <= '\u{309F}'),
        r == 1 <==> ('\u{30A1}' <= c && c <= '\u{30FA}'),
        r == 2 <==> ('\u{4e00}' <= c && c <= '\u{9fa5}'),
        ('A' <= c && c <= 'Z') || ('a' <= c && c <= 'z') ==> r == 3,
        '0' <= c && c <= '9' ==> r == 4,
        c <= '\u{7f}' && !('A' <= c && c <= 'Z') && !('a' <= c && c <= 'z') && !('0' <= c && c <= '9')
            ==> r == 5,
{
    proof {
        lemma_chartype_ranges(c);
    }
    if '\u{3040}' <= c && c <= '\u{309F}' {
        return 0;
    }
    if '\u{30A1}' <= c && c <= '\u{30FA}' {
        return 1;
    }
    if '\u{4e00}' <= c && c <= '\u{9fa5}' {
        return 2;
    }
    let mut single: Vec<char> = Vec::new();
    single.push(c);
    let s = string_from_chars(single.as_slice());
    assert(s@ =~= seq![c]);
    assert(c <= '\u{7f}' ==> is_ascii_text(s@));
    let normalized = normalize_nfkc(s.as_str());
    let ncs = chars_of(normalized.as_str());
    assert(c <= '\u{7f}' ==> ncs@ =~= seq![c]);
    let ghost full = ncs@;
    assert(full.skip(0) =~= full);
    assert(chartype_spec(c) == ascii_class(full));
    for k in 0..ncs.len()
        invariant
            ncs@ == full,
            c <= '\u{7f}' ==> full == seq![c],
            chartype_spec(c) == ascii_class(full),
            ascii_class(full) == ascii_class(full.skip(k as int)),
    {
        let nc = ncs[k];
        assert(full.skip(k as int)[0] == nc);
        if ('A' <= nc && nc <= 'Z') || ('a' <= nc && nc <= 'z') {
            return 3;
        }
        if '0' <= nc && nc <= '9' {
            return 4;
        }
        assert(full.skip(k as int).drop_first() =~= full.skip(k + 1));
    }
    assert(full.skip(full.len() as int) =~= Seq::<char>::empty());
    5
}

/// The bigram at position `i` of `c`: the character and its successor, or
/// the last character followed by `<E>`.
pub open spec fn bigram_at(c: Seq<char>, i: int) -> Seq<char> {
    if i == c.len() - 1 {
        seq![c[i], '<', 'E', '>']
    } else {
        seq![c[i], c[i + 1]]
    }
}

/// The bigrams of `text`, one per character.
pub fn get_bigrams(text: &str) -> (r: Vec<String>)
    ensures
        r@.len() == text@.len(),
        forall|i: int| 0 <= i < text@.len() ==> #[trigger] r@[i]@ == bigram_at(text@, i),
        forall|i: int|
            0 <= i < text@.len() - 1 ==> #[trigger] r@[i]@ == seq![text@[i], text@[i + 1]],
        text@.len() > 0 ==> r@[text@.len() - 1]@ == seq![text@[text@.len() - 1], '<', 'E', '>'],
{
    let chars = chars_of(text);
    let n = chars.len();
    let mut out: Vec<String> = Vec::new();
    for i in 0..n
        invariant
            n == chars@.len(),
            chars@ == text@,
            out@.len() == i,
            forall|k: int| 0 <= k < i ==> #[trigger] out@[k]@ == bigram_at(text@, k),
    {
        let mut s: Vec<char> = Vec::new();
        s.push(chars[i]);
        if i == n - 1 {
            s.push('<');
            s.push('E');
            s.push('>');
            assert(s@ =~= bigram_at(text@, i as int));
        } else {
            s.push(chars[i + 1]);
            assert(s@ =~= bigram_at(text@, i as int));
        }
        out.push(string_from_chars(s.as_slice()));
    }
    out
}

/// The ids of `words` in `idmap`, `oov` for the absent ones.
pub fn conv_tokens_to_ids(words: &[String], idmap: &Vocab, oov: u32) -> (r: Vec<u32>)
    ensures
        r@.len() == words@.len(),
        forall|i: int| 0 <= i < words@.len() ==> #[trigger] r@[i] == lookup_or(idmap@, words@[i]@, oov),
{
    let mut out: Vec<u32> = Vec::new();
    for i in 0..words.len()
        invariant
            out@.len() == i,
            forall|k: int| 0 <= k < i ==> #[trigger] out@[k] == lookup_or(idmap@, words@[k]@, oov),
    {
        out.push(get_or(idmap, words[i].as_str(), oov));
    }
    out
}

/// Element `k` of `l`, or `pad` outside it.
pub open spec fn padded_at(l: Seq<u32>, k: int, pad: u32) -> u32 {
    if 0 <= k < l.len() {
        l[k]
    } else {
        pad
    }
}

/// The window of width `win` centred on position `i` of `l`, padded with
/// `pad` beyond either end.
pub open spec fn window_at(l: Seq<u32>, i: int, win: int, pad: u32) -> Seq<u32> {
    Seq::new(win as nat, |k: int| padded_at(l, i - win / 2 + k, pad))
}

/// The window of odd width `win` around each element of `l`.
pub fn cwin(l: &[u32], win: usize, pad: u32) -> (r: Vec<Vec<u32>>)
    requires
        win % 2 == 1,
        l@.len() + win <= usize::MAX,
    ensures
        r@.len() == l@.len(),
        forall|i: int| 0 <= i < l@.len() ==> #[trigger] r@[i]@ == window_at(l@, i, win as int, pad),
{
    let h = win / 2;
    let n = l.len();
    let mut padded: Vec<u32> = Vec::new();
    for _k in 0..h
        invariant
            padded@ =~= Seq::new(padded@.len(), |j: int| pad),
            padded@.len() == _k,
    {
        padded.push(pad);
    }
    for k in 0..n
        invariant
            n == l@.len(),
            padded@.len() == h + k,
            forall|j: int| 0 <= j < h ==> #[trigger] padded@[j] == pad,
            forall|j: int| h <= j < h + k ==> #[trigger] padded@[j] == l@[j - h],
    {
        padded.push(l[k]);
    }
    for k in 0..h
        invariant
            n == l@.len(),
            padded@.len() == h + n + k,
            forall|j: int| 0 <= j < h ==> #[trigger] padded@[j] == pad,
            forall|j: int| h <= j < h + n ==> #[trigger] padded@[j] == l@[j - h],
            forall|j: int| h + n <= j < h + n + k ==> #[trigger] padded@[j] == pad,
    {
        padded.push(pad);
    }
    let mut out: Vec<Vec<u32>> = Vec::new();
    for i in 0..n
        invariant
            n == l@.len(),
            h == win / 2,
            win % 2 == 1,
            n + win <= usize::MAX,
            padded@.len() == h + n + h,
            forall|j: int| 0 <= j < padded@.len() ==> #[trigger] padded@[j] == padded_at(l@, j - h, pad),
            out@.len() == i,
            forall|k: int| 0 <= k < i ==> #[trigger] out@[k]@ == window_at(l@, k, win as int, pad),
    {
        let w = slice_to_vec(slice_subrange(padded.as_slice(), i, i + win));
        assert(w@ =~= window_at(l@, i as int, win as int, pad));
        out.push(w);
    }
    out
}

/// The ids of the dictionary words `c[i..i+1]`, `c[i..i+2]`, ...,
/// `c[i..i+k]`, in that order (the ones `m` lacks are skipped).
pub open spec fn start_hits(c: Seq<char>, m: Map<Seq<char>, u32>, i: int, k: int) -> Seq<u32>
    decreases k,
{
    if k <= 0 {
        seq![]
    } else {
        let prev = start_hits(c, m, i, k - 1);
        let w = c.subrange(i, i + k);
        if m.contains_key(w) {
            prev.push(m[w])
        } else {
            prev
        }
    }
}

/// The ids of the dictionary words `c[i..=i]`, `c[i-1..=i]`, ...,
/// `c[i+1-k..=i]`, in that order (the ones `m` lacks are skipped).
pub open spec fn end_hits(c: Seq<char>, m: Map<Seq<char>, u32>, i: int, k: int) -> Seq<u32>
    decreases k,
{
    if k <= 0 {
        seq![]
    } else {
        let prev = end_hits(c, m, i, k - 1);
        let w = c.subrange(i + 1 - k, i + 1);
        if m.contains_key(w) {
            prev.push(m[w])
        } else {
            prev
        }
    }
}

/// `hits`, or the single `oov` id where there is none.
pub open spec fn or_oov(hits: Seq<u32>, oov: u32) -> Seq<u32> {
    if hits.len() == 0 {
        seq![oov]
    } else {
        hits
    }
}

pub open spec fn min_int(a: int, b: int) -> int {
    if a <= b {
        a
    } else {
        b
    }
}

/// Longest dictionary word considered, in characters.
pub open spec fn max_word_len() -> int {
    8
}

/// The ids of the dictionary words of at most 8 characters that start at
/// position `i`, shortest first; the `oov` word id where there is none.
pub open spec fn starting_words(c: Seq<char>, m: Map<Seq<char>, u32>, i: int) -> Seq<u32> {
    or_oov(start_hits(c, m, i, min_int(max_word_len(), c.len() - i)), oov_word_spec(m))
}

/// The ids of the dictionary words of at most 8 characters that end at
/// position `i`, shortest first; the `oov` word id where there is none.
pub open spec fn ending_words(c: Seq<char>, m: Map<Seq<char>, u32>, i: int) -> Seq<u32> {
    or_oov(end_hits(c, m, i, min_int(max_word_len(), i + 1)), oov_word_spec(m))
}

/// Every position has at least one word id, the `oov` id where no word of
/// the dictionary starts or ends there.
pub proof fn lemma_word_lists_nonempty(c: Seq<char>, m: Map<Seq<char>, u32>, i: int)
    ensures
        starting_words(c, m, i).len() > 0,
        ending_words(c, m, i).len() > 0,
        start_hits(c, m, i, min_int(max_word_len(), c.len() - i)).len() == 0 ==> starting_words(c, m, i)
            == seq![oov_word_spec(m)],
        end_hits(c, m, i, min_int(max_word_len(), i + 1)).len() == 0 ==> ending_words(c, m, i)
            == seq![oov_word_spec(m)],
{
}

/// A dictionary word of `l` characters, 1 to 8, starts at position `i`.
pub open spec fn word_starts(c: Seq<char>, m: Map<Seq<char>, u32>, i: int, l: int) -> bool {
    1 <= l <= 8 && 0 <= i && i + l <= c.len() && m.contains_key(c.subrange(i, i + l))
}

/// A dictionary word of `l` characters, 1 to 8, ends at position `i`.
pub open spec fn word_ends(c: Seq<char>, m: Map<Seq<char>, u32>, i: int, l: int) -> bool {
    1 <= l <= 8 && i + 1 - l >= 0 && i < c.len() && m.contains_key(c.subrange(i + 1 - l, i + 1))
}

/// Each of `h` is the id of a dictionary word of at most `k` characters
/// starting at position `i`.
pub open spec fn ids_of_words_starting(c: Seq<char>, m: Map<Seq<char>, u32>, i: int, k: int, h: Seq<u32>) -> bool {
    forall|j: int| 0 <= j < h.len() ==> is_id_of_word_starting(c, m, i, k, #[trigger] h[j])
}

/// `x` is the id of a dictionary word of at most `k` characters
/// starting at position `i`.
pub open spec fn is_id_of_word_starting(c: Seq<char>, m: Map<Seq<char>, u32>, i: int, k: int, x: u32) -> bool {
    exists|l: int| 1 <= l && l <= k && #[trigger] word_starts(c, m, i, l) && m[c.subrange(i, i + l)] == x
}

proof fn lemma_ids_of_words_starting_weaken(c: Seq<char>, m: Map<Seq<char>, u32>, i: int, k1: int, k2: int, h: Seq<u32>)
    requires
        ids_of_words_starting(c, m, i, k1, h),
        k1 <= k2,
    ensures
        ids_of_words_starting(c, m, i, k2, h),
{
    assert forall|j: int| 0 <= j < h.len() implies is_id_of_word_starting(c, m, i, k2, #[trigger] h[j]) by {
        assert(is_id_of_word_starting(c, m, i, k1, h[j]));
        let l0 = choose|l: int| 1 <= l && l <= k1 && #[trigger] word_starts(c, m, i, l) && m[c.subrange(i, i + l)] == h[j];
        assert(word_starts(c, m, i, l0));
    }
}

proof fn lemma_start_hits_members(c: Seq<char>, m: Map<Seq<char>, u32>, i: int, k: int)
    requires
        0 <= i,
        0 <= k <= 8,
        i + k <= c.len(),
    ensures
        forall|l: int|
            1 <= l <= k && #[trigger] word_starts(c, m, i, l) ==> start_hits(c, m, i, k).contains(
                m[c.subrange(i, i + l)],
            ),
        ids_of_words_starting(c, m, i, k, start_hits(c, m, i, k)),
        start_hits(c, m, i, k).len() == 0 ==> forall|l: int| 1 <= l <= k ==> !#[trigger] word_starts(c, m, i, l),
    decreases k,
{
    if k > 0 {
        lemma_start_hits_members(c, m, i, k - 1);
        let prev = start_hits(c, m, i, k - 1);
        let w = c.subrange(i, i + k);
        if m.contains_key(w) {
            let cur = prev.push(m[w]);
            assert(word_starts(c, m, i, k));
            assert(cur[prev.len() as int] == m[w]);
            assert forall|l: int| 1 <= l <= k && #[trigger] word_starts(c, m, i, l) implies cur.contains(
                m[c.subrange(i, i + l)],
            ) by {
                if l < k {
                    let j = choose|j: int| 0 <= j < prev.len() && prev[j] == m[c.subrange(i, i + l)];
                    assert(cur[j] == prev[j]);
                }
            }
            lemma_ids_of_words_starting_weaken(c, m, i, k - 1, k, prev);
            assert forall|j: int| 0 <= j < cur.len() implies is_id_of_word_starting(c, m, i, k, #[trigger] cur[j]) by {
                if j < prev.len() {
                    assert(cur[j] == prev[j]);
                    assert(is_id_of_word_starting(c, m, i, k, prev[j]));
                } else {
                    assert(word_starts(c, m, i, k));
                }
            }
            assert(ids_of_words_starting(c, m, i, k, cur));
            assert(cur =~= start_hits(c, m, i, k));
        } else {
            assert(prev == start_hits(c, m, i, k));
            lemma_ids_of_words_starting_weaken(c, m, i, k - 1, k, prev);
            assert(ids_of_words_starting(c, m, i, k, prev));
        }
        assert(ids_of_words_starting(c, m, i, k, start_hits(c, m, i, k)));
    } else {
        assert(start_hits(c, m, i, k) =~= Seq::<u32>::empty());
    }
}

/// Each of `h` is the id of a dictionary word of at most `k` characters
/// ending at position `i`.
pub open spec fn ids_of_words_ending(c: Seq<char>, m: Map<Seq<char>, u32>, i: int, k: int, h: Seq<u32>) -> bool {
    forall|j: int| 0 <= j < h.len() ==> is_id_of_word_ending(c, m, i, k, #[trigger] h[j])
}

/// `x` is the id of a dictionary word of at most `k` characters
/// ending at position `i`.
pub open spec fn is_id_of_word_ending(c: Seq<char>, m: Map<Seq<char>, u32>, i: int, k: int, x: u32) -> bool {
    exists|l: int| 1 <= l && l <= k && #[trigger] word_ends(c, m, i, l) && m[c.subrange(i + 1 - l, i + 1)] == x
}

proof fn lemma_ids_of_words_ending_weaken(c: Seq<char>, m: Map<Seq<char>, u32>, i: int, k1: int, k2: int, h: Seq<u32>)
    requires
        ids_of_words_ending(c, m, i, k1, h),
        k1 <= k2,
    ensures
        ids_of_words_ending(c, m, i, k2, h),
{
    assert forall|j: int| 0 <= j < h.len() implies is_id_of_word_ending(c, m, i, k2, #[trigger] h[j]) by {
        assert(is_id_of_word_ending(c, m, i, k1, h[j]));
        let l0 = choose|l: int| 1 <= l && l <= k1 && #[trigger] word_ends(c, m, i, l) && m[c.subrange(i + 1 - l, i + 1)] == h[j];
        assert(word_ends(c, m, i, l0));
    }
}

proof fn lemma_end_hits_members(c: Seq<char>, m: Map<Seq<char>, u32>, i: int, k: int)
    requires
        0 <= i < c.len(),
        0 <= k <= 8,
        k <= i + 1,
    ensures
        forall|l: int|
            1 <= l <= k && #[trigger] word_ends(c, m, i, l) ==> end_hits(c, m, i, k).contains(
                m[c.subrange(i + 1 - l, i + 1)],
            ),
        ids_of_words_ending(c, m, i, k, end_hits(c, m, i, k)),
        end_hits(c, m, i, k).len() == 0 ==> forall|l: int| 1 <= l <= k ==> !#[trigger] word_ends(c, m, i, l),
    decreases k,
{
    if k > 0 {
        lemma_end_hits_members(c, m, i, k - 1);
        let prev = end_hits(c, m, i, k - 1);
        let w = c.subrange(i + 1 - k, i + 1);
        if m.contains_key(w) {
            let cur = prev.push(m[w]);
            assert(word_ends(c, m, i, k));
            assert(cur[prev.len() as int] == m[w]);
            assert forall|l: int| 1 <= l <= k && #[trigger] word_ends(c, m, i, l) implies cur.contains(
                m[c.subrange(i + 1 - l, i + 1)],
            ) by {
                if l < k {
                    let j = choose|j: int| 0 <= j < prev.len() && prev[j] == m[c.subrange(i + 1 - l, i + 1)];
                    assert(cur[j] == prev[j]);
                }
            }
            lemma_ids_of_words_ending_weaken(c, m, i, k - 1, k, prev);
            assert forall|j: int| 0 <= j < cur.len() implies is_id_of_word_ending(c, m, i, k, #[trigger] cur[j]) by {
                if j < prev.len() {
                    assert(cur[j] == prev[j]);
                    assert(is_id_of_word_ending(c, m, i, k, prev[j]));
                } else {
                    assert(word_ends(c, m, i, k));
                }
            }
            assert(ids_of_words_ending(c, m, i, k, cur));
            assert(cur =~= end_hits(c, m, i, k));
        } else {
            assert(prev == end_hits(c, m, i, k));
            lemma_ids_of_words_ending_weaken(c, m, i, k - 1, k, prev);
            assert(ids_of_words_ending(c, m, i, k, prev));
        }
        assert(ids_of_words_ending(c, m, i, k, end_hits(c, m, i, k)));
    } else {
        assert(end_hits(c, m, i, k) =~= Seq::<u32>::empty());
    }
}

/// The words found at a position are exactly the dictionary words of at
/// most 8 characters starting (ending) there, and the `oov` word id stands
/// alone where there is none.
pub proof fn lemma_word_lists_members(c: Seq<char>, m: Map<Seq<char>, u32>, i: int)
    requires
        0 <= i < c.len(),
    ensures
        forall|l: int| #[trigger] word_starts(c, m, i, l) ==> starting_words(c, m, i).contains(m[c.subrange(i, i + l)]),
        forall|x: u32|
            #[trigger] starting_words(c, m, i).contains(x) ==> (exists|l: int|
                #[trigger] word_starts(c, m, i, l) && m[c.subrange(i, i + l)] == x) || ((forall|l: int|
                !#[trigger] word_starts(c, m, i, l)) && x == oov_word_spec(m)),
        forall|l: int| #[trigger] word_ends(c, m, i, l) ==> ending_words(c, m, i).contains(m[c.subrange(i + 1 - l, i + 1)]),
        forall|x: u32|
            #[trigger] ending_words(c, m, i).contains(x) ==> (exists|l: int|
                #[trigger] word_ends(c, m, i, l) && m[c.subrange(i + 1 - l, i + 1)] == x) || ((forall|l: int|
                !#[trigger] word_ends(c, m, i, l)) && x == oov_word_spec(m)),
{
    let ks = min_int(max_word_len(), c.len() - i);
    let ke = min_int(max_word_len(), i + 1);
    lemma_start_hits_members(c, m, i, ks);
    lemma_end_hits_members(c, m, i, ke);
    let hs = start_hits(c, m, i, ks);
    let he = end_hits(c, m, i, ke);
    assert forall|l: int| #[trigger] word_starts(c, m, i, l) implies starting_words(c, m, i).contains(m[c.subrange(i, i + l)]) by {
        assert(1 <= l <= ks);
    }
    assert forall|x: u32| #[trigger] starting_words(c, m, i).contains(x) implies (exists|l: int|
        #[trigger] word_starts(c, m, i, l) && m[c.subrange(i, i + l)] == x) || ((forall|l: int|
        !#[trigger] word_starts(c, m, i, l)) && x == oov_word_spec(m)) by {
        let j = choose|j: int| 0 <= j < starting_words(c, m, i).len() && starting_words(c, m, i)[j] == x;
        if hs.len() == 0 {
            assert forall|l: int| !#[trigger] word_starts(c, m, i, l) by {
                if word_starts(c, m, i, l) {
                    assert(1 <= l <= ks);
                }
            }
        }
    }
    assert forall|l: int| #[trigger] word_ends(c, m, i, l) implies ending_words(c, m, i).contains(m[c.subrange(i + 1 - l, i + 1)]) by {
        assert(1 <= l <= ke);
    }
    assert forall|x: u32| #[trigger] ending_words(c, m, i).contains(x) implies (exists|l: int|
        #[trigger] word_ends(c, m, i, l) && m[c.subrange(i + 1 - l, i + 1)] == x) || ((forall|l: int|
        !#[trigger] word_ends(c, m, i, l)) && x == oov_word_spec(m)) by {
        let j = choose|j: int| 0 <= j < ending_words(c, m, i).len() && ending_words(c, m, i)[j] == x;
        if he.len() == 0 {
            assert forall|l: int| !#[trigger] word_ends(c, m, i, l) by {
                if word_ends(c, m, i, l) {
                    assert(1 <= l <= ke);
                }
            }
        }
    }
}

/// The unigram id of each character.
pub open spec fn uni_ids_spec(c: Seq<char>, uni2id: Map<Seq<char>, u32>) -> Seq<u32> {
    Seq::new(c.len(), |i: int| lookup_or(uni2id, seq![c[i]], oov_uni_spec(uni2id)))
}

/// The bigram id at each position.
pub open spec fn bi_ids_spec(c: Seq<char>, bi2id: Map<Seq<char>, u32>) -> Seq<u32> {
    Seq::new(c.len(), |i: int| lookup_or(bi2id, bigram_at(c, i), oov_bi_spec(bi2id)))
}

/// The character type of each character.
pub open spec fn ctype_ids_spec(c: Seq<char>) -> Seq<u32> {
    Seq::new(c.len(), |i: int| chartype_spec(c[i]))
}

/// Padding of the character-type windows.
pub open spec fn pad_ctype() -> u32 {
    6
}

/// Features of one text, one entry per character.
pub struct Features {
    /// Unigram ids of the previous, current and next character.
    pub uids: Vec<[u32; 3]>,
    /// Bigram ids at the previous, current and next position.
    pub bids: Vec<[u32; 3]>,
    /// Character types of the previous, current and next character.
    pub cids: Vec<[u32; 3]>,
    /// Ids of the dictionary words that start at each position.
    pub start: Vec<Vec<u32>>,
    /// Ids of the dictionary words that end at each position.
    pub end: Vec<Vec<u32>>,
}

/// The vocabularies the features are looked up in.
pub struct VocabConfig {
    pub uni2id: Vocab,
    pub bi2id: Vocab,
    pub word2id: Vocab,
    pub window_size: usize,
}

/// `f` holds the features of the text `c` under `cfg`.
pub open spec fn features_of(f: &Features, c: Seq<char>, cfg: &VocabConfig) -> bool {
    let n = c.len();
    let pad = pad_word_spec(cfg.word2id@);
    &&& f.uids@.len() == n
    &&& f.bids@.len() == n
    &&& f.cids@.len() == n
    &&& f.start@.len() == n
    &&& f.end@.len() == n
    &&& forall|i: int|
        0 <= i < n ==> #[trigger] f.uids@[i]@ == window_at(uni_ids_spec(c, cfg.uni2id@), i, 3, pad)
    &&& forall|i: int|
        0 <= i < n ==> #[trigger] f.bids@[i]@ == window_at(bi_ids_spec(c, cfg.bi2id@), i, 3, pad)
    &&& forall|i: int|
        0 <= i < n ==> #[trigger] f.cids@[i]@ == window_at(ctype_ids_spec(c), i, 3, pad_ctype())
    &&& forall|i: int|
        0 <= i < n ==> #[trigger] f.start@[i]@ == starting_words(c, cfg.word2id@, i)
    &&& forall|i: int| 0 <= i < n ==> #[trigger] f.end@[i]@ == ending_words(c, cfg.word2id@, i)
}

/// Three-wide windows over `l`: the middle is the element itself, the sides
/// are the neighbours' middles, and `pad` stands beyond either end.
pub open spec fn windows_of(ws: Seq<[u32; 3]>, l: Seq<u32>, pad: u32) -> bool {
    &&& ws.len() == l.len()
    &&& forall|i: int| 0 <= i < ws.len() ==> (#[trigger] ws[i])@[1] == l[i]
    &&& forall|i: int| 0 < i < ws.len() ==> (#[trigger] ws[i]@[0]) == ws[i - 1]@[1]
    &&& forall|i: int| 0 <= i < ws.len() - 1 ==> (#[trigger] ws[i]@[2]) == ws[i + 1]@[1]
    &&& ws.len() > 0 ==> ws[0]@[0] == pad && ws[ws.len() - 1]@[2] == pad
}

proof fn lemma_windows_of(ws: Seq<[u32; 3]>, l: Seq<u32>, pad: u32)
    requires
        ws.len() == l.len(),
        forall|i: int| 0 <= i < l.len() ==> #[trigger] ws[i]@ == window_at(l, i, 3, pad),
    ensures
        windows_of(ws, l, pad),
{
    assert forall|i: int| 0 <= i < ws.len() implies (#[trigger] ws[i])@[1] == l[i] by {
        assert(ws[i]@ == window_at(l, i, 3, pad));
    }
    assert forall|i: int| 0 < i < ws.len() implies (#[trigger] ws[i]@[0]) == ws[i - 1]@[1] by {
        assert(ws[i]@ == window_at(l, i, 3, pad));
        assert(ws[i - 1]@ == window_at(l, i - 1, 3, pad));
    }
    assert forall|i: int| 0 <= i < ws.len() - 1 implies (#[trigger] ws[i]@[2]) == ws[i + 1]@[1] by {
        assert(ws[i]@ == window_at(l, i, 3, pad));
        assert(ws[i + 1]@ == window_at(l, i + 1, 3, pad));
    }
    if ws.len() > 0 {
        assert(ws[0]@ == window_at(l, 0, 3, pad));
        assert(ws[ws.len() - 1]@ == window_at(l, ws.len() - 1, 3, pad));
    }
}

/// The ids of the dictionary words starting at position `i` (see
/// `starting_words`).
fn words_starting_at(chars: &Vec<char>, word2id: &Vocab, i: usize, oov_w: u32) -> (r: Vec<u32>)
    requires
        i < chars@.len(),
        oov_w == oov_word_spec(word2id@),
    ensures
        r@ == starting_words(chars@, word2id@, i as int),
{
    let n = chars.len();
    let upper = if n - i > 8 { i + 8 } else { n };
    let mut hits: Vec<u32> = Vec::new();
    let mut j = i;
    while j < upper
        invariant
            n == chars@.len(),
            i <= j <= upper <= n,
            upper - i == min_int(max_word_len(), n - i),
            hits@ == start_hits(chars@, word2id@, i as int, j - i),
        decreases upper - j,
    {
        let sub = string_from_chars(slice_subrange(chars.as_slice(), i, j + 1));
        assert(chars@.subrange(i as int, i + (j + 1 - i)) =~= sub@);
        match word2id.get(sub.as_str()) {
            Some(id) => {
                hits.push(*id);
            },
            None => {},
        }
        j = j + 1;
    }
    if hits.len() == 0 {
        hits.push(oov_w);
    }
    hits
}

/// The ids of the dictionary words ending at position `i` (see
/// `ending_words`).
fn words_ending_at(chars: &Vec<char>, word2id: &Vocab, i: usize, oov_w: u32) -> (r: Vec<u32>)
    requires
        i < chars@.len(),
        oov_w == oov_word_spec(word2id@),
    ensures
        r@ == ending_words(chars@, word2id@, i as int),
{
    let n = chars.len();
    let lower = if i >= 8 { i - 7 } else { 0 };
    let mut hits: Vec<u32> = Vec::new();
    let mut j = i + 1;
    while j > lower
        invariant
            n == chars@.len(),
            i < n,
            lower <= j <= i + 1,
            i + 1 - lower == min_int(max_word_len(), i + 1),
            hits@ == end_hits(chars@, word2id@, i as int, i + 1 - j),
        decreases j,
    {
        let jj = j - 1;
        let sub = string_from_chars(slice_subrange(chars.as_slice(), jj, i + 1));
        assert(chars@.subrange(i + 1 - (i + 1 - jj), i + 1) =~= sub@);
        match word2id.get(sub.as_str()) {
            Some(id) => {
                hits.push(*id);
            },
            None => {},
        }
        j = jj;
    }
    if hits.len() == 0 {
        hits.push(oov_w);
    }
    hits
}

/// The three-wide windows of `l` as arrays.
fn windows3(l: &[u32], pad: u32) -> (r: Vec<[u32; 3]>)
    requires
        l@.len() + 3 <= usize::MAX,
    ensures
        r@.len() == l@.len(),
        forall|i: int| 0 <= i < l@.len() ==> #[trigger] r@[i]@ == window_at(l@, i, 3, pad),
{
    let ws = cwin(l, 3, pad);
    let mut out: Vec<[u32; 3]> = Vec::new();
    for i in 0..ws.len()
        invariant
            ws@.len() == l@.len(),
            forall|k: int| 0 <= k < l@.len() ==> #[trigger] ws@[k]@ == window_at(l@, k, 3, pad),
            out@.len() == i,
            forall|k: int| 0 <= k < i ==> #[trigger] out@[k]@ == window_at(l@, k, 3, pad),
    {
        let w = &ws[i];
        assert(w@.len() == 3);
        let a: [u32; 3] = [w[0], w[1], w[2]];
        assert(a@ =~= window_at(l@, i as int, 3, pad));
        out.push(a);
    }
    out
}

/// The features of a normalised, lower-cased text.
pub fn feature_extraction(text: &str, cfg: &VocabConfig) -> (f: Features)
    requires
        cfg.window_size == 3,
        text@.len() + 3 <= usize::MAX,
    ensures
        features_of(&f, text@, cfg),
        forall|i: int|
            0 <= i < text@.len() ==> {
                &&& (#[trigger] f.cids@[i])@[1] == 0 <==> ('\u{3040}' <= text@[i] && text@[i] <= '\u{309F}')
                &&& f.cids@[i]@[1] == 1 <==> ('\u{30A1}' <= text@[i] && text@[i] <= '\u{30FA}')
                &&& f.cids@[i]@[1] == 2 <==> ('\u{4e00}' <= text@[i] && text@[i] <= '\u{9fa5}')
                &&& ('A' <= text@[i] && text@[i] <= 'Z') || ('a' <= text@[i] && text@[i] <= 'z')
                    ==> f.cids@[i]@[1] == 3
                &&& '0' <= text@[i] && text@[i] <= '9' ==> f.cids@[i]@[1] == 4
                &&& text@[i] <= '\u{7f}' && !('A' <= text@[i] && text@[i] <= 'Z') && !('a' <= text@[i]
                    && text@[i] <= 'z') && !('0' <= text@[i] && text@[i] <= '9') ==> f.cids@[i]@[1] == 5
            },
        windows_of(f.uids@, uni_ids_spec(text@, cfg.uni2id@), pad_word_spec(cfg.word2id@)),
        windows_of(f.bids@, bi_ids_spec(text@, cfg.bi2id@), pad_word_spec(cfg.word2id@)),
        windows_of(f.cids@, ctype_ids_spec(text@), 6),
        forall|i: int| 0 <= i < text@.len() ==> (#[trigger] f.start@[i])@.len() > 0 && f.end@[i]@.len() > 0,
        forall|i: int, l: int|
            0 <= i < text@.len() && #[trigger] word_starts(text@, cfg.word2id@, i, l) ==> f.start@[i]@.contains(
                cfg.word2id@[text@.subrange(i, i + l)],
            ),
        forall|i: int, l: int|
            0 <= i < text@.len() && #[trigger] word_ends(text@, cfg.word2id@, i, l) ==> f.end@[i]@.contains(
                cfg.word2id@[text@.subrange(i + 1 - l, i + 1)],
            ),
        forall|i: int, x: u32|
            0 <= i < text@.len() && #[trigger] f.start@[i]@.contains(x) ==> (exists|l: int|
                #[trigger] word_starts(text@, cfg.word2id@, i, l) && cfg.word2id@[text@.subrange(i, i + l)]
                    == x) || ((forall|l: int| !#[trigger] word_starts(text@, cfg.word2id@, i, l)) && x
                == oov_word_spec(cfg.word2id@)),
        forall|i: int, x: u32|
            0 <= i < text@.len() && #[trigger] f.end@[i]@.contains(x) ==> (exists|l: int|
                #[trigger] word_ends(text@, cfg.word2id@, i, l) && cfg.word2id@[text@.subrange(
                    i + 1 - l,
                    i + 1,
                )] == x) || ((forall|l: int| !#[trigger] word_ends(text@, cfg.word2id@, i, l)) && x
                == oov_word_spec(cfg.word2id@)),
{
    let chars = chars_of(text);
    let n = chars.len();

    let mut unigrams: Vec<String> = Vec::new();
    for i in 0..n
        invariant
            n == chars@.len(),
            unigrams@.len() == i,
            forall|k: int| 0 <= k < i ==> #[trigger] unigrams@[k]@ == seq![chars@[k]],
    {
        let mut one: Vec<char> = Vec::new();
        one.push(chars[i]);
        let s = string_from_chars(one.as_slice());
        assert(s@ =~= seq![chars@[i as int]]);
        unigrams.push(s);
    }
    let uni_ids = conv_tokens_to_ids(unigrams.as_slice(), &cfg.uni2id, oov_uni(&cfg.uni2id));
    assert(uni_ids@ =~= uni_ids_spec(text@, cfg.uni2id@));
    let bigrams = get_bigrams(text);
    let bi_ids = conv_tokens_to_ids(bigrams.as_slice(), &cfg.bi2id, oov_bi(&cfg.bi2id));
    assert(bi_ids@ =~= bi_ids_spec(text@, cfg.bi2id@));
    let mut cid_ids: Vec<u32> = Vec::new();
    for i in 0..n
        invariant
            n == chars@.len(),
            chars@ == text@,
            cid_ids@.len() == i,
            forall|k: int| 0 <= k < i ==> #[trigger] cid_ids@[k] == chartype_spec(text@[k]),
            forall|k: int|
                0 <= k < i ==> {
                    &&& ('A' <= text@[k] && text@[k] <= 'Z') || ('a' <= text@[k] && text@[k] <= 'z')
                        ==> #[trigger] cid_ids@[k] == 3
                    &&& '0' <= text@[k] && text@[k] <= '9' ==> cid_ids@[k] == 4
                    &&& text@[k] <= '\u{7f}' && !('A' <= text@[k] && text@[k] <= 'Z') && !('a' <= text@[k]
                        && text@[k] <= 'z') && !('0' <= text@[k] && text@[k] <= '9') ==> cid_ids@[k] == 5
                },
    {
        cid_ids.push(chartype(chars[i]));
    }
    assert(cid_ids@ =~= ctype_ids_spec(text@));

    let oov_w = oov_word(&cfg.word2id);
    let mut start: Vec<Vec<u32>> = Vec::new();
    for i in 0..n
        invariant
            n == chars@.len(),
            oov_w == oov_word_spec(cfg.word2id@),
            start@.len() == i,
            forall|k: int|
                0 <= k < i ==> #[trigger] start@[k]@ == starting_words(chars@, cfg.word2id@, k),
    {
        start.push(words_starting_at(&chars, &cfg.word2id, i, oov_w));
    }
    let mut end: Vec<Vec<u32>> = Vec::new();
    for i in 0..n
        invariant
            n == chars@.len(),
            oov_w == oov_word_spec(cfg.word2id@),
            end@.len() == i,
            forall|k: int|
                0 <= k < i ==> #[trigger] end@[k]@ == ending_words(chars@, cfg.word2id@, k),
    {
        end.push(words_ending_at(&chars, &cfg.word2id, i, oov_w));
    }

    let pad_w = pad_word(&cfg.word2id);
    let pad_ct: u32 = 6;
    let cids = windows3(cid_ids.as_slice(), pad_ct);
    assert forall|i: int| 0 <= i < text@.len() implies (#[trigger] cids@[i])@[1] == cid_ids@[i] by {
        assert(cids@[i]@ == window_at(cid_ids@, i, 3, pad_ct));
    }
    assert forall|i: int| 0 <= i < text@.len() implies {
        &&& chartype_spec(text@[i]) == 0 <==> ('\u{3040}' <= text@[i] && text@[i] <= '\u{309F}')
        &&& chartype_spec(text@[i]) == 1 <==> ('\u{30A1}' <= text@[i] && text@[i] <= '\u{30FA}')
        &&& chartype_spec(text@[i]) == 2 <==> ('\u{4e00}' <= text@[i] && text@[i] <= '\u{9fa5}')
    } by {
        lemma_chartype_ranges(text@[i]);
    }
    let uids = windows3(uni_ids.as_slice(), pad_w);
    let bids = windows3(bi_ids.as_slice(), pad_w);
    proof {
        lemma_windows_of(uids@, uni_ids@, pad_w);
        lemma_windows_of(bids@, bi_ids@, pad_w);
        lemma_windows_of(cids@, cid_ids@, pad_ct);
        assert forall|i: int| 0 <= i < text@.len() implies {
            &&& (forall|l: int| #[trigger] word_starts(text@, cfg.word2id@, i, l) ==> start@[i]@.contains(
                cfg.word2id@[text@.subrange(i, i + l)]))
            &&& (forall|l: int| #[trigger] word_ends(text@, cfg.word2id@, i, l) ==> end@[i]@.contains(
                cfg.word2id@[text@.subrange(i + 1 - l, i + 1)]))
            &&& (forall|x: u32| #[trigger] start@[i]@.contains(x) ==> (exists|l: int|
                #[trigger] word_starts(text@, cfg.word2id@, i, l) && cfg.word2id@[text@.subrange(i, i + l)]
                    == x) || ((forall|l: int| !#[trigger] word_starts(text@, cfg.word2id@, i, l)) && x
                == oov_word_spec(cfg.word2id@)))
            &&& (forall|x: u32| #[trigger] end@[i]@.contains(x) ==> (exists|l: int|
                #[trigger] word_ends(text@, cfg.word2id@, i, l) && cfg.word2id@[text@.subrange(
                    i + 1 - l,
                    i + 1,
                )] == x) || ((forall|l: int| !#[trigger] word_ends(text@, cfg.word2id@, i, l)) && x
                == oov_word_spec(cfg.word2id@)))
            &&& start@[i]@.len() > 0 && end@[i]@.len() > 0
        } by {
            lemma_word_lists_members(text@, cfg.word2id@, i);
            lemma_word_lists_nonempty(text@, cfg.word2id@, i);
        }
    }
    Features { uids, bids, cids, start, end }
}

} // verus!
