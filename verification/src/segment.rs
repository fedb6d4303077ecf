//! Decoding of a BMES tag sequence into words, and of the Viterbi back
//! pointers into that tag sequence.
//!
//! Tags: 0 = B (begin), 1 = I (inside), 2 = E (end), 3 = S (single); any
//! other tag continues the current word like B and I.

use vstd::prelude::*;
use crate::text::string_from_chars;

verus! {

/// Words finished so far and the word being built.
pub type SegState = (Seq<Seq<char>>, Seq<char>);

/// One decoding step: character `ch` tagged `t`.
pub open spec fn seg_step(state: SegState, ch: char, t: usize) -> SegState {
    let words = state.0;
    let partial = state.1;
    if t == 3 {
        let flushed = if partial.len() > 0 {
            words.push(partial)
        } else {
            words
        };
        (flushed.push(seq![ch]), seq![])
    } else if t == 2 {
        (words.push(partial.push(ch)), seq![])
    } else {
        (words, partial.push(ch))
    }
}

/// The state after the first `k` characters.
pub open spec fn seg_state(chars: Seq<char>, tags: Seq<usize>, k: int) -> SegState
    decreases k,
{
    if k <= 0 {
        (seq![], seq![])
    } else {
        seg_step(seg_state(chars, tags, k - 1), chars[k - 1], tags[k - 1])
    }
}

/// How many (character, tag) pairs are decoded.
pub open spec fn paired_len(chars: Seq<char>, tags: Seq<usize>) -> int {
    if chars.len() <= tags.len() {
        chars.len() as int
    } else {
        tags.len() as int
    }
}

/// The words that `segment` returns for `chars` tagged `tags`.
pub open spec fn segment_spec(chars: Seq<char>, tags: Seq<usize>) -> Seq<Seq<char>> {
    let st = seg_state(chars, tags, paired_len(chars, tags));
    if st.1.len() > 0 {
        st.0.push(st.1)
    } else {
        st.0
    }
}

/// Every word of `words` has at least one character.
pub open spec fn all_nonempty(words: Seq<Seq<char>>) -> bool {
    forall|i: int| 0 <= i < words.len() ==> (#[trigger] words[i]).len() > 0
}

proof fn lemma_seg_state_covers(chars: Seq<char>, tags: Seq<usize>, k: int)
    requires
        0 <= k <= chars.len(),
        k <= tags.len(),
    ensures
        seg_state(chars, tags, k).0.flatten_alt() + seg_state(chars, tags, k).1 =~= chars.take(k),
        all_nonempty(seg_state(chars, tags, k).0),
    decreases k,
{
    if k > 0 {
        lemma_seg_state_covers(chars, tags, k - 1);
        let prev = seg_state(chars, tags, k - 1);
        let words = prev.0;
        let partial = prev.1;
        let ch = chars[k - 1];
        assert(chars.take(k) =~= chars.take(k - 1).push(ch));
        if tags[k - 1] == 3 {
            let flushed = if partial.len() > 0 {
                words.push(partial)
            } else {
                words
            };
            assert(words.push(partial).drop_last() =~= words);
            assert(flushed.flatten_alt() =~= words.flatten_alt() + partial);
            assert(flushed.push(seq![ch]).drop_last() =~= flushed);
        } else if tags[k - 1] == 2 {
            assert(words.push(partial.push(ch)).drop_last() =~= words);
        }
    }
}

/// Decoding loses and adds no character: the words, concatenated, are the
/// decoded characters, and none of them is empty.
pub proof fn lemma_segment_preserves_text(chars: Seq<char>, tags: Seq<usize>)
    ensures
        segment_spec(chars, tags).flatten() == chars.take(paired_len(chars, tags)),
        all_nonempty(segment_spec(chars, tags)),
{
    let m = paired_len(chars, tags);
    lemma_seg_state_covers(chars, tags, m);
    let st = seg_state(chars, tags, m);
    let r = segment_spec(chars, tags);
    if st.1.len() > 0 {
        assert(st.0.push(st.1).drop_last() =~= st.0);
    } else {
        assert(st.1 =~= Seq::<char>::empty());
        assert(st.0.flatten_alt() + st.1 =~= st.0.flatten_alt());
    }
    r.lemma_flatten_and_flatten_alt_are_equivalent();
}

/// How many characters the words hold together.
pub open spec fn chars_in(words: Seq<Seq<char>>) -> int
    decreases words.len(),
{
    if words.len() == 0 {
        0
    } else {
        chars_in(words.drop_last()) + words.last().len()
    }
}

/// Some prefix of `words` holds exactly `j` characters: a word ends after
/// the `j`-th character.
pub open spec fn ends_word_at(words: Seq<Seq<char>>, j: int) -> bool {
    exists|p: int| 0 <= p <= words.len() && #[trigger] chars_in(words.take(p)) == j
}

/// The tags put a word boundary between characters `j - 1` and `j`: the
/// character before is tagged E (2) or S (3), or the one after is tagged S.
pub open spec fn tags_cut_at(tags: Seq<usize>, j: int) -> bool {
    tags[j - 1] == 2 || tags[j - 1] == 3 || tags[j] == 3
}

proof fn lemma_chars_in_take_le(words: Seq<Seq<char>>, p: int)
    requires
        0 <= p <= words.len(),
    ensures
        chars_in(words.take(p)) <= chars_in(words),
    decreases words.len(),
{
    if p == words.len() {
        assert(words.take(p) =~= words);
    } else {
        assert(words.take(p) =~= words.drop_last().take(p));
        lemma_chars_in_take_le(words.drop_last(), p);
    }
}

proof fn lemma_ends_push(words: Seq<Seq<char>>, x: Seq<char>, j: int)
    ensures
        chars_in(words.push(x)) == chars_in(words) + x.len(),
        ends_word_at(words.push(x), j) <==> (ends_word_at(words, j) || j == chars_in(words) + x.len()),
{
    let v = words.push(x);
    assert(v.drop_last() =~= words);
    assert(v.take(v.len() as int) =~= v);
    if ends_word_at(v, j) {
        let p = choose|p: int| 0 <= p <= v.len() && #[trigger] chars_in(v.take(p)) == j;
        if p <= words.len() {
            assert(v.take(p) =~= words.take(p));
            assert(ends_word_at(words, j));
        }
    }
    if ends_word_at(words, j) {
        let p = choose|p: int| 0 <= p <= words.len() && #[trigger] chars_in(words.take(p)) == j;
        assert(v.take(p) =~= words.take(p));
        assert(chars_in(v.take(p)) == j);
    }
    if j == chars_in(words) + x.len() {
        assert(chars_in(v.take(v.len() as int)) == j);
    }
}

proof fn lemma_no_end_past(words: Seq<Seq<char>>, j: int)
    requires
        j > chars_in(words),
    ensures
        !ends_word_at(words, j),
{
    if ends_word_at(words, j) {
        let p = choose|p: int| 0 <= p <= words.len() && #[trigger] chars_in(words.take(p)) == j;
        lemma_chars_in_take_le(words, p);
    }
}

proof fn lemma_seg_state_cuts(chars: Seq<char>, tags: Seq<usize>, k: int)
    requires
        0 <= k <= chars.len(),
        k <= tags.len(),
    ensures
        chars_in(seg_state(chars, tags, k).0) + seg_state(chars, tags, k).1.len() == k,
        seg_state(chars, tags, k).1.len() == 0 <==> (k == 0 || tags[k - 1] == 2 || tags[k - 1] == 3),
        ends_word_at(seg_state(chars, tags, k).0, chars_in(seg_state(chars, tags, k).0)),
        forall|j: int| 0 < j < k ==> (ends_word_at(seg_state(chars, tags, k).0, j) <==> tags_cut_at(tags, j)),
    decreases k,
{
    let st = seg_state(chars, tags, k);
    if k == 0 {
        assert(st.0.take(0) =~= st.0);
    } else {
        lemma_seg_state_cuts(chars, tags, k - 1);
        let prev = seg_state(chars, tags, k - 1);
        let words = prev.0;
        let partial = prev.1;
        let ch = chars[k - 1];
        let l = chars_in(words);
        let t = tags[k - 1];
        if t == 3 {
            let flushed = if partial.len() > 0 {
                words.push(partial)
            } else {
                words
            };
            assert forall|j: int| true implies (ends_word_at(flushed, j) <==> (ends_word_at(words, j) || (j
                == k - 1 && partial.len() > 0))) && chars_in(flushed) == k - 1 by {
                if partial.len() > 0 {
                    lemma_ends_push(words, partial, j);
                }
            }
            assert forall|j: int| true implies (ends_word_at(st.0, j) <==> (ends_word_at(flushed, j) || j
                == k)) && chars_in(st.0) == k by {
                lemma_ends_push(flushed, seq![ch], j);
            }
            assert(st.0 == flushed.push(seq![ch]));
            assert forall|j: int| 0 < j < k implies (ends_word_at(st.0, j) <==> tags_cut_at(tags, j)) by {
                lemma_ends_push(flushed, seq![ch], j);
                if partial.len() > 0 {
                    lemma_ends_push(words, partial, j);
                }
                if j == k - 1 {
                    assert(ends_word_at(flushed, j));
                    assert(tags_cut_at(tags, j));
                } else {
                    assert(ends_word_at(st.0, j) == ends_word_at(words, j));
                }
            }
            lemma_ends_push(flushed, seq![ch], k);
        } else if t == 2 {
            assert forall|j: int| true implies (ends_word_at(st.0, j) <==> (ends_word_at(words, j) || j
                == k)) && chars_in(st.0) == k by {
                lemma_ends_push(words, partial.push(ch), j);
            }
            assert forall|j: int| 0 < j < k implies (ends_word_at(st.0, j) <==> tags_cut_at(tags, j)) by {
                if j == k - 1 {
                    if partial.len() > 0 {
                        lemma_no_end_past(words, j);
                    }
                }
            }
            lemma_ends_push(words, partial.push(ch), k);
        } else {
            assert forall|j: int| 0 < j < k implies (ends_word_at(st.0, j) <==> tags_cut_at(tags, j)) by {
                if j == k - 1 {
                    if partial.len() > 0 {
                        lemma_no_end_past(words, j);
                    }
                }
            }
        }
    }
}

/// Words end exactly where the tags put a boundary: after the first `j`
/// decoded characters (`0 < j < m`) a word ends if and only if character
/// `j - 1` is tagged E or S or character `j` is tagged S; and a word ends
/// after the last decoded character.
pub proof fn lemma_segment_cuts(chars: Seq<char>, tags: Seq<usize>)
    ensures
        ends_word_at(segment_spec(chars, tags), paired_len(chars, tags)),
        forall|j: int|
            0 < j < paired_len(chars, tags) ==> (ends_word_at(segment_spec(chars, tags), j)
                <==> tags_cut_at(tags, j)),
{
    let m = paired_len(chars, tags);
    lemma_seg_state_cuts(chars, tags, m);
    let st = seg_state(chars, tags, m);
    if st.1.len() > 0 {
        assert forall|j: int| 0 < j < m implies (ends_word_at(segment_spec(chars, tags), j)
            <==> tags_cut_at(tags, j)) by {
            lemma_ends_push(st.0, st.1, j);
        }
        lemma_ends_push(st.0, st.1, m);
    }
}

/// The character views of `v`.
pub open spec fn string_views(v: Seq<String>) -> Seq<Seq<char>> {
    v.map_values(|s: String| s@)
}

/// The words of `chars` as the BMES tags `tags` delimit them; characters
/// beyond the shorter of the two inputs are ignored.
pub fn segment(chars: &[char], tags: &[usize]) -> (r: Vec<String>)
    ensures
        string_views(r@) == segment_spec(chars@, tags@),
        string_views(r@).flatten() == chars@.take(paired_len(chars@, tags@)),
        all_nonempty(string_views(r@)),
        ends_word_at(string_views(r@), paired_len(chars@, tags@)),
        forall|j: int|
            0 < j < paired_len(chars@, tags@) ==> (ends_word_at(string_views(r@), j) <==> (tags@[j - 1] == 2
                || tags@[j - 1] == 3 || tags@[j] == 3)),
{
    let m = if chars.len() <= tags.len() {
        chars.len()
    } else {
        tags.len()
    };
    let mut words: Vec<String> = Vec::new();
    let mut partial: Vec<char> = Vec::new();
    for k in 0..m
        invariant
            m == paired_len(chars@, tags@),
            m <= chars@.len(),
            m <= tags@.len(),
            string_views(words@) =~= seg_state(chars@, tags@, k as int).0,
            partial@ == seg_state(chars@, tags@, k as int).1,
    {
        let ch = chars[k];
        let t = tags[k];
        if t == 3 {
            if partial.len() > 0 {
                words.push(string_from_chars(partial.as_slice()));
                partial = Vec::new();
            }
            let mut one: Vec<char> = Vec::new();
            one.push(ch);
            words.push(string_from_chars(one.as_slice()));
        } else if t == 2 {
            partial.push(ch);
            words.push(string_from_chars(partial.as_slice()));
            partial = Vec::new();
        } else {
            partial.push(ch);
        }
        assert(partial@ =~= seg_state(chars@, tags@, k + 1).1);
    }
    if partial.len() > 0 {
        words.push(string_from_chars(partial.as_slice()));
    }
    proof {
        lemma_segment_preserves_text(chars@, tags@);
        lemma_segment_cuts(chars@, tags@);
        assert(string_views(words@) =~= segment_spec(chars@, tags@));
        assert forall|j: int| 0 < j < paired_len(chars@, tags@) implies (ends_word_at(string_views(words@), j)
            <==> (tags@[j - 1] == 2 || tags@[j - 1] == 3 || tags@[j] == 3)) by {
            assert(ends_word_at(segment_spec(chars@, tags@), j) <==> tags_cut_at(tags@, j));
        }
    }
    words
}

/// Every back-pointer row has `n_tags` entries, each a tag below `n_tags`.
pub open spec fn backpointers_wf(backptrs: Seq<Vec<u8>>, n_tags: usize) -> bool {
    forall|t: int|
        0 <= t < backptrs.len() ==> {
            &&& (#[trigger] backptrs[t])@.len() == n_tags
            &&& forall|j: int| 0 <= j < n_tags ==> (backptrs[t]@[j] as usize) < n_tags
        }
}

/// The best tag path, read back from its last tag `best_last` through the
/// back pointers: `backptrs[t][j]` is the best tag at step `t - 1` given tag
/// `j` at step `t`.
pub fn viterbi_path(backptrs: &Vec<Vec<u8>>, best_last: usize, n_tags: usize) -> (r: Vec<usize>)
    requires
        backpointers_wf(backptrs@, n_tags),
        best_last < n_tags,
    ensures
        r@.len() == backptrs@.len(),
        backptrs@.len() > 0 ==> r@[backptrs@.len() - 1] == best_last,
        forall|t: int|
            0 <= t < backptrs@.len() - 1 ==> #[trigger] r@[t] == backptrs@[t + 1]@[r@[t + 1] as int] as usize,
        forall|t: int| 0 <= t < backptrs@.len() ==> #[trigger] r@[t] < n_tags,
{
    let n = backptrs.len();
    let mut path: Vec<usize> = Vec::new();
    for _k in 0..n
        invariant
            path@.len() == _k,
            forall|j: int| 0 <= j < _k ==> path@[j] == 0,
    {
        path.push(0);
    }
    let mut cur = best_last;
    let mut k: usize = 0;
    while k < n
        invariant
            n == backptrs@.len(),
            path@.len() == n,
            k <= n,
            cur < n_tags,
            backpointers_wf(backptrs@, n_tags),
            k == 0 ==> cur == best_last,
            k > 0 ==> cur == backptrs@[n - k]@[path@[n - k] as int] as usize,
            k > 0 ==> path@[n - 1] == best_last,
            forall|t: int| n - k <= t < n ==> #[trigger] path@[t] < n_tags,
            forall|t: int|
                n - k <= t < n - 1 ==> #[trigger] path@[t] == backptrs@[t + 1]@[path@[t + 1] as int] as usize,
        decreases n - k,
    {
        let t = n - 1 - k;
        path.set(t, cur);
        let row = &backptrs[t];
        cur = row[cur] as usize;
        k = k + 1;
    }
    path
}

} // verus!
