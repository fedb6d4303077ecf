//! The text side of part-of-speech tagging: what the tagger reads of a list
//! of words (word ids, character ids, candidate tag ids), and the names of
//! the tag ids it chooses.

use vstd::prelude::*;
use vstd::hash_map::HashMapWithView;
use crate::features::{oov_uni, oov_uni_spec, oov_word, oov_word_spec, VocabConfig};
use crate::preprocess::{normalize_no_strip_spec, normalize_without_rstrip, preprocess, preprocess_spec};
use crate::text::{chars_of, string_from_chars};
use crate::weights::{get_or, id_of, lookup_or, vocab_of_entries, Vocab, WordPosTags};

verus! {

broadcast use vstd::std_specs::hash::group_hash_axioms;

/// Whether `c` is alphabetic or numeric in Unicode's sense, as
/// `char::is_alphanumeric` decides it.
pub uninterp spec fn is_alphanumeric_of(c: char) -> bool;

/// Trusted: calls `char::is_alphanumeric`; its result is named
/// `is_alphanumeric_of(c)`.
#[verifier::external_body]
fn is_alphanumeric(c: char) -> (r: bool)
    ensures
        r == is_alphanumeric_of(c),
{
    c.is_alphanumeric()
}

/// `w` has at least one alphabetic or numeric character.
pub open spec fn has_alnum(w: Seq<char>) -> bool {
    exists|i: int| 0 <= i < w.len() && is_alphanumeric_of(#[trigger] w[i])
}

/// Whether some character of `w` is alphabetic or numeric.
pub fn word_is_alnum(w: &str) -> (r: bool)
    ensures
        r == has_alnum(w@),
        r <==> exists|k: int| 0 <= k < w@.len() && is_alphanumeric_of(#[trigger] w@[k]),
{
    let cs = chars_of(w);
    for i in 0..cs.len()
        invariant
            cs@ == w@,
            forall|k: int| 0 <= k < i ==> !is_alphanumeric_of(#[trigger] w@[k]),
    {
        if is_alphanumeric(cs[i]) {
            return true;
        }
    }
    false
}

/// The characters of the noun tag `名詞`.
pub open spec fn noun_key() -> Seq<char> {
    seq!['名', '詞']
}

/// The characters of `oov`, the name given to an unknown tag id.
pub open spec fn oov_name() -> Seq<char> {
    seq!['o', 'o', 'v']
}

/// Tag tables: tag name → id, id → tag name, and the tags the dictionary
/// allows for a word.
pub struct TagVocab {
    pub pos2id: Vocab,
    pub id2pos: HashMapWithView<u32, String>,
    pub word2postags: WordPosTags,
}

/// The id → name map of a tag list; a later entry wins.
pub open spec fn entries_inverse(entries: Seq<(String, i64)>) -> Map<u32, Seq<char>>
    decreases entries.len(),
{
    if entries.len() == 0 {
        Map::empty()
    } else {
        entries_inverse(entries.drop_last()).insert(id_of(entries.last().1), entries.last().0@)
    }
}

/// The character views of the values of `m`.
pub open spec fn name_views(m: Map<u32, String>) -> Map<u32, Seq<char>> {
    m.map_values(|s: String| s@)
}

impl TagVocab {
    /// The tag tables of the tag list `pos_entries` (name, id as read from
    /// the tag file) and the word dictionary `word2postags`.
    pub fn new(pos_entries: &Vec<(String, i64)>, word2postags: WordPosTags) -> (r: TagVocab)
        ensures
            r.pos2id@ == vocab_of_entries(pos_entries@),
            name_views(r.id2pos@) == entries_inverse(pos_entries@),
            r.word2postags@ == word2postags@,
    {
        let mut pos2id = Vocab::new();
        let mut id2pos: HashMapWithView<u32, String> = HashMapWithView::new();
        for i in 0..pos_entries.len()
            invariant
                pos2id@ == vocab_of_entries(pos_entries@.take(i as int)),
                name_views(id2pos@) == entries_inverse(pos_entries@.take(i as int)),
        {
            let name = pos_entries[i].0.clone();
            let id = pos_entries[i].1 as u32;
            pos2id.insert(name.clone(), id);
            id2pos.insert(id, name);
            assert(pos_entries@.take(i + 1).drop_last() =~= pos_entries@.take(i as int));
            assert(name_views(id2pos@) =~= entries_inverse(pos_entries@.take(i + 1)));
        }
        assert(pos_entries@.take(pos_entries@.len() as int) =~= pos_entries@);
        TagVocab { pos2id, id2pos, word2postags }
    }
}

/// The names of a tag list are pairwise distinct, and so are their ids.
pub open spec fn entries_distinct(entries: Seq<(String, i64)>) -> bool {
    forall|a: int, b: int|
        0 <= a < b < entries.len() ==> {
            &&& (#[trigger] entries[a]).0@ != (#[trigger] entries[b]).0@
            &&& id_of(entries[a].1) != id_of(entries[b].1)
        }
}

/// A name of the name → id table is the name of an entry with that id.
proof fn lemma_vocab_entry_witness(entries: Seq<(String, i64)>, name: Seq<char>)
    requires
        vocab_of_entries(entries).contains_key(name),
    ensures
        exists|a: int|
            0 <= a < entries.len() && (#[trigger] entries[a]).0@ == name && id_of(entries[a].1)
                == vocab_of_entries(entries)[name],
    decreases entries.len(),
{
    let pre = entries.drop_last();
    let e = entries.last();
    if e.0@ == name {
        assert(entries[entries.len() - 1] == e);
    } else {
        lemma_vocab_entry_witness(pre, name);
        let a = choose|a: int|
            0 <= a < pre.len() && (#[trigger] pre[a]).0@ == name && id_of(pre[a].1)
                == vocab_of_entries(pre)[name];
        assert(entries[a] == pre[a]);
    }
}

/// Where the names and the ids of a tag list are distinct, the id → name
/// table inverts the name → id table.
pub proof fn lemma_tag_tables_invert(entries: Seq<(String, i64)>)
    requires
        entries_distinct(entries),
    ensures
        forall|name: Seq<char>|
            #[trigger] vocab_of_entries(entries).contains_key(name) ==> {
                &&& entries_inverse(entries).contains_key(vocab_of_entries(entries)[name])
                &&& entries_inverse(entries)[vocab_of_entries(entries)[name]] == name
            },
    decreases entries.len(),
{
    if entries.len() > 0 {
        let pre = entries.drop_last();
        let e = entries.last();
        assert(entries_distinct(pre)) by {
            assert forall|a: int, b: int| 0 <= a < b < pre.len() implies {
                &&& (#[trigger] pre[a]).0@ != (#[trigger] pre[b]).0@
                &&& id_of(pre[a].1) != id_of(pre[b].1)
            } by {
                assert(pre[a] == entries[a] && pre[b] == entries[b]);
            }
        }
        lemma_tag_tables_invert(pre);
        assert forall|name: Seq<char>| #[trigger] vocab_of_entries(entries).contains_key(name) implies {
            &&& entries_inverse(entries).contains_key(vocab_of_entries(entries)[name])
            &&& entries_inverse(entries)[vocab_of_entries(entries)[name]] == name
        } by {
            if name != e.0@ {
                assert(vocab_of_entries(pre).contains_key(name));
                lemma_vocab_entry_witness(pre, name);
                let a = choose|a: int|
                    0 <= a < pre.len() && (#[trigger] pre[a]).0@ == name && id_of(pre[a].1)
                        == vocab_of_entries(pre)[name];
                assert(entries[a] == pre[a]);
                assert(entries[entries.len() - 1] == e);
                assert(id_of(pre[a].1) != id_of(e.1));
            }
        }
    }
}

/// The tags the dictionary allows for `w`: its entry, or tag 0 alone.
pub open spec fn dictionary_tags(w2p: Map<Seq<char>, Vec<u32>>, w: Seq<char>) -> Set<u32> {
    if w2p.contains_key(w) {
        w2p[w]@.to_set()
    } else {
        set![0]
    }
}

/// The candidate tags of `w`: where the tag set has a noun tag and `w` has a
/// letter or digit, tag 0 is dropped and the noun tag added.
pub open spec fn tag_candidates(
    w2p: Map<Seq<char>, Vec<u32>>,
    pos2id: Map<Seq<char>, u32>,
    w: Seq<char>,
) -> Set<u32> {
    if pos2id.contains_key(noun_key()) && has_alnum(w) {
        dictionary_tags(w2p, w).remove(0).insert(pos2id[noun_key()])
    } else {
        dictionary_tags(w2p, w)
    }
}

/// Where the tag table has the noun tag, a word with a letter or digit at any
/// position has the noun tag among its candidates, and not tag 0 (unless the
/// noun tag is 0 itself).
pub proof fn lemma_noun_heuristic(
    w2p: Map<Seq<char>, Vec<u32>>,
    pos2id: Map<Seq<char>, u32>,
    w: Seq<char>,
    k: int,
)
    requires
        0 <= k < w.len(),
        is_alphanumeric_of(w[k]),
        pos2id.contains_key(noun_key()),
    ensures
        tag_candidates(w2p, pos2id, w).contains(pos2id[noun_key()]),
        pos2id[noun_key()] != 0 ==> !tag_candidates(w2p, pos2id, w).contains(0),
{
    assert(has_alnum(w));
}

/// A word's own spaces are kept: a word that is one space, ASCII or
/// ideographic, is normalised without the strip.
pub open spec fn is_space_word(w: Seq<char>) -> bool {
    w == seq![' '] || w == seq!['\u{3000}']
}

/// The normalised form in which a word is looked up.
pub open spec fn normalize_word_spec(w: Seq<char>) -> Seq<char> {
    if is_space_word(w) {
        normalize_no_strip_spec(w)
    } else {
        preprocess_spec(w)
    }
}

/// The unigram id of each character of `w`.
pub open spec fn char_ids_spec(w: Seq<char>, uni2id: Map<Seq<char>, u32>) -> Seq<u32> {
    Seq::new(w.len(), |k: int| lookup_or(uni2id, seq![w[k]], oov_uni_spec(uni2id)))
}

/// What the tagger reads of a list of words, one entry per word.
pub struct PosInputs {
    /// Each word, normalised.
    pub words: Vec<String>,
    /// The word id of each normalised word.
    pub wids: Vec<u32>,
    /// The unigram ids of the characters of each normalised word.
    pub cids: Vec<Vec<u32>>,
    /// The candidate tag ids of each normalised word, each once.
    pub tids: Vec<Vec<u32>>,
}

/// Whether `x` occurs in `v`.
fn contains_id(v: &Vec<u32>, x: u32) -> (r: bool)
    ensures
        r == v@.contains(x),
{
    for i in 0..v.len()
        invariant
            forall|k: int| 0 <= k < i ==> v@[k] != x,
    {
        if v[i] == x {
            return true;
        }
    }
    false
}

proof fn lemma_take_next_contains(s: Seq<u32>, i: int, y: u32)
    requires
        0 <= i < s.len(),
    ensures
        s.take(i + 1).contains(y) <==> (s.take(i).contains(y) || s[i] == y),
{
    let a = s.take(i);
    let b = s.take(i + 1);
    assert(b =~= a.push(s[i]));
    if b.contains(y) {
        let j = choose|j: int| 0 <= j < b.len() && b[j] == y;
        if j < i {
            assert(a[j] == y);
        }
    }
    if a.contains(y) {
        let j = choose|j: int| 0 <= j < a.len() && a[j] == y;
        assert(b[j] == y);
    }
    if s[i] == y {
        assert(s.take(i + 1)[i] == y);
    }
}

/// Appends `x` to `v` unless it is there already.
fn push_unique(v: &mut Vec<u32>, x: u32)
    requires
        old(v)@.no_duplicates(),
    ensures
        final(v)@.no_duplicates(),
        forall|y: u32| #[trigger] final(v)@.contains(y) <==> (old(v)@.contains(y) || y == x),
{
    if !contains_id(v, x) {
        let ghost before = v@;
        v.push(x);
        assert forall|y: u32| #[trigger] v@.contains(y) <==> (before.contains(y) || y == x) by {
            if v@.contains(y) {
                let k = choose|k: int| 0 <= k < v@.len() && v@[k] == y;
                if k < before.len() {
                    assert(before[k] == y);
                }
            }
            if before.contains(y) {
                let k = choose|k: int| 0 <= k < before.len() && before[k] == y;
                assert(v@[k] == y);
            }
            if y == x {
                assert(v@[before.len() as int] == y);
            }
        }
    }
}

/// The candidate tag ids of the normalised word `w`, each once.
fn tag_ids(w: &str, tags: &TagVocab, noun: Option<u32>) -> (r: Vec<u32>)
    requires
        noun == (if tags.pos2id@.contains_key(noun_key()) {
            Some(tags.pos2id@[noun_key()])
        } else {
            None::<u32>
        }),
    ensures
        forall|x: u32| #[trigger] r@.contains(x) <==> tag_candidates(
            tags.word2postags@,
            tags.pos2id@,
            w@,
        ).contains(x),
        r@.no_duplicates(),
{
    let mut out: Vec<u32> = Vec::new();
    match tags.word2postags.get(w) {
        Some(v) => {
            for i in 0..v.len()
                invariant
                    forall|x: u32| #[trigger] out@.contains(x) <==> v@.take(i as int).contains(x),
                    out@.no_duplicates(),
            {
                push_unique(&mut out, v[i]);
                assert forall|y: u32| #[trigger] out@.contains(y) <==> v@.take(i + 1).contains(y) by {
                    lemma_take_next_contains(v@, i as int, y);
                }
            }
            assert(v@.take(v@.len() as int) =~= v@);
        },
        None => {
            out.push(0);
            assert forall|x: u32| #[trigger] out@.contains(x) <==> set![0u32].contains(x) by {
                if x == 0 {
                    assert(out@[0] == x);
                }
            }
        },
    }
    let ghost base = out@;
    assert forall|x: u32| #[trigger] base.contains(x) <==> dictionary_tags(
        tags.word2postags@,
        w@,
    ).contains(x) by {}
    match noun {
        Some(nid) => {
            if word_is_alnum(w) {
                let mut kept: Vec<u32> = Vec::new();
                for i in 0..out.len()
                    invariant
                        base == out@,
                        kept@.no_duplicates(),
                        forall|x: u32| #[trigger] kept@.contains(x) <==> (base.take(i as int).contains(x) && x != 0),
                {
                    let x = out[i];
                    if x != 0 {
                        push_unique(&mut kept, x);
                    }
                    assert forall|y: u32| #[trigger] kept@.contains(y) <==> (base.take(i + 1).contains(y) && y != 0) by {
                        lemma_take_next_contains(base, i as int, y);
                    }
                }
                assert(base.take(base.len() as int) =~= base);
                push_unique(&mut kept, nid);
                return kept;
            }
        },
        None => {},
    }
    out
}

/// The normalised form in which the word `w` is looked up.
pub fn normalize_word(w: &str) -> (r: String)
    ensures
        r@ == normalize_word_spec(w@),
{
    let cs = chars_of(w);
    if cs.len() == 1 && (cs[0] == ' ' || cs[0] == '\u{3000}') {
        assert(w@ =~= seq![' '] || w@ =~= seq!['\u{3000}']);
        normalize_without_rstrip(w)
    } else {
        assert(!is_space_word(w@)) by {
            if w@ == seq![' '] || w@ == seq!['\u{3000}'] {
                assert(cs@.len() == 1);
            }
        }
        preprocess(w)
    }
}

/// `t` lists the candidate tags of the normalised word `w`, each once.
pub open spec fn lists_tag_candidates(t: Seq<u32>, tags: &TagVocab, w: Seq<char>) -> bool {
    &&& t.no_duplicates()
    &&& forall|x: u32| #[trigger] t.contains(x) <==> tag_candidates(tags.word2postags@, tags.pos2id@, w).contains(x)
}

/// The unigram ids of the characters of `w`.
fn char_ids(w: &str, uni2id: &Vocab, oov: u32) -> (r: Vec<u32>)
    requires
        oov == oov_uni_spec(uni2id@),
    ensures
        r@ == char_ids_spec(w@, uni2id@),
{
    let cs = chars_of(w);
    let mut out: Vec<u32> = Vec::new();
    for k in 0..cs.len()
        invariant
            cs@ == w@,
            oov == oov_uni_spec(uni2id@),
            out@.len() == k,
            forall|j: int| 0 <= j < k ==> #[trigger] out@[j] == char_ids_spec(w@, uni2id@)[j],
    {
        let mut one: Vec<char> = Vec::new();
        one.push(cs[k]);
        let s = string_from_chars(one.as_slice());
        assert(s@ =~= seq![w@[k as int]]);
        let id = get_or(uni2id, s.as_str(), oov);
        assert(id == char_ids_spec(w@, uni2id@)[k as int]);
        out.push(id);
    }
    assert(out@ =~= char_ids_spec(w@, uni2id@));
    out
}

/// What the tagger reads of `words`: each word normalised, its word id, the
/// unigram ids of its characters, and its candidate tag ids.
pub fn postag_inputs(words: &[String], cfg: &VocabConfig, tags: &TagVocab) -> (r: PosInputs)
    ensures
        r.words@.len() == words@.len(),
        r.wids@.len() == words@.len(),
        r.cids@.len() == words@.len(),
        r.tids@.len() == words@.len(),
        forall|i: int| 0 <= i < words@.len() ==> #[trigger] r.words@[i]@ == normalize_word_spec(words@[i]@),
        forall|i: int|
            0 <= i < words@.len() ==> #[trigger] r.wids@[i] == lookup_or(
                cfg.word2id@,
                normalize_word_spec(words@[i]@),
                oov_word_spec(cfg.word2id@),
            ),
        forall|i: int|
            0 <= i < words@.len() ==> #[trigger] r.cids@[i]@ == char_ids_spec(
                normalize_word_spec(words@[i]@),
                cfg.uni2id@,
            ),
        forall|i: int|
            0 <= i < words@.len() ==> lists_tag_candidates(#[trigger] r.tids@[i]@, tags, normalize_word_spec(words@[i]@)),
        forall|i: int, x: u32|
            0 <= i < words@.len() ==> (#[trigger] r.tids@[i]@.contains(x) <==> (if tags.pos2id@.contains_key(
                seq!['名', '詞'],
            ) && (exists|k: int|
                0 <= k < r.words@[i]@.len() && is_alphanumeric_of(#[trigger] r.words@[i]@[k])) {
                x == tags.pos2id@[seq!['名', '詞']] || (x != 0 && (if tags.word2postags@.contains_key(
                    r.words@[i]@,
                ) {
                    tags.word2postags@[r.words@[i]@]@.contains(x)
                } else {
                    x == 0
                }))
            } else {
                if tags.word2postags@.contains_key(r.words@[i]@) {
                    tags.word2postags@[r.words@[i]@]@.contains(x)
                } else {
                    x == 0
                }
            })),
        forall|i: int, k: int|
            0 <= i < words@.len() && 0 <= k < r.words@[i]@.len() && tags.pos2id@.contains_key(noun_key())
                && is_alphanumeric_of(#[trigger] r.words@[i]@[k]) ==> {
                &&& r.tids@[i]@.contains(tags.pos2id@[noun_key()])
                &&& tags.pos2id@[noun_key()] != 0 ==> !r.tids@[i]@.contains(0)
            },
{
    proof {
        reveal_strlit("名詞");
        assert("名詞"@ =~= noun_key());
    }
    let noun = match tags.pos2id.get("名詞") {
        Some(id) => Some(*id),
        None => None,
    };
    let oov_w = oov_word(&cfg.word2id);
    let oov_u = oov_uni(&cfg.uni2id);
    let mut pp: Vec<String> = Vec::new();
    let mut wids: Vec<u32> = Vec::new();
    let mut cids: Vec<Vec<u32>> = Vec::new();
    let mut tids: Vec<Vec<u32>> = Vec::new();
    for i in 0..words.len()
        invariant
            noun == (if tags.pos2id@.contains_key(noun_key()) {
                Some(tags.pos2id@[noun_key()])
            } else {
                None::<u32>
            }),
            oov_w == oov_word_spec(cfg.word2id@),
            oov_u == oov_uni_spec(cfg.uni2id@),
            pp@.len() == i,
            wids@.len() == i,
            cids@.len() == i,
            tids@.len() == i,
            forall|k: int| 0 <= k < i ==> #[trigger] pp@[k]@ == normalize_word_spec(words@[k]@),
            forall|k: int|
                0 <= k < i ==> #[trigger] wids@[k] == lookup_or(
                    cfg.word2id@,
                    normalize_word_spec(words@[k]@),
                    oov_word_spec(cfg.word2id@),
                ),
            forall|k: int|
                0 <= k < i ==> #[trigger] cids@[k]@ == char_ids_spec(
                    normalize_word_spec(words@[k]@),
                    cfg.uni2id@,
                ),
            forall|k: int|
                0 <= k < i ==> lists_tag_candidates(#[trigger] tids@[k]@, tags, normalize_word_spec(words@[k]@)),
    {
        let w = normalize_word(words[i].as_str());
        wids.push(get_or(&cfg.word2id, w.as_str(), oov_w));
        cids.push(char_ids(w.as_str(), &cfg.uni2id, oov_u));
        tids.push(tag_ids(w.as_str(), tags, noun));
        pp.push(w);
    }
    assert forall|i: int, k: int|
        0 <= i < words@.len() && 0 <= k < pp@[i]@.len() && tags.pos2id@.contains_key(noun_key())
            && is_alphanumeric_of(#[trigger] pp@[i]@[k]) implies {
        &&& tids@[i]@.contains(tags.pos2id@[noun_key()])
        &&& tags.pos2id@[noun_key()] != 0 ==> !tids@[i]@.contains(0)
    } by {
        lemma_noun_heuristic(tags.word2postags@, tags.pos2id@, pp@[i]@, k);
        assert(lists_tag_candidates(tids@[i]@, tags, pp@[i]@));
    }
    assert forall|i: int, x: u32| 0 <= i < words@.len() implies (#[trigger] tids@[i]@.contains(x) <==> (
    if tags.pos2id@.contains_key(seq!['名', '詞']) && (exists|k: int|
        0 <= k < pp@[i]@.len() && is_alphanumeric_of(#[trigger] pp@[i]@[k])) {
        x == tags.pos2id@[seq!['名', '詞']] || (x != 0 && (if tags.word2postags@.contains_key(pp@[i]@) {
            tags.word2postags@[pp@[i]@]@.contains(x)
        } else {
            x == 0
        }))
    } else {
        if tags.word2postags@.contains_key(pp@[i]@) {
            tags.word2postags@[pp@[i]@]@.contains(x)
        } else {
            x == 0
        }
    })) by {
        assert(lists_tag_candidates(tids@[i]@, tags, pp@[i]@));
        assert(noun_key() =~= seq!['名', '詞']);
    }
    PosInputs { words: pp, wids, cids, tids }
}

/// The name of tag id `p` (taken as a `u32`), or `oov` for an unknown id.
pub open spec fn tag_name_spec(id2pos: Map<u32, Seq<char>>, p: usize) -> Seq<char> {
    if id2pos.contains_key(p as u32) {
        id2pos[p as u32]
    } else {
        oov_name()
    }
}

/// The names of the tag ids `pids`.
pub fn pos_names(pids: &[usize], tags: &TagVocab) -> (r: Vec<String>)
    ensures
        r@.len() == pids@.len(),
        forall|i: int|
            0 <= i < pids@.len() ==> #[trigger] r@[i]@ == tag_name_spec(name_views(tags.id2pos@), pids@[i]),
        forall|i: int|
            0 <= i < pids@.len() && tags.id2pos@.contains_key(pids@[i] as u32) ==> #[trigger] r@[i]@
                == tags.id2pos@[pids@[i] as u32]@,
        forall|i: int|
            0 <= i < pids@.len() && !tags.id2pos@.contains_key(pids@[i] as u32) ==> #[trigger] r@[i]@
                == seq!['o', 'o', 'v'],
{
    let mut out: Vec<String> = Vec::new();
    for i in 0..pids.len()
        invariant
            out@.len() == i,
            forall|k: int|
                0 <= k < i ==> #[trigger] out@[k]@ == tag_name_spec(name_views(tags.id2pos@), pids@[k]),
    {
        let id = pids[i] as u32;
        let name = match tags.id2pos.get(&id) {
            Some(s) => s.clone(),
            None => {
                proof {
                    reveal_strlit("oov");
                }
                let s = "oov".to_string();
                assert(s@ =~= oov_name());
                s
            },
        };
        out.push(name);
    }
    out
}

} // verus!
