//! Model configuration and vocabularies.

use vstd::prelude::*;
use vstd::hash_map::StringHashMap;

verus! {

/// A vocabulary: token → id.
pub type Vocab = StringHashMap<u32>;

/// Map from a word to the part-of-speech ids the dictionary allows for it.
pub type WordPosTags = StringHashMap<Vec<u32>>;

/// Hyper-parameters of the model (dimensions, window, layers).
pub struct HyperParams {
    pub window_size: usize,
    pub dim_uni: usize,
    pub dim_bi: usize,
    pub dim_ctype: usize,
    pub dim_word: usize,
    pub dim_tagemb: usize,
    pub dim_hidden: usize,
    pub layers: usize,
}

/// The id of `key` in `m`, or `default` where `key` is absent.
pub open spec fn lookup_or(m: Map<Seq<char>, u32>, key: Seq<char>, default: u32) -> u32 {
    if m.contains_key(key) {
        m[key]
    } else {
        default
    }
}

/// The id of `key`, or `default` where the vocabulary lacks it.
pub fn get_or(vocab: &Vocab, key: &str, default: u32) -> (r: u32)
    ensures
        r == lookup_or(vocab@, key@, default),
{
    match vocab.get(key) {
        Some(v) => *v,
        None => default,
    }
}

/// The id an integer of a vocabulary file stands for: its low 32 bits, as
/// `i64 as u32` takes them.
pub open spec fn id_of(x: i64) -> u32 {
    x as u32
}

/// The vocabulary of a list of (token, id) entries; a later entry wins.
pub open spec fn vocab_of_entries(entries: Seq<(String, i64)>) -> Map<Seq<char>, u32>
    decreases entries.len(),
{
    if entries.len() == 0 {
        Map::empty()
    } else {
        vocab_of_entries(entries.drop_last()).insert(entries.last().0@, id_of(entries.last().1))
    }
}

/// The tokens of a list of entries are pairwise distinct.
pub open spec fn tokens_distinct(entries: Seq<(String, i64)>) -> bool {
    forall|a: int, b: int|
        0 <= a < b < entries.len() ==> (#[trigger] entries[a]).0@ != (#[trigger] entries[b]).0@
}

/// Where its tokens are distinct, a vocabulary gives back the id of every
/// entry it was built from, and holds no other token.
pub proof fn lemma_vocab_gives_back_entries(entries: Seq<(String, i64)>)
    requires
        tokens_distinct(entries),
    ensures
        forall|a: int|
            0 <= a < entries.len() ==> {
                &&& vocab_of_entries(entries).contains_key((#[trigger] entries[a]).0@)
                &&& vocab_of_entries(entries)[entries[a].0@] == id_of(entries[a].1)
            },
        forall|t: Seq<char>|
            #[trigger] vocab_of_entries(entries).contains_key(t) ==> exists|a: int|
                0 <= a < entries.len() && (#[trigger] entries[a]).0@ == t,
    decreases entries.len(),
{
    if entries.len() > 0 {
        let pre = entries.drop_last();
        let last = entries.len() - 1;
        assert(tokens_distinct(pre)) by {
            assert forall|a: int, b: int| 0 <= a < b < pre.len() implies (#[trigger] pre[a]).0@
                != (#[trigger] pre[b]).0@ by {
                assert(pre[a] == entries[a] && pre[b] == entries[b]);
            }
        }
        lemma_vocab_gives_back_entries(pre);
        assert forall|a: int| 0 <= a < entries.len() implies {
            &&& vocab_of_entries(entries).contains_key((#[trigger] entries[a]).0@)
            &&& vocab_of_entries(entries)[entries[a].0@] == id_of(entries[a].1)
        } by {
            if a < last {
                assert(pre[a] == entries[a]);
            }
        }
        assert forall|t: Seq<char>| #[trigger] vocab_of_entries(entries).contains_key(t) implies exists|a: int|
            0 <= a < entries.len() && (#[trigger] entries[a]).0@ == t by {
            if t == entries[last].0@ {
            } else {
                assert(vocab_of_entries(pre).contains_key(t));
                let a = choose|a: int| 0 <= a < pre.len() && (#[trigger] pre[a]).0@ == t;
                assert(entries[a] == pre[a]);
            }
        }
    }
}

/// Builds a vocabulary from the (token, id) entries of a vocabulary file.
pub fn vocab_from_entries(entries: &Vec<(String, i64)>) -> (r: Vocab)
    ensures
        r@ == vocab_of_entries(entries@),
{
    let mut m = Vocab::new();
    for i in 0..entries.len()
        invariant
            m@ == vocab_of_entries(entries@.take(i as int)),
    {
        let token = entries[i].0.clone();
        let id = entries[i].1 as u32;
        m.insert(token, id);
        assert(entries@.take(i + 1).drop_last() =~= entries@.take(i as int));
    }
    assert(entries@.take(entries@.len() as int) =~= entries@);
    m
}

/// The ids of a list of integers of a vocabulary file.
pub open spec fn ids_of(xs: Seq<i64>) -> Seq<u32> {
    xs.map_values(|x: i64| id_of(x))
}

/// The word dictionary of a list of (word, tag ids) entries; a later entry
/// wins.
pub open spec fn word_tags_of_entries(entries: Seq<(String, Vec<i64>)>) -> Map<Seq<char>, Seq<u32>>
    decreases entries.len(),
{
    if entries.len() == 0 {
        Map::empty()
    } else {
        word_tags_of_entries(entries.drop_last()).insert(
            entries.last().0@,
            ids_of(entries.last().1@),
        )
    }
}

/// The tag-id sequences of the values of `m`.
pub open spec fn tag_views(m: Map<Seq<char>, Vec<u32>>) -> Map<Seq<char>, Seq<u32>> {
    m.map_values(|v: Vec<u32>| v@)
}

fn ids_from(xs: &Vec<i64>) -> (r: Vec<u32>)
    ensures
        r@ == ids_of(xs@),
{
    let mut out: Vec<u32> = Vec::new();
    for i in 0..xs.len()
        invariant
            out@ =~= ids_of(xs@.take(i as int)),
    {
        out.push(xs[i] as u32);
    }
    assert(xs@.take(xs@.len() as int) =~= xs@);
    out
}

/// Builds the word dictionary from the (word, tag ids) entries of its file.
pub fn word_tags_from_entries(entries: &Vec<(String, Vec<i64>)>) -> (r: WordPosTags)
    ensures
        tag_views(r@) == word_tags_of_entries(entries@),
{
    let mut m = WordPosTags::new();
    for i in 0..entries.len()
        invariant
            tag_views(m@) == word_tags_of_entries(entries@.take(i as int)),
    {
        let word = entries[i].0.clone();
        let ids = ids_from(&entries[i].1);
        m.insert(word, ids);
        assert(entries@.take(i + 1).drop_last() =~= entries@.take(i as int));
        assert(tag_views(m@) =~= word_tags_of_entries(entries@.take(i + 1)));
    }
    assert(entries@.take(entries@.len() as int) =~= entries@);
    m
}

/// A JSON document as read from a model file. A number is kept as the
/// `i64` it holds where it is an integer that fits, else as `None`.
pub enum JsonValue {
    Null,
    Bool(bool),
    Number(Option<i64>),
    Str(String),
    Array(Vec<JsonValue>),
    Object(Vec<(String, JsonValue)>),
}

/// Why a vocabulary file was refused.
pub enum LoadError {
    /// The document has no member of the expected name.
    MissingKey,
    /// That member is not a JSON object.
    NotAnObject,
    /// The value of this entry (or one of its elements) is not an integer.
    NotAnInteger(String),
    /// The value of this entry is not an array.
    NotAnArray(String),
}

/// The value of the member `key` among `members`; a later member wins.
pub open spec fn member_in(members: Seq<(String, JsonValue)>, key: Seq<char>) -> Option<JsonValue>
    decreases members.len(),
{
    if members.len() == 0 {
        None
    } else if members.last().0@ == key {
        Some(members.last().1)
    } else {
        member_in(members.drop_last(), key)
    }
}

/// The member `key` of the document `doc`; `None` unless `doc` is an object
/// that has it.
pub open spec fn json_member(doc: JsonValue, key: Seq<char>) -> Option<JsonValue> {
    match doc {
        JsonValue::Object(members) => member_in(members@, key),
        _ => None,
    }
}

/// `v` is an integer that fits in an `i64`.
pub open spec fn is_int(v: JsonValue) -> bool {
    v matches JsonValue::Number(Some(_))
}

/// The integer `v` holds (0 where it holds none).
pub open spec fn int_of(v: JsonValue) -> i64 {
    match v {
        JsonValue::Number(Some(i)) => i,
        _ => 0,
    }
}

/// `v` is an array of integers.
pub open spec fn is_int_array(v: JsonValue) -> bool {
    match v {
        JsonValue::Array(xs) => forall|i: int| 0 <= i < xs@.len() ==> is_int(#[trigger] xs@[i]),
        _ => false,
    }
}

/// The ids an array of integers stands for.
pub open spec fn array_ids(v: JsonValue) -> Seq<u32> {
    match v {
        JsonValue::Array(xs) => xs@.map_values(|x: JsonValue| id_of(int_of(x))),
        _ => seq![],
    }
}

/// The vocabulary the members (token, integer id) stand for; a later member
/// wins.
pub open spec fn vocab_of_members(members: Seq<(String, JsonValue)>) -> Map<Seq<char>, u32>
    decreases members.len(),
{
    if members.len() == 0 {
        Map::empty()
    } else {
        vocab_of_members(members.drop_last()).insert(
            members.last().0@,
            id_of(int_of(members.last().1)),
        )
    }
}

/// The word dictionary the members (word, array of tag ids) stand for; a
/// later member wins.
pub open spec fn word_tags_of_members(members: Seq<(String, JsonValue)>) -> Map<Seq<char>, Seq<u32>>
    decreases members.len(),
{
    if members.len() == 0 {
        Map::empty()
    } else {
        word_tags_of_members(members.drop_last()).insert(
            members.last().0@,
            array_ids(members.last().1),
        )
    }
}

/// Member `j` is the first whose value fails `is_int`.
pub open spec fn first_non_int(members: Seq<(String, JsonValue)>, j: int) -> bool {
    &&& 0 <= j < members.len()
    &&& !is_int(members[j].1)
    &&& forall|k: int| 0 <= k < j ==> is_int(#[trigger] members[k].1)
}

/// Member `j` is the first whose value fails `is_int_array`.
pub open spec fn first_non_int_array(members: Seq<(String, JsonValue)>, j: int) -> bool {
    &&& 0 <= j < members.len()
    &&& !is_int_array(members[j].1)
    &&& forall|k: int| 0 <= k < j ==> is_int_array(#[trigger] members[k].1)
}

/// Every member's value is an integer.
pub open spec fn all_int(members: Seq<(String, JsonValue)>) -> bool {
    forall|j: int| 0 <= j < members.len() ==> is_int(#[trigger] members[j].1)
}

/// Every member's value is an array of integers.
pub open spec fn all_int_array(members: Seq<(String, JsonValue)>) -> bool {
    forall|j: int| 0 <= j < members.len() ==> is_int_array(#[trigger] members[j].1)
}

/// `es` lists the members with their integer values, in order.
pub open spec fn entries_of_members(es: Seq<(String, i64)>, members: Seq<(String, JsonValue)>) -> bool {
    &&& es.len() == members.len()
    &&& forall|j: int|
        0 <= j < members.len() ==> (#[trigger] es[j]).0 == members[j].0 && es[j].1 == int_of(members[j].1)
}

/// `name` is the name of the first member whose value is not an integer.
pub open spec fn names_first_non_int(name: String, members: Seq<(String, JsonValue)>) -> bool {
    exists|j: int| first_non_int(members, j) && name == #[trigger] members[j].0
}

/// The member names are pairwise distinct.
pub open spec fn names_distinct(members: Seq<(String, JsonValue)>) -> bool {
    forall|a: int, b: int|
        0 <= a < b < members.len() ==> (#[trigger] members[a]).0@ != (#[trigger] members[b]).0@
}

/// Where the names are distinct, the vocabulary of the members maps each
/// name to the low 32 bits of its integer, and holds no other token.
pub proof fn lemma_vocab_of_members_gives_back(members: Seq<(String, JsonValue)>)
    requires
        names_distinct(members),
    ensures
        forall|a: int|
            0 <= a < members.len() ==> {
                &&& vocab_of_members(members).contains_key((#[trigger] members[a]).0@)
                &&& vocab_of_members(members)[members[a].0@] == int_of(members[a].1) as u32
            },
        forall|t: Seq<char>|
            #[trigger] vocab_of_members(members).contains_key(t) ==> exists|a: int|
                0 <= a < members.len() && (#[trigger] members[a]).0@ == t,
    decreases members.len(),
{
    if members.len() > 0 {
        let pre = members.drop_last();
        let last = members.len() - 1;
        assert(names_distinct(pre)) by {
            assert forall|a: int, b: int| 0 <= a < b < pre.len() implies (#[trigger] pre[a]).0@
                != (#[trigger] pre[b]).0@ by {
                assert(pre[a] == members[a] && pre[b] == members[b]);
            }
        }
        lemma_vocab_of_members_gives_back(pre);
        assert forall|a: int| 0 <= a < members.len() implies {
            &&& vocab_of_members(members).contains_key((#[trigger] members[a]).0@)
            &&& vocab_of_members(members)[members[a].0@] == int_of(members[a].1) as u32
        } by {
            if a < last {
                assert(pre[a] == members[a]);
            }
        }
        assert forall|t: Seq<char>| #[trigger] vocab_of_members(members).contains_key(t) implies exists|a: int|
            0 <= a < members.len() && (#[trigger] members[a]).0@ == t by {
            if t != members[last].0@ {
                assert(vocab_of_members(pre).contains_key(t));
                let a = choose|a: int| 0 <= a < pre.len() && (#[trigger] pre[a]).0@ == t;
                assert(members[a] == pre[a]);
            }
        }
    }
}

/// What `vocab_entries_from_json` returns for `doc` and `key`.
pub open spec fn vocab_entries_result(
    doc: JsonValue,
    key: Seq<char>,
    r: Result<Vec<(String, i64)>, LoadError>,
) -> bool {
    match json_member(doc, key) {
        None => r matches Err(LoadError::MissingKey),
        Some(JsonValue::Object(members)) => {
            &&& all_int(members@) ==> (r matches Ok(es) && entries_of_members(es@, members@))
            &&& !all_int(members@) ==> (r matches Err(LoadError::NotAnInteger(name))
                && names_first_non_int(name, members@))
        },
        Some(_) => r matches Err(LoadError::NotAnObject),
    }
}

/// What `vocab_from_json` returns for `doc` and `key`.
pub open spec fn vocab_result(doc: JsonValue, key: Seq<char>, r: Result<Vocab, LoadError>) -> bool {
    match json_member(doc, key) {
        None => r matches Err(LoadError::MissingKey),
        Some(JsonValue::Object(members)) => {
            &&& all_int(members@) ==> (r matches Ok(m) && m@ == vocab_of_members(members@))
            &&& !all_int(members@) ==> (r matches Err(LoadError::NotAnInteger(name))
                && names_first_non_int(name, members@))
        },
        Some(_) => r matches Err(LoadError::NotAnObject),
    }
}

/// What `word_tags_from_json` returns for `doc` and `key`: the dictionary,
/// or the error of the first member whose value is not an array of
/// integers.
pub open spec fn word_tags_result(doc: JsonValue, key: Seq<char>, r: Result<WordPosTags, LoadError>) -> bool {
    match json_member(doc, key) {
        None => r matches Err(LoadError::MissingKey),
        Some(JsonValue::Object(members)) => {
            &&& all_int_array(members@) ==> (r matches Ok(m) && tag_views(m@) == word_tags_of_members(
                members@,
            ))
            &&& forall|j: int|
                #[trigger] first_non_int_array(members@, j) ==> (if members@[j].1 is Array {
                    r matches Err(LoadError::NotAnInteger(name)) && name == members@[j].0
                } else {
                    r matches Err(LoadError::NotAnArray(name)) && name == members@[j].0
                })
        },
        Some(_) => r matches Err(LoadError::NotAnObject),
    }
}

/// The member `key` of `doc` as found by a scan from the last member.
fn find_member<'a>(doc: &'a JsonValue, key: &str) -> (r: Option<&'a JsonValue>)
    ensures
        r matches Some(v) ==> json_member(*doc, key@) == Some(*v),
        r is None ==> json_member(*doc, key@) is None,
{
    let key_string = key.to_string();
    match doc {
        JsonValue::Object(members) => {
            let mut i = members.len();
            assert(members@.take(i as int) =~= members@);
            while i > 0
                invariant
                    *doc == JsonValue::Object(*members),
                    i <= members@.len(),
                    key_string@ == key@,
                    member_in(members@, key@) == member_in(members@.take(i as int), key@),
                decreases i,
            {
                let m = &members[i - 1];
                assert(members@.take(i as int).drop_last() =~= members@.take(i - 1));
                assert(members@.take(i as int).last() == *m);
                if m.0 == key_string {
                    return Some(&m.1);
                }
                i = i - 1;
            }
            assert(members@.take(0) =~= Seq::<(String, JsonValue)>::empty());
            None
        },
        _ => None,
    }
}

/// The (token, id) entries of the object `key` of a vocabulary document.
pub fn vocab_entries_from_json(doc: &JsonValue, key: &str) -> (r: Result<Vec<(String, i64)>, LoadError>)
    ensures
        vocab_entries_result(*doc, key@, r),
{
    let inner = match find_member(doc, key) {
        Some(v) => v,
        None => {
            return Err(LoadError::MissingKey);
        },
    };
    match inner {
        JsonValue::Object(members) => {
            let mut out: Vec<(String, i64)> = Vec::new();
            for i in 0..members.len()
                invariant
                    json_member(*doc, key@) == Some(*inner),
                    *inner == JsonValue::Object(*members),
                    out@.len() == i,
                    forall|j: int| 0 <= j < i ==> is_int(#[trigger] members@[j].1),
                    forall|j: int|
                        0 <= j < i ==> (#[trigger] out@[j]).0 == members@[j].0 && out@[j].1 == int_of(
                            members@[j].1,
                        ),
            {
                let m = &members[i];
                match &m.1 {
                    JsonValue::Number(Some(id)) => {
                        out.push((m.0.clone(), *id));
                    },
                    _ => {
                        let name = m.0.clone();
                        assert(first_non_int(members@, i as int) && name == members@[i as int].0);
                        return Err(LoadError::NotAnInteger(name));
                    },
                }
            }
            Ok(out)
        },
        _ => Err(LoadError::NotAnObject),
    }
}

proof fn lemma_vocab_of_converted(es: Seq<(String, i64)>, members: Seq<(String, JsonValue)>)
    requires
        es.len() == members.len(),
        forall|j: int|
            0 <= j < es.len() ==> (#[trigger] es[j]).0 == members[j].0 && es[j].1 == int_of(members[j].1),
    ensures
        vocab_of_entries(es) == vocab_of_members(members),
    decreases es.len(),
{
    if es.len() > 0 {
        assert forall|j: int| 0 <= j < es.len() - 1 implies (#[trigger] es.drop_last()[j]).0
            == members.drop_last()[j].0 && es.drop_last()[j].1 == int_of(members.drop_last()[j].1) by {
            assert(es.drop_last()[j] == es[j]);
            assert(members.drop_last()[j] == members[j]);
        }
        lemma_vocab_of_converted(es.drop_last(), members.drop_last());
        assert(es[es.len() - 1] == es.last());
    }
}

/// The vocabulary of the object `key` of a vocabulary document.
pub fn vocab_from_json(doc: &JsonValue, key: &str) -> (r: Result<Vocab, LoadError>)
    ensures
        vocab_result(*doc, key@, r),
{
    match vocab_entries_from_json(doc, key) {
        Ok(es) => {
            proof {
                if let Some(JsonValue::Object(members)) = json_member(*doc, key@) {
                    if all_int(members@) {
                        lemma_vocab_of_converted(es@, members@);
                    }
                }
            }
            Ok(vocab_from_entries(&es))
        },
        Err(e) => Err(e),
    }
}

/// The ids of an array of integers.
fn ints_of_array(xs: &Vec<JsonValue>) -> (r: Option<Vec<i64>>)
    ensures
        r is Some <==> forall|i: int| 0 <= i < xs@.len() ==> is_int(#[trigger] xs@[i]),
        r matches Some(v) ==> v@ == xs@.map_values(|x: JsonValue| int_of(x)),
{
    let mut out: Vec<i64> = Vec::new();
    for i in 0..xs.len()
        invariant
            forall|j: int| 0 <= j < i ==> is_int(#[trigger] xs@[j]),
            out@ =~= xs@.take(i as int).map_values(|x: JsonValue| int_of(x)),
    {
        match &xs[i] {
            JsonValue::Number(Some(x)) => {
                out.push(*x);
            },
            _ => {
                return None;
            },
        }
    }
    assert(xs@.take(xs@.len() as int) =~= xs@);
    Some(out)
}

proof fn lemma_word_tags_of_converted(
    es: Seq<(String, Vec<i64>)>,
    members: Seq<(String, JsonValue)>,
)
    requires
        es.len() == members.len(),
        forall|j: int|
            0 <= j < es.len() ==> (#[trigger] es[j]).0 == members[j].0 && ids_of(es[j].1@) == array_ids(
                members[j].1,
            ),
    ensures
        word_tags_of_entries(es) == word_tags_of_members(members),
    decreases es.len(),
{
    if es.len() > 0 {
        assert forall|j: int| 0 <= j < es.len() - 1 implies (#[trigger] es.drop_last()[j]).0
            == members.drop_last()[j].0 && ids_of(es.drop_last()[j].1@) == array_ids(
            members.drop_last()[j].1,
        ) by {
            assert(es.drop_last()[j] == es[j]);
            assert(members.drop_last()[j] == members[j]);
        }
        lemma_word_tags_of_converted(es.drop_last(), members.drop_last());
        assert(es[es.len() - 1] == es.last());
    }
}

/// The word dictionary of the object `key` of a word-tags document.
pub fn word_tags_from_json(doc: &JsonValue, key: &str) -> (r: Result<WordPosTags, LoadError>)
    ensures
        word_tags_result(*doc, key@, r),
{
    let inner = match find_member(doc, key) {
        Some(v) => v,
        None => {
            return Err(LoadError::MissingKey);
        },
    };
    match inner {
        JsonValue::Object(members) => {
            let mut out: Vec<(String, Vec<i64>)> = Vec::new();
            for i in 0..members.len()
                invariant
                    json_member(*doc, key@) == Some(*inner),
                    *inner == JsonValue::Object(*members),
                    out@.len() == i,
                    forall|j: int| 0 <= j < i ==> is_int_array(#[trigger] members@[j].1),
                    forall|j: int|
                        0 <= j < i ==> (#[trigger] out@[j]).0 == members@[j].0 && ids_of(out@[j].1@)
                            == array_ids(members@[j].1),
            {
                let m = &members[i];
                match &m.1 {
                    JsonValue::Array(xs) => {
                        match ints_of_array(xs) {
                            Some(ids) => {
                                assert(ids_of(ids@) =~= array_ids(m.1));
                                out.push((m.0.clone(), ids));
                            },
                            None => {
                                assert(first_non_int_array(members@, i as int));
                                assert forall|j: int| #[trigger] first_non_int_array(members@, j) implies j
                                    == i by {
                                    if j < i {
                                        assert(is_int_array(members@[j].1));
                                    } else if j > i {
                                        assert(is_int_array(members@[i as int].1));
                                    }
                                }
                                return Err(LoadError::NotAnInteger(m.0.clone()));
                            },
                        }
                    },
                    _ => {
                        assert forall|j: int| #[trigger] first_non_int_array(members@, j) implies j
                            == i by {
                            if j < i {
                                assert(is_int_array(members@[j].1));
                            } else if j > i {
                                assert(is_int_array(members@[i as int].1));
                            }
                        }
                        return Err(LoadError::NotAnArray(m.0.clone()));
                    },
                }
            }
            proof {
                lemma_word_tags_of_converted(out@, members@);
            }
            Ok(word_tags_from_entries(&out))
        },
        _ => Err(LoadError::NotAnObject),
    }
}

} // verus!
