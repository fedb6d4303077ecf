//! Input normalisation applied before segmentation: strip trailing white
//! space, NFKC-normalise, then replace `İ` (U+0130) by `I` and the ASCII space
//! by the ideographic space U+3000.

use unicode_normalization::UnicodeNormalization;
use vstd::prelude::*;
use crate::text::{chars_of, string_from_chars};

verus! {

/// The NFKC normal form (Unicode Standard Annex #15) of a character sequence,
/// as the `unicode-normalization` crate computes it.
pub uninterp spec fn nfkc_of(s: Seq<char>) -> Seq<char>;

/// Every character of `s` is ASCII.
pub open spec fn is_ascii_text(s: Seq<char>) -> bool {
    forall|i: int| 0 <= i < s.len() ==> #[trigger] s[i] <= '\u{7f}'
}

/// NFKC normalisation of `s`.
///
/// Trusted: calls `UnicodeNormalization::nfkc` of `unicode-normalization`
/// on `s` and collects the characters; the result is named `nfkc_of(s@)`.
/// Also stated: the empty text stays empty, and ASCII text is left as it is
/// (no ASCII character has a decomposition, a non-zero combining class or a
/// composition with another ASCII character).
#[verifier::external_body]
pub fn normalize_nfkc(s: &str) -> (r: String)
    ensures
        r@ == nfkc_of(s@),
        s@.len() == 0 ==> r@.len() == 0,
        is_ascii_text(s@) ==> r@ == s@,
{
    s.nfkc().collect()
}

/// Unicode's `White_Space` property, the one `char::is_whitespace` and
/// `str::trim_end` test.
pub open spec fn is_white_space(c: char) -> bool {
    ||| ('\u{9}' <= c && c <= '\u{d}')
    ||| c == ' '
    ||| c == '\u{85}'
    ||| c == '\u{a0}'
    ||| c == '\u{1680}'
    ||| ('\u{2000}' <= c && c <= '\u{200a}')
    ||| c == '\u{2028}'
    ||| c == '\u{2029}'
    ||| c == '\u{202f}'
    ||| c == '\u{205f}'
    ||| c == '\u{3000}'
}

/// `s` without its trailing run of white space.
pub open spec fn trim_end_spec(s: Seq<char>) -> Seq<char>
    decreases s.len(),
{
    if s.len() > 0 && is_white_space(s.last()) {
        trim_end_spec(s.drop_last())
    } else {
        s
    }
}

/// The per-character replacement done after normalisation.
pub open spec fn substitute_char(c: char) -> char {
    if c == '\u{130}' {
        'I'
    } else if c == ' ' {
        '\u{3000}'
    } else {
        c
    }
}

/// Normalisation without the initial strip.
pub open spec fn normalize_no_strip_spec(t: Seq<char>) -> Seq<char> {
    nfkc_of(t).map_values(|c: char| substitute_char(c))
}

/// `r` is `n` with `İ` replaced by `I` and the ASCII space by U+3000, every
/// other character kept at its place.
pub open spec fn only_two_replaced(n: Seq<char>, r: Seq<char>) -> bool {
    &&& r.len() == n.len()
    &&& forall|i: int|
        0 <= i < n.len() ==> {
            &&& n[i] == '\u{130}' ==> #[trigger] r[i] == 'I'
            &&& n[i] == ' ' ==> r[i] == '\u{3000}'
            &&& (n[i] != '\u{130}' && n[i] != ' ') ==> r[i] == n[i]
        }
}

/// After NFKC only `İ` and the ASCII space are replaced; every other
/// character, tab and newline among them, stays where it is.
pub proof fn lemma_only_two_replaced(t: Seq<char>)
    ensures
        only_two_replaced(nfkc_of(t), normalize_no_strip_spec(t)),
{
}

/// What `preprocess` returns for the text `t`.
pub open spec fn preprocess_spec(t: Seq<char>) -> Seq<char> {
    normalize_no_strip_spec(trim_end_spec(t))
}

/// Every character of `s` is white space.
pub open spec fn is_blank(s: Seq<char>) -> bool {
    forall|i: int| 0 <= i < s.len() ==> is_white_space(#[trigger] s[i])
}

/// Stripping a blank text leaves nothing.
pub proof fn lemma_trim_end_blank(s: Seq<char>)
    requires
        is_blank(s),
    ensures
        trim_end_spec(s).len() == 0,
    decreases s.len(),
{
    if s.len() > 0 {
        assert(is_white_space(s[s.len() - 1]));
        lemma_trim_end_blank(s.drop_last());
    }
}

/// Stripping removes a trailing run of white space and nothing else: the
/// result is a prefix of `s`, every removed character is white space, and
/// the result does not end in white space.
pub proof fn lemma_trim_end_removes_trailing_white_space(s: Seq<char>)
    ensures
        trim_end_spec(s).len() <= s.len(),
        trim_end_spec(s) == s.subrange(0, trim_end_spec(s).len() as int),
        forall|i: int| trim_end_spec(s).len() <= i < s.len() ==> is_white_space(#[trigger] s[i]),
        trim_end_spec(s).len() > 0 ==> !is_white_space(trim_end_spec(s).last()),
    decreases s.len(),
{
    if s.len() > 0 && is_white_space(s.last()) {
        lemma_trim_end_removes_trailing_white_space(s.drop_last());
        let t = trim_end_spec(s.drop_last());
        assert(s.drop_last().subrange(0, t.len() as int) =~= s.subrange(0, t.len() as int));
        assert forall|i: int| t.len() <= i < s.len() implies is_white_space(#[trigger] s[i]) by {
            if i < s.len() - 1 {
                assert(s.drop_last()[i] == s[i]);
            }
        }
    } else {
        assert(s.subrange(0, s.len() as int) =~= s);
    }
}

/// Whether `c` has Unicode's `White_Space` property.
pub fn is_white_space_char(c: char) -> (r: bool)
    ensures
        r == is_white_space(c),
{
    ('\u{9}' <= c && c <= '\u{d}') || c == ' ' || c == '\u{85}' || c == '\u{a0}'
        || c == '\u{1680}' || ('\u{2000}' <= c && c <= '\u{200a}') || c == '\u{2028}'
        || c == '\u{2029}' || c == '\u{202f}' || c == '\u{205f}' || c == '\u{3000}'
}

/// `s` without trailing white space, as `str::trim_end` gives it.
pub fn py_rstrip(s: &str) -> (r: &str)
    ensures
        r@ == trim_end_spec(s@),
        r@.len() <= s@.len(),
        r@ == s@.subrange(0, r@.len() as int),
        forall|i: int| r@.len() <= i < s@.len() ==> is_white_space(#[trigger] s@[i]),
        r@.len() > 0 ==> !is_white_space(r@.last()),
{
    proof {
        lemma_trim_end_removes_trailing_white_space(s@);
    }
    let cs = chars_of(s);
    let mut k: usize = cs.len();
    assert(s@.subrange(0, k as int) =~= s@);
    while k > 0 && is_white_space_char(cs[k - 1])
        invariant
            k <= cs@.len(),
            cs@ == s@,
            trim_end_spec(s@.subrange(0, k as int)) == trim_end_spec(s@),
        decreases k,
    {
        assert(s@.subrange(0, k as int).drop_last() =~= s@.subrange(0, k - 1));
        k = k - 1;
    }
    s.substring_char(0, k)
}

/// Replaces `İ` by `I` and the ASCII space by U+3000 in each character.
fn substitute_all(cs: &Vec<char>) -> (r: Vec<char>)
    ensures
        r@ == cs@.map_values(|c: char| substitute_char(c)),
{
    let mut out: Vec<char> = Vec::new();
    for i in 0..cs.len()
        invariant
            out@ =~= cs@.take(i as int).map_values(|c: char| substitute_char(c)),
    {
        let c = cs[i];
        let d = if c == '\u{130}' {
            'I'
        } else if c == ' ' {
            '\u{3000}'
        } else {
            c
        };
        out.push(d);
    }
    assert(cs@.take(cs@.len() as int) =~= cs@);
    out
}

/// NFKC normalisation followed by the `İ` and space replacements, without
/// stripping trailing white space first.
pub fn normalize_without_rstrip(text: &str) -> (r: String)
    ensures
        r@ == normalize_no_strip_spec(text@),
        only_two_replaced(nfkc_of(text@), r@),
        !r@.contains(' '),
        !r@.contains('\u{130}'),
        text@.len() == 0 ==> r@.len() == 0,
{
    let normalized = normalize_nfkc(text);
    let cs = chars_of(normalized.as_str());
    let out = substitute_all(&cs);
    string_from_chars(out.as_slice())
}

/// The full normalisation: trailing white space stripped, then NFKC, then
/// `İ` → `I` and ASCII space → U+3000.
pub fn preprocess(text: &str) -> (r: String)
    ensures
        r@ == preprocess_spec(text@),
        only_two_replaced(nfkc_of(trim_end_spec(text@)), r@),
        !r@.contains(' '),
        !r@.contains('\u{130}'),
        is_blank(text@) ==> r@.len() == 0,
{
    let stripped = py_rstrip(text);
    proof {
        if is_blank(text@) {
            lemma_trim_end_blank(text@);
        }
    }
    normalize_without_rstrip(stripped)
}

} // verus!
