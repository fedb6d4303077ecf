//! Japanese word segmentation and part-of-speech tagging: the text pipeline
//! around a BiLSTM-CRF model, with the model's numeric evaluation left to the
//! caller.

pub mod features;
pub mod pos;
pub mod preprocess;
pub mod segment;
mod text;
pub mod weights;

pub use features::{feature_extraction, VocabConfig};
pub use preprocess::preprocess;
pub use segment::segment;

use vstd::prelude::*;
use crate::features::{features_of, Features};
use crate::preprocess::{is_blank, preprocess_spec};
use crate::text::chars_of;

verus! {

/// Words of a text and the part-of-speech tag of each.
#[derive(Debug, Clone, PartialEq, Eq)]
pub struct TaggingResult {
    pub words: Vec<String>,
    pub postags: Vec<String>,
}

/// The lower-case form of a text, as `str::to_lowercase` maps it (Unicode's
/// case mapping, final sigma included).
pub uninterp spec fn lowercase_of(s: Seq<char>) -> Seq<char>;

/// Trusted: calls `str::to_lowercase`; its result is named `lowercase_of(s@)`.
#[verifier::external_body]
fn to_lowercase(s: &str) -> (r: String)
    ensures
        r@ == lowercase_of(s@),
{
    s.to_lowercase()
}

/// What the segmentation model reads of a text.
pub struct WakatiInput {
    /// The normalised text; the model's tags delimit its words.
    pub chars: Vec<char>,
    /// The features of the lower-cased normalised text.
    pub features: Features,
}

/// The normalised text and its features, or `None` where the normalised text
/// is empty (it has no words) or too long to be windowed.
pub fn wakati_input(text: &str, cfg: &VocabConfig) -> (r: Option<WakatiInput>)
    requires
        cfg.window_size == 3,
    ensures
        r is Some <==> (preprocess_spec(text@).len() > 0 && lowercase_of(preprocess_spec(text@)).len()
            + 3 <= usize::MAX),
        is_blank(text@) ==> r is None,
        r matches Some(input) ==> {
            &&& input.chars@ == preprocess_spec(text@)
            &&& features_of(&input.features, lowercase_of(preprocess_spec(text@)), cfg)
        },
{
    let pre = preprocess(text);
    let chars = chars_of(pre.as_str());
    if chars.len() == 0 {
        return None;
    }
    let lower = to_lowercase(pre.as_str());
    let lower_chars = chars_of(lower.as_str());
    if lower_chars.len() > usize::MAX - 3 {
        return None;
    }
    let features = feature_extraction(lower.as_str(), cfg);
    Some(WakatiInput { chars, features })
}

} // verus!
