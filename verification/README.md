# nagisa_rs

Japanese word segmentation and part-of-speech tagging with a BiLSTM-CRF model
(`nagisa_v001`), with the text pipeline verified in Verus.

## Layout

- `src/` — the verified library:
  - `preprocess.rs` — trailing white-space strip, NFKC (through the
    `unicode-normalization` crate), `İ` → `I`, space → U+3000.
  - `features.rs` — character types, unigram/bigram/character-type windows
    and the dictionary words starting and ending at each position.
  - `segment.rs` — BMES decoding into words, and reading the Viterbi path
    back from its back pointers.
  - `pos.rs` — what the tagger reads of a word list (word ids, character ids,
    candidate tags) and the names of the tags it picks.
  - `weights.rs` — vocabularies and hyper-parameters.
  - `lib.rs` — the model input of a text (`wakati_input`) and
    `TaggingResult`.
- `app/` — the `Tagger`: loading of the JSON and safetensors model files and
  the floating-point network (LSTMs, projections, Viterbi scores), which call
  into the library before and after the numeric part.
- `tests/` — tests of the library.
