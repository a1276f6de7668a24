use vstd::prelude::*;

verus! {

/// A stretch of the input: its code (pinyin syllables, e.g. "ni"), and, once
/// translated, its text (e.g. "你") and weight.
pub struct Segment {
    pub code: String,
    pub text: Option<String>,
    pub weight: Option<u32>,
}

impl Segment {
    /// A segment already translated to `text` with `weight`.
    pub fn with_translation(code: String, text: String, weight: u32) -> (s: Self)
        ensures
            s.code == code,
            s.text == Some(text),
            s.weight == Some(weight),
    {
        Segment { code, text: Some(text), weight: Some(weight) }
    }
}

} // verus!
