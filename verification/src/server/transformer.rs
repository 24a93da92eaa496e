use vstd::prelude::*;

use crate::transformer::has_chinese;

verus! {

/// A text transformer that works in place.
pub trait Transformer {
    /// perform the transform
    fn act<'a>(&self, text: &'a mut str) -> &'a str;
}

/// The transformers there are.
pub enum TF {
    Concat,
}

/// Identifies the language of a text: Chinese (`zh`) if any character is a CJK
/// unified ideograph, English (`en`) otherwise.
pub fn identify_language(text: &str) -> (res: &str)
    ensures
        res@ == (if has_chinese(text@) { "zh"@ } else { "en"@ }),
{
    crate::transformer::identify_language(text)
}

} // verus!
