use vstd::prelude::*;

verus! {

/// A dictionary entry: a key word or phrase with its definition text.
pub struct Word {
    pub key_text: String,
    pub record_text: String,
}

impl Word {
    pub fn new(key_text: String, record_text: String) -> (res: Self)
        ensures
            res.key_text == key_text,
            res.record_text == record_text,
    {
        Self { key_text, record_text }
    }
}

} // verus!
