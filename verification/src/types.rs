use vstd::prelude::*;

verus! {

/// Audio of a query (not produced by any backend yet).
#[derive(Debug)]
pub struct Audio;

/// A backend's answer to a query.
#[derive(Debug)]
pub struct RespData {
    /// backend identifier
    pub backend: String,
    pub query: Query,
    /// basic description of the words' or sentences' translation
    pub basic_desc: String,
    /// phonetic symbols, as (variant, symbol) pairs
    pub phonetic_symbol: Option<Vec<(String, String)>>,
    /// detail description of the words
    pub detail_desc: Option<String>,
    pub audio: Option<Audio>,
}

/// A query for a text.
#[derive(Debug, Clone)]
pub struct Query {
    /// the query text
    pub text: String,
    /// short (words and phrases) or long (sentences)
    pub is_short_text: bool,
    /// the language the text is written in
    pub lang_from: String,
    /// the language of the description
    pub lang_to: String,
    pub audio: bool,
}

/// A text is short when its UTF-8 encoding takes fewer than 20 bytes.
pub open spec fn is_short_spec(text: Seq<char>) -> bool {
    vstd::utf8::encode_utf8(text).len() < 20
}

impl Query {
    pub fn new(text: &str, lang_from: &str, lang_to: &str, audio: bool) -> (res: Query)
        ensures
            res.text@ == text@,
            res.is_short_text == is_short_spec(text@),
            res.lang_from@ == lang_from@,
            res.lang_to@ == lang_to@,
            res.audio == audio,
    {
        let is_short = is_short_text(text);
        Query {
            text: text.to_owned(),
            is_short_text: is_short,
            lang_from: lang_from.to_owned(),
            lang_to: lang_to.to_owned(),
            audio,
        }
    }
}

/// Whether the text is short: fewer than 20 bytes in UTF-8.
pub fn is_short_text(text: &str) -> (res: bool)
    ensures
        res == is_short_spec(text@),
{
    text.as_bytes().len() < 20
}

} // verus!
