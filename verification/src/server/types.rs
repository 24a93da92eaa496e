use std::sync::Arc;

use vstd::prelude::*;

verus! {

/// Audio of a query (not produced by any backend yet).
#[derive(Debug)]
pub struct Audio;

/// A backend's answer to a query.
#[derive(Debug)]
pub struct WordData<'a> {
    /// backend identifier
    pub backend: String,
    pub query: Arc<Query<'a>>,
    pub short_desc: String,
    pub phonetic_symbol: Option<String>,
    /// long description of the words
    pub long_desc: Option<String>,
    pub audio: Option<Audio>,
}

/// A query for a text.
#[derive(Debug)]
pub struct Query<'a> {
    /// the query text
    pub text: &'a str,
    /// the language the text is written in
    pub lang_from: String,
    /// the language of the description
    pub lang_to: String,
    pub audio: bool,
}

impl<'a> Query<'a> {
    pub fn new(text: &'a str, lang_from: &str, lang_to: &str, audio: bool) -> (res: Query<'a>)
        ensures
            res.text@ == text@,
            res.lang_from@ == lang_from@,
            res.lang_to@ == lang_to@,
            res.audio == audio,
    {
        Query { text, lang_to: lang_to.to_owned(), lang_from: lang_from.to_owned(), audio }
    }
}

/// A backend for looking words up.
pub trait Backend {
    /// Whether `r` is an answer that this backend gives to `query`; each
    /// backend says what its answers are.
    spec fn answers<'a>(&self, query: Arc<Query<'a>>, r: Result<WordData<'a>, String>) -> bool;

    fn query<'a>(&self, query: Arc<Query<'a>>) -> (r: Result<WordData<'a>, String>)
        ensures
            self.answers(query, r),
    ;
}

} // verus!
