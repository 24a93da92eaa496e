use std::sync::Arc;

use vstd::prelude::*;

use crate::backends::web::google_translate::{gtrans_response_spec, translated_text};
use crate::backends::web::youdao::params_view;
use crate::json::JsonValue;
use crate::server::types::{Query, WordData};

verus! {

/// The Google Translate backend of the server.
pub struct GTrans {
    url_free: String,
    _url_voice: String,
}

impl GTrans {
    pub fn new() -> (res: GTrans)
        ensures
            res.url()@ == "https://translate.google.cn/translate_a/single?client=gtx&dt=t"@,
    {
        GTrans {
            url_free: "https://translate.google.cn/translate_a/single?client=gtx&dt=t".to_owned(),
            _url_voice: "https: //translate.google.cn/translate_tts?ie=UTF-8&client=t&prev
=input&q={}&tl=en&total=1&idx=0&textlen=4&tk={}".to_owned(),
        }
    }

    /// The API endpoint.
    pub closed spec fn url(&self) -> String {
        self.url_free
    }

    /// The API endpoint.
    pub fn url_free(&self) -> (res: &String)
        ensures
            *res == self.url(),
    {
        &self.url_free
    }

    /// The form to post for `query`: the text, the target language, automatic
    /// detection of the source language, and UTF-8 in and out.
    pub fn request_params(&self, query: &Query) -> (res: Vec<(String, String)>)
        ensures
            params_view(res@) == seq![
                ("q"@, query.text@),
                ("tl"@, query.lang_to@),
                ("sl"@, "auto"@),
                ("ie"@, "UTF-8"@),
                ("oe"@, "UTF-8"@),
            ],
    {
        let mut params: Vec<(String, String)> = Vec::new();
        params.push(("q".to_owned(), query.text.to_owned()));
        params.push(("tl".to_owned(), query.lang_to.clone()));
        params.push(("sl".to_owned(), "auto".to_owned()));
        params.push(("ie".to_owned(), "UTF-8".to_owned()));
        params.push(("oe".to_owned(), "UTF-8".to_owned()));
        assert(params_view(params@) =~= seq![
            ("q"@, query.text@),
            ("tl"@, query.lang_to@),
            ("sl"@, "auto"@),
            ("ie"@, "UTF-8"@),
            ("oe"@, "UTF-8"@),
        ]);
        params
    }

    /// Reads Google's answer to `query`, which must hold the translation (see
    /// `gtrans_response_spec`): its text is the short description.
    pub fn parse_response<'a>(query: Arc<Query<'a>>, data: &JsonValue) -> (res: WordData<'a>)
        requires
            gtrans_response_spec(*data) matches Some(Ok(_)),
        ensures
            res.backend@ == "google translate"@,
            res.query == query,
            res.short_desc@ == gtrans_response_spec(*data)->0->Ok_0,
            res.phonetic_symbol is None,
            res.long_desc is None,
            res.audio is None,
    {
        let text = match translated_text(data) {
            Ok(t) => t,
            Err(_) => String::new(),
        };
        WordData {
            backend: "google translate".to_owned(),
            query,
            short_desc: text,
            phonetic_symbol: None,
            long_desc: None,
            audio: None,
        }
    }
}

} // verus!
