use vstd::prelude::*;

use crate::backends::web::google_translate_token::{get_tk, token_spec};
use crate::backends::web::youdao::params_view;
use crate::json::JsonValue;
use crate::text::push_str;
use crate::types::{Query, RespData};

verus! {

/// The Google Translate backend.
#[derive(Clone, Debug)]
pub struct GTrans {
    url_free: String,
    _url_voice: String,
}

/// The `dt` parameter: the kinds of data asked for.
pub open spec fn gtrans_dt() -> Seq<char> {
    "[\"at\", \"bd\", \"ex\", \"ld\", \"md\", \"qca\", \"rw\", \"rm\", \"ss\", \"t\"]"@
}

/// The form of a Google Translate request for `text` into `lang_to`.
pub open spec fn gtrans_params_spec(text: Seq<char>, lang_to: Seq<char>) -> Seq<(Seq<char>, Seq<char>)> {
    seq![
        ("client"@, "webapp"@),
        ("sl"@, "auto"@),
        ("tl"@, lang_to),
        ("hl"@, "en"@),
        ("dt"@, gtrans_dt()),
        ("source"@, "bh"@),
        ("ssel"@, "0"@),
        ("tsel"@, "0"@),
        ("kc"@, "1"@),
        ("tk"@, token_spec(seq!['0'], text)),
        ("q"@, text),
    ]
}

/// The translated text of the sentence list `items`: the first element of each
/// item (itself a list) must be a string, and these strings are joined.  `None`
/// where an item is an empty list, whose first element does not exist.
pub open spec fn sentences_text(items: Seq<JsonValue>) -> Option<Result<Seq<char>, Seq<char>>>
    decreases items.len(),
{
    if items.len() == 0 {
        Some(Ok(Seq::empty()))
    } else {
        match items[0] {
            JsonValue::Array(parts) => if parts@.len() == 0 {
                None
            } else {
                match parts@[0] {
                    JsonValue::Str(s) => prefix_text(s@, sentences_text(items.drop_first())),
                    _ => Some(Err("not a string"@)),
                }
            },
            _ => Some(Err("not an array"@)),
        }
    }
}

/// `r` with `p` put before its text, when it is a text.
pub open spec fn prefix_text(p: Seq<char>, r: Option<Result<Seq<char>, Seq<char>>>) -> Option<Result<Seq<char>, Seq<char>>> {
    match r {
        Some(Ok(t)) => Some(Ok(p + t)),
        other => other,
    }
}

/// What a Google Translate response gives: the sentences (see `sentences_text`)
/// of the first element of the top-level list, or an error message when a value
/// has the wrong kind.  `None` where a list that is read from is empty.
pub open spec fn gtrans_response_spec(data: JsonValue) -> Option<Result<Seq<char>, Seq<char>>> {
    match data {
        JsonValue::Array(outer) => if outer@.len() == 0 {
            None
        } else {
            match outer@[0] {
                JsonValue::Array(items) => sentences_text(items@),
                _ => Some(Err("not an array"@)),
            }
        },
        _ => Some(Err("not an array"@)),
    }
}

impl GTrans {
    pub fn new() -> (res: GTrans)
        ensures
            res.url()@ == "https://translate.google.com/translate_a/single?"@,
    {
        GTrans {
            url_free: "https://translate.google.com/translate_a/single?".to_owned(),
            _url_voice: "https: //translate.google.cn/translate_tts?ie=UTF-8&client=t&prev
=input&q={}&tl=en&total=1&idx=0&textlen=4&tk={}".to_owned(),
        }
    }

    /// The API endpoint.
    pub closed spec fn url(&self) -> String {
        self.url_free
    }

    /// The API endpoint.
    pub fn url_free(&self) -> (res: &String)
        ensures
            *res == self.url(),
    {
        &self.url_free
    }

    /// The form to post for `query` (see `gtrans_params_spec`).
    pub fn request_params(&self, query: &Query) -> (res: Vec<(String, String)>)
        ensures
            params_view(res@) == gtrans_params_spec(query.text@, query.lang_to@),
    {
        let mut params: Vec<(String, String)> = Vec::new();
        params.push(("client".to_owned(), "webapp".to_owned()));
        params.push(("sl".to_owned(), "auto".to_owned()));
        params.push(("tl".to_owned(), query.lang_to.clone()));
        params.push(("hl".to_owned(), "en".to_owned()));
        params.push((
            "dt".to_owned(),
            "[\"at\", \"bd\", \"ex\", \"ld\", \"md\", \"qca\", \"rw\", \"rm\", \"ss\", \"t\"]".to_owned(),
        ));
        params.push(("source".to_owned(), "bh".to_owned()));
        params.push(("ssel".to_owned(), "0".to_owned()));
        params.push(("tsel".to_owned(), "0".to_owned()));
        params.push(("kc".to_owned(), "1".to_owned()));
        params.push(("tk".to_owned(), get_tk(query.text.as_str())));
        params.push(("q".to_owned(), query.text.clone()));
        assert(params_view(params@) =~= gtrans_params_spec(query.text@, query.lang_to@));
        params
    }

    /// Whether every list that reading `data` indexes is non-empty, so that
    /// `parse_response` may read it.
    pub fn response_is_readable(data: &JsonValue) -> (res: bool)
        ensures
            res == gtrans_response_spec(*data) is Some,
    {
        let outer = match data.as_array() {
            Some(o) => o,
            None => { return true; }
        };
        if outer.len() == 0 {
            return false;
        }
        let items = match outer[0].as_array() {
            Some(i) => i,
            None => { return true; }
        };
        let mut i: usize = items.len();
        let mut readable = true;
        assert(items@.skip(i as int) =~= Seq::<JsonValue>::empty());
        while i > 0
            invariant
                i <= items@.len(),
                readable == sentences_text(items@.skip(i as int)) is Some,
            decreases i,
        {
            i = i - 1;
            assert(items@.skip(i as int)[0] == items@[i as int]);
            assert(items@.skip(i as int).drop_first() =~= items@.skip(i + 1));
            match &items[i] {
                JsonValue::Array(parts) => {
                    if parts.len() == 0 {
                        readable = false;
                    } else {
                        match &parts[0] {
                            JsonValue::Str(_) => {},
                            _ => { readable = true; },
                        }
                    }
                },
                _ => { readable = true; },
            }
        }
        assert(items@.skip(0) =~= items@);
        readable
    }

    /// Reads Google's answer to `query` (see `gtrans_response_spec`).
    pub fn parse_response(query: Query, data: &JsonValue) -> (res: Result<RespData, String>)
        requires
            gtrans_response_spec(*data) is Some,
        ensures
            match gtrans_response_spec(*data) {
                Some(Ok(text)) => res is Ok && {
                    let r = res->Ok_0;
                    &&& r.backend@ == "google translate"@
                    &&& r.query == query
                    &&& r.basic_desc@ == text
                    &&& r.phonetic_symbol is None
                    &&& r.detail_desc is None
                    &&& r.audio is None
                },
                Some(Err(e)) => res is Err && res->Err_0@ == e,
                None => false,
            },
    {
        match translated_text(data) {
            Ok(text) => Ok(RespData {
                backend: "google translate".to_owned(),
                query,
                basic_desc: text,
                phonetic_symbol: None,
                detail_desc: None,
                audio: None,
            }),
            Err(e) => Err(e),
        }
    }
}

/// The translated text of a Google Translate response, or the error message
/// (see `gtrans_response_spec`).
pub fn translated_text(data: &JsonValue) -> (res: Result<String, String>)
    requires
        gtrans_response_spec(*data) is Some,
    ensures
        match gtrans_response_spec(*data) {
            Some(Ok(text)) => res is Ok && res->Ok_0@ == text,
            Some(Err(e)) => res is Err && res->Err_0@ == e,
            None => false,
        },
{
    let outer = match data.as_array() {
        Some(o) => o,
        None => { return Err("not an array".to_owned()); }
    };
    let items = match outer[0].as_array() {
        Some(i) => i,
        None => { return Err("not an array".to_owned()); }
    };
    let mut trans_text = String::new();
    let mut i: usize = 0;
    assert(items@.skip(0) =~= items@);
    assert(trans_text@ + Seq::<char>::empty() =~= Seq::<char>::empty());
    while i < items.len()
        invariant
            i <= items@.len(),
            gtrans_response_spec(*data) == sentences_text(items@),
            sentences_text(items@) is Some,
            sentences_text(items@) == prefix_text(trans_text@, sentences_text(items@.skip(i as int))),
        decreases items@.len() - i,
    {
        let ghost rest = items@.skip(i as int);
        assert(rest[0] == items@[i as int]);
        assert(rest.drop_first() =~= items@.skip(i + 1));
        let parts = match items[i].as_array() {
            Some(p) => p,
            None => { return Err("not an array".to_owned()); }
        };
        let sentence = match parts[0].as_str() {
            Some(s) => s,
            None => { return Err("not a string".to_owned()); }
        };
        let ghost before = trans_text@;
        push_str(&mut trans_text, sentence.as_str());
        proof {
            match sentences_text(items@.skip(i + 1)) {
                Some(Ok(t)) => { assert(before + (sentence@ + t) =~= trans_text@ + t); },
                _ => {},
            }
        }
        i = i + 1;
    }
    assert(items@.skip(i as int) =~= Seq::<JsonValue>::empty());
    assert(trans_text@ + Seq::<char>::empty() =~= trans_text@);
    Ok(trans_text)
}

} // verus!
