use sha2::Digest;
use vstd::prelude::*;

use crate::json::JsonValue;
use crate::text::{
    after_char, before_char, chars_of, decimal_text, join_spec, join_strings, push_char, push_str, split_first,
    string_of, u64_to_decimal,
};
use crate::types::{Query, RespData};

verus! {

/// A Youdao open API key.
#[derive(Debug, Clone)]
pub struct YoudaoAPIKey {
    pub secret_key: String,
    pub id: String,
}

/// The Youdao translation backend.
#[derive(Clone, Debug)]
pub struct Youdao {
    url_free: String,
    api_key: Option<YoudaoAPIKey>,
}

/// The SHA-256 digest of `data`.
pub uninterp spec fn sha256_of(data: Seq<u8>) -> Seq<u8>;

/// `sha2::Sha256::digest`: the 32-byte SHA-256 digest of the bytes.  The result
/// is named (`sha256_of`); its length is the one fact claimed about it.
#[verifier::external_body]
pub(crate) fn sha256_digest(data: &[u8]) -> (res: Vec<u8>)
    ensures
        res@ == sha256_of(data@),
        res@.len() == 32,
{
    sha2::Sha256::digest(data).to_vec()
}

/// `uuid::Uuid::new_v4().to_string()`: a random version-4 UUID in its hyphenated
/// form, 36 characters long; nothing else is claimed of it.
#[verifier::external_body]
fn new_salt() -> (res: String)
    ensures
        res@.len() == 36,
{
    uuid::Uuid::new_v4().to_string()
}

/// `SystemTime::now().duration_since(UNIX_EPOCH)` in whole seconds: `None` when
/// the clock is set before the Unix epoch.  It depends on the clock; nothing is
/// claimed of the value.
#[verifier::external_body]
fn unix_time_secs() -> (res: Option<u64>)
{
    match std::time::SystemTime::now().duration_since(std::time::UNIX_EPOCH) {
        Ok(d) => Some(d.as_secs()),
        Err(_) => None,
    }
}

/// The upper-case hexadecimal digit of `d` (below 16).
pub open spec fn hex_digit(d: nat) -> char {
    if d < 10 {
        ((d + 48) as u32) as char
    } else {
        ((d + 55) as u32) as char
    }
}

/// The upper-case hexadecimal text of the bytes, two digits per byte.
pub open spec fn hex_upper_spec(bytes: Seq<u8>) -> Seq<char>
    decreases bytes.len(),
{
    if bytes.len() == 0 {
        Seq::empty()
    } else {
        hex_upper_spec(bytes.drop_last()) + seq![hex_digit(bytes.last() as nat / 16), hex_digit(bytes.last() as nat % 16)]
    }
}

fn hex_digit_char(d: u8) -> (res: char)
    requires
        d < 16,
    ensures
        res == hex_digit(d as nat),
{
    let v: u32 = if d < 10 { d as u32 + 48 } else { d as u32 + 55 };
    let r = crate::mdict::utils::char_from_u32(v);
    match r {
        Some(c) => {
            proof { vstd::utf8::char_u32_cast(c, v); }
            c
        },
        None => {
            assert(vstd::utf8::is_scalar(v));
            '0'
        },
    }
}

/// The bytes as upper-case hexadecimal text.
pub fn hex_upper(bytes: &Vec<u8>) -> (res: String)
    ensures
        res@ == hex_upper_spec(bytes@),
{
    let mut out = String::new();
    let mut i: usize = 0;
    assert(bytes@.take(0) =~= Seq::<u8>::empty());
    while i < bytes.len()
        invariant
            i <= bytes@.len(),
            out@ == hex_upper_spec(bytes@.take(i as int)),
        decreases bytes@.len() - i,
    {
        let b = bytes[i];
        push_char(&mut out, hex_digit_char(b / 16));
        push_char(&mut out, hex_digit_char(b % 16));
        i = i + 1;
        assert(bytes@.take(i as int).drop_last() =~= bytes@.take(i - 1));
        assert(out@ =~= hex_upper_spec(bytes@.take(i as int)));
    }
    assert(bytes@.take(i as int) =~= bytes@);
    out
}

/// The part of the query text that the request signature covers: the text
/// itself up to 20 characters; otherwise its first 10 characters, its length in
/// characters, and its last 10 characters.
pub open spec fn sign_text(text: Seq<char>) -> Seq<char> {
    if text.len() <= 20 {
        text
    } else {
        text.take(10) + decimal_text(text.len()) + text.skip(text.len() - 10)
    }
}

/// The request signature: the upper-case hex SHA-256 of the UTF-8 of app id,
/// `sign_text`, salt, time and secret key, in that order.
pub open spec fn sign_spec(id: Seq<char>, text: Seq<char>, salt: Seq<char>, curtime: Seq<char>, secret: Seq<char>) -> Seq<char> {
    hex_upper_spec(sha256_of(vstd::utf8::encode_utf8(id + sign_text(text) + salt + curtime + secret)))
}

/// Youdao's name of a language: `zh-CHS` for `zh`, the code itself otherwise.
pub open spec fn map_lang_spec(code: Seq<char>) -> Seq<char> {
    if code == "zh"@ {
        "zh-CHS"@
    } else {
        code
    }
}

/// The view of request parameters.
pub open spec fn params_view(v: Seq<(String, String)>) -> Seq<(Seq<char>, Seq<char>)> {
    v.map_values(|p: (String, String)| (p.0@, p.1@))
}

/// The strings of a list of JSON values, if all are strings.
pub open spec fn strings_of(items: Seq<JsonValue>) -> Option<Seq<Seq<char>>>
    decreases items.len(),
{
    if items.len() == 0 {
        Some(Seq::empty())
    } else {
        match items.last() {
            JsonValue::Str(s) => match strings_of(items.drop_last()) {
                Some(r) => Some(r.push(s@)),
                None => None,
            },
            _ => None,
        }
    }
}

/// Each string followed by `;` and a tab.
pub open spec fn explains_text(ss: Seq<Seq<char>>) -> Seq<char>
    decreases ss.len(),
{
    if ss.len() == 0 {
        Seq::empty()
    } else {
        explains_text(ss.drop_last()) + ss.last() + ";\t"@
    }
}

/// The `explains` of a `basic` section, each followed by `;` and a tab.
pub open spec fn explains_spec(basic: JsonValue) -> Option<Seq<char>> {
    match basic.get_spec("explains"@) {
        Some(JsonValue::Array(items)) => match strings_of(items@) {
            Some(ss) => Some(explains_text(ss)),
            None => None,
        },
        _ => None,
    }
}

/// One phonetic field of a `basic` section: absent, or a string shown between
/// slashes (labelled `us`); anything else is malformed.
pub open spec fn phonetic_field(basic: JsonValue, field: Seq<char>) -> Option<Seq<(Seq<char>, Seq<char>)>> {
    match basic.get_spec(field) {
        None => Some(Seq::empty()),
        Some(JsonValue::Str(s)) => Some(seq![("us"@, "/"@ + s@ + "/"@)]),
        Some(_) => None,
    }
}

/// The phonetic symbols of a `basic` section: its US, then its UK phonetic.
pub open spec fn phonetics_spec(basic: JsonValue) -> Option<Seq<(Seq<char>, Seq<char>)>> {
    match (phonetic_field(basic, "us-phonetic"@), phonetic_field(basic, "uk-phonetic"@)) {
        (Some(us), Some(uk)) => Some(us + uk),
        _ => None,
    }
}

/// What a Youdao response gives: the error code when it is not `0`; otherwise,
/// for a word (a `basic` section), its explanations, with phonetic symbols when
/// the detected source language (before the `2` of `l`) is English; for other
/// texts the translations joined by line breaks.  `None` where a field that is
/// read is missing or of the wrong kind, or `l` has no `2`.
pub open spec fn youdao_response_spec(data: JsonValue) -> Option<Result<(Seq<char>, Option<Seq<(Seq<char>, Seq<char>)>>), Seq<char>>> {
    match data.get_spec("errorCode"@) {
        Some(JsonValue::Str(code)) => if code@ != "0"@ {
            Some(Err(code@))
        } else {
            match data.get_spec("l"@) {
                Some(JsonValue::Str(l)) => if after_char(l@, '2') is None {
                    None
                } else {
                    match data.get_spec("basic"@) {
                        Some(basic) => match explains_spec(basic) {
                            None => None,
                            Some(ex) => if before_char(l@, '2') == "en"@ {
                                match phonetics_spec(basic) {
                                    Some(ps) => Some(Ok((ex, Some(ps)))),
                                    None => None,
                                }
                            } else {
                                Some(Ok((ex, None)))
                            },
                        },
                        None => match data.get_spec("translation"@) {
                            Some(JsonValue::Array(items)) => match strings_of(items@) {
                                Some(ss) => Some(Ok((join_spec(ss, "\n"@), None))),
                                None => None,
                            },
                            _ => None,
                        },
                    }
                },
                _ => None,
            }
        },
        _ => None,
    }
}

/// The view of what `read_answer` gives.
pub open spec fn answer_view(a: Result<(String, Option<Vec<(String, String)>>), String>) -> Result<(Seq<char>, Option<Seq<(Seq<char>, Seq<char>)>>), Seq<char>> {
    match a {
        Ok((desc, Some(ps))) => Ok((desc@, Some(params_view(ps@)))),
        Ok((desc, None)) => Ok((desc@, None)),
        Err(e) => Err(e@),
    }
}

/// The strings of a list of JSON values, if all are strings.
pub(crate) fn strings_list(items: &Vec<JsonValue>) -> (res: Option<Vec<String>>)
    ensures
        match strings_of(items@) {
            Some(ss) => res is Some && res->0@.map_values(|t: String| t@) == ss,
            None => res is None,
        },
{
    let mut out: Vec<String> = Vec::new();
    let mut i: usize = 0;
    assert(items@.take(0) =~= Seq::<JsonValue>::empty());
    assert(out@.map_values(|t: String| t@) =~= Seq::<Seq<char>>::empty());
    while i < items.len()
        invariant
            i <= items@.len(),
            strings_of(items@.take(i as int)) == Some(out@.map_values(|t: String| t@)),
        decreases items@.len() - i,
    {
        assert(items@.take(i + 1).drop_last() =~= items@.take(i as int));
        assert(items@.take(i + 1).last() == items@[i as int]);
        match items[i].as_str() {
            Some(t) => {
                let ghost old_out = out@;
                out.push(t.clone());
                assert(out@.map_values(|t: String| t@) =~= old_out.map_values(|t: String| t@).push(t@));
            },
            None => {
                proof { lemma_strings_of_prefix_none(items@, i as nat); }
                return None;
            },
        }
        i = i + 1;
    }
    assert(items@.take(i as int) =~= items@);
    Some(out)
}

/// Once a prefix holds a value that is not a string, the whole list does.
proof fn lemma_strings_of_prefix_none(items: Seq<JsonValue>, i: nat)
    requires
        i < items.len(),
        strings_of(items.take((i + 1) as int)) is None,
    ensures
        strings_of(items) is None,
    decreases items.len(),
{
    if i + 1 < items.len() {
        assert(items.drop_last().take((i + 1) as int) =~= items.take((i + 1) as int));
        lemma_strings_of_prefix_none(items.drop_last(), i);
    } else {
        assert(items.take((i + 1) as int) =~= items);
    }
}

/// The `explains` of a `basic` section, each followed by `;` and a tab.
fn parse_explains_field(basic: &JsonValue) -> (res: Option<String>)
    ensures
        res is Some <==> explains_spec(*basic) is Some,
        res matches Some(t) ==> t@ == explains_spec(*basic)->0,
{
    let items = match basic.get("explains") {
        Some(v) => match v.as_array() {
            Some(a) => a,
            None => { return None; }
        },
        None => { return None; }
    };
    let ss = match strings_list(items) {
        Some(ss) => ss,
        None => { return None; }
    };
    let ghost views = ss@.map_values(|t: String| t@);
    let mut out = String::new();
    let mut i: usize = 0;
    assert(views.take(0) =~= Seq::<Seq<char>>::empty());
    while i < ss.len()
        invariant
            i <= ss@.len(),
            views == ss@.map_values(|t: String| t@),
            out@ == explains_text(views.take(i as int)),
        decreases ss@.len() - i,
    {
        push_str(&mut out, ss[i].as_str());
        push_str(&mut out, ";\t");
        i = i + 1;
        assert(views.take(i as int).drop_last() =~= views.take(i - 1));
        assert(out@ =~= explains_text(views.take(i as int)));
    }
    assert(views.take(i as int) =~= views);
    Some(out)
}

/// One phonetic field of a `basic` section (see `phonetic_field`).
fn phonetic(basic: &JsonValue, field: &str, out: &mut Vec<(String, String)>) -> (ok: bool)
    ensures
        ok <==> phonetic_field(*basic, field@) is Some,
        ok ==> params_view(final(out)@) == params_view(old(out)@) + phonetic_field(*basic, field@)->0,
{
    match basic.get(field) {
        None => {
            assert(params_view(out@) + Seq::empty() =~= params_view(out@));
            true
        },
        Some(v) => match v.as_str() {
            Some(t) => {
                let mut shown = String::new();
                push_str(&mut shown, "/");
                push_str(&mut shown, t.as_str());
                push_str(&mut shown, "/");
                let ghost old_out = out@;
                out.push(("us".to_owned(), shown));
                assert(params_view(out@) =~= params_view(old_out) + seq![("us"@, "/"@ + t@ + "/"@)]);
                true
            },
            None => false,
        },
    }
}

impl Youdao {
    pub fn new(api_key: Option<YoudaoAPIKey>) -> (res: Youdao)
        ensures
            res.url()@ == "https://openapi.youdao.com/api"@,
            res.key() == api_key,
    {
        Youdao { url_free: "https://openapi.youdao.com/api".to_owned(), api_key }
    }

    /// The API endpoint.
    pub closed spec fn url(&self) -> String {
        self.url_free
    }

    /// The API key, if one is configured.
    pub closed spec fn key(&self) -> Option<YoudaoAPIKey> {
        self.api_key
    }

    /// The API endpoint.
    pub fn url_free(&self) -> (res: &String)
        ensures
            *res == self.url(),
    {
        &self.url_free
    }

    /// Youdao's name of a language: `zh-CHS` for `zh`.
    pub fn map_lang(lang_code: &str) -> (res: String)
        ensures
            res@ == map_lang_spec(lang_code@),
    {
        let zh = "zh".to_owned();
        if lang_code.to_owned() == zh {
            "zh-CHS".to_owned()
        } else {
            lang_code.to_owned()
        }
    }

    /// The text that the request signature covers (see `sign_text`).
    fn sign_part(text: &str) -> (res: String)
        ensures
            res@ == sign_text(text@),
    {
        let chars = chars_of(text);
        let text_len = chars.len();
        if text_len <= 20 {
            return text.to_owned();
        }
        let mut out = String::new();
        let mut i: usize = 0;
        while i < 10
            invariant
                i <= 10,
                text_len == chars@.len(),
                text_len > 20,
                out@ == chars@.take(i as int),
            decreases 10 - i,
        {
            push_char(&mut out, chars[i]);
            i = i + 1;
            assert(out@ =~= chars@.take(i as int));
        }
        let len_text = u64_to_decimal(text_len as u64);
        push_str(&mut out, len_text.as_str());
        let ghost head = out@;
        let mut j: usize = text_len - 10;
        while j < text_len
            invariant
                text_len - 10 <= j <= text_len,
                text_len > 20,
                text_len == chars@.len(),
                out@ == head + chars@.subrange(text_len - 10, j as int),
            decreases text_len - j,
        {
            push_char(&mut out, chars[j]);
            j = j + 1;
            assert(out@ =~= head + chars@.subrange(text_len - 10, j as int));
        }
        assert(chars@.subrange(text_len - 10, text_len as int) =~= chars@.skip(text_len - 10));
        out
    }

    /// The request signature (see `sign_spec`).
    pub fn sign(id: &str, text: &str, salt: &str, curtime: &str, secret_key: &str) -> (res: String)
        ensures
            res@ == sign_spec(id@, text@, salt@, curtime@, secret_key@),
    {
        let mut sign = String::new();
        push_str(&mut sign, id);
        let part = Self::sign_part(text);
        push_str(&mut sign, part.as_str());
        push_str(&mut sign, salt);
        push_str(&mut sign, curtime);
        push_str(&mut sign, secret_key);
        let digest = sha256_digest(sign.as_str().as_bytes());
        hex_upper(&digest)
    }

    /// The form parameters of a request for `query` with the given salt and
    /// time; an error when no API key is configured.
    pub fn request_params_with(&self, query: &Query, salt: &str, curtime: &str) -> (res: Result<Vec<(String, String)>, String>)
        ensures
            match self.key() {
                None => res is Err && res->Err_0@ == "no youdao API key"@,
                Some(k) => res is Ok && params_view(res->Ok_0@) == seq![
                    ("q"@, query.text@),
                    ("from"@, map_lang_spec(query.lang_from@)),
                    ("to"@, map_lang_spec(query.lang_to@)),
                    ("appKey"@, k.id@),
                    ("salt"@, salt@),
                    ("sign"@, sign_spec(k.id@, query.text@, salt@, curtime@, k.secret_key@)),
                    ("signType"@, "v3"@),
                    ("curtime"@, curtime@),
                    ("strict"@, "false"@),
                ],
            },
    {
        match &self.api_key {
            None => Err("no youdao API key".to_owned()),
            Some(api_key) => {
                let sign = Self::sign(api_key.id.as_str(), query.text.as_str(), salt, curtime, api_key.secret_key.as_str());
                let mut params: Vec<(String, String)> = Vec::new();
                params.push(("q".to_owned(), query.text.clone()));
                params.push(("from".to_owned(), Self::map_lang(query.lang_from.as_str())));
                params.push(("to".to_owned(), Self::map_lang(query.lang_to.as_str())));
                params.push(("appKey".to_owned(), api_key.id.clone()));
                params.push(("salt".to_owned(), salt.to_owned()));
                params.push(("sign".to_owned(), sign));
                params.push(("signType".to_owned(), "v3".to_owned()));
                params.push(("curtime".to_owned(), curtime.to_owned()));
                params.push(("strict".to_owned(), "false".to_owned()));
                assert(params_view(params@) =~= seq![
                    ("q"@, query.text@),
                    ("from"@, map_lang_spec(query.lang_from@)),
                    ("to"@, map_lang_spec(query.lang_to@)),
                    ("appKey"@, api_key.id@),
                    ("salt"@, salt@),
                    ("sign"@, sign_spec(api_key.id@, query.text@, salt@, curtime@, api_key.secret_key@)),
                    ("signType"@, "v3"@),
                    ("curtime"@, curtime@),
                    ("strict"@, "false"@),
                ]);
                Ok(params)
            },
        }
    }

    /// The form parameters of a request for `query`, with a fresh random salt
    /// and the current time in seconds.  Without an API key, the error of
    /// `request_params_with`.
    pub fn request_params(&self, query: &Query) -> (res: Result<Vec<(String, String)>, String>)
        ensures
            self.key() is None ==> res is Err && res->Err_0@ == "no youdao API key"@,
            self.key() is Some && res is Err ==> res->Err_0@ == "system clock is before the Unix epoch"@,
            res is Ok ==> exists|salt: Seq<char>, curtime: u64| {
                &&& salt.len() == 36
                &&& #[trigger] params_view(res->Ok_0@) == seq![
                    ("q"@, query.text@),
                    ("from"@, map_lang_spec(query.lang_from@)),
                    ("to"@, map_lang_spec(query.lang_to@)),
                    ("appKey"@, self.key()->0.id@),
                    ("salt"@, salt),
                    ("sign"@, sign_spec(self.key()->0.id@, query.text@, salt, decimal_text(curtime as nat), self.key()->0.secret_key@)),
                    ("signType"@, "v3"@),
                    ("curtime"@, decimal_text(curtime as nat)),
                    ("strict"@, "false"@),
                ]
            },
    {
        if self.api_key.is_none() {
            return Err("no youdao API key".to_owned());
        }
        let salt = new_salt();
        let secs = match unix_time_secs() {
            Some(t) => t,
            None => { return Err("system clock is before the Unix epoch".to_owned()); }
        };
        let curtime = u64_to_decimal(secs);
        let res = self.request_params_with(query, salt.as_str(), curtime.as_str());
        assert(res is Ok);
        res
    }

    /// Whether `parse_response` may read `data`: every field it reads is there
    /// and of the kind it expects (see `youdao_response_spec`).
    pub fn response_is_readable(data: &JsonValue) -> (res: bool)
        ensures
            res == youdao_response_spec(*data) is Some,
    {
        read_answer(data).is_some()
    }

    /// Reads Youdao's answer to `query` (see `youdao_response_spec`).
    pub fn parse_response(query: Query, data: &JsonValue) -> (res: Result<RespData, String>)
        requires
            youdao_response_spec(*data) is Some,
        ensures
            match youdao_response_spec(*data) {
                Some(Ok((desc, ps))) => res is Ok && {
                    let r = res->Ok_0;
                    &&& r.backend@ == "youdao translate"@
                    &&& r.query == query
                    &&& r.basic_desc@ == desc
                    &&& match ps {
                        Some(p) => r.phonetic_symbol is Some && params_view(r.phonetic_symbol->0@) == p,
                        None => r.phonetic_symbol is None,
                    }
                    &&& r.detail_desc is None
                    &&& r.audio is None
                },
                Some(Err(e)) => res is Err && res->Err_0@ == e,
                None => false,
            },
    {
        let answer = read_answer(data);
        match answer {
            Some(Ok((desc, ps))) => Ok(RespData {
                backend: "youdao translate".to_owned(),
                query,
                basic_desc: desc,
                phonetic_symbol: ps,
                detail_desc: None,
                audio: None,
            }),
            Some(Err(code)) => Err(code),
            None => Err(String::new()),
        }
    }
}

/// The description and phonetic symbols of a Youdao response, or its error
/// code; `None` where a field that is read is missing or of the wrong kind.
fn read_answer(data: &JsonValue) -> (res: Option<Result<(String, Option<Vec<(String, String)>>), String>>)
    ensures
        match youdao_response_spec(*data) {
            Some(a) => res is Some && answer_view(res->0) == a,
            None => res is None,
        },
{
    let code = match data.get("errorCode") {
        Some(v) => match v.as_str() {
            Some(c) => c,
            None => { return None; }
        },
        None => { return None; }
    };
    if code.clone() != "0".to_owned() {
        return Some(Err(code.clone()));
    }
    let l = match data.get("l") {
        Some(v) => match v.as_str() {
            Some(l) => l,
            None => { return None; }
        },
        None => { return None; }
    };
    let l_chars = chars_of(l.as_str());
    let (lang_from, lang_to) = split_first(&l_chars, '2');
    if lang_to.is_none() {
        return None;
    }
    let lang_from = string_of(&lang_from);
    if let Some(basic) = data.get("basic") {
        let explains = match parse_explains_field(basic) {
            Some(e) => e,
            None => { return None; }
        };
        if lang_from == "en".to_owned() {
            let mut ps: Vec<(String, String)> = Vec::new();
            assert(params_view(ps@) =~= Seq::<(Seq<char>, Seq<char>)>::empty());
            if !phonetic(basic, "us-phonetic", &mut ps) {
                return None;
            }
            if !phonetic(basic, "uk-phonetic", &mut ps) {
                return None;
            }
            return Some(Ok((explains, Some(ps))));
        } else {
            return Some(Ok((explains, None)));
        }
    }
    let items = match data.get("translation") {
        Some(v) => match v.as_array() {
            Some(a) => a,
            None => { return None; }
        },
        None => { return None; }
    };
    let trans_list = match strings_list(items) {
        Some(t) => t,
        None => { return None; }
    };
    let trans = join_strings(&trans_list, "\n");
    Some(Ok((trans, None)))
}

} // verus!
