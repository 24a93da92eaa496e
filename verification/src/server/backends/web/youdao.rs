use std::sync::Arc;

use vstd::prelude::*;

use crate::backends::web::youdao::{hex_upper, hex_upper_spec, params_view, sha256_digest, sha256_of, strings_list, strings_of};
use crate::json::JsonValue;
use crate::server::config::{Config, Proxy};
use crate::server::types::{Query, WordData};
use crate::text::{decimal_text, join_spec, join_strings, u64_to_decimal};

verus! {

/// A Youdao open API key.
#[derive(Debug, Clone)]
pub struct YoudaoAPIKey {
    pub secret_key: String,
    pub id: String,
}

impl Default for YoudaoAPIKey {
    /// Empty id and secret.
    fn default() -> (res: Self)
        ensures
            res.secret_key@ == Seq::<char>::empty(),
            res.id@ == Seq::<char>::empty(),
    {
        YoudaoAPIKey { secret_key: String::new(), id: String::new() }
    }
}

/// The Youdao backend of the server.
pub struct Youdao {
    url_free: String,
    api_key: Option<YoudaoAPIKey>,
    proxy: Proxy,
}

/// Whether byte `i` of the UTF-8 text `b` starts a character (or is its end),
/// as `str::is_char_boundary` decides.
pub open spec fn is_char_boundary(b: Seq<u8>, i: int) -> bool {
    i == 0 || i == b.len() || (0 < i < b.len() && (b[i] < 0x80 || b[i] >= 0xC0))
}

/// The part of the UTF-8 bytes of a text that the server's signature covers: all
/// of them up to 20 bytes; else the first ten bytes, the byte count in decimal
/// and the last ten bytes.
pub open spec fn sign_bytes(b: Seq<u8>) -> Seq<u8> {
    if b.len() <= 20 {
        b
    } else {
        b.take(10) + vstd::utf8::encode_utf8(decimal_text(b.len())) + b.skip(b.len() - 10)
    }
}

/// Whether the text can be cut where the server's signature cuts it: a text of
/// more than 20 bytes must have characters start at byte 10 and ten bytes
/// before its end.
pub open spec fn signable(text: Seq<char>) -> bool {
    let b = vstd::utf8::encode_utf8(text);
    b.len() <= 20 || (is_char_boundary(b, 10) && is_char_boundary(b, b.len() - 10))
}

/// The server's request signature: the upper-case hex SHA-256 of the UTF-8 of
/// app id, `sign_bytes` of the text, salt, time and secret key, in that order.
pub open spec fn server_sign_spec(id: Seq<char>, text: Seq<char>, salt: Seq<char>, curtime: Seq<char>, secret: Seq<char>) -> Seq<char> {
    hex_upper_spec(sha256_of(
        vstd::utf8::encode_utf8(id) + sign_bytes(vstd::utf8::encode_utf8(text)) + vstd::utf8::encode_utf8(salt)
            + vstd::utf8::encode_utf8(curtime) + vstd::utf8::encode_utf8(secret),
    ))
}

/// What a Youdao response gives the server: the error code when it is not `0`,
/// else the translations joined by line breaks.  `None` where a field that is
/// read is missing or of the wrong kind.
pub open spec fn server_youdao_spec(data: JsonValue) -> Option<Result<Seq<char>, Seq<char>>> {
    match data.get_spec("errorCode"@) {
        Some(JsonValue::Str(code)) => if code@ != "0"@ {
            Some(Err(code@))
        } else {
            match data.get_spec("translation"@) {
                Some(JsonValue::Array(items)) => match strings_of(items@) {
                    Some(ss) => Some(Ok(join_spec(ss, "\n"@))),
                    None => None,
                },
                _ => None,
            }
        },
        _ => None,
    }
}

/// Appends bytes to a byte vector.
fn append_bytes(v: &mut Vec<u8>, s: &[u8])
    ensures
        final(v)@ == old(v)@ + s@,
{
    let mut i: usize = 0;
    let ghost start = v@;
    while i < s.len()
        invariant
            i <= s@.len(),
            v@ == start + s@.take(i as int),
        decreases s@.len() - i,
    {
        v.push(s[i]);
        i = i + 1;
        assert(v@ =~= start + s@.take(i as int));
    }
    assert(s@.take(i as int) =~= s@);
}

impl Youdao {
    pub fn new(config: Config) -> (res: Youdao)
        ensures
            res.url()@ == "https://openapi.youdao.com/api"@,
            res.key() == config.youdao,
            res.proxy_settings() == config.proxy,
    {
        Youdao { url_free: "https://openapi.youdao.com/api".to_owned(), api_key: config.youdao, proxy: config.proxy }
    }

    /// The API endpoint.
    pub closed spec fn url(&self) -> String {
        self.url_free
    }

    /// The API key, if one is configured.
    pub closed spec fn key(&self) -> Option<YoudaoAPIKey> {
        self.api_key
    }

    /// The proxies for the requests.
    pub closed spec fn proxy_settings(&self) -> Proxy {
        self.proxy
    }

    /// The API endpoint.
    pub fn url_free(&self) -> (res: &String)
        ensures
            *res == self.url(),
    {
        &self.url_free
    }

    /// The proxies for the requests.
    pub fn proxy(&self) -> (res: &Proxy)
        ensures
            *res == self.proxy_settings(),
    {
        &self.proxy
    }

    /// Whether the signature can cut `text` (see `signable`).
    pub fn text_is_signable(text: &str) -> (res: bool)
        ensures
            res == signable(text@),
    {
        let b = text.as_bytes();
        let len = b.len();
        if len <= 20 {
            return true;
        }
        (b[10] < 0x80 || b[10] >= 0xC0) && (b[len - 10] < 0x80 || b[len - 10] >= 0xC0)
    }

    /// The server's request signature (see `server_sign_spec`).
    pub fn sign(id: &str, text: &str, salt: &str, curtime: &str, secret_key: &str) -> (res: String)
        requires
            signable(text@),
        ensures
            res@ == server_sign_spec(id@, text@, salt@, curtime@, secret_key@),
    {
        let mut bytes: Vec<u8> = Vec::new();
        append_bytes(&mut bytes, id.as_bytes());
        let t = text.as_bytes();
        let len = t.len();
        let ghost before_text = bytes@;
        if len <= 20 {
            append_bytes(&mut bytes, t);
        } else {
            append_bytes(&mut bytes, &t[0..10]);
            let count = u64_to_decimal(len as u64);
            append_bytes(&mut bytes, count.as_str().as_bytes());
            append_bytes(&mut bytes, &t[len - 10..len]);
            assert(t@.subrange(0, 10) =~= t@.take(10));
            assert(t@.subrange(len - 10, len as int) =~= t@.skip(len - 10));
        }
        assert(bytes@ =~= before_text + sign_bytes(t@));
        append_bytes(&mut bytes, salt.as_bytes());
        append_bytes(&mut bytes, curtime.as_bytes());
        append_bytes(&mut bytes, secret_key.as_bytes());
        let digest = sha256_digest(bytes.as_slice());
        hex_upper(&digest)
    }

    /// The form parameters of a request for `query` with the given salt and
    /// time, or the error when no API key is configured.
    pub fn request_params_with(&self, query: &Query, salt: &str, curtime: &str) -> (res: Result<Vec<(String, String)>, String>)
        requires
            signable(query.text@),
        ensures
            match self.key() {
                None => res is Err && res->Err_0@ == "no youdao API key"@,
                Some(k) => res is Ok && params_view(res->Ok_0@) == seq![
                    ("q"@, query.text@),
                    ("from"@, query.lang_from@),
                    ("to"@, query.lang_to@),
                    ("appKey"@, k.id@),
                    ("salt"@, salt@),
                    ("sign"@, server_sign_spec(k.id@, query.text@, salt@, curtime@, k.secret_key@)),
                    ("signType"@, "v3"@),
                    ("curtime"@, curtime@),
                    ("strict"@, "false"@),
                ],
            },
    {
        match &self.api_key {
            None => Err("no youdao API key".to_owned()),
            Some(api_key) => {
                let sign = Self::sign(api_key.id.as_str(), query.text, salt, curtime, api_key.secret_key.as_str());
                let mut params: Vec<(String, String)> = Vec::new();
                params.push(("q".to_owned(), query.text.to_owned()));
                params.push(("from".to_owned(), query.lang_from.clone()));
                params.push(("to".to_owned(), query.lang_to.clone()));
                params.push(("appKey".to_owned(), api_key.id.clone()));
                params.push(("salt".to_owned(), salt.to_owned()));
                params.push(("sign".to_owned(), sign));
                params.push(("signType".to_owned(), "v3".to_owned()));
                params.push(("curtime".to_owned(), curtime.to_owned()));
                params.push(("strict".to_owned(), "false".to_owned()));
                assert(params_view(params@) =~= seq![
                    ("q"@, query.text@),
                    ("from"@, query.lang_from@),
                    ("to"@, query.lang_to@),
                    ("appKey"@, api_key.id@),
                    ("salt"@, salt@),
                    ("sign"@, server_sign_spec(api_key.id@, query.text@, salt@, curtime@, api_key.secret_key@)),
                    ("signType"@, "v3"@),
                    ("curtime"@, curtime@),
                    ("strict"@, "false"@),
                ]);
                Ok(params)
            },
        }
    }

    /// Whether `parse_response` may read `data` (see `server_youdao_spec`).
    pub fn response_is_readable(data: &JsonValue) -> (res: bool)
        ensures
            res == server_youdao_spec(*data) is Some,
    {
        read_translation(data).is_some()
    }

    /// Reads Youdao's answer to `query`: the translations as the short
    /// description, or the error code (see `server_youdao_spec`).
    pub fn parse_response<'a>(query: Arc<Query<'a>>, data: &JsonValue) -> (res: Result<WordData<'a>, String>)
        requires
            server_youdao_spec(*data) is Some,
        ensures
            match server_youdao_spec(*data) {
                Some(Ok(text)) => res is Ok && {
                    let w = res->Ok_0;
                    &&& w.backend@ == "youdao translate"@
                    &&& w.query == query
                    &&& w.short_desc@ == text
                    &&& w.phonetic_symbol is None
                    &&& w.long_desc is None
                    &&& w.audio is None
                },
                Some(Err(e)) => res is Err && res->Err_0@ == e,
                None => false,
            },
    {
        match read_translation(data) {
            Some(Ok(trans)) => Ok(WordData {
                backend: "youdao translate".to_owned(),
                query,
                short_desc: trans,
                phonetic_symbol: None,
                long_desc: None,
                audio: None,
            }),
            Some(Err(code)) => Err(code),
            None => Err(String::new()),
        }
    }
}

/// The translations of a Youdao response joined by line breaks, or its error
/// code; `None` where a field that is read is missing or of the wrong kind.
fn read_translation(data: &JsonValue) -> (res: Option<Result<String, String>>)
    ensures
        match server_youdao_spec(*data) {
            Some(Ok(t)) => res is Some && res->0 is Ok && res->0->Ok_0@ == t,
            Some(Err(e)) => res is Some && res->0 is Err && res->0->Err_0@ == e,
            None => res is None,
        },
{
    let code = match data.get("errorCode") {
        Some(v) => match v.as_str() {
            Some(c) => c,
            None => { return None; }
        },
        None => { return None; }
    };
    if code.clone() != "0".to_owned() {
        return Some(Err(code.clone()));
    }
    let items = match data.get("translation") {
        Some(v) => match v.as_array() {
            Some(a) => a,
            None => { return None; }
        },
        None => { return None; }
    };
    let trans_list = match strings_list(items) {
        Some(t) => t,
        None => { return None; }
    };
    Some(Ok(join_strings(&trans_list, "\n")))
}

} // verus!
