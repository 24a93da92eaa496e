use std::sync::Arc;

use dw::backends::web::dictcn::DictCN;
use dw::backends::web::{select_json, JSONValueType};
use dw::backends::web::google_translate::{translated_text, GTrans};
use dw::backends::web::youdao::{Youdao, YoudaoAPIKey};
use dw::backends::Backend;
use dw::cli::runner::Runner as CliRunner;
use dw::formatter::{format_markdown, Format};
use dw::json::JsonValue;
use dw::runner::Runner;
use dw::server::backends::web::google_translate::GTrans as ServerGTrans;
use dw::server::backends::web::youdao::{Youdao as ServerYoudao, YoudaoAPIKey as ServerKey};
use dw::server::config::{Config as ServerConfig, Proxy as ServerProxy};
use dw::server::formatter::Formatter;
use dw::server::runner::Runner as ServerRunner;
use dw::server::types::{Query as ServerQuery, WordData};
use dw::server::{lookup_reply, Params};
use dw::types::{Query, RespData};
use sha2::Digest;

fn s(t: &str) -> JsonValue {
    JsonValue::Str(t.to_string())
}

fn obj(members: Vec<(&str, JsonValue)>) -> JsonValue {
    JsonValue::Object(members.into_iter().map(|(k, v)| (k.to_string(), v)).collect())
}

fn key() -> YoudaoAPIKey {
    YoudaoAPIKey { secret_key: "secret".to_string(), id: "app".to_string() }
}

fn pairs(v: &[(&str, &str)]) -> Vec<(String, String)> {
    v.iter().map(|(a, b)| (a.to_string(), b.to_string())).collect()
}

fn expected_sign(text: &str) -> String {
    let digest = sha2::Sha256::digest(text.as_bytes());
    format!("{:X}", digest)
}

#[test]
fn it_can_translate_words() {}

#[test]
fn youdao_maps_chinese_language_code() {
    assert_eq!(Youdao::map_lang("zh"), "zh-CHS");
    assert_eq!(Youdao::map_lang("en"), "en");
    assert_eq!(Youdao::map_lang("ja"), "ja");
}

#[test]
fn youdao_signs_short_and_long_texts() {
    assert_eq!(Youdao::sign("app", "hello", "salt", "100", "secret"), expected_sign("apphellosalt100secret"));
    let long = "abcdefghijklmnopqrstuvwxyz";
    assert_eq!(
        Youdao::sign("app", long, "salt", "100", "secret"),
        expected_sign("appabcdefghij26qrstuvwxyzsalt100secret")
    );
    let twenty = "abcdefghijklmnopqrst";
    assert_eq!(Youdao::sign("i", twenty, "s", "t", "k"), expected_sign("iabcdefghijklmnopqrststk"));
    // The length counts characters, not bytes.
    let cjk = "一二三四五六七八九十甲乙丙丁戊己庚辛壬癸子";
    assert_eq!(
        Youdao::sign("i", cjk, "s", "t", "k"),
        expected_sign("i一二三四五六七八九十21乙丙丁戊己庚辛壬癸子stk")
    );
}

#[test]
fn youdao_request_params() {
    let y = Youdao::new(Some(key()));
    let q = Query::new("hello", "en", "zh", false);
    let params = y.request_params_with(&q, "salt", "100").unwrap();
    let sign = expected_sign("apphellosalt100secret");
    assert_eq!(
        params,
        pairs(&[
            ("q", "hello"),
            ("from", "en"),
            ("to", "zh-CHS"),
            ("appKey", "app"),
            ("salt", "salt"),
            ("sign", sign.as_str()),
            ("signType", "v3"),
            ("curtime", "100"),
            ("strict", "false"),
        ])
    );
    assert_eq!(y.url_free(), "https://openapi.youdao.com/api");
}

#[test]
fn youdao_without_key_refuses() {
    let y = Youdao::new(None);
    let q = Query::new("hello", "en", "zh", false);
    assert_eq!(y.request_params_with(&q, "salt", "100"), Err("no youdao API key".to_string()));
    assert_eq!(y.request_params(&q), Err("no youdao API key".to_string()));
}

#[test]
fn youdao_request_params_use_a_fresh_salt() {
    let y = Youdao::new(Some(key()));
    let q = Query::new("hello", "en", "zh", false);
    let params = y.request_params(&q).unwrap();
    assert_eq!(params.len(), 9);
    assert_eq!(params[4].0, "salt");
    assert_eq!(params[4].1.len(), 36);
    let expected = expected_sign(&format!("apphello{}{}secret", params[4].1, params[7].1));
    assert_eq!(params[5].1, expected);
}

#[test]
fn youdao_reads_an_english_word() {
    let data = obj(vec![
        ("errorCode", s("0")),
        ("l", s("en2zh-CHS")),
        (
            "basic",
            obj(vec![
                ("us-phonetic", s("həˈləʊ")),
                ("uk-phonetic", s("hə'ləʊ")),
                ("explains", JsonValue::Array(vec![s("int. 喂"), s("n. 表示问候")])),
            ]),
        ),
        ("translation", JsonValue::Array(vec![s("你好")])),
    ]);
    assert!(Youdao::response_is_readable(&data));
    let q = Query::new("hello", "en", "zh", false);
    let r = Youdao::parse_response(q, &data).unwrap();
    assert_eq!(r.backend, "youdao translate");
    assert_eq!(r.basic_desc, "int. 喂;\tn. 表示问候;\t");
    assert_eq!(r.phonetic_symbol, Some(pairs(&[("us", "/həˈləʊ/"), ("us", "/hə'ləʊ/")])));
    assert_eq!(r.query.text, "hello");
    assert!(r.detail_desc.is_none());
}

#[test]
fn youdao_reads_a_word_of_another_language() {
    let data = obj(vec![
        ("errorCode", s("0")),
        ("l", s("zh-CHS2en")),
        ("basic", obj(vec![("explains", JsonValue::Array(vec![s("hello")]))])),
    ]);
    let q = Query::new("你好", "zh", "en", false);
    let r = Youdao::parse_response(q, &data).unwrap();
    assert_eq!(r.basic_desc, "hello;\t");
    assert!(r.phonetic_symbol.is_none());
}

#[test]
fn youdao_reads_a_sentence() {
    let data = obj(vec![
        ("errorCode", s("0")),
        ("l", s("zh-CHS2en")),
        ("translation", JsonValue::Array(vec![s("line one"), s("line two")])),
    ]);
    let q = Query::new("两行", "zh", "en", false);
    let r = Youdao::parse_response(q, &data).unwrap();
    assert_eq!(r.basic_desc, "line one\nline two");
}

#[test]
fn youdao_reports_its_error_code() {
    let data = obj(vec![("errorCode", s("108"))]);
    assert!(Youdao::response_is_readable(&data));
    let q = Query::new("hello", "en", "zh", false);
    assert_eq!(Youdao::parse_response(q, &data).unwrap_err(), "108");
}

#[test]
fn youdao_unreadable_responses() {
    assert!(!Youdao::response_is_readable(&obj(vec![])));
    assert!(!Youdao::response_is_readable(&obj(vec![("errorCode", JsonValue::Null)])));
    assert!(!Youdao::response_is_readable(&obj(vec![("errorCode", s("0")), ("l", s("en"))])));
    assert!(!Youdao::response_is_readable(&obj(vec![
        ("errorCode", s("0")),
        ("l", s("en2zh")),
        ("translation", JsonValue::Array(vec![JsonValue::Bool(true)])),
    ])));
    assert!(!Youdao::response_is_readable(&obj(vec![
        ("errorCode", s("0")),
        ("l", s("en2zh")),
        ("basic", obj(vec![("us-phonetic", JsonValue::Null), ("explains", JsonValue::Array(vec![]))])),
    ])));
}

#[test]
fn json_get_takes_the_first_member_of_that_name() {
    let data = obj(vec![("a", s("1")), ("b", s("2")), ("a", s("3"))]);
    assert_eq!(data.get("a").unwrap().as_str().unwrap(), "1");
    assert!(data.get("c").is_none());
    assert!(s("x").get("a").is_none());
    assert!(s("x").as_array().is_none());
}

fn google_answer() -> JsonValue {
    JsonValue::Array(vec![
        JsonValue::Array(vec![
            JsonValue::Array(vec![s("他妈的"), s("fuck")]),
            JsonValue::Array(vec![s("!"), s("!")]),
        ]),
        JsonValue::Null,
        s("en"),
    ])
}

#[test]
fn google_reads_the_translation() {
    let data = google_answer();
    assert!(GTrans::response_is_readable(&data));
    assert_eq!(translated_text(&data), Ok("他妈的!".to_string()));
    let q = Query::new("fuck!", "en", "zh", false);
    let r = GTrans::parse_response(q, &data).unwrap();
    assert_eq!(r.backend, "google translate");
    assert_eq!(r.basic_desc, "他妈的!");
    assert!(r.phonetic_symbol.is_none());
}

#[test]
fn google_reports_wrong_kinds() {
    let q = || Query::new("x", "en", "zh", false);
    assert_eq!(GTrans::parse_response(q(), &s("x")).unwrap_err(), "not an array");
    assert_eq!(GTrans::parse_response(q(), &JsonValue::Array(vec![s("x")])).unwrap_err(), "not an array");
    let inner_not_list = JsonValue::Array(vec![JsonValue::Array(vec![s("x")])]);
    assert_eq!(GTrans::parse_response(q(), &inner_not_list).unwrap_err(), "not an array");
    let not_string = JsonValue::Array(vec![JsonValue::Array(vec![JsonValue::Array(vec![JsonValue::Null])])]);
    assert_eq!(GTrans::parse_response(q(), &not_string).unwrap_err(), "not a string");
    assert_eq!(translated_text(&JsonValue::Array(vec![JsonValue::Array(vec![])])), Ok(String::new()));
}

#[test]
fn google_unreadable_responses() {
    assert!(!GTrans::response_is_readable(&JsonValue::Array(vec![])));
    let empty_item = JsonValue::Array(vec![JsonValue::Array(vec![JsonValue::Array(vec![])])]);
    assert!(!GTrans::response_is_readable(&empty_item));
    // An error before the empty item is reported instead.
    let error_first = JsonValue::Array(vec![JsonValue::Array(vec![JsonValue::Null, JsonValue::Array(vec![])])]);
    assert!(GTrans::response_is_readable(&error_first));
}

#[test]
fn google_request_params() {
    let g = GTrans::new();
    assert_eq!(g.url_free(), "https://translate.google.com/translate_a/single?");
    let q = Query::new("hello", "en", "zh", false);
    let params = g.request_params(&q);
    assert_eq!(
        params,
        pairs(&[
            ("client", "webapp"),
            ("sl", "auto"),
            ("tl", "zh"),
            ("hl", "en"),
            ("dt", "[\"at\", \"bd\", \"ex\", \"ld\", \"md\", \"qca\", \"rw\", \"rm\", \"ss\", \"t\"]"),
            ("source", "bh"),
            ("ssel", "0"),
            ("tsel", "0"),
            ("kc", "1"),
            ("tk", "&tk=55426046554260"),
            ("q", "hello"),
        ])
    );
}

#[test]
fn dictcn_request() {
    let d = DictCN::new();
    assert_eq!(d.search_url(), "https://dict.cn/search");
    let q = Query::new("word", "en", "zh", false);
    assert_eq!(d.request_params(&q), pairs(&[("q", "word")]));
}

#[test]
fn runner_asks_google_then_youdao() {
    let r = Runner::new(Some(key()));
    let b = r.backends();
    assert_eq!(b.len(), 2);
    assert!(matches!(*b[0], Backend::GTrans(_)));
    assert!(matches!(*b[1], Backend::Youdao(_)));
    let r = ServerRunner::new(None);
    assert_eq!(r.backends().len(), 2);
}

fn resp() -> RespData {
    RespData {
        backend: "mock".to_string(),
        query: Query::new("hi", "en", "zh", false),
        basic_desc: "你好".to_string(),
        phonetic_symbol: None,
        detail_desc: None,
        audio: None,
    }
}

#[test]
fn runner_renders_answers() {
    let expected = format_markdown(&resp());
    assert_eq!(Runner::answer_text(Format::Markdown, Ok(resp())), Some(expected));
    assert_eq!(Runner::answer_text(Format::Markdown, Err("failed".to_string())), None);
    assert_eq!(ServerRunner::answer_text(Formatter::AnsiTerm, Err("failed".to_string())), "error");
}

#[test]
fn lookup_reply_stops_at_the_first_missing_answer() {
    let answers = vec![Some("a".to_string()), Some("b".to_string()), None, Some("c".to_string())];
    assert_eq!(lookup_reply(&answers), "\n\na\n\nb");
    assert_eq!(lookup_reply(&vec![]), "");
    assert_eq!(lookup_reply(&vec![None]), "");
}

#[test]
fn params_keep_query_and_format() {
    let p = Params::new(Query::new("hi", "en", "zh", true), Format::Markdown);
    assert_eq!(p.format, Format::Markdown);
    assert_eq!(p.query.text, "hi");
    assert!(p.query.audio);
}

#[test]
fn server_google_request_and_answer() {
    let g = ServerGTrans::new();
    assert_eq!(g.url_free(), "https://translate.google.cn/translate_a/single?client=gtx&dt=t");
    let q = ServerQuery::new("hello", "en", "zh", false);
    assert_eq!(
        g.request_params(&q),
        pairs(&[("q", "hello"), ("tl", "zh"), ("sl", "auto"), ("ie", "UTF-8"), ("oe", "UTF-8")])
    );
    let w = ServerGTrans::parse_response(Arc::new(q), &google_answer());
    assert_eq!(w.short_desc, "他妈的!");
    assert_eq!(w.backend, "google translate");
}

#[test]
fn server_youdao_keeps_its_settings() {
    let config = ServerConfig {
        proxy: ServerProxy { http_proxy: Some("socks5://127.0.0.1:1080".to_string()), https_proxy: None },
        youdao: Some(ServerKey { secret_key: "k".to_string(), id: "i".to_string() }),
    };
    let _y = ServerYoudao::new(config);
    let k = ServerKey::default();
    assert_eq!(k.id, "");
    assert_eq!(k.secret_key, "");
}

#[test]
fn cli_runner_keeps_successes() {
    let r = CliRunner::new(Vec::new());
    let q = Arc::new(ServerQuery::new("hi", "en", "zh", false));
    assert!(r.run(Arc::clone(&q)).is_empty());
    let ok = |d: &str| -> Result<WordData, String> {
        Ok(WordData {
            backend: d.to_string(),
            query: Arc::clone(&q),
            short_desc: d.to_string(),
            phonetic_symbol: None,
            long_desc: None,
            audio: None,
        })
    };
    let kept = CliRunner::successes(vec![ok("a"), Err("x".to_string()), ok("b")]);
    let names: Vec<String> = kept.into_iter().map(|w| w.backend).collect();
    assert_eq!(names, vec!["a".to_string(), "b".to_string()]);
}

#[test]
fn server_youdao_signs_bytes() {
    assert_eq!(ServerYoudao::sign("i", "hello", "s", "t", "k"), expected_sign("ihellostk"));
    let long = "abcdefghijklmnopqrstuvwxyz";
    assert_eq!(ServerYoudao::sign("i", long, "s", "t", "k"), expected_sign("iabcdefghij26qrstuvwxyzstk"));
    // seven three-byte characters: 21 bytes, cut at bytes 10 and 11 would split them
    assert!(!ServerYoudao::text_is_signable("七个汉字七个字"));
    assert!(ServerYoudao::text_is_signable("六个汉字六个"));
    assert!(ServerYoudao::text_is_signable(long));
    // 23 bytes with characters starting at bytes 10 and 13
    let mixed = "a一二三0123456789四";
    assert!(ServerYoudao::text_is_signable(mixed));
    assert_eq!(ServerYoudao::sign("", mixed, "", "", ""), expected_sign("a一二三233456789四"));
    assert!(!ServerYoudao::text_is_signable("a一二三四五六七八九十"));
}

#[test]
fn server_youdao_request_and_answer() {
    let config = ServerConfig {
        proxy: ServerProxy { http_proxy: None, https_proxy: None },
        youdao: Some(ServerKey { secret_key: "k".to_string(), id: "i".to_string() }),
    };
    let y = ServerYoudao::new(config);
    assert_eq!(y.url_free(), "https://openapi.youdao.com/api");
    let q = ServerQuery::new("hello", "en", "zh", false);
    let params = y.request_params_with(&q, "s", "t").unwrap();
    let sign = expected_sign("ihellostk");
    assert_eq!(
        params,
        pairs(&[
            ("q", "hello"),
            ("from", "en"),
            ("to", "zh"),
            ("appKey", "i"),
            ("salt", "s"),
            ("sign", sign.as_str()),
            ("signType", "v3"),
            ("curtime", "t"),
            ("strict", "false"),
        ])
    );
    let data = obj(vec![("errorCode", s("0")), ("translation", JsonValue::Array(vec![s("你好"), s("喂")]))]);
    assert!(ServerYoudao::response_is_readable(&data));
    let w = ServerYoudao::parse_response(Arc::new(q), &data).unwrap();
    assert_eq!(w.short_desc, "你好\n喂");
    assert_eq!(w.backend, "youdao translate");
    let q = ServerQuery::new("hello", "en", "zh", false);
    let failed = obj(vec![("errorCode", s("202"))]);
    assert_eq!(ServerYoudao::parse_response(Arc::new(q), &failed).err(), Some("202".to_string()));
    assert!(!ServerYoudao::response_is_readable(&obj(vec![("errorCode", s("0"))])));
    let no_key = ServerYoudao::new(ServerConfig { proxy: ServerProxy { http_proxy: None, https_proxy: None }, youdao: None });
    let q = ServerQuery::new("hello", "en", "zh", false);
    assert_eq!(no_key.request_params_with(&q, "s", "t").err(), Some("no youdao API key".to_string()));
}

#[test]
fn json_paths_lead_to_values() {
    let data = obj(vec![("translation", JsonValue::Array(vec![s("a"), s("b")]))]);
    let path = vec![JSONValueType::String("translation".to_string()), JSONValueType::Index(1)];
    assert_eq!(select_json(&data, &path).unwrap().as_str().unwrap(), "b");
    let missing = vec![JSONValueType::String("translation".to_string()), JSONValueType::Index(2)];
    assert_eq!(select_json(&data, &missing).err(), Some("json decode error".to_string()));
    let wrong_kind = vec![JSONValueType::Index(0)];
    assert_eq!(select_json(&data, &wrong_kind).err(), Some("json decode error".to_string()));
    assert!(select_json(&data, &vec![]).is_ok());
}

#[test]
fn dictcn_detail_section() {
    use_dictcn_detail();
}

fn use_dictcn_detail() {
    let page = "<html><body><layout><detail>hello</detail></layout><detail>other</detail></body></html>";
    let detail = dw::backends::web::dictcn::dictcn_detail(page).unwrap();
    assert!(detail.contains("hello"));
    assert!(!detail.contains("other"));
    assert!(dw::backends::web::dictcn::dictcn_detail("<html><body><p>none</p></body></html>").is_none());
}
