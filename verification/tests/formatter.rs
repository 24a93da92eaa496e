use dw::formatter::{format_ansi_term, format_markdown, Format};
use dw::server::formatter::md::format_markdown as server_format_markdown;
use dw::server::formatter::Formatter;
use dw::types::{Query, RespData};

fn mock_query(text: &str) -> Query {
    let query = Query::new(text, "en", "zh", false);
    query
}

fn mock_respdata() -> RespData {
    let query = mock_query("humuhumunukunukuapua'a");
    let phonetic_symbol: Vec<(String, String)> = vec![
        ("s1".to_string(), "s2".to_string()),
        ("s3".to_string(), "s4".to_string()),
    ];
    RespData {
        backend: "mock".to_string(),
        query,
        basic_desc: "夏威夷鳞鲀".to_string(),
        phonetic_symbol: Some(phonetic_symbol),
        detail_desc: None,
        audio: None,
    }
}

#[test]
fn can_read_str() {
    let md = "md";
    let ansi = "ansi";
    assert_eq!(Format::Markdown, md.into());
    assert_eq!(Format::AnsiTerm, ansi.into())
}

#[test]
fn can_format_to_md_correctly() {
    let resp = mock_respdata();
    let s = format_markdown(&resp);
    println!("{}", s);
    assert_eq!(
        s,
        "# mock\n---\n## humuhumunukunukuapua'a\n- language: /en/ to /zh/\n- phonetic symbol:\n  s1: s2\n  s3: s4\n\n## short desc\n夏威夷鳞鲀\n\n## long desc\n"
    );
}

#[test]
fn markdown_without_phonetics_but_with_detail() {
    let mut resp = mock_respdata();
    resp.phonetic_symbol = None;
    resp.detail_desc = Some("more".to_string());
    assert_eq!(
        format_markdown(&resp),
        "# mock\n---\n## humuhumunukunukuapua'a\n- language: /en/ to /zh/\n- phonetic symbol:\n\n## short desc\n夏威夷鳞鲀\n\n## long desc\nmore"
    );
}

#[test]
fn ansi_term_output_of_a_short_query() {
    let query = Query::new("hi", "en", "zh", false);
    assert!(query.is_short_text);
    let resp = RespData {
        backend: "mock".to_string(),
        query,
        basic_desc: "你好".to_string(),
        phonetic_symbol: Some(vec![("us".to_string(), "/haɪ/".to_string())]),
        detail_desc: None,
        audio: None,
    };
    assert_eq!(
        format_ansi_term(&resp),
        "\u{1b}[31mmock\u{1b}[0m\n\u{1b}[1mhi\u{1b}[0m\nen to zh\n\u{1b}[3mus\u{1b}[0m: \u{1b}[34m/haɪ/\u{1b}[0m\t\n\u{1b}[32m你好\u{1b}[0m"
    );
    assert_eq!(Format::AnsiTerm.format(&resp), format_ansi_term(&resp));
    assert_eq!(Format::Markdown.format(&resp), format_markdown(&resp));
}

#[test]
fn ansi_term_output_of_a_long_query() {
    let query = Query::new("a sentence that is long enough", "en", "zh", false);
    assert!(!query.is_short_text);
    let resp = RespData {
        backend: "b".to_string(),
        query,
        basic_desc: "译文".to_string(),
        phonetic_symbol: None,
        detail_desc: Some("detail".to_string()),
        audio: None,
    };
    assert_eq!(
        format_ansi_term(&resp),
        "\u{1b}[31mb\u{1b}[0m\n\u{1b}[1ma sentence that is long enough\u{1b}[0m\nen to zh\n译文\ndetail"
    );
}

#[test]
fn server_markdown_output() {
    let resp = mock_respdata();
    assert_eq!(
        server_format_markdown(&resp),
        "* mock\n---\nhumuhumunukunukuapua'a\n/en/ to /zh/s1: /s2/\ts3: /s4/\t夏威夷鳞鲀"
    );
    assert_eq!(Formatter::Markdown.format(&resp), server_format_markdown(&resp));
    assert_eq!(Formatter::AnsiTerm.format(&resp), format_ansi_term(&resp));
}

#[test]
fn unknown_format_names_fall_back_to_the_terminal() {
    let other: Format = "html".into();
    assert_eq!(other, Format::AnsiTerm);
}
