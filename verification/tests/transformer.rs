use dw::server::transformer::identify_language as server_identify_language;
use dw::transformer::{default_target_language, identify_language, Concat, Transformer};

#[test]
fn transformer_can_identify_chinese() {
    let text = "日月忽其不淹兮，春与秋其代序";
    let guess = identify_language(text);
    assert_eq!(guess, "zh");
    let guess = server_identify_language(text);
    assert_eq!(guess, "zh");
}

#[test]
fn transformer_can_identify_nonchinese_as_en() {
    let text = "Without delay the sun and moon sped fast, In swift succession spring and autumn passed";
    let guess = identify_language(text);
    assert_eq!(guess, "en");
    let guess = server_identify_language(text);
    assert_eq!(guess, "en");
}

#[test]
fn can_concat_lines() {
    let text = "欲买桂花同载酒\n终不似 少年游";
    let transfromed = Concat::default().act(&text);
    assert_eq!(transfromed, "欲买桂花同载酒 终不似 少年游");
}

#[test]
fn can_identify_real_linebreaks() {
    let text = "欲买桂花同载酒\n\n\n终不似\n少年游";
    let transfromed = Concat::default().act(&text);
    assert_eq!(transfromed, "欲买桂花同载酒\n终不似 少年游");
}

#[test]
fn concat_keeps_a_text_without_line_breaks() {
    assert_eq!(Concat::default().act("hello world"), "hello world");
    assert_eq!(Concat::new(5).act("one line"), "one line");
}

#[test]
fn concat_of_edge_texts() {
    assert_eq!(Concat::default().act(""), "");
    assert_eq!(Concat::default().act("a\n"), "a");
    // a leading empty line counts as a line break before the first line
    assert_eq!(Concat::default().act("\na"), "\na");
    assert_eq!(Concat::default().act("\n\n"), "");
}

#[test]
fn concat_threshold_decides_real_breaks() {
    assert_eq!(Concat::new(2).act("a\n\nb"), "a\nb");
    assert_eq!(Concat::new(3).act("a\n\nb"), "a b");
    assert_eq!(Concat::new(3).act("a\n\n\nb"), "a\nb");
    assert_eq!(Concat::new(0).act("a\nb"), "\na\nb");
    assert_eq!(Concat::default().n, 2);
}

#[test]
fn identify_language_edges() {
    assert_eq!(identify_language(""), "en");
    // both ends of the ideograph range count as Chinese
    assert_eq!(identify_language("\u{4e00}"), "zh");
    assert_eq!(identify_language("\u{4e01}"), "zh");
    assert_eq!(identify_language("\u{9fa5}"), "zh");
    assert_eq!(identify_language("\u{9fa6}"), "en");
    assert_eq!(identify_language("\u{4dff}"), "en");
    assert_eq!(identify_language("abc 中"), "zh");
}

#[test]
fn chinese_is_translated_into_english_and_the_rest_into_chinese() {
    assert_eq!(default_target_language("zh"), "en");
    assert_eq!(default_target_language("en"), "zh");
    assert_eq!(default_target_language("ja"), "zh");
}
