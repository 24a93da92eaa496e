use vstd::prelude::*;

use crate::text::{join_spec, join_strings, push_str};
use crate::types::RespData;

verus! {

/// Terminal colours that responses use.
#[derive(Clone, Copy)]
pub enum TermColour {
    Red,
    Green,
    Blue,
}

/// Terminal text styles that responses use.
#[derive(Clone, Copy)]
pub enum TermStyle {
    Bold,
    Italic,
}

/// The SGR code of a foreground colour.
pub open spec fn colour_code(c: TermColour) -> Seq<char> {
    match c {
        TermColour::Red => seq!['3', '1'],
        TermColour::Green => seq!['3', '2'],
        TermColour::Blue => seq!['3', '4'],
    }
}

/// The SGR code of a text style.
pub open spec fn style_code(s: TermStyle) -> Seq<char> {
    match s {
        TermStyle::Bold => seq!['1'],
        TermStyle::Italic => seq!['3'],
    }
}

/// `text` between the escape sequence that sets the SGR `code` and the one
/// that resets all attributes.
pub open spec fn painted(code: Seq<char>, text: Seq<char>) -> Seq<char> {
    seq!['\u{1b}', '['] + code + seq!['m'] + text + seq!['\u{1b}', '[', '0', 'm']
}

/// `ansi_term::Colour::paint` then `to_string`: the crate writes the prefix
/// `ESC [ <code> m`, the text, then the reset `ESC [ 0 m` (for Red 31, Green 32,
/// Blue 34).
#[verifier::external_body]
pub(crate) fn paint_colour(colour: TermColour, text: &str) -> (res: String)
    ensures
        res@ == painted(colour_code(colour), text@),
{
    let c = match colour {
        TermColour::Red => ansi_term::Colour::Red,
        TermColour::Green => ansi_term::Colour::Green,
        TermColour::Blue => ansi_term::Colour::Blue,
    };
    c.paint(text).to_string()
}

/// `ansi_term::Style::new()` with `bold()` or `italic()`, then `paint` and
/// `to_string`: the prefix `ESC [ 1 m` (bold) or `ESC [ 3 m` (italic), the text,
/// then the reset `ESC [ 0 m`.
#[verifier::external_body]
pub(crate) fn paint_style(style: TermStyle, text: &str) -> (res: String)
    ensures
        res@ == painted(style_code(style), text@),
{
    let s = match style {
        TermStyle::Bold => ansi_term::Style::new().bold(),
        TermStyle::Italic => ansi_term::Style::new().italic(),
    };
    s.paint(text).to_string()
}

/// The phonetic symbols on the terminal: `variant: symbol` each, the variant
/// italic and the symbol blue, each followed by a tab.
pub open spec fn ps_ansi(pss: Seq<(String, String)>) -> Seq<char>
    decreases pss.len(),
{
    if pss.len() == 0 {
        Seq::empty()
    } else {
        ps_ansi(pss.drop_last()) + painted(seq!['3'], pss.last().0@) + ": "@ + painted(seq!['3', '4'], pss.last().1@) + "\t"@
    }
}

/// No phonetic symbols render to nothing, and one more symbol `p` adds, after
/// the rendering of the symbols before it and whatever they are, its variant in
/// italics (`ESC [3m` .. `ESC [0m`), `": "`, its symbol in blue (`ESC [34m` ..
/// `ESC [0m`) and a tab.
pub proof fn lemma_ps_ansi_push(pss: Seq<(String, String)>, p: (String, String))
    ensures
        ps_ansi(Seq::<(String, String)>::empty()) == Seq::<char>::empty(),
        ps_ansi(pss.push(p)) == ps_ansi(pss) + seq!['\u{1b}', '[', '3', 'm'] + p.0@
            + seq!['\u{1b}', '[', '0', 'm', ':', ' ', '\u{1b}', '[', '3', '4', 'm'] + p.1@
            + seq!['\u{1b}', '[', '0', 'm', '\t'],
{
    reveal_strlit(": ");
    reveal_strlit("\t");
    assert(pss.push(p).drop_last() =~= pss);
    assert(pss.push(p).last() == p);
    assert(ps_ansi(pss.push(p)) =~= ps_ansi(pss) + seq!['\u{1b}', '[', '3', 'm'] + p.0@
        + seq!['\u{1b}', '[', '0', 'm', ':', ' ', '\u{1b}', '[', '3', '4', 'm'] + p.1@
        + seq!['\u{1b}', '[', '0', 'm', '\t']);
}

/// The rendering of a list of phonetic symbols is the rendering of its first
/// part followed by that of the rest.
pub proof fn lemma_ps_ansi_concat(a: Seq<(String, String)>, b: Seq<(String, String)>)
    ensures
        ps_ansi(a + b) == ps_ansi(a) + ps_ansi(b),
    decreases b.len(),
{
    if b.len() == 0 {
        assert(a + b =~= a);
        assert(ps_ansi(a) + ps_ansi(b) =~= ps_ansi(a));
    } else {
        lemma_ps_ansi_concat(a, b.drop_last());
        assert((a + b).drop_last() =~= a + b.drop_last());
        assert((a + b).last() == b.last());
        assert(ps_ansi(a + b) =~= ps_ansi(a) + ps_ansi(b));
    }
}

/// The lines of a response on the terminal: the backend in red, the query in
/// bold, the languages, the phonetic symbols if any, the basic description (green
/// for a short query), and the detail description if any.
pub open spec fn ansi_term_lines(resp: RespData) -> Seq<Seq<char>> {
    let head = seq![
        painted(seq!['3', '1'], resp.backend@),
        painted(seq!['1'], resp.query.text@),
        resp.query.lang_from@ + " to "@ + resp.query.lang_to@,
    ];
    let with_ps = match resp.phonetic_symbol {
        Some(v) => head.push(ps_ansi(v@)),
        None => head,
    };
    let with_basic = with_ps.push(
        if resp.query.is_short_text { painted(seq!['3', '2'], resp.basic_desc@) } else { resp.basic_desc@ },
    );
    match resp.detail_desc {
        Some(d) => with_basic.push(d@),
        None => with_basic,
    }
}

/// The terminal rendering of a response: its lines joined by line breaks.
pub open spec fn ansi_term_spec(resp: RespData) -> Seq<char> {
    join_spec(ansi_term_lines(resp), "\n"@)
}

/// Renders a response for an ANSI terminal.
pub fn format_ansi_term(data: &RespData) -> (res: String)
    ensures
        res@ == ansi_term_spec(*data),
{
    let mut strings: Vec<String> = Vec::new();
    strings.push(paint_colour(TermColour::Red, data.backend.as_str()));
    strings.push(paint_style(TermStyle::Bold, data.query.text.as_str()));
    let mut from_to = data.query.lang_from.clone();
    push_str(&mut from_to, " to ");
    push_str(&mut from_to, data.query.lang_to.as_str());
    strings.push(from_to);
    if let Some(pss) = &data.phonetic_symbol {
        let mut ps_string = String::new();
        let mut i: usize = 0;
        assert(pss@.take(0) =~= Seq::<(String, String)>::empty());
        while i < pss.len()
            invariant
                i <= pss@.len(),
                ps_string@ == ps_ansi(pss@.take(i as int)),
            decreases pss@.len() - i,
        {
            let lang = paint_style(TermStyle::Italic, pss[i].0.as_str());
            let ps = paint_colour(TermColour::Blue, pss[i].1.as_str());
            push_str(&mut ps_string, lang.as_str());
            push_str(&mut ps_string, ": ");
            push_str(&mut ps_string, ps.as_str());
            push_str(&mut ps_string, "\t");
            i = i + 1;
            assert(pss@.take(i as int).drop_last() =~= pss@.take(i - 1));
        }
        assert(pss@.take(i as int) =~= pss@);
        strings.push(ps_string);
    }
    if data.query.is_short_text {
        strings.push(paint_colour(TermColour::Green, data.basic_desc.as_str()));
    } else {
        strings.push(data.basic_desc.clone());
    }
    if let Some(long_desc) = &data.detail_desc {
        strings.push(long_desc.clone());
    }
    assert(strings@.map_values(|p: String| p@) =~= ansi_term_lines(*data));
    join_strings(&strings, "\n")
}

} // verus!
