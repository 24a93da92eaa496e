pub mod md;

use vstd::prelude::*;

use crate::formatter::ansiterm::{ansi_term_spec, format_ansi_term};
use crate::types::RespData;
use md::{format_markdown, server_markdown_spec};

verus! {

/// How the server renders a response.
#[derive(PartialEq, Eq, Structural, Clone, Copy, Debug)]
pub enum Formatter {
    AnsiTerm,
    Markdown,
}

impl Formatter {
    pub fn format(&self, resp: &RespData) -> (res: String)
        ensures
            res@ == match *self {
                Formatter::AnsiTerm => ansi_term_spec(*resp),
                Formatter::Markdown => server_markdown_spec(*resp),
            },
    {
        match self {
            Formatter::AnsiTerm => format_ansi_term(resp),
            Formatter::Markdown => format_markdown(resp),
        }
    }
}

} // verus!
