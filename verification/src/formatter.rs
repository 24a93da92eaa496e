pub mod ansiterm;
pub mod md;

pub use ansiterm::format_ansi_term;
pub use md::format_markdown;

use vstd::prelude::*;

use crate::types::RespData;
use ansiterm::ansi_term_spec;
use md::markdown_spec;

verus! {

/// How a response is rendered.
#[derive(PartialEq, Eq, Structural, Clone, Copy, Debug)]
pub enum Format {
    AnsiTerm,
    Markdown,
}

impl Format {
    pub fn format(&self, resp: &RespData) -> (res: String)
        ensures
            res@ == match *self {
                Format::AnsiTerm => ansi_term_spec(*resp),
                Format::Markdown => markdown_spec(*resp),
            },
    {
        match self {
            Format::AnsiTerm => format_ansi_term(resp),
            Format::Markdown => format_markdown(resp),
        }
    }
}

impl From<&str> for Format {
    /// `md` is markdown; `ansi`, and any other name, is the terminal format.
    fn from(s: &str) -> (res: Self) {
        let md = "md".to_owned();
        if s.to_owned() == md {
            Format::Markdown
        } else {
            Format::AnsiTerm
        }
    }
}

impl vstd::std_specs::convert::FromSpecImpl<&str> for Format {
    open spec fn obeys_from_spec() -> bool {
        true
    }

    open spec fn from_spec(s: &str) -> Format {
        if s@ == "md"@ {
            Format::Markdown
        } else {
            Format::AnsiTerm
        }
    }
}

} // verus!
