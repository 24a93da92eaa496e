use std::sync::Arc;

use vstd::prelude::*;

use crate::backends::web::google_translate::GTrans;
use crate::backends::web::youdao::{Youdao, YoudaoAPIKey};
use crate::backends::Backend;
use crate::formatter::ansiterm::ansi_term_spec;
use crate::formatter::md::markdown_spec;
use crate::formatter::Format;
use crate::types::RespData;

verus! {

/// Runs a query through every backend.
pub struct Runner {
    backends: Vec<Arc<Backend>>,
}

/// What `format` renders a response as.
pub open spec fn format_spec(format: Format, resp: RespData) -> Seq<char> {
    match format {
        Format::AnsiTerm => ansi_term_spec(resp),
        Format::Markdown => markdown_spec(resp),
    }
}

impl Runner {
    /// The backends in use: Google Translate, then Youdao with the given key.
    pub fn new(youdao_key: Option<YoudaoAPIKey>) -> (res: Self)
        ensures
            res.backend_seq().len() == 2,
            res.backend_seq()[0] matches Backend::GTrans(g) && g.url()@ == "https://translate.google.com/translate_a/single?"@,
            res.backend_seq()[1] matches Backend::Youdao(y) && y.url()@ == "https://openapi.youdao.com/api"@
                && y.key() == youdao_key,
    {
        let mut backends: Vec<Arc<Backend>> = Vec::new();
        backends.push(Arc::new(Backend::GTrans(GTrans::new())));
        backends.push(Arc::new(Backend::Youdao(Youdao::new(youdao_key))));
        Runner { backends }
    }

    /// The backends, in the order they are asked.
    pub closed spec fn backend_seq(&self) -> Seq<Backend> {
        self.backends@.map_values(|b: Arc<Backend>| *b)
    }

    /// The backends, in the order they are asked.
    pub fn backends(&self) -> (res: &Vec<Arc<Backend>>)
        ensures
            res@.map_values(|b: Arc<Backend>| *b) == self.backend_seq(),
    {
        &self.backends
    }

    /// What a backend's task reports: its response rendered in `format`, or
    /// nothing when the backend failed.
    pub fn answer_text(format: Format, res: Result<RespData, String>) -> (out: Option<String>)
        ensures
            match res {
                Ok(r) => out is Some && out->0@ == format_spec(format, r),
                Err(_) => out is None,
            },
    {
        match res {
            Ok(r) => Some(format.format(&r)),
            Err(_) => None,
        }
    }
}

} // verus!
