use std::sync::Arc;

use vstd::prelude::*;

use crate::backends::web::google_translate::GTrans;
use crate::backends::web::youdao::{Youdao, YoudaoAPIKey};
use crate::backends::Backend;
use crate::formatter::ansiterm::ansi_term_spec;
use crate::server::formatter::md::server_markdown_spec;
use crate::server::formatter::Formatter;
use crate::types::RespData;

verus! {

/// Runs a server query through every backend.
pub struct Runner {
    backends: Vec<Arc<Backend>>,
}

/// What `formatter` renders a response as.
pub open spec fn formatter_spec(formatter: Formatter, resp: RespData) -> Seq<char> {
    match formatter {
        Formatter::AnsiTerm => ansi_term_spec(resp),
        Formatter::Markdown => server_markdown_spec(resp),
    }
}

impl Runner {
    /// The backends in use: Google Translate, then Youdao with the given key.
    pub fn new(youdao_key: Option<YoudaoAPIKey>) -> (res: Self)
        ensures
            res.backend_seq().len() == 2,
            res.backend_seq()[0] matches Backend::GTrans(g) && g.url()@ == "https://translate.google.com/translate_a/single?"@,
            res.backend_seq()[1] matches Backend::Youdao(y) && y.url()@ == "https://openapi.youdao.com/api"@
                && y.key() == youdao_key,
    {
        let mut backends: Vec<Arc<Backend>> = Vec::new();
        backends.push(Arc::new(Backend::GTrans(GTrans::new())));
        backends.push(Arc::new(Backend::Youdao(Youdao::new(youdao_key))));
        Runner { backends }
    }

    /// The backends, in the order they are asked.
    pub closed spec fn backend_seq(&self) -> Seq<Backend> {
        self.backends@.map_values(|b: Arc<Backend>| *b)
    }

    /// The backends, in the order they are asked.
    pub fn backends(&self) -> (res: &Vec<Arc<Backend>>)
        ensures
            res@.map_values(|b: Arc<Backend>| *b) == self.backend_seq(),
    {
        &self.backends
    }

    /// What a backend's task sends: its response rendered by `formatter`, or
    /// `error` when the backend failed.
    pub fn answer_text(formatter: Formatter, res: Result<RespData, String>) -> (out: String)
        ensures
            match res {
                Ok(r) => out@ == formatter_spec(formatter, r),
                Err(_) => out@ == "error"@,
            },
    {
        match res {
            Ok(r) => formatter.format(&r),
            Err(_) => "error".to_owned(),
        }
    }
}

} // verus!
