use vstd::prelude::*;

use crate::backends::web::youdao::params_view;
use crate::types::Query;

verus! {

/// The text of the first element of the document `html` that the CSS selector
/// `selector` picks (its text nodes in document order); `None` when the
/// selector does not parse or picks nothing.
pub uninterp spec fn css_first_match(html: Seq<char>, selector: Seq<char>) -> Option<Seq<char>>;

/// `scraper::Html::parse_document`, `scraper::Selector::parse` and the first
/// element of `select`, its `ElementRef::text` nodes joined.  The result is
/// named (`css_first_match`): the document tree and its text nodes, in document
/// order, depend on the two texts alone.
#[verifier::external_body]
fn select_first(html: &str, selector: &str) -> (res: Option<String>)
    ensures
        match css_first_match(html@, selector@) {
            Some(t) => res is Some && res->0@ == t,
            None => res is None,
        },
{
    let doc = scraper::Html::parse_document(html);
    match scraper::Selector::parse(selector) {
        Ok(sel) => match doc.select(&sel).next() {
            Some(e) => Some(e.text().collect::<String>()),
            None => None,
        },
        Err(_) => None,
    }
}

/// The selector of the detail section of a dict.cn answer page.
pub open spec fn detail_selector() -> Seq<char> {
    "layout detail"@
}

/// The dict.cn backend.
#[derive(Clone, Debug)]
pub struct DictCN {
    url: String,
}

impl DictCN {
    pub fn new() -> (res: DictCN)
        ensures
            res.url()@ == "https://dict.cn/search"@,
    {
        DictCN { url: "https://dict.cn/search".to_owned() }
    }

    /// The search page.
    pub closed spec fn url(&self) -> String {
        self.url
    }

    /// The search page.
    pub fn search_url(&self) -> (res: &String)
        ensures
            *res == self.url(),
    {
        &self.url
    }

    /// The form to post for `query`: the text as `q`.
    pub fn request_params(&self, query: &Query) -> (res: Vec<(String, String)>)
        ensures
            params_view(res@) == seq![("q"@, query.text@)],
    {
        let mut params: Vec<(String, String)> = Vec::new();
        params.push(("q".to_owned(), query.text.clone()));
        assert(params_view(params@) =~= seq![("q"@, query.text@)]);
        params
    }
}

/// The text of the detail section of a dict.cn answer page: the first element
/// that the selector `layout detail` picks, if any.
pub fn dictcn_detail(html: &str) -> (res: Option<String>)
    ensures
        match css_first_match(html@, detail_selector()) {
            Some(t) => res is Some && res->0@ == t,
            None => res is None,
        },
{
    select_first(html, "layout detail")
}

} // verus!
