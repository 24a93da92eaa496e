pub mod backends;
pub mod config;
pub mod formatter;
pub mod runner;
pub mod transformer;
pub mod types;

use vstd::prelude::*;

use crate::formatter::Format;
use crate::text::push_str;
use crate::types::Query;

verus! {

/// A lookup request to the server: the query and the format of the answers.
#[derive(Clone, Debug)]
pub struct Params {
    pub query: Query,
    pub format: Format,
}

impl Params {
    pub fn new(query: Query, format: Format) -> (res: Self)
        ensures
            res.query == query,
            res.format == format,
    {
        Self { query, format }
    }
}

/// The answers that come before the first missing one, each after a blank line.
pub open spec fn reply_spec(answers: Seq<Option<String>>) -> Seq<char>
    decreases answers.len(),
{
    if answers.len() == 0 {
        Seq::empty()
    } else {
        match answers[0] {
            Some(t) => "\n\n"@ + t@ + reply_spec(answers.drop_first()),
            None => Seq::empty(),
        }
    }
}

/// The reply to a lookup: the backends' answers, in the order they came, up to
/// the first backend that gave none (see `reply_spec`).
pub fn lookup_reply(answers: &Vec<Option<String>>) -> (res: String)
    ensures
        res@ == reply_spec(answers@),
{
    let mut resp = String::new();
    let mut i: usize = 0;
    assert(answers@.skip(0) =~= answers@);
    while i < answers.len()
        invariant
            i <= answers@.len(),
            reply_spec(answers@) == resp@ + reply_spec(answers@.skip(i as int)),
        decreases answers@.len() - i,
    {
        let ghost rest = answers@.skip(i as int);
        assert(rest[0] == answers@[i as int]);
        assert(rest.drop_first() =~= answers@.skip(i + 1));
        match &answers[i] {
            Some(text) => {
                let ghost before = resp@;
                push_str(&mut resp, "\n\n");
                push_str(&mut resp, text.as_str());
                assert(before + ("\n\n"@ + text@ + reply_spec(answers@.skip(i + 1)))
                    =~= resp@ + reply_spec(answers@.skip(i + 1)));
            },
            None => {
                assert(resp@ + Seq::<char>::empty() =~= resp@);
                return resp;
            },
        }
        i = i + 1;
    }
    assert(resp@ + Seq::<char>::empty() =~= resp@);
    resp
}

} // verus!
