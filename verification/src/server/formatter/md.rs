use vstd::prelude::*;

use crate::text::push_str;
use crate::types::RespData;

verus! {

/// The phonetic symbols, `variant: /symbol/` and a tab each.
pub open spec fn ps_text(pss: Seq<(String, String)>) -> Seq<char>
    decreases pss.len(),
{
    if pss.len() == 0 {
        Seq::empty()
    } else {
        ps_text(pss.drop_last()) + pss.last().0@ + ": /"@ + pss.last().1@ + "/"@ + "\t"@
    }
}

/// The server's markdown rendering of a response: `* backend`, a rule, the
/// query text, `/from/ to /to/`, the phonetic symbols, the description and the
/// detail, with no separation after the languages.
pub open spec fn server_markdown_spec(resp: RespData) -> Seq<char> {
    "* "@ + resp.backend@ + "\n"@ + "---\n"@ + resp.query.text@ + "\n"@ + "/"@ + resp.query.lang_from@
        + "/ to /"@ + resp.query.lang_to@ + "/"@
        + match resp.phonetic_symbol {
            Some(v) => ps_text(v@),
            None => Seq::empty(),
        } + resp.basic_desc@
        + match resp.detail_desc {
            Some(d) => d@,
            None => Seq::empty(),
        }
}

/// Renders a response as the server's markdown (see `server_markdown_spec`).
pub fn format_markdown(resp: &RespData) -> (res: String)
    ensures
        res@ == server_markdown_spec(*resp),
{
    let mut result = String::new();
    push_str(&mut result, "* ");
    push_str(&mut result, resp.backend.as_str());
    push_str(&mut result, "\n");
    push_str(&mut result, "---\n");
    push_str(&mut result, resp.query.text.as_str());
    push_str(&mut result, "\n");
    push_str(&mut result, "/");
    push_str(&mut result, resp.query.lang_from.as_str());
    push_str(&mut result, "/ to /");
    push_str(&mut result, resp.query.lang_to.as_str());
    push_str(&mut result, "/");
    let ghost head = result@;
    if let Some(pss) = &resp.phonetic_symbol {
        let mut ps_string = String::new();
        let mut i: usize = 0;
        assert(pss@.take(0) =~= Seq::<(String, String)>::empty());
        while i < pss.len()
            invariant
                i <= pss@.len(),
                ps_string@ == ps_text(pss@.take(i as int)),
            decreases pss@.len() - i,
        {
            push_str(&mut ps_string, pss[i].0.as_str());
            push_str(&mut ps_string, ": /");
            push_str(&mut ps_string, pss[i].1.as_str());
            push_str(&mut ps_string, "/");
            push_str(&mut ps_string, "\t");
            i = i + 1;
            assert(pss@.take(i as int).drop_last() =~= pss@.take(i - 1));
            assert(ps_string@ =~= ps_text(pss@.take(i as int)));
        }
        assert(pss@.take(i as int) =~= pss@);
        push_str(&mut result, ps_string.as_str());
    } else {
        assert(result@ =~= head + Seq::<char>::empty());
    }
    push_str(&mut result, resp.basic_desc.as_str());
    let ghost mid = result@;
    if let Some(long_desc) = &resp.detail_desc {
        push_str(&mut result, long_desc.as_str());
    } else {
        assert(result@ =~= mid + Seq::<char>::empty());
    }
    result
}

} // verus!
