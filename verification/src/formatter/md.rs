use vstd::prelude::*;

use crate::text::push_str;
use crate::types::RespData;

verus! {

/// The markdown lines of the phonetic symbols, `  variant: symbol` each.
pub open spec fn ps_lines_md(pss: Seq<(String, String)>) -> Seq<char>
    decreases pss.len(),
{
    if pss.len() == 0 {
        Seq::empty()
    } else {
        ps_lines_md(pss.drop_last()) + "  "@ + pss.last().0@ + ": "@ + pss.last().1@ + "\n"@
    }
}

/// The markdown rendering of a response.
pub open spec fn markdown_spec(resp: RespData) -> Seq<char> {
    "# "@ + resp.backend@ + "\n"@ + "---\n"@ + "## "@ + resp.query.text@ + "\n"@ + "- language: /"@
        + resp.query.lang_from@ + "/ to /"@ + resp.query.lang_to@ + "/"@ + "\n- phonetic symbol:\n"@
        + match resp.phonetic_symbol {
            Some(v) => ps_lines_md(v@),
            None => Seq::empty(),
        } + "\n## short desc\n"@ + resp.basic_desc@ + "\n\n## long desc\n"@
        + match resp.detail_desc {
            Some(d) => d@,
            None => Seq::empty(),
        }
}

/// Renders a response as markdown.
pub fn format_markdown(resp: &RespData) -> (res: String)
    ensures
        res@ == markdown_spec(*resp),
{
    let mut result = String::new();
    push_str(&mut result, "# ");
    push_str(&mut result, resp.backend.as_str());
    push_str(&mut result, "\n");
    push_str(&mut result, "---\n");
    push_str(&mut result, "## ");
    push_str(&mut result, resp.query.text.as_str());
    push_str(&mut result, "\n");
    push_str(&mut result, "- language: /");
    push_str(&mut result, resp.query.lang_from.as_str());
    push_str(&mut result, "/ to /");
    push_str(&mut result, resp.query.lang_to.as_str());
    push_str(&mut result, "/");
    push_str(&mut result, "\n- phonetic symbol:\n");
    let ghost head = result@;
    if let Some(pss) = &resp.phonetic_symbol {
        let mut i: usize = 0;
        assert(pss@.take(0) =~= Seq::<(String, String)>::empty());
        assert(head + ps_lines_md(pss@.take(0)) =~= head);
        while i < pss.len()
            invariant
                i <= pss@.len(),
                result@ == head + ps_lines_md(pss@.take(i as int)),
            decreases pss@.len() - i,
        {
            push_str(&mut result, "  ");
            push_str(&mut result, pss[i].0.as_str());
            push_str(&mut result, ": ");
            push_str(&mut result, pss[i].1.as_str());
            push_str(&mut result, "\n");
            i = i + 1;
            assert(pss@.take(i as int).drop_last() =~= pss@.take(i - 1));
            assert(result@ =~= head + ps_lines_md(pss@.take(i as int)));
        }
        assert(pss@.take(i as int) =~= pss@);
    } else {
        assert(result@ =~= head + Seq::<char>::empty());
    }
    push_str(&mut result, "\n## short desc\n");
    push_str(&mut result, resp.basic_desc.as_str());
    push_str(&mut result, "\n\n## long desc\n");
    let ghost mid = result@;
    if let Some(long_desc) = &resp.detail_desc {
        push_str(&mut result, long_desc.as_str());
    } else {
        assert(result@ =~= mid + Seq::<char>::empty());
    }
    result
}

} // verus!
