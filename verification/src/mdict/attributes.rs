use vstd::prelude::*;

use crate::text::chars_of;

verus! {

/// Whether the regular expression `pattern` compiles (`Some`), and then whether
/// it matches somewhere in `text`.
pub uninterp spec fn regex_accepts(pattern: Seq<char>, text: Seq<char>) -> Option<bool>;

/// `regex::Regex::new(pattern)`, then `is_match(text)`; `None` when the pattern
/// does not compile.  The result is named (`regex_accepts`): it depends on the
/// two texts alone.
#[verifier::external_body]
fn regex_is_match(pattern: &str, text: &str) -> (res: Option<bool>)
    ensures
        res == regex_accepts(pattern@, text@),
{
    match regex::Regex::new(pattern) {
        Ok(re) => Some(re.is_match(text)),
        Err(_) => None,
    }
}

/// The pattern of one word character (`\w`, Unicode-aware), and nothing else.
pub open spec fn word_char_pattern() -> Seq<char> {
    "^\\w$"@
}

/// A character of an attribute name: a word character as the regular
/// expression class `\w` takes it.
pub open spec fn is_name_char(c: char) -> bool {
    regex_accepts(word_char_pattern(), seq![c]) == Some(true)
}

/// The end of the run of name characters that starts at `p`.
pub open spec fn name_end(t: Seq<char>, p: int) -> int
    decreases t.len() - p,
{
    if p < 0 || p >= t.len() || !is_name_char(t[p]) {
        p
    } else {
        name_end(t, p + 1)
    }
}

/// The index of the first `"` from `j` on, unless a line break comes first.
pub open spec fn closing_quote(t: Seq<char>, j: int) -> Option<int>
    decreases t.len() - j,
{
    if j < 0 || j >= t.len() {
        None
    } else if t[j] == '"' {
        Some(j)
    } else if t[j] == '\n' {
        None
    } else {
        closing_quote(t, j + 1)
    }
}

/// The attributes `name="value"` of the text `t` from index `p` on, in order:
/// a name is a run of name characters, directly followed by `="`, and the value
/// runs to the next `"`, which must come before any line break.  A run that is
/// not such an attribute is passed over.
pub open spec fn attributes_from(t: Seq<char>, p: int) -> Seq<(Seq<char>, Seq<char>)>
    decreases t.len() - p,
    via attributes_from_decreases
{
    if p < 0 || p >= t.len() {
        Seq::empty()
    } else if !is_name_char(t[p]) {
        attributes_from(t, p + 1)
    } else {
        let e = name_end(t, p);
        if e + 1 < t.len() && t[e] == '=' && t[e + 1] == '"' {
            match closing_quote(t, e + 2) {
                Some(k) => seq![(t.subrange(p, e), t.subrange(e + 2, k))] + attributes_from(t, k + 1),
                None => attributes_from(t, e),
            }
        } else {
            attributes_from(t, e)
        }
    }
}

/// A run of name characters ends after its start and within the text.
proof fn lemma_name_end(t: Seq<char>, p: int)
    requires
        0 <= p <= t.len(),
    ensures
        p <= name_end(t, p) <= t.len(),
        p < t.len() && is_name_char(t[p]) ==> p < name_end(t, p),
        name_end(t, p) < t.len() ==> !is_name_char(t[name_end(t, p)]),
    decreases t.len() - p,
{
    if p < t.len() && is_name_char(t[p]) {
        lemma_name_end(t, p + 1);
    }
}

/// A closing quote lies at or after where the search starts.
proof fn lemma_closing_quote(t: Seq<char>, j: int)
    ensures
        closing_quote(t, j) matches Some(k) ==> j <= k < t.len() && t[k] == '"',
    decreases t.len() - j,
{
    if 0 <= j < t.len() && t[j] != '"' && t[j] != '\n' {
        lemma_closing_quote(t, j + 1);
    }
}

#[via_fn]
proof fn attributes_from_decreases(t: Seq<char>, p: int) {
    if 0 <= p < t.len() && is_name_char(t[p]) {
        lemma_name_end(t, p);
        lemma_closing_quote(t, name_end(t, p) + 2);
    }
}

/// The view of `(name, value)` pairs.
pub open spec fn pairs_view(v: Seq<(String, String)>) -> Seq<(Seq<char>, Seq<char>)> {
    v.map_values(|p: (String, String)| (p.0@, p.1@))
}

fn name_char(c: char) -> (res: bool)
    ensures
        res == is_name_char(c),
{
    let mut text = String::new();
    crate::text::push_char(&mut text, c);
    assert(text@ =~= seq![c]);
    match regex_is_match("^\\w$", text.as_str()) {
        Some(m) => m,
        None => false,
    }
}

/// The characters of `t` from `a` up to `b`.
fn chars_between(t: &Vec<char>, a: usize, b: usize) -> (res: String)
    requires
        a <= b <= t@.len(),
    ensures
        res@ == t@.subrange(a as int, b as int),
{
    let mut out = String::new();
    let mut i = a;
    while i < b
        invariant
            a <= i <= b,
            b <= t@.len(),
            out@ == t@.subrange(a as int, i as int),
        decreases b - i,
    {
        crate::text::push_char(&mut out, t[i]);
        i = i + 1;
        assert(out@ =~= t@.subrange(a as int, i as int));
    }
    out
}

/// The attributes `name="value"` of `text`, in order (see `attributes_from`).
pub fn attribute_pairs(text: &str) -> (res: Vec<(String, String)>)
    ensures
        pairs_view(res@) == attributes_from(text@, 0),
{
    let t = chars_of(text);
    let n = t.len();
    let mut out: Vec<(String, String)> = Vec::new();
    let mut p: usize = 0;
    assert(pairs_view(out@) + attributes_from(t@, 0) =~= attributes_from(t@, 0));
    while p < n
        invariant
            p <= n,
            n == t@.len(),
            t@ == text@,
            attributes_from(t@, 0) == pairs_view(out@) + attributes_from(t@, p as int),
        decreases n - p,
    {
        if !name_char(t[p]) {
            p = p + 1;
        } else {
            let mut e = p;
            while e < n && name_char(t[e])
                invariant
                    p <= e <= n,
                    n == t@.len(),
                    name_end(t@, p as int) == name_end(t@, e as int),
                decreases n - e,
            {
                e = e + 1;
            }
            proof { lemma_name_end(t@, p as int); }
            assert(e > p);
            if e < n && n - e >= 2 && t[e] == '=' && t[e + 1] == '"' {
                let mut k = e + 2;
                while k < n && t[k] != '"' && t[k] != '\n'
                    invariant
                        e + 2 <= k <= n,
                        n == t@.len(),
                        closing_quote(t@, e + 2) == closing_quote(t@, k as int),
                    decreases n - k,
                {
                    k = k + 1;
                }
                if k < n && t[k] == '"' {
                    let name = chars_between(&t, p, e);
                    let value = chars_between(&t, e + 2, k);
                    let ghost before = out@;
                    out.push((name, value));
                    assert(pairs_view(out@) =~= pairs_view(before).push((t@.subrange(p as int, e as int), t@.subrange(e + 2, k as int))));
                    assert(pairs_view(before) + (seq![(t@.subrange(p as int, e as int), t@.subrange(e + 2, k as int))] + attributes_from(t@, k + 1))
                        =~= pairs_view(out@) + attributes_from(t@, k + 1));
                    p = k + 1;
                } else {
                    p = e;
                }
            } else {
                p = e;
            }
        }
    }
    assert(pairs_view(out@) + attributes_from(t@, p as int) =~= pairs_view(out@));
    out
}

} // verus!
