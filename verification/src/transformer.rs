use vstd::prelude::*;

use crate::text::{chars_of, pop_char, push_char, push_str};

verus! {

/// A text transformer.
pub trait Transformer {
    /// perform the transform
    fn act(&self, text: &str) -> String;
}

/// Replaces line breaks with spaces, keeping a break where enough consecutive
/// line breaks mark a real one.
#[derive(Debug, Clone, Copy)]
pub struct Concat {
    /// Threshold number of consecutive line breaks that mark a real line break.
    /// The default is 2.
    pub n: usize,
}

impl Concat {
    pub fn new(n: usize) -> (res: Self)
        ensures
            res.n == n,
    {
        Self { n }
    }
}

impl Default for Concat {
    fn default() -> (res: Self)
        ensures
            res.n == 2,
    {
        Concat::new(2)
    }
}

/// The lines of `s`: the pieces between its `'\n'`s, as `str::split('\n')` gives
/// them (there is always at least one, possibly empty).
pub open spec fn split_lines(s: Seq<char>) -> Seq<Seq<char>>
    decreases s.len(),
{
    if s.len() == 0 {
        seq![Seq::empty()]
    } else {
        let prev = split_lines(s.drop_last());
        if s.last() == '\n' {
            prev.push(Seq::empty())
        } else {
            prev.update(prev.len() - 1, prev.last().push(s.last()))
        }
    }
}

pub proof fn lemma_split_lines_nonempty(s: Seq<char>)
    ensures
        split_lines(s).len() >= 1,
    decreases s.len(),
{
    if s.len() > 0 {
        lemma_split_lines_nonempty(s.drop_last());
    }
}

/// `s` without its last character, if it has one.
pub open spec fn pop_last(s: Seq<char>) -> Seq<char> {
    if s.len() > 0 {
        s.drop_last()
    } else {
        s
    }
}

/// One line into the joining state `(output, empty lines in a row)`: an empty
/// line is counted; a non-empty one is appended with a trailing space, after
/// turning the previous trailing space into a line break when the count of line
/// breaks before it reaches the threshold.
pub open spec fn concat_step(state: (Seq<char>, nat), line: Seq<char>, n: nat) -> (Seq<char>, nat) {
    if line.len() == 0 {
        (state.0, state.1 + 1)
    } else {
        let r = if state.1 + 1 >= n { pop_last(state.0).push('\n') } else { state.0 };
        (r + line + seq![' '], 0)
    }
}

/// The joining state after the lines `lines`.
pub open spec fn concat_fold(lines: Seq<Seq<char>>, n: nat) -> (Seq<char>, nat)
    decreases lines.len(),
{
    if lines.len() == 0 {
        (Seq::empty(), 0)
    } else {
        concat_step(concat_fold(lines.drop_last(), n), lines.last(), n)
    }
}

/// The joined text: the output after all lines, without its last character.
pub open spec fn concat_spec(text: Seq<char>, n: nat) -> Seq<char> {
    pop_last(concat_fold(split_lines(text), n).0)
}

impl Concat {
    /// Feeds one line into the joining state.
    fn feed(&self, result: &mut String, count: &mut u128, line: &Vec<char>)
        requires
            *old(count) < u128::MAX,
        ensures
            (final(result)@, *final(count) as nat) == concat_step((old(result)@, *old(count) as nat), line@, self.n as nat),
    {
        if line.len() == 0 {
            *count = *count + 1;
        } else {
            if *count + 1 >= self.n as u128 {
                let _ = pop_char(result);
                push_char(result, '\n');
            }
            *count = 0;
            let mut i: usize = 0;
            let ghost start = result@;
            while i < line.len()
                invariant
                    i <= line@.len(),
                    result@ == start + line@.take(i as int),
                decreases line@.len() - i,
            {
                push_char(result, line[i]);
                i = i + 1;
                assert(result@ =~= start + line@.take(i as int));
            }
            assert(line@.take(i as int) =~= line@);
            push_char(result, ' ');
        }
    }
}

impl Transformer for Concat {
    /// Joins the lines of `text` with spaces; `n` or more line breaks in a row
    /// (counting the empty lines between them plus one) keep one line break.
    fn act(&self, text: &str) -> (res: String)
        ensures
            res@ == concat_spec(text@, self.n as nat),
    {
        let chars = chars_of(text);
        let len = chars.len();
        let mut result = String::new();
        let mut count: u128 = 0;
        let mut line: Vec<char> = Vec::new();
        let mut i: usize = 0;
        proof {
            assert(chars@.take(0) =~= Seq::<char>::empty());
        }
        while i < len
            invariant
                i <= len,
                len == chars@.len(),
                count <= i,
                i <= usize::MAX,
                split_lines(chars@.take(i as int)).len() >= 1,
                line@ == split_lines(chars@.take(i as int)).last(),
                (result@, count as nat) == concat_fold(split_lines(chars@.take(i as int)).drop_last(), self.n as nat),
            decreases len - i,
        {
            let c = chars[i];
            let ghost prev = split_lines(chars@.take(i as int));
            assert(chars@.take(i + 1).drop_last() =~= chars@.take(i as int));
            if c == '\n' {
                assert(prev.push(Seq::empty()).drop_last() =~= prev);
                assert(prev =~= prev.drop_last().push(prev.last()));
                self.feed(&mut result, &mut count, &line);
                line = Vec::new();
            } else {
                line.push(c);
                assert(prev.update(prev.len() - 1, prev.last().push(c)).drop_last() =~= prev.drop_last());
            }
            i = i + 1;
            proof { lemma_split_lines_nonempty(chars@.take(i as int)); }
        }
        let ghost lines = split_lines(chars@.take(len as int));
        assert(lines =~= lines.drop_last().push(lines.last()));
        self.feed(&mut result, &mut count, &line);
        assert(chars@.take(len as int) =~= text@);
        let _ = pop_char(&mut result);
        result
    }
}

/// True when the text holds a CJK unified ideograph, U+4E00 to U+9FA5.
pub open spec fn has_chinese(text: Seq<char>) -> bool {
    exists|i: int| 0 <= i < text.len() && 0x4e00 <= (#[trigger] text[i]) as u32 && (text[i] as u32) <= 0x9fa5
}

/// Identifies the language of a text: Chinese (`zh`) if any character is a CJK
/// unified ideograph, English (`en`) otherwise.
pub fn identify_language(text: &str) -> (res: &str)
    ensures
        res@ == (if has_chinese(text@) { "zh"@ } else { "en"@ }),
{
    let chars = chars_of(text);
    let mut is_chinese = false;
    let mut i: usize = 0;
    while i < chars.len() && !is_chinese
        invariant
            i <= chars@.len(),
            chars@ == text@,
            is_chinese ==> has_chinese(text@),
            !is_chinese ==> forall|j: int| 0 <= j < i ==> !(0x4e00 <= (#[trigger] text@[j]) as u32 && (text@[j] as u32) <= 0x9fa5),
        decreases chars@.len() - i,
    {
        let c = chars[i] as u32;
        if 0x4e00 <= c && c <= 0x9fa5 {
            assert(0x4e00 <= text@[i as int] as u32 && (text@[i as int] as u32) <= 0x9fa5);
            is_chinese = true;
        }
        i = i + 1;
    }
    if is_chinese {
        "zh"
    } else {
        "en"
    }
}

/// The language a text is translated into when none is asked for: English
/// for Chinese, Chinese for anything else.
pub fn default_target_language(lang_from: &str) -> (res: &str)
    ensures
        res@ == (if lang_from@ == "zh"@ { "en"@ } else { "zh"@ }),
{
    if lang_from.to_owned() == "zh".to_owned() {
        "en"
    } else {
        "zh"
    }
}

/// The lines of a text without line breaks are the text itself.
pub proof fn lemma_split_lines_single(s: Seq<char>)
    requires
        !s.contains('\n'),
    ensures
        split_lines(s) == seq![s],
    decreases s.len(),
{
    if s.len() > 0 {
        let p = s.drop_last();
        assert(!p.contains('\n')) by {
            if p.contains('\n') {
                let i = choose|i: int| 0 <= i < p.len() && p[i] == '\n';
                assert(s[i] == '\n');
            }
        }
        lemma_split_lines_single(p);
        assert(s[s.len() - 1] == s.last());
        assert(s.last() != '\n');
        assert(p.push(s.last()) =~= s);
        assert(seq![p].update(0, p.push(s.last())) =~= seq![s]);
    } else {
        assert(s =~= Seq::<char>::empty());
    }
}

/// Joining lines leaves a text without line breaks as it is, whenever a real
/// line break takes at least two line breaks in a row (the threshold is 2 or
/// more).
pub proof fn lemma_concat_keeps_single_line(text: Seq<char>, n: nat)
    requires
        !text.contains('\n'),
        n >= 2,
    ensures
        concat_spec(text, n) == text,
{
    lemma_split_lines_single(text);
    let lines = split_lines(text);
    assert(lines.drop_last() =~= Seq::<Seq<char>>::empty());
    assert(lines.last() == text);
    assert(concat_fold(lines.drop_last(), n) == (Seq::<char>::empty(), 0nat));
    assert(concat_fold(lines, n) == concat_step((Seq::<char>::empty(), 0nat), text, n));
    if text.len() > 0 {
        assert(Seq::<char>::empty() + text + seq![' '] =~= text + seq![' ']);
        assert((text + seq![' ']).drop_last() =~= text);
    } else {
        assert(text =~= Seq::<char>::empty());
    }
}

/// A text that holds a Chinese character keeps it, whatever is put before or
/// after it: such a text is identified as Chinese wherever it occurs.
pub proof fn lemma_chinese_anywhere(a: Seq<char>, b: Seq<char>)
    requires
        has_chinese(a),
    ensures
        has_chinese(a + b),
        has_chinese(b + a),
{
    let i = choose|i: int| 0 <= i < a.len() && 0x4e00 <= (#[trigger] a[i]) as u32 && (a[i] as u32) <= 0x9fa5;
    assert((a + b)[i] == a[i]);
    assert((b + a)[b.len() + i] == a[i]);
}

/// The characters of `s` other than spaces and line breaks, in order.
pub open spec fn visible(s: Seq<char>) -> Seq<char> {
    s.filter(|c: char| c != ' ' && c != '\n')
}

/// The lines put one after another, with nothing between them.
pub open spec fn flatten_lines(ls: Seq<Seq<char>>) -> Seq<char>
    decreases ls.len(),
{
    if ls.len() == 0 {
        Seq::empty()
    } else {
        flatten_lines(ls.drop_last()) + ls.last()
    }
}

/// The visible characters after one more character.
proof fn lemma_visible_push(s: Seq<char>, c: char)
    ensures
        visible(s.push(c)) == (if c != ' ' && c != '\n' { visible(s).push(c) } else { visible(s) }),
{
    reveal(Seq::filter);
    assert(s.push(c).drop_last() =~= s);
    assert(s.push(c).last() == c);
}

/// Cutting a text into lines drops only its line breaks.
proof fn lemma_visible_lines(text: Seq<char>)
    ensures
        visible(text) == visible(flatten_lines(split_lines(text))),
    decreases text.len(),
{
    broadcast use Seq::filter_distributes_over_add;
    if text.len() == 0 {
        let one = seq![Seq::<char>::empty()];
        assert(split_lines(text) == one);
        assert(one.drop_last() =~= Seq::<Seq<char>>::empty());
        assert(flatten_lines(one.drop_last()) == Seq::<char>::empty());
        assert(flatten_lines(one) =~= Seq::<char>::empty());
        assert(text =~= Seq::<char>::empty());
    } else {
        let s = text.drop_last();
        let c = text.last();
        lemma_visible_lines(s);
        lemma_split_lines_nonempty(s);
        let l = split_lines(s);
        assert(text =~= s.push(c));
        assert(text.drop_last() =~= s);
        lemma_visible_push(s, c);
        if c == '\n' {
            let l2 = l.push(Seq::empty());
            assert(l2.drop_last() =~= l);
            assert(flatten_lines(l2) =~= flatten_lines(l) + Seq::<char>::empty());
            assert(flatten_lines(l) + Seq::<char>::empty() =~= flatten_lines(l));
        } else {
            let l2 = l.update(l.len() - 1, l.last().push(c));
            assert(l2.drop_last() =~= l.drop_last());
            assert(l2.last() == l.last().push(c));
            let f = flatten_lines(l2);
            assert(f =~= flatten_lines(l.drop_last()) + l.last().push(c));
            assert(flatten_lines(l) == flatten_lines(l.drop_last()) + l.last());
            assert(f =~= flatten_lines(l).push(c));
            lemma_visible_push(flatten_lines(l), c);
        }
    }
}

/// The joining state's text is empty or ends with a space, and keeps the
/// visible characters of the lines joined so far.
proof fn lemma_fold_visible(lines: Seq<Seq<char>>, n: nat)
    ensures
        concat_fold(lines, n).0.len() == 0 || concat_fold(lines, n).0.last() == ' ',
        visible(concat_fold(lines, n).0) == visible(flatten_lines(lines)),
    decreases lines.len(),
{
    broadcast use Seq::filter_distributes_over_add;
    if lines.len() > 0 {
        let l0 = lines.drop_last();
        let line = lines.last();
        lemma_fold_visible(l0, n);
        let st = concat_fold(l0, n);
        if line.len() == 0 {
            assert(flatten_lines(lines) =~= flatten_lines(l0));
        } else {
            let p = pop_last(st.0);
            if st.0.len() > 0 {
                assert(st.0 =~= p.push(' '));
                lemma_visible_push(p, ' ');
            }
            assert(visible(p) == visible(st.0));
            lemma_visible_push(p, '\n');
            let r = if st.1 + 1 >= n { p.push('\n') } else { st.0 };
            let out = r + line + seq![' '];
            assert(concat_fold(lines, n).0 == out);
            lemma_visible_push(Seq::<char>::empty(), ' ');
            assert(Seq::<char>::empty().push(' ') =~= seq![' ']);
            assert(visible(Seq::<char>::empty()) =~= Seq::<char>::empty());
            assert(visible(out) == visible(r) + visible(line) + visible(seq![' ']));
            assert(visible(out) =~= visible(r) + visible(line));
            assert(out.last() == ' ');
        }
    }
}

/// Joining lines keeps every character other than spaces and line breaks, in
/// order: only the separators change.
pub proof fn lemma_concat_keeps_visible(text: Seq<char>, n: nat)
    ensures
        visible(concat_spec(text, n)) == visible(text),
{
    lemma_visible_lines(text);
    lemma_fold_visible(split_lines(text), n);
    let out = concat_fold(split_lines(text), n).0;
    if out.len() > 0 {
        assert(out =~= out.drop_last().push(' '));
        lemma_visible_push(out.drop_last(), ' ');
    }
}

/// No two line breaks stand next to each other in `s`.
pub open spec fn no_double_break(s: Seq<char>) -> bool {
    forall|i: int| 0 <= i < s.len() - 1 ==> !(#[trigger] s[i] == '\n' && s[i + 1] == '\n')
}

/// Joining two texts makes no double line break where they meet unless the
/// first ends with one and the second starts with one.
proof fn lemma_no_double_break_add(a: Seq<char>, b: Seq<char>)
    requires
        no_double_break(a),
        no_double_break(b),
        a.len() > 0 && b.len() > 0 ==> !(a.last() == '\n' && b[0] == '\n'),
    ensures
        no_double_break(a + b),
{
    let s = a + b;
    assert forall|i: int| 0 <= i < s.len() - 1 implies !(#[trigger] s[i] == '\n' && s[i + 1] == '\n') by {
        if i + 1 < a.len() {
            assert(s[i] == a[i] && s[i + 1] == a[i + 1]);
        } else if i + 1 == a.len() {
            assert(s[i] == a.last() && s[i + 1] == b[0]);
        } else {
            assert(s[i] == b[i - a.len()] && s[i + 1] == b[i - a.len() + 1]);
        }
    }
}

/// The lines of a text hold no line break.
proof fn lemma_lines_without_breaks(text: Seq<char>)
    ensures
        forall|i: int| 0 <= i < split_lines(text).len() ==> !(#[trigger] split_lines(text)[i]).contains('\n'),
    decreases text.len(),
{
    if text.len() > 0 {
        let s = text.drop_last();
        let c = text.last();
        lemma_lines_without_breaks(s);
        lemma_split_lines_nonempty(s);
        let l = split_lines(s);
        if c != '\n' {
            let x = l.last().push(c);
            assert(!x.contains('\n')) by {
                if x.contains('\n') {
                    let j = choose|j: int| 0 <= j < x.len() && x[j] == '\n';
                    assert(l[l.len() - 1] == l.last());
                    assert(l.last()[j] == '\n');
                }
            }
        } else {
            assert(!Seq::<char>::empty().contains('\n'));
        }
    }
}

/// The joining state's text has no double line break; when it is not empty it
/// ends with a space that follows a character other than a line break.
proof fn lemma_fold_breaks(lines: Seq<Seq<char>>, n: nat)
    requires
        forall|i: int| 0 <= i < lines.len() ==> !(#[trigger] lines[i]).contains('\n'),
    ensures
        no_double_break(concat_fold(lines, n).0),
        concat_fold(lines, n).0.len() > 0 ==> concat_fold(lines, n).0.last() == ' '
            && concat_fold(lines, n).0.len() >= 2
            && concat_fold(lines, n).0[concat_fold(lines, n).0.len() - 2] != '\n',
    decreases lines.len(),
{
    if lines.len() > 0 {
        let l0 = lines.drop_last();
        let line = lines.last();
        assert forall|i: int| 0 <= i < l0.len() implies !(#[trigger] l0[i]).contains('\n') by {
            assert(l0[i] == lines[i]);
        }
        lemma_fold_breaks(l0, n);
        let st = concat_fold(l0, n);
        assert(lines[lines.len() - 1] == line);
        if line.len() > 0 {
            let p = pop_last(st.0);
            assert(no_double_break(p)) by {
                assert forall|i: int| 0 <= i < p.len() - 1 implies !(#[trigger] p[i] == '\n' && p[i + 1] == '\n') by {
                    assert(p[i] == st.0[i] && p[i + 1] == st.0[i + 1]);
                }
            }
            assert(p.len() > 0 ==> p.last() != '\n') by {
                if p.len() > 0 {
                    assert(p.last() == st.0[st.0.len() - 2]);
                }
            }
            let r = if st.1 + 1 >= n { p.push('\n') } else { st.0 };
            assert(no_double_break(r)) by {
                if st.1 + 1 >= n {
                    assert(no_double_break(seq!['\n']));
                    lemma_no_double_break_add(p, seq!['\n']);
                    assert(p + seq!['\n'] =~= p.push('\n'));
                }
            }
            assert(no_double_break(line)) by {
                assert forall|i: int| 0 <= i < line.len() - 1 implies !(#[trigger] line[i] == '\n' && line[i + 1] == '\n') by {
                    if line[i] == '\n' {
                        assert(line.contains('\n'));
                    }
                }
            }
            assert(line[0] != '\n') by {
                if line[0] == '\n' {
                    assert(line.contains('\n'));
                }
            }
            lemma_no_double_break_add(r, line);
            assert(line.last() != '\n') by {
                if line.last() == '\n' {
                    assert(line[line.len() - 1] == '\n');
                    assert(line.contains('\n'));
                }
            }
            let rl = r + line;
            assert(rl.last() == line.last());
            assert(no_double_break(seq![' ']));
            lemma_no_double_break_add(rl, seq![' ']);
            let out = rl + seq![' '];
            assert(concat_fold(lines, n).0 == out);
            assert(out[out.len() - 2] == rl.last());
            assert(out.last() == ' ');
        }
    }
}

/// Joining lines never puts two line breaks next to each other.
pub proof fn lemma_concat_no_double_break(text: Seq<char>, n: nat)
    ensures
        no_double_break(concat_spec(text, n)),
{
    lemma_lines_without_breaks(text);
    lemma_fold_breaks(split_lines(text), n);
    let out = concat_fold(split_lines(text), n).0;
    let p = pop_last(out);
    assert forall|i: int| 0 <= i < p.len() - 1 implies !(#[trigger] p[i] == '\n' && p[i + 1] == '\n') by {
        assert(p[i] == out[i] && p[i + 1] == out[i + 1]);
    }
}

/// A text is as long as its lines and the line breaks between them.
proof fn lemma_lines_length(text: Seq<char>)
    ensures
        text.len() + 1 == flatten_lines(split_lines(text)).len() + split_lines(text).len(),
    decreases text.len(),
{
    if text.len() == 0 {
        let one = seq![Seq::<char>::empty()];
        assert(split_lines(text) == one);
        assert(one.drop_last() =~= Seq::<Seq<char>>::empty());
        assert(flatten_lines(one.drop_last()) == Seq::<char>::empty());
        assert(flatten_lines(one) =~= Seq::<char>::empty());
    } else {
        let s = text.drop_last();
        let c = text.last();
        lemma_lines_length(s);
        lemma_split_lines_nonempty(s);
        let l = split_lines(s);
        if c == '\n' {
            let l2 = l.push(Seq::empty());
            assert(l2.drop_last() =~= l);
            assert(flatten_lines(l2) =~= flatten_lines(l) + Seq::<char>::empty());
        } else {
            let l2 = l.update(l.len() - 1, l.last().push(c));
            assert(l2.drop_last() =~= l.drop_last());
            assert(flatten_lines(l2) =~= flatten_lines(l.drop_last()) + l.last().push(c));
            assert(flatten_lines(l) == flatten_lines(l.drop_last()) + l.last());
        }
    }
}

/// The joining state's text and count of empty lines together take no more
/// room than the lines and one separator each.
proof fn lemma_fold_length(lines: Seq<Seq<char>>, n: nat)
    requires
        n >= 2,
    ensures
        concat_fold(lines, n).0.len() + concat_fold(lines, n).1 <= flatten_lines(lines).len() + lines.len(),
        concat_fold(lines, n).1 <= lines.len(),
    decreases lines.len(),
{
    if lines.len() > 0 {
        let l0 = lines.drop_last();
        lemma_fold_length(l0, n);
        assert(flatten_lines(lines) == flatten_lines(l0) + lines.last());
    }
}

/// With a threshold of two or more, joining lines never makes a text longer.
pub proof fn lemma_concat_not_longer(text: Seq<char>, n: nat)
    requires
        n >= 2,
    ensures
        concat_spec(text, n).len() <= text.len(),
{
    lemma_lines_length(text);
    lemma_fold_length(split_lines(text), n);
}

} // verus!
