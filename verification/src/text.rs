use vstd::prelude::*;
use vstd::std_specs::iter::IteratorSpec;

verus! {

/// Appends one character to a string (`String::push`).
#[verifier::external_body]
pub(crate) fn push_char(s: &mut String, c: char)
    ensures
        final(s)@ == old(s)@.push(c),
{
    s.push(c);
}

/// Appends a string slice to a string (`String::push_str`).
#[verifier::external_body]
pub(crate) fn push_str(s: &mut String, t: &str)
    ensures
        final(s)@ == old(s)@ + t@,
{
    s.push_str(t);
}

/// Removes the last character of a string, if any (`String::pop`).
#[verifier::external_body]
pub(crate) fn pop_char(s: &mut String) -> (res: Option<char>)
    ensures
        old(s)@.len() == 0 ==> res is None && final(s)@ == old(s)@,
        old(s)@.len() > 0 ==> res == Some(old(s)@.last()) && final(s)@ == old(s)@.drop_last(),
{
    s.pop()
}

/// A string holding exactly the given characters.
pub fn string_of(chars: &Vec<char>) -> (res: String)
    ensures
        res@ == chars@,
{
    let mut out = String::new();
    let mut i: usize = 0;
    while i < chars.len()
        invariant
            i <= chars@.len(),
            out@ == chars@.take(i as int),
        decreases chars@.len() - i,
    {
        push_char(&mut out, chars[i]);
        i = i + 1;
        assert(out@ =~= chars@.take(i as int));
    }
    assert(chars@.take(i as int) =~= chars@);
    out
}

/// The characters of a string slice, in order.
pub fn chars_of(s: &str) -> (res: Vec<char>)
    ensures
        res@ == s@,
{
    broadcast use vstd::string::axiom_spec_iter, vstd::string::next_postcondition;
    let mut res: Vec<char> = Vec::new();
    let mut it = s.chars();
    loop
        invariant
            res@ + it.remaining() == s@,
            it.obeys_prophetic_iter_laws(),
            it.decrease() is Some,
        decreases it.decrease()->0,
    {
        match it.next() {
            Some(c) => { res.push(c); }
            None => { return res; }
        }
    }
}


/// True for the ASCII digits `0`..`9`.
pub open spec fn is_digit(c: char) -> bool {
    '0' <= c <= '9'
}

/// The value of a string of decimal digits (most significant first).
pub open spec fn digits_value(s: Seq<char>) -> nat
    decreases s.len(),
{
    if s.len() == 0 {
        0
    } else {
        digits_value(s.drop_last()) * 10 + ((s.last() as int - 48) as nat)
    }
}

/// True when `s` is a non-empty run of decimal digits.
pub open spec fn all_digits(s: Seq<char>) -> bool {
    s.len() > 0 && forall|i: int| 0 <= i < s.len() ==> is_digit(#[trigger] s[i])
}

/// The digits of an unsigned decimal numeral, after an optional `+`.
pub open spec fn unsigned_digits(s: Seq<char>) -> Seq<char> {
    if s.len() > 0 && s[0] == '+' {
        s.drop_first()
    } else {
        s
    }
}

/// What `str::parse::<u32>` yields: an optional `+`, then one or more decimal
/// digits whose value fits in 32 bits.
pub open spec fn u32_from_text(s: Seq<char>) -> Option<u32> {
    let d = unsigned_digits(s);
    if all_digits(d) && digits_value(d) <= u32::MAX {
        Some(digits_value(d) as u32)
    } else {
        None
    }
}

/// What `str::parse::<u64>` yields.
pub open spec fn u64_from_text(s: Seq<char>) -> Option<u64> {
    let d = unsigned_digits(s);
    if all_digits(d) && digits_value(d) <= u64::MAX {
        Some(digits_value(d) as u64)
    } else {
        None
    }
}

/// What `str::parse::<i32>` yields: an optional sign, then one or more decimal
/// digits whose signed value fits in 32 bits.
pub open spec fn i32_from_text(s: Seq<char>) -> Option<i32> {
    if s.len() > 0 && s[0] == '-' {
        let d = s.drop_first();
        if all_digits(d) && digits_value(d) <= 0x8000_0000 {
            Some((0 - digits_value(d)) as i32)
        } else {
            None
        }
    } else {
        let d = unsigned_digits(s);
        if all_digits(d) && digits_value(d) <= i32::MAX {
            Some(digits_value(d) as i32)
        } else {
            None
        }
    }
}

/// The value of the decimal digits `s[start..]`, if all are digits, there is at
/// least one, and the value does not exceed `max`.
fn digits_at_most(s: &Vec<char>, start: usize, max: u64) -> (res: Option<u64>)
    requires
        start <= s@.len(),
        max >= 9,
    ensures
        res == (if all_digits(s@.skip(start as int)) && digits_value(s@.skip(start as int)) <= max {
            Some(digits_value(s@.skip(start as int)) as u64)
        } else {
            None
        }),
{
    let len = s.len();
    if start >= len {
        return None;
    }
    let mut v: u64 = 0;
    let mut i = start;
    while i < len
        invariant
            start <= i <= len,
            len == s@.len(),
            start < len,
            v <= max,
            max >= 9,
            v == digits_value(s@.subrange(start as int, i as int)),
            forall|j: int| start <= j < i ==> is_digit(s@[j]),
        decreases len - i,
    {
        let c = s[i];
        assert(s@.subrange(start as int, i + 1).drop_last() =~= s@.subrange(start as int, i as int));
        if !('0' <= c && c <= '9') {
            proof {
                let d = s@.skip(start as int);
                assert(d[i - start] == c);
            }
            return None;
        }
        let digit = (c as u32 - '0' as u32) as u64;
        if v > (max - digit) / 10 {
            proof {
                lemma_digits_monotone(s@.skip(start as int), (i + 1 - start) as nat);
                assert(s@.skip(start as int).take((i + 1 - start) as int) =~= s@.subrange(start as int, i + 1));
                assert(v * 10 + digit > max) by (nonlinear_arith)
                    requires v > (max - digit) / 10, digit <= 9;
            }
            return None;
        }
        assert(v * 10 + digit <= max) by (nonlinear_arith)
            requires v <= (max - digit) / 10, digit <= max;
        v = v * 10 + digit;
        i = i + 1;
    }
    assert(s@.subrange(start as int, len as int) =~= s@.skip(start as int));
    Some(v)
}

/// A prefix of a digit string never has a larger value than the whole.
proof fn lemma_digits_monotone(s: Seq<char>, k: nat)
    requires
        k <= s.len(),
    ensures
        digits_value(s.take(k as int)) <= digits_value(s),
    decreases s.len(),
{
    if k < s.len() {
        assert(s.drop_last().take(k as int) =~= s.take(k as int));
        lemma_digits_monotone(s.drop_last(), k);
    } else {
        assert(s.take(k as int) =~= s);
    }
}

/// `str::parse::<u32>`.
pub fn parse_u32(text: &str) -> (res: Option<u32>)
    ensures
        res == u32_from_text(text@),
{
    let s = chars_of(text);
    let start: usize = if s.len() > 0 && s[0] == '+' { 1 } else { 0 };
    assert(s@.skip(start as int) =~= unsigned_digits(text@));
    match digits_at_most(&s, start, 0xffff_ffff) {
        Some(v) => Some(v as u32),
        None => None,
    }
}

/// `str::parse::<u64>`.
pub fn parse_u64(text: &str) -> (res: Option<u64>)
    ensures
        res == u64_from_text(text@),
{
    let s = chars_of(text);
    let start: usize = if s.len() > 0 && s[0] == '+' { 1 } else { 0 };
    assert(s@.skip(start as int) =~= unsigned_digits(text@));
    digits_at_most(&s, start, 0xffff_ffff_ffff_ffff)
}

/// `str::parse::<i32>`.
pub fn parse_i32(text: &str) -> (res: Option<i32>)
    ensures
        res == i32_from_text(text@),
{
    let s = chars_of(text);
    if s.len() > 0 && s[0] == '-' {
        assert(s@.skip(1) =~= text@.drop_first());
        match digits_at_most(&s, 1, 0x8000_0000) {
            Some(v) => {
                if v == 0x8000_0000 {
                    Some(i32::MIN)
                } else {
                    Some(0 - (v as i32))
                }
            },
            None => None,
        }
    } else {
        let start: usize = if s.len() > 0 && s[0] == '+' { 1 } else { 0 };
        assert(s@.skip(start as int) =~= unsigned_digits(text@));
        match digits_at_most(&s, start, 0x7fff_ffff) {
            Some(v) => Some(v as i32),
            None => None,
        }
    }
}


/// The decimal digit character of `d` (below 10).
pub open spec fn digit_char(d: nat) -> char {
    ((d + 48) as u32) as char
}

/// The decimal numeral of `n`, without leading zeros.
pub open spec fn decimal_text(n: nat) -> Seq<char>
    decreases n,
{
    if n < 10 {
        seq![digit_char(n)]
    } else {
        decimal_text(n / 10).push(digit_char(n % 10))
    }
}

/// The decimal numeral of `n` (`u64::to_string`).
pub fn u64_to_decimal(n: u64) -> (res: String)
    ensures
        res@ == decimal_text(n as nat),
{
    let mut rev: Vec<char> = Vec::new();
    let mut rem = n;
    while rem >= 10
        invariant
            decimal_text(n as nat) == decimal_text(rem as nat) + rev@.reverse(),
        decreases rem,
    {
        let d = (rem % 10) as u32;
        let c = char_from_digit(d);
        let ghost old_rev = rev@;
        rev.push(c);
        assert(rev@.reverse() =~= seq![c] + old_rev.reverse());
        assert(decimal_text(rem as nat) == decimal_text((rem / 10) as nat).push(digit_char((rem % 10) as nat)));
        assert(decimal_text((rem / 10) as nat).push(c) + old_rev.reverse() =~= decimal_text((rem / 10) as nat) + rev@.reverse());
        rem = rem / 10;
    }
    let c = char_from_digit(rem as u32);
    let ghost old_rev = rev@;
    rev.push(c);
    assert(rev@.reverse() =~= seq![c] + old_rev.reverse());
    let mut out = String::new();
    let mut i = rev.len();
    assert(rev@.reverse().take(0) =~= Seq::<char>::empty());
    while i > 0
        invariant
            i <= rev@.len(),
            out@ == rev@.reverse().take((rev@.len() - i) as int),
        decreases i,
    {
        i = i - 1;
        push_char(&mut out, rev[i]);
        assert(rev@.reverse().take((rev@.len() - i) as int) =~= rev@.reverse().take((rev@.len() - i - 1) as int).push(rev@[i as int]));
    }
    assert(rev@.reverse().take(rev@.len() as int) =~= rev@.reverse());
    out
}

/// The character of a decimal digit.
fn char_from_digit(d: u32) -> (res: char)
    requires
        d < 10,
    ensures
        res == digit_char(d as nat),
{
    if d == 0 { '0' }
    else if d == 1 { '1' }
    else if d == 2 { '2' }
    else if d == 3 { '3' }
    else if d == 4 { '4' }
    else if d == 5 { '5' }
    else if d == 6 { '6' }
    else if d == 7 { '7' }
    else if d == 8 { '8' }
    else { '9' }
}

/// The parts joined by `sep`.
pub open spec fn join_spec(parts: Seq<Seq<char>>, sep: Seq<char>) -> Seq<char>
    decreases parts.len(),
{
    if parts.len() == 0 {
        Seq::empty()
    } else if parts.len() == 1 {
        parts[0]
    } else {
        join_spec(parts.drop_last(), sep) + sep + parts.last()
    }
}

/// The strings joined by `sep` (`[String]::join`).
pub fn join_strings(parts: &Vec<String>, sep: &str) -> (res: String)
    ensures
        res@ == join_spec(parts@.map_values(|p: String| p@), sep@),
{
    let ghost views = parts@.map_values(|p: String| p@);
    let mut out = String::new();
    let mut i: usize = 0;
    while i < parts.len()
        invariant
            i <= parts@.len(),
            views == parts@.map_values(|p: String| p@),
            out@ == join_spec(views.take(i as int), sep@),
        decreases parts@.len() - i,
    {
        if i > 0 {
            push_str(&mut out, sep);
        }
        push_str(&mut out, parts[i].as_str());
        i = i + 1;
        assert(views.take(i as int).drop_last() =~= views.take(i - 1));
        if i == 1 {
            assert(out@ =~= views.take(1)[0]);
        }
    }
    assert(views.take(i as int) =~= views);
    out
}

/// The characters before the first `c` (all of them if there is none).
pub open spec fn before_char(s: Seq<char>, c: char) -> Seq<char>
    decreases s.len(),
{
    if s.len() == 0 || s[0] == c {
        Seq::empty()
    } else {
        seq![s[0]] + before_char(s.drop_first(), c)
    }
}

/// The characters after the first `c`, if there is one.
pub open spec fn after_char(s: Seq<char>, c: char) -> Option<Seq<char>>
    decreases s.len(),
{
    if s.len() == 0 {
        None
    } else if s[0] == c {
        Some(s.drop_first())
    } else {
        after_char(s.drop_first(), c)
    }
}

/// Splits `s` at its first `c`: the characters before it, and those after it if
/// there is one.
pub fn split_first(s: &Vec<char>, c: char) -> (res: (Vec<char>, Option<Vec<char>>))
    ensures
        res.0@ == before_char(s@, c),
        match after_char(s@, c) {
            Some(r) => res.1 is Some && res.1->0@ == r,
            None => res.1 is None,
        },
{
    let mut head: Vec<char> = Vec::new();
    let mut i: usize = 0;
    assert(s@.skip(0) =~= s@);
    while i < s.len()
        invariant
            i <= s@.len(),
            before_char(s@, c) == head@ + before_char(s@.skip(i as int), c),
            after_char(s@, c) == after_char(s@.skip(i as int), c),
        decreases s@.len() - i,
    {
        assert(s@.skip(i as int)[0] == s@[i as int]);
        assert(s@.skip(i as int).drop_first() =~= s@.skip(i + 1));
        if s[i] == c {
            let mut rest: Vec<char> = Vec::new();
            let mut j = i + 1;
            while j < s.len()
                invariant
                    i + 1 <= j <= s@.len(),
                    rest@ == s@.subrange(i + 1, j as int),
                decreases s@.len() - j,
            {
                rest.push(s[j]);
                j = j + 1;
                assert(rest@ =~= s@.subrange(i + 1, j as int));
            }
            assert(s@.subrange(i + 1, s@.len() as int) =~= s@.skip(i + 1));
            assert(head@ + Seq::empty() =~= head@);
            return (head, Some(rest));
        }
        let ghost old_head = head@;
        head.push(s[i]);
        i = i + 1;
        assert(old_head + (seq![s@[i - 1]] + before_char(s@.skip(i as int), c)) =~= head@ + before_char(s@.skip(i as int), c));
    }
    assert(head@ + Seq::empty() =~= head@);
    (head, None)
}

} // verus!
