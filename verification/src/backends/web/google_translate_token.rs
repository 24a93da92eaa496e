#![allow(non_snake_case)]

use vstd::prelude::*;

use crate::text::{
    after_char, before_char, chars_of, decimal_text, i32_from_text, parse_i32, parse_u64, push_str, split_first,
    string_of, u64_from_text, u64_to_decimal,
};

verus! {

struct Window {
    tkk: Vec<char>,
}

/// The state of the Google Translate token computation: the token key `yr` if
/// one is set, else the window's `tkk`.
pub struct State {
    yr: Option<Vec<char>>,
    window: Window,
}

/// The bytes that the token mixes in for the characters `a`: one for code
/// points below 128; one (`l >> 6 | 192`) below 2048; two for a pair whose code
/// points look like UTF-16 surrogates; three otherwise.
pub open spec fn token_bytes(a: Seq<char>) -> Seq<u64>
    decreases a.len(),
{
    if a.len() == 0 {
        Seq::empty()
    } else {
        let l = (a[0] as u32) as u64;
        if l < 128 {
            seq![l] + token_bytes(a.drop_first())
        } else if l < 2048 {
            seq![(l >> 6) | 192] + token_bytes(a.drop_first())
        } else if (l & 64512) == 55296 && a.len() >= 2 && (((a[1] as u32) as u64) & 64512) == 56320 {
            let l2 = ((65536 + ((l & 2023) << 10) + (a[1] as u32) as u64) as u64) & 1023;
            seq![(l2 >> 18) | 240, ((l2 >> 12) & 63) | 128] + token_bytes(a.skip(2))
        } else {
            seq![(l >> 12) | 224, ((l >> 6) & 63) | 128, (l & 63) | 128] + token_bytes(a.drop_first())
        }
    }
}

/// A character below U+10000 contributes, ahead of the bytes of the characters
/// after it, bytes of its own UTF-8 encoding: the single byte of a character
/// below U+0080, the lead byte of a two-byte character (U+0080 to U+07FF), and
/// all three bytes of a three-byte character.
pub proof fn lemma_token_bytes_follow_utf8(c: char, rest: Seq<char>)
    requires
        (c as u32) < 0x10000,
    ensures
        ({
            let u = vstd::utf8::encode_utf8(seq![c]);
            token_bytes(seq![c] + rest) == (if 0x80 <= (c as u32) < 0x800 {
                seq![u[0] as u64]
            } else {
                u.map_values(|x: u8| x as u64)
            }) + token_bytes(rest)
        }),
{
    let a = seq![c] + rest;
    assert(a[0] == c);
    assert(a.drop_first() =~= rest);
    vstd::utf8::char_is_scalar(c);
    let s = c as u32;
    let u = vstd::utf8::encode_utf8(seq![c]);
    assert(seq![c].drop_first() =~= Seq::<char>::empty());
    assert(seq![c][0] == c);
    reveal_with_fuel(vstd::utf8::encode_utf8, 2);
    assert(u =~= vstd::utf8::encode_scalar(s) + Seq::<u8>::empty());
    assert(u =~= vstd::utf8::encode_scalar(s));
    if s < 0x80 {
        assert(((s & 0x7F) as u8) as u64 == s as u64) by (bit_vector)
            requires s < 0x80;
        assert(u.map_values(|x: u8| x as u64) =~= seq![s as u64]);
    } else if s < 0x800 {
        assert(((s as u64) >> 6) | 192 == ((0xC0u8 | ((s >> 6) & 0x1F) as u8) as u64)) by (bit_vector)
            requires 0x80 <= s < 0x800;
    } else {
        assert(!(0xD800 <= s <= 0xDFFF));
        assert(((s as u64) & 64512) != 55296) by (bit_vector)
            requires 0x800 <= s < 0x10000, !(0xD800 <= s <= 0xDFFF);
        assert(((s as u64) >> 12) | 224 == ((0xE0u8 | ((s >> 12) & 0x0F) as u8) as u64)) by (bit_vector)
            requires s < 0x10000;
        assert((((s as u64) >> 6) & 63) | 128 == ((0x80u8 | ((s >> 6) & 0x3F) as u8) as u64)) by (bit_vector);
        assert(((s as u64) & 63) | 128 == ((0x80u8 | (s & 0x3F) as u8) as u64)) by (bit_vector);
        assert(u.map_values(|x: u8| x as u64) =~= seq![((s as u64) >> 12) | 224, (((s as u64) >> 6) & 63) | 128, ((s as u64) & 63) | 128]);
    }
}

/// For a text whose characters each have a one- or three-byte UTF-8 encoding,
/// the token mixes in exactly the text's UTF-8 bytes.
pub proof fn lemma_token_bytes_utf8_text(a: Seq<char>)
    requires
        forall|k: int| 0 <= k < a.len() ==> (#[trigger] a[k] as u32) < 0x80 || 0x800 <= (a[k] as u32) < 0x10000,
    ensures
        token_bytes(a) == vstd::utf8::encode_utf8(a).map_values(|x: u8| x as u64),
    decreases a.len(),
{
    if a.len() > 0 {
        let c = a[0];
        let rest = a.drop_first();
        assert(a =~= seq![c] + rest);
        assert forall|k: int| 0 <= k < rest.len() implies (#[trigger] rest[k] as u32) < 0x80 || 0x800 <= (rest[k] as u32) < 0x10000 by {
            assert(rest[k] == a[k + 1]);
        }
        lemma_token_bytes_utf8_text(rest);
        assert((a[0] as u32) < 0x80 || 0x800 <= (a[0] as u32) < 0x10000);
        lemma_token_bytes_follow_utf8(c, rest);
        let u = vstd::utf8::encode_utf8(seq![c]);
        let v = vstd::utf8::encode_utf8(rest);
        assert(seq![c][0] == c);
        reveal_with_fuel(vstd::utf8::encode_utf8, 2);
        assert(u =~= vstd::utf8::encode_scalar(c as u32) + Seq::<u8>::empty());
        assert(vstd::utf8::encode_utf8(a) =~= vstd::utf8::encode_scalar(c as u32) + v);
        assert(vstd::utf8::encode_utf8(a) =~= u + v);
        assert((u + v).map_values(|x: u8| x as u64) =~= u.map_values(|x: u8| x as u64) + v.map_values(|x: u8| x as u64));
    }
}

/// One step of the token mixing function on the operation triples of `b` from
/// index `c`: the third character names a shift (a letter counts from 10 on,
/// any other character by its code), the second its direction (`+` right, else
/// left), the first the combination (`+` adds within 32 bits, else xor).  Shifts
/// take their amount modulo 64 and the addition wraps, as a release build
/// computes them.
pub open spec fn xr_spec(a: u64, b: Seq<u64>, c: nat) -> u64
    decreases b.len() - c,
{
    if c + 2 >= b.len() {
        a
    } else {
        let d0 = b[(c + 2) as int];
        let d = if d0 >= 97 { (d0 - 87) as u64 } else { d0 };
        let sh: u64 = if b[(c + 1) as int] == 43 { a >> (d % 64) } else { a << (d % 64) };
        let a2: u64 = if b[c as int] == 43 { a.wrapping_add(sh) & 0xffff_ffff } else { a ^ sh };
        xr_spec(a2, b, c + 3)
    }
}

/// The codes of `+-a^+6`.
pub open spec fn mix_inner() -> Seq<u64> {
    seq![43u64, 45, 97, 94, 43, 54]
}

/// The codes of `+3^+b+-f`.
pub open spec fn mix_outer() -> Seq<u64> {
    seq![43u64, 51, 94, 43, 98, 43, 45, 102]
}

/// The running value after mixing in the bytes `e`, starting from `a0`.
pub open spec fn token_fold(a0: u64, e: Seq<u64>) -> u64
    decreases e.len(),
{
    if e.len() == 0 {
        a0
    } else {
        xr_spec(token_fold(a0, e.drop_last()).wrapping_add(e.last()), mix_inner(), 0)
    }
}

fn xr(a: u64, b: &Vec<u64>) -> (res: u64)
    requires
        b@.len() >= 2,
    ensures
        res == xr_spec(a, b@, 0),
{
    let ghost a0 = a;
    let mut c: usize = 0;
    let mut a = a;
    while c < b.len() - 2
        invariant
            b@.len() >= 2,
            c <= b@.len(),
            xr_spec(a, b@, c as nat) == xr_spec(a0, b@, 0),
        decreases b@.len() - c,
    {
        let d = b[c + 2];
        let d = if d >= 97 { d - 87 } else { d };
        let d = if b[c + 1] == 43 { a >> (d % 64) } else { a << (d % 64) };
        a = if b[c] == 43 { a.wrapping_add(d) & 4294967295 } else { a ^ d };
        c = c + 3;
    }
    a
}


/// The token text for the key `key` and the characters `a`: the key's parts
/// before and after the first `.` give a signed base `b` and an xor mask; the
/// bytes of `a` are mixed into `b`, the result is mixed once more, masked,
/// reduced modulo 10^6, and written as `&tk=`, that value, `46`, and that value
/// xor `b`.
pub open spec fn token_spec(key: Seq<char>, a: Seq<char>) -> Seq<char> {
    let b = i32_from_text(before_char(key, '.'))->0;
    let mask: u64 = match after_char(key, '.') {
        Some(rest) => u64_from_text(before_char(rest, '.'))->0,
        None => 0,
    };
    let v = ((xr_spec(token_fold(b as u64, token_bytes(a)), mix_outer(), 0) ^ mask) % 1000000) as u64;
    "&tk="@ + decimal_text(v as nat) + "46"@ + decimal_text((v ^ (b as u64)) as nat)
}

/// The bytes that the token mixes in for the characters `a` (see `token_bytes`).
fn token_bytes_of(a: &Vec<char>) -> (res: Vec<u64>)
    ensures
        res@ == token_bytes(a@),
{
    let mut e: Vec<u64> = Vec::new();
    let mut g: usize = 0;
    assert(a@.skip(0) =~= a@);
    assert(e@ + token_bytes(a@.skip(0)) =~= token_bytes(a@));
    while g < a.len()
        invariant
            g <= a@.len(),
            token_bytes(a@) == e@ + token_bytes(a@.skip(g as int)),
        decreases a@.len() - g,
    {
        let ghost rest = a@.skip(g as int);
        let ghost old_e = e@;
        assert(rest[0] == a@[g as int]);
        assert(rest.drop_first() =~= a@.skip(g + 1));
        let l = (a[g] as u32) as u64;
        if l < 128 {
            e.push(l);
            g = g + 1;
            assert(old_e + (seq![l] + token_bytes(a@.skip(g as int))) =~= e@ + token_bytes(a@.skip(g as int)));
        } else if l < 2048 {
            e.push(l >> 6 | 192);
            g = g + 1;
            assert(old_e + (seq![(l >> 6) | 192] + token_bytes(a@.skip(g as int))) =~= e@ + token_bytes(a@.skip(g as int)));
        } else if (l & 64512) == 55296 && g + 1 < a.len() && ((a[g + 1] as u32) as u64) & 64512 == 56320 {
            assert(rest[1] == a@[g + 1]);
            assert(rest.skip(2) =~= a@.skip(g + 2));
            let c2 = a[g + 1];
            let low = (c2 as u32) as u64;
            assert((l & 2023) << 10 <= 2071552) by (bit_vector);
            proof {
                vstd::utf8::char_is_scalar(c2);
                assert(c2 as u32 <= 0x10ffff);
            }
            let l2 = 65536 + ((l & 2023) << 10) + low & 1023;
            e.push(l2 >> 18 | 240);
            e.push(l2 >> 12 & 63 | 128);
            g = g + 2;
            assert(old_e + (seq![(l2 >> 18) | 240, ((l2 >> 12) & 63) | 128] + token_bytes(a@.skip(g as int)))
                =~= e@ + token_bytes(a@.skip(g as int)));
        } else {
            e.push(l >> 12 | 224);
            e.push(l >> 6 & 63 | 128);
            e.push(l & 63 | 128);
            g = g + 1;
            assert(old_e + (seq![(l >> 12) | 224, ((l >> 6) & 63) | 128, (l & 63) | 128] + token_bytes(a@.skip(g as int)))
                =~= e@ + token_bytes(a@.skip(g as int)));
        }
    }
    assert(a@.skip(g as int) =~= Seq::<char>::empty());
    assert(e@ + Seq::empty() =~= e@);
    e
}

impl State {
    pub fn new() -> (res: State)
        ensures
            res.key()@ == seq!['0'],
            res.wf(),
    {
        let mut tkk: Vec<char> = Vec::new();
        tkk.push('0');
        let st = State { yr: None, window: Window { tkk } };
        proof {
            let z = seq!['0'];
            assert(z.drop_first() =~= Seq::<char>::empty());
            assert(z.drop_last() =~= Seq::<char>::empty());
            assert(before_char(z.drop_first(), '.') =~= Seq::<char>::empty());
            assert(before_char(z, '.') =~= z);
            assert(after_char(z.drop_first(), '.') is None);
            assert(after_char(z, '.') is None);
            assert(z.last() == '0');
            assert(crate::text::digits_value(z.drop_last()) == 0);
            assert(crate::text::digits_value(z) == 0);
            assert(crate::text::all_digits(seq!['0']));
            assert(i32_from_text(seq!['0']) is Some);
        }
        st
    }

    /// The token key in use: `yr` if set, else the window's `tkk`.
    pub closed spec fn key(&self) -> Vec<char> {
        match self.yr {
            Some(v) => v,
            None => self.window.tkk,
        }
    }

    /// The key's first part is a 32-bit signed number and its second part, if
    /// any, a 64-bit unsigned one.
    pub closed spec fn wf(&self) -> bool {
        &&& i32_from_text(before_char(self.key()@, '.')) is Some
        &&& (after_char(self.key()@, '.') matches Some(rest) ==> u64_from_text(before_char(rest, '.')) is Some)
    }

    /// Computes the token text for the characters `a` (see `token_spec`).
    pub fn sM(&self, a: &Vec<char>) -> (res: String)
        requires
            self.wf(),
        ensures
            res@ == token_spec(self.key()@, a@),
    {
        let key = match &self.yr {
            Some(a1) => a1,
            None => &self.window.tkk,
        };
        let (first, second) = split_first(key, '.');
        let first_text = string_of(&first);
        let b: i32 = match parse_i32(first_text.as_str()) {
            Some(v) => v,
            None => { return String::new(); }
        };
        let e = token_bytes_of(a);
        let mut inner: Vec<u64> = Vec::new();
        inner.push(43); inner.push(45); inner.push(97); inner.push(94); inner.push(43); inner.push(54);
        assert(inner@ =~= mix_inner());
        let mut outer: Vec<u64> = Vec::new();
        outer.push(43); outer.push(51); outer.push(94); outer.push(43);
        outer.push(98); outer.push(43); outer.push(45); outer.push(102);
        assert(outer@ =~= mix_outer());
        let mut acc: u64 = b as u64;
        let mut f: usize = 0;
        while f < e.len()
            invariant
                f <= e@.len(),
                inner@ == mix_inner(),
                acc == token_fold(b as u64, e@.take(f as int)),
            decreases e@.len() - f,
        {
            acc = acc.wrapping_add(e[f]);
            acc = xr(acc, &inner);
            f = f + 1;
            assert(e@.take(f as int).drop_last() =~= e@.take(f - 1));
        }
        assert(e@.take(f as int) =~= e@);
        acc = xr(acc, &outer);
        let mask: u64 = match second {
            Some(rest) => {
                let (part, _) = split_first(&rest, '.');
                let part_text = string_of(&part);
                match parse_u64(part_text.as_str()) {
                    Some(v) => v,
                    None => { return String::new(); }
                }
            },
            None => 0,
        };
        acc = acc ^ mask;
        acc = acc % 1000000;
        let mut c = String::new();
        push_str(&mut c, "&tk=");
        let t1 = u64_to_decimal(acc);
        push_str(&mut c, t1.as_str());
        push_str(&mut c, "46");
        let t2 = u64_to_decimal(acc ^ (b as u64));
        push_str(&mut c, t2.as_str());
        c
    }

    /// Refreshes the token key (the key is fixed; nothing changes).
    pub fn updateTKK(&mut self)
        ensures
            *final(self) == *old(self),
    {
    }
}

/// The token text of `text` under the initial key `0` (see `token_spec`).
pub fn get_tk(text: &str) -> (res: String)
    ensures
        res@ == token_spec(seq!['0'], text@),
{
    let state = State::new();
    let chars = chars_of(text);
    state.sM(&chars)
}

} // verus!
