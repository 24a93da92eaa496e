use vstd::hash_map::StringHashMap;
use vstd::prelude::*;
use vstd::utf8::*;

use crate::mdict::attributes::{attribute_pairs, attributes_from, pairs_view};
use crate::text::{parse_u32, u32_from_text};

use crate::mdict::utils::{
    le_u16_units, read_utf16_string, utf16_decode, adler32_spec, check_adler32, stops_reading, be_u16, be_u32, be_u64, le_u32, read_be_u16, read_be_u32,
    read_be_u64, read_le_u32, utf8_to_string, zlib_inflate, zlib_inflated, MDictError,
};

verus! {

/// Stylesheet attribute of a dictionary header.  A numeric attribute is a style
/// number; an empty one is `Begin`.
pub enum StyleSheet {
    Number(u32),
    Begin,
    End,
    Dict(StringHashMap<Vec<String>>),
}

/// A dictionary's meta information, extracted from its header.
pub struct MDictHeader {
    /// Whether the engine version that wrote the file is 2.0 or later; the layout
    /// of numbers and key blocks changed with 2.0.
    pub version_at_least_2: bool,
    /// Encoding of the key and record texts, as the header names it.
    pub encoding: String,
    pub passcode: Option<String>,
    /// Encryption flag: 0 none, 1 record block encrypted, 2 key info block encrypted.
    pub encrypt: u32,
    pub stylesheet: StyleSheet,
    /// Width in bytes of the numbers in the file (4 before 2.0, 8 from 2.0 on).
    pub number_width: u32,
    /// The number layout as a format string (`>I` or `>Q`).
    pub number_format: String,
}

/// The number that the first `w` bytes of `s` hold (big endian, 4 or 8 bytes).
pub open spec fn read_num(s: Seq<u8>, w: nat) -> u64 {
    if w == 8 {
        be_u64(s)
    } else {
        be_u32(s) as u64
    }
}

/// The bytes of one text unit as the key reader stores them: a byte, or two
/// bytes read as a big-endian 16-bit value and laid out little-endian.
pub open spec fn unit_bytes(s: Seq<u8>, unit: nat) -> Seq<u8> {
    if unit == 2 {
        seq![s[1], s[0]]
    } else {
        seq![s[0]]
    }
}

/// True when the unit at the start of `s` is the terminating zero.
pub open spec fn unit_is_zero(s: Seq<u8>, unit: nat) -> bool {
    if unit == 2 {
        s[0] == 0 && s[1] == 0
    } else {
        s[0] == 0
    }
}

/// A zero-terminated key text at the start of `s`: its bytes and how many bytes
/// it takes, terminator included.  Without a terminator the text runs to the end.
pub open spec fn key_text_spec(s: Seq<u8>, unit: nat) -> (Seq<u8>, nat)
    decreases s.len(),
{
    if unit == 0 || s.len() < unit {
        (Seq::empty(), s.len())
    } else if unit_is_zero(s, unit) {
        (Seq::empty(), unit)
    } else {
        let (t, n) = key_text_spec(s.skip(unit as int), unit);
        (unit_bytes(s, unit) + t, n + unit)
    }
}

pub proof fn lemma_key_text_bound(s: Seq<u8>, unit: nat)
    ensures
        key_text_spec(s, unit).1 <= s.len(),
    decreases s.len(),
{
    if unit != 0 && s.len() >= unit && !unit_is_zero(s, unit) {
        lemma_key_text_bound(s.skip(unit as int), unit);
    }
}

/// The entries of a decompressed key block: each is a number (the record offset)
/// followed by a zero-terminated key text, until too few bytes remain for a number.
pub open spec fn key_entries_spec(s: Seq<u8>, w: nat, unit: nat) -> Result<Seq<(u64, Seq<char>)>, MDictError>
    decreases s.len(),
    via key_entries_decreases
{
    if w == 0 || s.len() < w {
        Ok(Seq::empty())
    } else {
        let id = read_num(s, w);
        let (t, n) = key_text_spec(s.skip(w as int), unit);
        if !valid_utf8(t) {
            Err(MDictError::InvalidUtf8)
        } else {
            match key_entries_spec(s.skip((w + n) as int), w, unit) {
                Ok(rest) => Ok(seq![(id, decode_utf8(t))] + rest),
                Err(e) => Err(e),
            }
        }
    }
}

#[via_fn]
proof fn key_entries_decreases(s: Seq<u8>, w: nat, unit: nat) {
    if !(w == 0 || s.len() < w) {
        lemma_key_text_bound(s.skip(w as int), unit);
    }
}

/// `Ok(prefix ++ rest)` when the rest parses, the rest's error otherwise.
pub open spec fn prepend_ok<T>(prefix: Seq<T>, r: Result<Seq<T>, MDictError>) -> Result<Seq<T>, MDictError> {
    match r {
        Ok(rest) => Ok(prefix + rest),
        Err(e) => Err(e),
    }
}

/// The abstract view of a key list: record offsets with key texts.
pub open spec fn key_list_view(v: Seq<(u64, String)>) -> Seq<(u64, Seq<char>)> {
    v.map_values(|e: (u64, String)| (e.0, e.1@))
}

impl MDictHeader {
    /// Width of the numbers in the file.
    pub open spec fn num_width(&self) -> nat {
        if self.version_at_least_2 {
            8
        } else {
            4
        }
    }

    /// Width of one key text unit: two bytes for UTF-16 dictionaries, one otherwise.
    pub open spec fn unit_len(&self) -> nat {
        if self.encoding@ == "UTF-16"@ {
            2
        } else {
            1
        }
    }

    fn is_utf16(&self) -> (res: bool)
        ensures
            res == (self.encoding@ == "UTF-16"@),
    {
        let name = "UTF-16".to_owned();
        self.encoding == name
    }

    /// Reads a number at `pos`: `None` when fewer bytes than its width remain.
    pub fn read_number(&self, data: &[u8], pos: usize) -> (res: Option<u64>)
        ensures
            pos + self.num_width() <= data@.len() ==> res == Some(read_num(data@.skip(pos as int), self.num_width())),
            pos + self.num_width() > data@.len() ==> res is None,
    {
        let len = data.len();
        if self.version_at_least_2 {
            if pos > len || len - pos < 8 {
                return None;
            }
            let v = read_be_u64(&data[pos..pos + 8]);
            assert(data@.subrange(pos as int, pos + 8) =~= data@.skip(pos as int).take(8));
            proof { lemma_be_prefix(data@.skip(pos as int), 8); }
            Some(v)
        } else {
            if pos > len || len - pos < 4 {
                return None;
            }
            let v = read_be_u32(&data[pos..pos + 4]);
            assert(data@.subrange(pos as int, pos + 4) =~= data@.skip(pos as int).take(4));
            proof { lemma_be_prefix(data@.skip(pos as int), 4); }
            Some(v as u64)
        }
    }

    /// Reads one text unit at `pos` (see `unit_bytes`): `None` when it does not fit.
    pub fn read_u8_or_u16(&self, data: &[u8], pos: usize) -> (res: Option<Vec<u8>>)
        ensures
            pos + self.unit_len() <= data@.len() ==> res is Some && res->0@ == unit_bytes(data@.skip(pos as int), self.unit_len()),
            pos + self.unit_len() > data@.len() ==> res is None,
    {
        let len = data.len();
        if self.is_utf16() {
            if pos > len || len - pos < 2 {
                return None;
            }
            let v = read_be_u16(&data[pos..pos + 2]);
            let lo = (v % 256) as u8;
            let hi = (v / 256) as u8;
            let mut out = Vec::new();
            out.push(lo);
            out.push(hi);
            assert(out@ =~= unit_bytes(data@.skip(pos as int), 2));
            Some(out)
        } else {
            if pos >= len {
                return None;
            }
            let mut out = Vec::new();
            out.push(data[pos]);
            assert(out@ =~= unit_bytes(data@.skip(pos as int), 1));
            Some(out)
        }
    }
}

impl MDictHeader {
    /// Reads a zero-terminated key text starting at `pos`; returns its bytes and
    /// the position after it (see `key_text_spec`).
    fn read_key_text(&self, data: &[u8], pos: usize) -> (res: (Vec<u8>, usize))
        requires
            pos <= data@.len(),
        ensures
            pos <= res.1 <= data@.len(),
            key_text_spec(data@.skip(pos as int), self.unit_len()) == (res.0@, (res.1 - pos) as nat),
    {
        let len = data.len();
        let unit: usize = if self.is_utf16() { 2 } else { 1 };
        let ghost u = self.unit_len();
        let mut text: Vec<u8> = Vec::new();
        let mut p = pos;
        loop
            invariant
                pos <= p <= len,
                len == data@.len(),
                unit == u,
                u == self.unit_len(),
                u == 1 || u == 2,
                key_text_spec(data@.skip(pos as int), u) == ({
                    let r = key_text_spec(data@.skip(p as int), u);
                    (text@ + r.0, ((p - pos) + r.1) as nat)
                }),
            decreases len - p,
        {
            let ghost s = data@.skip(p as int);
            match self.read_u8_or_u16(data, p) {
                None => {
                    proof {
                        assert(key_text_spec(data@.skip(len as int), u) == (Seq::<u8>::empty(), 0nat));
                        assert(text@ + Seq::<u8>::empty() =~= text@);
                    }
                    return (text, len);
                }
                Some(chunk) => {
                    assert(s.skip(u as int) =~= data@.skip(p + u));
                    if (chunk.len() == 1 && chunk[0] == 0) || (chunk.len() == 2 && chunk[0] == 0 && chunk[1] == 0) {
                        assert(unit_is_zero(s, u));
                        assert(text@ + Seq::<u8>::empty() =~= text@);
                        return (text, p + unit);
                    }
                    assert(!unit_is_zero(s, u));
                    let ghost old_text = text@;
                    let mut k: usize = 0;
                    while k < chunk.len()
                        invariant
                            k <= chunk@.len(),
                            text@ == old_text + chunk@.take(k as int),
                        decreases chunk@.len() - k,
                    {
                        text.push(chunk[k]);
                        k = k + 1;
                        assert(text@ =~= old_text + chunk@.take(k as int));
                    }
                    assert(chunk@.take(k as int) =~= chunk@);
                    p = p + unit;
                    proof {
                        let r = key_text_spec(data@.skip(p as int), u);
                        assert(old_text + (chunk@ + r.0) =~= text@ + r.0);
                    }
                }
            }
        }
    }

    /// Splits a decompressed key block into `(record offset, key text)` entries.
    pub fn split_key_block(&self, key_block: &[u8]) -> (res: Result<Vec<(u64, String)>, MDictError>)
        ensures
            match key_entries_spec(key_block@, self.num_width(), self.unit_len()) {
                Ok(entries) => res is Ok && key_list_view(res->Ok_0@) == entries,
                Err(e) => res == Err::<Vec<(u64, String)>, MDictError>(e),
            },
    {
        let len = key_block.len();
        let w: usize = if self.version_at_least_2 { 8 } else { 4 };
        let ghost u = self.unit_len();
        let mut key_list: Vec<(u64, String)> = Vec::new();
        let mut pos: usize = 0;
        assert(key_block@.skip(0) =~= key_block@);
        loop
            invariant
                pos <= len,
                len == key_block@.len(),
                w == self.num_width(),
                key_entries_spec(key_block@, w as nat, u)
                    == prepend_ok(key_list_view(key_list@), key_entries_spec(key_block@.skip(pos as int), w as nat, u)),
                u == self.unit_len(),
            decreases len - pos,
        {
            let ghost s = key_block@.skip(pos as int);
            match self.read_number(key_block, pos) {
                None => {
                    assert(key_list_view(key_list@) + Seq::empty() =~= key_list_view(key_list@));
                    return Ok(key_list);
                }
                Some(key_id) => {
                    assert(s.skip(w as int) =~= key_block@.skip(pos + w));
                    let (text_bytes, next) = self.read_key_text(key_block, pos + w);
                    let ghost n = (next - (pos + w)) as nat;
                    assert(s.skip((w + n) as int) =~= key_block@.skip(next as int));
                    match utf8_to_string(text_bytes.as_slice()) {
                        None => {
                            return Err(MDictError::InvalidUtf8);
                        }
                        Some(text) => {
                            let ghost old_list = key_list@;
                            key_list.push((key_id, text));
                            assert(key_list_view(key_list@) =~= key_list_view(old_list) + seq![(key_id, decode_utf8(text_bytes@))]);
                            proof {
                                match key_entries_spec(key_block@.skip(next as int), w as nat, u) {
                                    Ok(r) => {
                                        assert(key_list_view(old_list) + (seq![(key_id, decode_utf8(text_bytes@))] + r)
                                            =~= key_list_view(key_list@) + r);
                                    }
                                    Err(_) => {}
                                }
                            }
                            pos = next;
                        }
                    }
                }
            }
        }
    }
}

/// A stored block at the start of `s` whose stored size (header included) is
/// `comp`: an 8-byte header (little-endian type tag, big-endian Adler-32
/// checksum) then `comp - 8` bytes, raw (type 0) or zlib-compressed (type 2).
/// Yields the block's data, its checksum and the bytes it takes.
pub open spec fn block_spec(s: Seq<u8>, comp: nat) -> Result<(Seq<u8>, u32, nat), MDictError> {
    if s.len() < 8 {
        Err(MDictError::UnexpectedEof)
    } else {
        let ty = le_u32(s);
        let ck = be_u32(s.skip(4));
        if ty == 0 || ty == 2 {
            if comp < 8 {
                Err(MDictError::Overflow)
            } else if s.len() - 8 < comp - 8 {
                Err(MDictError::UnexpectedEof)
            } else {
                let raw = s.subrange(8, comp as int);
                if ty == 0 {
                    Ok((raw, ck, comp))
                } else {
                    match zlib_inflated(raw) {
                        Some(b) => Ok((b, ck, comp)),
                        None => Err(MDictError::Decompression),
                    }
                }
            }
        } else {
            Err(MDictError::UnsupportedBlockType(ty))
        }
    }
}

/// Reads a stored block at `pos` (see `block_spec`): its data, its checksum and
/// the position after it.
pub fn read_block(data: &[u8], pos: usize, comp: usize) -> (res: Result<(Vec<u8>, u32, usize), MDictError>)
    requires
        pos <= data@.len(),
    ensures
        match block_spec(data@.skip(pos as int), comp as nat) {
            Ok((b, ck, n)) => res is Ok && res->Ok_0.0@ == b && res->Ok_0.1 == ck && res->Ok_0.2 == pos + n,
            Err(e) => res == Err::<(Vec<u8>, u32, usize), MDictError>(e),
        },
{
    let len = data.len();
    let ghost s = data@.skip(pos as int);
    if len - pos < 8 {
        return Err(MDictError::UnexpectedEof);
    }
    let ty = read_le_u32(&data[pos..pos + 4]);
    let ck = read_be_u32(&data[pos + 4..pos + 8]);
    assert(data@.subrange(pos as int, pos + 4) =~= s.take(4));
    assert(data@.subrange(pos + 4, pos + 8) =~= s.skip(4).take(4));
    assert(s.take(4)[0] == s[0] && s.take(4)[1] == s[1] && s.take(4)[2] == s[2] && s.take(4)[3] == s[3]);
    assert(s.skip(4).take(4)[0] == s.skip(4)[0] && s.skip(4).take(4)[1] == s.skip(4)[1]
        && s.skip(4).take(4)[2] == s.skip(4)[2] && s.skip(4).take(4)[3] == s.skip(4)[3]);
    if ty == 0 || ty == 2 {
        if comp < 8 {
            return Err(MDictError::Overflow);
        }
        if len - pos - 8 < comp - 8 {
            return Err(MDictError::UnexpectedEof);
        }
        let raw = &data[pos + 8..pos + comp];
        assert(raw@ =~= s.subrange(8, comp as int));
        if ty == 0 {
            let b = vstd::slice::slice_to_vec(raw);
            Ok((b, ck, pos + comp))
        } else {
            match zlib_inflate(raw) {
                Some(b) => Ok((b, ck, pos + comp)),
                None => Err(MDictError::Decompression),
            }
        }
    } else {
        Err(MDictError::UnsupportedBlockType(ty))
    }
}

/// Length in bytes of a key-block-info text (head or tail) whose stored size is
/// `size`: a terminator unit is added from 2.0 on, and UTF-16 doubles it.
pub open spec fn info_text_len(size: nat, v2: bool, unit: nat) -> nat {
    let term: nat = if v2 { 1 } else { 0 };
    if unit == 2 { 2 * (size + term) } else { size + term }
}

/// The stored size of a key-block-info text at the start of `s` (a big-endian
/// 16-bit value from 2.0 on, one byte before).
pub open spec fn info_size_at(s: Seq<u8>, v2: bool) -> nat {
    if v2 { be_u16(s) as nat } else { s[0] as nat }
}

/// A key-block-info text (head or tail) at the start of `s`: its stored size,
/// then that many bytes (see `info_text_len`), which must be UTF-8.  Yields the
/// bytes it takes.
#[verifier::opaque]
pub open spec fn info_text_spec(s: Seq<u8>, v2: bool, unit: nat) -> Result<nat, MDictError> {
    let hw: nat = if v2 { 2 } else { 1 };
    if s.len() < hw {
        Err(MDictError::UnexpectedEof)
    } else {
        let hl = info_text_len(info_size_at(s, v2), v2, unit);
        if hl > 0xffff {
            Err(MDictError::Overflow)
        } else if s.len() - hw < hl {
            Err(MDictError::UnexpectedEof)
        } else if !valid_utf8(s.subrange(hw as int, (hw + hl) as int)) {
            Err(MDictError::InvalidUtf8)
        } else {
            Ok(hw + hl)
        }
    }
}

/// One entry of a key block info list (the entry count is known to fit): the
/// entry count, head text, tail text, then the compressed and decompressed
/// sizes.  Yields the two sizes and the bytes the entry takes.
pub open spec fn info_entry_spec(s: Seq<u8>, v2: bool, unit: nat) -> Result<((usize, usize), nat), MDictError> {
    let w: nat = if v2 { 8 } else { 4 };
    match info_text_spec(s.skip(w as int), v2, unit) {
        Err(e) => Err(e),
        Ok(n1) => match info_text_spec(s.skip((w + n1) as int), v2, unit) {
            Err(e) => Err(e),
            Ok(n2) => {
                let s5 = s.skip((w + n1 + n2) as int);
                if s5.len() < 2 * w {
                    Err(MDictError::UnexpectedEof)
                } else {
                    let comp = read_num(s5, w) as usize;
                    let decomp = read_num(s5.skip(w as int), w) as usize;
                    Ok(((comp, decomp), w + n1 + n2 + 2 * w))
                }
            },
        },
    }
}

/// The entries of a key block info list, until too few bytes remain for an
/// entry count.
pub open spec fn info_entries_spec(s: Seq<u8>, v2: bool, unit: nat) -> Result<Seq<(usize, usize)>, MDictError>
    decreases s.len(),
    via info_entries_decreases
{
    let w: nat = if v2 { 8 } else { 4 };
    if s.len() < w {
        Ok(Seq::empty())
    } else {
        match info_entry_spec(s, v2, unit) {
            Err(e) => Err(e),
            Ok((entry, n)) => prepend_ok(seq![entry], info_entries_spec(s.skip(n as int), v2, unit)),
        }
    }
}

#[via_fn]
proof fn info_entries_decreases(s: Seq<u8>, v2: bool, unit: nat) {
    reveal(info_entry_spec);
    let w: nat = if v2 { 8 } else { 4 };
    if s.len() >= w {
        lemma_info_text_within(s.skip(w as int), v2, unit);
        if let Ok(n1) = info_text_spec(s.skip(w as int), v2, unit) {
            lemma_info_text_within(s.skip((w + n1) as int), v2, unit);
        }
    }
}

/// A key-block-info text never reaches past the bytes it is read from.
proof fn lemma_info_text_within(s: Seq<u8>, v2: bool, unit: nat)
    ensures
        info_text_spec(s, v2, unit) matches Ok(n) ==> n <= s.len(),
{
    reveal(info_text_spec);
}

impl MDictHeader {
    /// Reads a key-block-info text at `pos` (see `info_text_spec`); returns the
    /// position after it.
    fn read_info_text(&self, data: &[u8], pos: usize) -> (res: Result<usize, MDictError>)
        requires
            pos <= data@.len(),
        ensures
            match info_text_spec(data@.skip(pos as int), self.version_at_least_2, self.unit_len()) {
                Ok(n) => res == Ok::<usize, MDictError>((pos + n) as usize),
                Err(e) => res == Err::<usize, MDictError>(e),
            },
            res matches Ok(p) ==> pos <= p <= data@.len(),
            info_text_spec(data@.skip(pos as int), self.version_at_least_2, self.unit_len()) matches Ok(n)
                ==> pos + n <= data@.len(),
    {
        reveal(info_text_spec);
        let ghost s = data@.skip(pos as int);
        let len = data.len();
        let v2 = self.version_at_least_2;
        let hw: usize = if v2 { 2 } else { 1 };
        if len - pos < hw {
            return Err(MDictError::UnexpectedEof);
        }
        let size: u32 = if v2 {
            let v = read_be_u16(&data[pos..pos + 2]);
            assert(data@.subrange(pos as int, pos + 2) =~= s.take(2));
            assert(s.take(2)[0] == s[0] && s.take(2)[1] == s[1]);
            v as u32
        } else {
            data[pos] as u32
        };
        assert(size == info_size_at(s, v2));
        let term: u32 = if v2 { 1 } else { 0 };
        let hl: u32 = if self.is_utf16() { 2 * (size + term) } else { size + term };
        if hl > 0xffff {
            return Err(MDictError::Overflow);
        }
        let hl = hl as usize;
        if len - pos - hw < hl {
            return Err(MDictError::UnexpectedEof);
        }
        let text = &data[pos + hw..pos + hw + hl];
        assert(text@ =~= s.subrange(hw as int, (hw + hl) as int));
        match utf8_to_string(text) {
            None => Err(MDictError::InvalidUtf8),
            Some(_) => Ok(pos + hw + hl),
        }
    }

    /// Decodes the key block info list: `(compressed size, decompressed size)` of
    /// each key block.
    pub fn decode_key_block_info_list(&self, info: &[u8]) -> (res: Result<Vec<(usize, usize)>, MDictError>)
        ensures
            match info_entries_spec(info@, self.version_at_least_2, self.unit_len()) {
                Ok(entries) => res is Ok && res->Ok_0@ == entries,
                Err(e) => res == Err::<Vec<(usize, usize)>, MDictError>(e),
            },
    {
        let len = info.len();
        let v2 = self.version_at_least_2;
        let ghost u = self.unit_len();
        let w: usize = if v2 { 8 } else { 4 };
        let mut list: Vec<(usize, usize)> = Vec::new();
        let mut pos: usize = 0;
        assert(info@.skip(0) =~= info@);
        loop
            invariant
                pos <= len,
                len == info@.len(),
                v2 == self.version_at_least_2,
                u == self.unit_len(),
                w == self.num_width(),
                info_entries_spec(info@, v2, u) == prepend_ok(list@, info_entries_spec(info@.skip(pos as int), v2, u)),
            decreases len - pos,
        {
            let ghost s = info@.skip(pos as int);
            if len - pos < w {
                assert(list@ + Seq::empty() =~= list@);
                return Ok(list);
            }
            match self.read_info_entry(info, pos) {
                Err(e) => {
                    return Err(e);
                }
                Ok((entry, next)) => {
                    proof { self.lemma_info_step(info@, pos as nat, entry, next as nat, list@); }
                    list.push(entry);
                    pos = next;
                }
            }
        }
    }

    proof fn lemma_info_step(&self, info: Seq<u8>, pos: nat, entry: (usize, usize), next: nat, list: Seq<(usize, usize)>)
        requires
            pos + self.num_width() <= info.len(),
            pos < next <= info.len(),
            info_entry_spec(info.skip(pos as int), self.version_at_least_2, self.unit_len()) == Ok::<((usize, usize), nat), MDictError>((entry, (next - pos) as nat)),
            info_entries_spec(info, self.version_at_least_2, self.unit_len())
                == prepend_ok(list, info_entries_spec(info.skip(pos as int), self.version_at_least_2, self.unit_len())),
        ensures
            info_entries_spec(info, self.version_at_least_2, self.unit_len())
                == prepend_ok(list.push(entry), info_entries_spec(info.skip(next as int), self.version_at_least_2, self.unit_len())),
    {
        let v2 = self.version_at_least_2;
        let u = self.unit_len();
        let s = info.skip(pos as int);
        assert(s.skip((next - pos) as int) =~= info.skip(next as int));
        match info_entries_spec(info.skip(next as int), v2, u) {
            Ok(r) => { assert(list + (seq![entry] + r) =~= list.push(entry) + r); }
            Err(_) => {}
        }
    }

    /// Reads one key block info entry at `pos` (see `info_entry_spec`); returns
    /// the sizes and the position after the entry.
    #[verifier::rlimit(60)]
    fn read_info_entry(&self, info: &[u8], pos: usize) -> (res: Result<((usize, usize), usize), MDictError>)
        requires
            pos + self.num_width() <= info@.len(),
        ensures
            match info_entry_spec(info@.skip(pos as int), self.version_at_least_2, self.unit_len()) {
                Ok((entry, n)) => res == Ok::<((usize, usize), usize), MDictError>((entry, (pos + n) as usize)),
                Err(e) => res == Err::<((usize, usize), usize), MDictError>(e),
            },
            res matches Ok((_, p)) ==> pos < p <= info@.len(),
            res matches Ok((entry, p)) ==> info_entry_spec(info@.skip(pos as int), self.version_at_least_2, self.unit_len())
                == Ok::<((usize, usize), nat), MDictError>((entry, (p - pos) as nat)),
    {
        reveal(info_entry_spec);
        let ghost s = info@.skip(pos as int);
        let len = info.len();
        let w: usize = if self.version_at_least_2 { 8 } else { 4 };
        assert(s.skip(w as int) =~= info@.skip(pos + w));
        let p1 = match self.read_info_text(info, pos + w) {
            Ok(p) => p,
            Err(e) => { return Err(e); }
        };
        assert(s.skip((p1 - pos) as int) =~= info@.skip(p1 as int));
        let p2 = match self.read_info_text(info, p1) {
            Ok(p) => p,
            Err(e) => { return Err(e); }
        };
        assert(s.skip((p2 - pos) as int) =~= info@.skip(p2 as int));
        let comp = match self.read_number(info, p2) {
            Some(v) => v,
            None => { return Err(MDictError::UnexpectedEof); }
        };
        let decomp = match self.read_number(info, p2 + w) {
            Some(v) => v,
            None => { return Err(MDictError::UnexpectedEof); }
        };
        assert(info@.skip(p2 as int).skip(w as int) =~= info@.skip(p2 + w));
        Ok(((comp as usize, decomp as usize), p2 + 2 * w))
    }
}

/// The key block info section at the start of `s`, `size` bytes long: from 2.0
/// on a 4-byte mark, a big-endian Adler-32 checksum and a zlib stream whose
/// inflated bytes must match the checksum; before 2.0 the bytes themselves.
#[verifier::opaque]
pub open spec fn key_block_info_spec(s: Seq<u8>, size: nat, v2: bool, unit: nat) -> Result<Seq<(usize, usize)>, MDictError> {
    if s.len() < size {
        Err(MDictError::UnexpectedEof)
    } else if v2 {
        if size < 8 {
            Err(MDictError::UnexpectedEof)
        } else {
            let ck = be_u32(s.skip(4));
            match zlib_inflated(s.subrange(8, size as int)) {
                None => Err(MDictError::Decompression),
                Some(info) => if adler32_spec(info) != ck {
                    Err(MDictError::ChecksumMismatch)
                } else {
                    info_entries_spec(info, v2, unit)
                },
            }
        }
    } else {
        info_entries_spec(s.take(size as int), v2, unit)
    }
}

/// The key entries of consecutive stored key blocks (see `block_spec`), one per
/// entry of `infos`; each block's data must match its checksum.
pub open spec fn key_blocks_spec(s: Seq<u8>, infos: Seq<(usize, usize)>, w: nat, unit: nat) -> Result<Seq<(u64, Seq<char>)>, MDictError>
    decreases infos.len(),
{
    if infos.len() == 0 {
        Ok(Seq::empty())
    } else {
        match block_spec(s, infos[0].0 as nat) {
            Err(e) => Err(e),
            Ok((b, ck, n)) => match key_entries_spec(b, w, unit) {
                Err(e) => Err(e),
                Ok(entries) => if adler32_spec(b) != ck {
                    Err(MDictError::ChecksumMismatch)
                } else {
                    prepend_ok(entries, key_blocks_spec(s.skip(n as int), infos.drop_first(), w, unit))
                },
            },
        }
    }
}

/// The key section of a dictionary at the start of `s`: a summary of block
/// counts and sizes (checked by a big-endian Adler-32 from 2.0 on), the key block
/// info section, then the key blocks.  Yields the key list and the bytes taken.
pub open spec fn read_keys_spec(s: Seq<u8>, v2: bool, unit: nat) -> Result<(Seq<(u64, Seq<char>)>, nat), MDictError> {
    let w: nat = if v2 { 8 } else { 4 };
    let bs: nat = if v2 { 40 } else { 16 };
    let cs: nat = if v2 { 4 } else { 0 };
    if s.len() < bs + cs {
        Err(MDictError::UnexpectedEof)
    } else if v2 && adler32_spec(s.take(bs as int)) != be_u32(s.skip(bs as int)) {
        Err(MDictError::ChecksumMismatch)
    } else {
        let k: nat = if v2 { 3 } else { 2 };
        let info_size = read_num(s.skip((k * w) as int), w) as usize as nat;
        let key_block_size = read_num(s.skip(((k + 1) * w) as int), w) as usize as nat;
        let s1 = s.skip((bs + cs) as int);
        match key_block_info_spec(s1, info_size, v2, unit) {
            Err(e) => Err(e),
            Ok(infos) => {
                let s2 = s1.skip(info_size as int);
                if s2.len() < key_block_size {
                    Err(MDictError::UnexpectedEof)
                } else {
                    match key_blocks_spec(s2.take(key_block_size as int), infos, w, unit) {
                        Err(e) => Err(e),
                        Ok(keys) => Ok((keys, bs + cs + info_size + key_block_size)),
                    }
                }
            },
        }
    }
}

impl MDictHeader {
    /// Reads the key block info section of `size` bytes at `pos` (see
    /// `key_block_info_spec`).
    pub fn decode_key_block_info(&self, data: &[u8], pos: usize, size: usize) -> (res: Result<Vec<(usize, usize)>, MDictError>)
        requires
            pos <= data@.len(),
        ensures
            match key_block_info_spec(data@.skip(pos as int), size as nat, self.version_at_least_2, self.unit_len()) {
                Ok(entries) => res is Ok && res->Ok_0@ == entries,
                Err(e) => res == Err::<Vec<(usize, usize)>, MDictError>(e),
            },
            res is Ok ==> pos + size <= data@.len(),
    {
        reveal(key_block_info_spec);
        let ghost s = data@.skip(pos as int);
        if data.len() - pos < size {
            return Err(MDictError::UnexpectedEof);
        }
        let block = &data[pos..pos + size];
        assert(block@ =~= s.take(size as int));
        if self.version_at_least_2 {
            if size < 8 {
                return Err(MDictError::UnexpectedEof);
            }
            let checksum = read_be_u32(&block[4..8]);
            assert(block@.subrange(4, 8) =~= s.skip(4).take(4));
            assert(s.skip(4).take(4)[0] == s.skip(4)[0] && s.skip(4).take(4)[1] == s.skip(4)[1]
                && s.skip(4).take(4)[2] == s.skip(4)[2] && s.skip(4).take(4)[3] == s.skip(4)[3]);
            let compressed = &block[8..size];
            assert(compressed@ =~= s.subrange(8, size as int));
            let info = match zlib_inflate(compressed) {
                Some(v) => v,
                None => { return Err(MDictError::Decompression); }
            };
            match check_adler32(info.as_slice(), checksum) {
                Ok(()) => {}
                Err(e) => { return Err(e); }
            }
            self.decode_key_block_info_list(info.as_slice())
        } else {
            self.decode_key_block_info_list(block)
        }
    }

    /// Decodes `key_block_size` bytes of key blocks at `pos`, one block per entry
    /// of the key block info list, into the key list; every fault is reported.
    pub(crate) fn try_decode_key_block(&self, data: &[u8], pos: usize, key_block_size: usize, key_block_info_list: Vec<(usize, usize)>)
        -> (res: Result<Vec<(u64, String)>, MDictError>)
        requires
            pos <= data@.len(),
        ensures
            data@.len() - pos < key_block_size ==> res == Err::<Vec<(u64, String)>, MDictError>(MDictError::UnexpectedEof),
            data@.len() - pos >= key_block_size ==> match key_blocks_spec(data@.skip(pos as int).take(key_block_size as int), key_block_info_list@, self.num_width(), self.unit_len()) {
                Ok(keys) => res is Ok && key_list_view(res->Ok_0@) == keys,
                Err(e) => res == Err::<Vec<(u64, String)>, MDictError>(e),
            },
    {
        if data.len() - pos < key_block_size {
            return Err(MDictError::UnexpectedEof);
        }
        let block = &data[pos..pos + key_block_size];
        assert(block@ =~= data@.skip(pos as int).take(key_block_size as int));
        let ghost w = self.num_width();
        let ghost u = self.unit_len();
        let ghost infos = key_block_info_list@;
        let mut key_list: Vec<(u64, String)> = Vec::new();
        let mut p: usize = 0;
        let mut i: usize = 0;
        assert(block@.skip(0) =~= block@);
        assert(infos.skip(0) =~= infos);
        while i < key_block_info_list.len()
            invariant
                i <= infos.len(),
                infos == key_block_info_list@,
                p <= block@.len(),
                pos <= data@.len(),
                data@.len() - pos >= key_block_size,
                block@ == data@.skip(pos as int).take(key_block_size as int),
                w == self.num_width(),
                u == self.unit_len(),
                key_blocks_spec(block@, infos, w, u)
                    == prepend_ok(key_list_view(key_list@), key_blocks_spec(block@.skip(p as int), infos.skip(i as int), w, u)),
            decreases infos.len() - i,
        {
            let (compressed_size, _decompressed_size) = key_block_info_list[i];
            proof { lemma_key_blocks_unfold(block@.skip(p as int), infos, i as nat, w, u); }
            let (key_block, checksum, next) = match read_block(block, p, compressed_size) {
                Ok(r) => r,
                Err(e) => {
                    proof { assert(infos.skip(i as int)[0] == infos[i as int]); }
                    return Err(e);
                }
            };
            let entries = match self.split_key_block(key_block.as_slice()) {
                Ok(v) => v,
                Err(e) => {
                    proof { assert(infos.skip(i as int)[0] == infos[i as int]); }
                    return Err(e);
                }
            };
            match check_adler32(key_block.as_slice(), checksum) {
                Ok(()) => {}
                Err(e) => {
                    proof { assert(infos.skip(i as int)[0] == infos[i as int]); }
                    return Err(e);
                }
            }
            proof {
                lemma_key_blocks_step(block@, p as nat, infos, i as nat, key_block@, checksum, next as nat,
                    key_list_view(entries@), key_list_view(key_list@), w, u);
            }
            let ghost old_list = key_list@;
            let ghost ev = entries@;
            let mut entries = entries;
            key_list.append(&mut entries);
            assert(key_list_view(key_list@) =~= key_list_view(old_list) + key_list_view(ev));
            p = next;
            i = i + 1;
        }
        assert(infos.skip(i as int) =~= Seq::<(usize, usize)>::empty());
        assert(key_list_view(key_list@) + Seq::empty() =~= key_list_view(key_list@));
        Ok(key_list)
    }
}

impl MDictHeader {
    /// Reads the key section at `pos` (see `read_keys_spec`): the key list, each
    /// entry a record offset and a key text, and the position after the section;
    /// every fault is reported.
    #[verifier::rlimit(80)]
    pub(crate) fn try_read_keys(&self, data: &[u8], pos: usize) -> (res: Result<(Vec<(u64, String)>, usize), MDictError>)
        requires
            pos <= data@.len(),
        ensures
            match read_keys_spec(data@.skip(pos as int), self.version_at_least_2, self.unit_len()) {
                Ok((keys, n)) => res is Ok && key_list_view(res->Ok_0.0@) == keys && res->Ok_0.1 == pos + n,
                Err(e) => res == Err::<(Vec<(u64, String)>, usize), MDictError>(e),
            },
            res matches Ok((_, p)) ==> pos <= p <= data@.len(),
    {
        let ghost s = data@.skip(pos as int);
        let v2 = self.version_at_least_2;
        let len = data.len();
        let w: usize = if v2 { 8 } else { 4 };
        let bs: usize = if v2 { 40 } else { 16 };
        let cs: usize = if v2 { 4 } else { 0 };
        if len - pos < bs + cs {
            return Err(MDictError::UnexpectedEof);
        }
        let block_bytes = &data[pos..pos + bs];
        assert(block_bytes@ =~= s.take(bs as int));
        if v2 {
            let checksum = read_be_u32(&data[pos + bs..pos + bs + 4]);
            assert(data@.subrange(pos + bs, pos + bs + 4) =~= s.skip(bs as int).take(4));
            assert(s.skip(bs as int).take(4)[0] == s.skip(bs as int)[0] && s.skip(bs as int).take(4)[1] == s.skip(bs as int)[1]
                && s.skip(bs as int).take(4)[2] == s.skip(bs as int)[2] && s.skip(bs as int).take(4)[3] == s.skip(bs as int)[3]);
            match check_adler32(block_bytes, checksum) {
                Ok(()) => {}
                Err(e) => { return Err(e); }
            }
        }
        let k: usize = if v2 { 3 } else { 2 };
        let info_size = match self.read_number(data, pos + k * w) {
            Some(v) => v as usize,
            None => { return Err(MDictError::UnexpectedEof); }
        };
        let key_block_size = match self.read_number(data, pos + (k + 1) * w) {
            Some(v) => v as usize,
            None => { return Err(MDictError::UnexpectedEof); }
        };
        assert(s.skip((k * w) as int) =~= data@.skip(pos + k * w));
        assert(s.skip(((k + 1) * w) as int) =~= data@.skip(pos + (k + 1) * w));
        let p1 = pos + bs + cs;
        assert(s.skip((bs + cs) as int) =~= data@.skip(p1 as int));
        let infos = match self.decode_key_block_info(data, p1, info_size) {
            Ok(v) => v,
            Err(e) => { return Err(e); }
        };
        let p2 = p1 + info_size;
        assert(data@.skip(p1 as int).skip(info_size as int) =~= data@.skip(p2 as int));
        let keys = match self.try_decode_key_block(data, p2, key_block_size, infos) {
            Ok(v) => v,
            Err(e) => { return Err(e); }
        };
        Ok((keys, p2 + key_block_size))
    }
}

impl MDictHeader {
    /// Decodes `key_block_size` bytes of key blocks at `pos`, one block per entry
    /// of the key block info list, into the key list.  Blocks whose checksum,
    /// type or key texts are faulty are outside what it accepts (see
    /// `stops_reading`); the data ending early or a stream that cannot be
    /// inflated is reported.
    pub fn decode_key_block(&self, data: &[u8], pos: usize, key_block_size: usize, key_block_info_list: Vec<(usize, usize)>)
        -> (res: Result<Vec<(u64, String)>, MDictError>)
        requires
            pos <= data@.len(),
            data@.len() - pos >= key_block_size ==> (key_blocks_spec(data@.skip(pos as int).take(key_block_size as int),
                key_block_info_list@, self.num_width(), self.unit_len()) matches Err(e) ==> !stops_reading(e)),
        ensures
            data@.len() - pos < key_block_size ==> res == Err::<Vec<(u64, String)>, MDictError>(MDictError::UnexpectedEof),
            data@.len() - pos >= key_block_size ==> match key_blocks_spec(data@.skip(pos as int).take(key_block_size as int), key_block_info_list@, self.num_width(), self.unit_len()) {
                Ok(keys) => res is Ok && key_list_view(res->Ok_0@) == keys,
                Err(e) => res == Err::<Vec<(u64, String)>, MDictError>(e),
            },
    {
        self.try_decode_key_block(data, pos, key_block_size, key_block_info_list)
    }

    /// Reads the key section at `pos` (see `read_keys_spec`): the key list, each
    /// entry a record offset and a key text, and the position after the section.
    /// A section with a faulty checksum, block or text is outside what it accepts
    /// (see `stops_reading`); the data ending early or a stream that cannot be
    /// inflated is reported.
    pub fn read_keys(&self, data: &[u8], pos: usize) -> (res: Result<(Vec<(u64, String)>, usize), MDictError>)
        requires
            pos <= data@.len(),
            read_keys_spec(data@.skip(pos as int), self.version_at_least_2, self.unit_len()) matches Err(e) ==> !stops_reading(e),
        ensures
            match read_keys_spec(data@.skip(pos as int), self.version_at_least_2, self.unit_len()) {
                Ok((keys, n)) => res is Ok && key_list_view(res->Ok_0.0@) == keys && res->Ok_0.1 == pos + n,
                Err(e) => res == Err::<(Vec<(u64, String)>, usize), MDictError>(e),
            },
            res matches Ok((_, p)) ==> pos <= p <= data@.len(),
    {
        self.try_read_keys(data, pos)
    }
}

/// The header of a dictionary at the start of `s`: a big-endian byte count, that
/// many bytes of UTF-16 text ending in a 4-byte terminator, and a little-endian
/// Adler-32 of those bytes.  Yields the text without its terminator and the bytes
/// the header takes.
pub open spec fn dict_info_spec(s: Seq<u8>) -> Result<(Seq<char>, nat), MDictError> {
    if s.len() < 4 {
        Err(MDictError::UnexpectedEof)
    } else {
        let size = be_u32(s) as nat;
        if s.len() - 4 < size + 4 {
            Err(MDictError::UnexpectedEof)
        } else {
            let bytes = s.subrange(4, (4 + size) as int);
            if adler32_spec(bytes) != le_u32(s.skip((4 + size) as int)) {
                Err(MDictError::ChecksumMismatch)
            } else if size < 4 {
                Err(MDictError::UnexpectedEof)
            } else {
                match utf16_decode(le_u16_units(bytes.take(size - 4))) {
                    Some(text) => Ok((text, size + 8)),
                    None => Err(MDictError::InvalidUtf16),
                }
            }
        }
    }
}

/// The value that the last pair named `key` gives it, if any.
pub open spec fn attribute_value(pairs: Seq<(Seq<char>, Seq<char>)>, key: Seq<char>) -> Option<Seq<char>>
    decreases pairs.len(),
{
    if pairs.len() == 0 {
        None
    } else if pairs.last().0 == key {
        Some(pairs.last().1)
    } else {
        attribute_value(pairs.drop_last(), key)
    }
}

/// The header attributes of the dictionary text `text`: for each name, the value
/// of its last occurrence.
pub open spec fn header_attributes_spec(attributes: Map<Seq<char>, String>, text: Seq<char>) -> bool {
    forall|k: Seq<char>|
        match attribute_value(attributes_from(text, 0), k) {
            Some(v) => #[trigger] attributes.contains_key(k) && attributes[k]@ == v,
            None => !attributes.contains_key(k),
        }
}

/// What a header attribute map gives for `Encrypted`: absent or `No` is 0,
/// `Yes` is 1, any other value must be a number.
pub open spec fn encrypt_spec(attributes: Map<Seq<char>, String>) -> Option<u32> {
    if !attributes.contains_key("Encrypted"@) {
        Some(0)
    } else if attributes["Encrypted"@]@ == "No"@ {
        Some(0)
    } else if attributes["Encrypted"@]@ == "Yes"@ {
        Some(1)
    } else {
        u32_from_text(attributes["Encrypted"@]@)
    }
}

impl MDictHeader {
    /// Reads the header at `pos` (see `dict_info_spec`): the dictionary text and
    /// the position after the header.
    pub fn read_dict_info(data: &[u8], pos: usize) -> (res: Result<(String, usize), MDictError>)
        requires
            pos <= data@.len(),
        ensures
            match dict_info_spec(data@.skip(pos as int)) {
                Ok((text, n)) => res is Ok && res->Ok_0.0@ == text && res->Ok_0.1 == pos + n,
                Err(e) => res == Err::<(String, usize), MDictError>(e),
            },
    {
        let ghost s = data@.skip(pos as int);
        let len = data.len();
        if len - pos < 4 {
            return Err(MDictError::UnexpectedEof);
        }
        let size = read_be_u32(&data[pos..pos + 4]) as usize;
        assert(data@.subrange(pos as int, pos + 4) =~= s.take(4));
        assert(s.take(4)[0] == s[0] && s.take(4)[1] == s[1] && s.take(4)[2] == s[2] && s.take(4)[3] == s[3]);
        if len - pos - 4 < size || len - pos - 4 - size < 4 {
            return Err(MDictError::UnexpectedEof);
        }
        let header_bytes = &data[pos + 4..pos + 4 + size];
        assert(header_bytes@ =~= s.subrange(4, (4 + size) as int));
        let checksum = read_le_u32(&data[pos + 4 + size..pos + 8 + size]);
        let ghost t = s.skip((4 + size) as int);
        assert(data@.subrange(pos + 4 + size, pos + 8 + size) =~= t.take(4));
        assert(t.take(4)[0] == t[0] && t.take(4)[1] == t[1] && t.take(4)[2] == t[2] && t.take(4)[3] == t[3]);
        match check_adler32(header_bytes, checksum) {
            Ok(()) => {}
            Err(e) => { return Err(e); }
        }
        if size < 4 {
            return Err(MDictError::UnexpectedEof);
        }
        let text_bytes = &header_bytes[0..size - 4];
        assert(text_bytes@ =~= header_bytes@.take(size - 4));
        match read_utf16_string(text_bytes) {
            Some(text) => Ok((text, pos + size + 8)),
            None => Err(MDictError::InvalidUtf16),
        }
    }

    /// Extracts the attributes `name="value"` of the dictionary text; a later
    /// occurrence of a name replaces an earlier one.
    pub fn read_header_attributes(text: &str) -> (res: StringHashMap<String>)
        ensures
            header_attributes_spec(res@, text@),
    {
        let pairs = attribute_pairs(text);
        let ghost m = attributes_from(text@, 0);
        assert(pairs@.len() == m.len());
        assert forall|j: int| 0 <= j < pairs@.len() implies (#[trigger] pairs@[j]).0@ == m[j].0 && pairs@[j].1@ == m[j].1 by {
            assert(pairs_view(pairs@)[j] == (pairs@[j].0@, pairs@[j].1@));
        }
        let mut map: StringHashMap<String> = StringHashMap::new();
        let mut i: usize = 0;
        while i < pairs.len()
            invariant
                i <= pairs@.len(),
                pairs@.len() == m.len(),
                forall|j: int| 0 <= j < pairs@.len() ==> (#[trigger] pairs@[j]).0@ == m[j].0 && pairs@[j].1@ == m[j].1,
                forall|k: Seq<char>|
                    match attribute_value(m.take(i as int), k) {
                        Some(v) => #[trigger] map@.contains_key(k) && map@[k]@ == v,
                        None => !map@.contains_key(k),
                    },
            decreases pairs@.len() - i,
        {
            let name = pairs[i].0.clone();
            let value = pairs[i].1.clone();
            map.insert(name, value);
            i = i + 1;
            assert(m.take(i as int).drop_last() =~= m.take(i - 1));
        }
        assert(m.take(i as int) =~= m);
        map
    }

    /// Builds the header from its attributes.  Whether the engine version is at
    /// least 2.0 is decided by the caller (the version is a decimal fraction).
    pub fn parse_header(attributes: &StringHashMap<String>, version_at_least_2: bool) -> (res: Result<MDictHeader, MDictError>)
        ensures
            !attributes@.contains_key("Encoding"@) ==> res == Err::<MDictHeader, MDictError>(MDictError::MissingAttribute),
            attributes@.contains_key("Encoding"@) && encrypt_spec(attributes@) is None
                ==> res == Err::<MDictHeader, MDictError>(MDictError::InvalidAttribute),
            attributes@.contains_key("Encoding"@) && encrypt_spec(attributes@) is Some && !attributes@.contains_key("StyleSheet"@)
                ==> res == Err::<MDictHeader, MDictError>(MDictError::MissingAttribute),
            attributes@.contains_key("Encoding"@) && encrypt_spec(attributes@) is Some && attributes@.contains_key("StyleSheet"@)
                && attributes@["StyleSheet"@]@.len() > 0 && u32_from_text(attributes@["StyleSheet"@]@) is None
                ==> res == Err::<MDictHeader, MDictError>(MDictError::InvalidAttribute),
            attributes@.contains_key("Encoding"@) && encrypt_spec(attributes@) is Some && attributes@.contains_key("StyleSheet"@)
                && (attributes@["StyleSheet"@]@.len() == 0 || u32_from_text(attributes@["StyleSheet"@]@) is Some)
                ==> res is Ok,
            res matches Ok(h) ==> {
                &&& attributes@.contains_key("Encoding"@)
                &&& h.encoding@ == attributes@["Encoding"@]@
                &&& encrypt_spec(attributes@) == Some(h.encrypt)
                &&& attributes@.contains_key("StyleSheet"@)
                &&& (attributes@["StyleSheet"@]@.len() == 0 ==> h.stylesheet is Begin)
                &&& (attributes@["StyleSheet"@]@.len() > 0 ==> h.stylesheet == StyleSheet::Number(u32_from_text(attributes@["StyleSheet"@]@)->0))
                &&& h.version_at_least_2 == version_at_least_2
                &&& h.passcode is None
                &&& h.number_width == (if version_at_least_2 { 8u32 } else { 4u32 })
                &&& h.number_format@ == (if version_at_least_2 { ">Q"@ } else { ">I"@ })
            },
    {
        let encoding = match attributes.get("Encoding") {
            Some(e) => e.clone(),
            None => { return Err(MDictError::MissingAttribute); }
        };
        let encrypt: u32 = match attributes.get("Encrypted") {
            Some(e) => {
                if *e == "No".to_owned() {
                    0
                } else if *e == "Yes".to_owned() {
                    1
                } else {
                    match parse_u32(e.as_str()) {
                        Some(n) => n,
                        None => { return Err(MDictError::InvalidAttribute); }
                    }
                }
            }
            None => 0,
        };
        let stylesheet_raw = match attributes.get("StyleSheet") {
            Some(e) => e,
            None => { return Err(MDictError::MissingAttribute); }
        };
        let stylesheet = if stylesheet_raw.as_str().is_empty() {
            StyleSheet::Begin
        } else {
            match parse_u32(stylesheet_raw.as_str()) {
                Some(n) => StyleSheet::Number(n),
                None => { return Err(MDictError::InvalidAttribute); }
            }
        };
        let number_width: u32 = if version_at_least_2 { 8 } else { 4 };
        let number_format = if version_at_least_2 { ">Q".to_owned() } else { ">I".to_owned() };
        Ok(MDictHeader {
            version_at_least_2,
            encoding,
            passcode: None,
            encrypt,
            stylesheet,
            number_width,
            number_format,
        })
    }
}

proof fn lemma_key_blocks_unfold(s: Seq<u8>, infos: Seq<(usize, usize)>, i: nat, w: nat, u: nat)
    requires
        i < infos.len(),
    ensures
        key_blocks_spec(s, infos.skip(i as int), w, u) == match block_spec(s, infos[i as int].0 as nat) {
            Err(e) => Err(e),
            Ok((b, ck, n)) => match key_entries_spec(b, w, u) {
                Err(e) => Err(e),
                Ok(entries) => if adler32_spec(b) != ck {
                    Err(MDictError::ChecksumMismatch)
                } else {
                    prepend_ok(entries, key_blocks_spec(s.skip(n as int), infos.skip((i + 1) as int), w, u))
                },
            },
        },
{
    assert(infos.skip(i as int)[0] == infos[i as int]);
    assert(infos.skip(i as int).drop_first() =~= infos.skip((i + 1) as int));
}

proof fn lemma_key_blocks_step(
    block: Seq<u8>,
    p: nat,
    infos: Seq<(usize, usize)>,
    i: nat,
    kb: Seq<u8>,
    ck: u32,
    next: nat,
    entries: Seq<(u64, Seq<char>)>,
    done: Seq<(u64, Seq<char>)>,
    w: nat,
    u: nat,
)
    requires
        p <= next <= block.len(),
        i < infos.len(),
        block_spec(block.skip(p as int), infos[i as int].0 as nat) == Ok::<(Seq<u8>, u32, nat), MDictError>((kb, ck, (next - p) as nat)),
        key_entries_spec(kb, w, u) == Ok::<Seq<(u64, Seq<char>)>, MDictError>(entries),
        adler32_spec(kb) == ck,
        key_blocks_spec(block, infos, w, u) == prepend_ok(done, key_blocks_spec(block.skip(p as int), infos.skip(i as int), w, u)),
    ensures
        key_blocks_spec(block, infos, w, u)
            == prepend_ok(done + entries, key_blocks_spec(block.skip(next as int), infos.skip((i + 1) as int), w, u)),
{
    let s = block.skip(p as int);
    assert(infos.skip(i as int)[0] == infos[i as int]);
    assert(infos.skip(i as int).drop_first() =~= infos.skip((i + 1) as int));
    assert(s.skip((next - p) as int) =~= block.skip(next as int));
    match key_blocks_spec(block.skip(next as int), infos.skip((i + 1) as int), w, u) {
        Ok(r) => { assert(done + (entries + r) =~= (done + entries) + r); }
        Err(_) => {}
    }
}

/// The big-endian readers only look at the bytes they read.
pub proof fn lemma_be_prefix(s: Seq<u8>, n: nat)
    requires
        n == 4 || n == 8,
        s.len() >= n,
    ensures
        read_num(s.take(n as int), n) == read_num(s, n),
{
    let t = s.take(n as int);
    assert(t[0] == s[0] && t[1] == s[1] && t[2] == s[2] && t[3] == s[3]);
    if n == 8 {
        assert(t.skip(4)[0] == s.skip(4)[0]);
        assert(t.skip(4)[1] == s.skip(4)[1]);
        assert(t.skip(4)[2] == s.skip(4)[2]);
        assert(t.skip(4)[3] == s.skip(4)[3]);
    }
}

} // verus!
