use byteorder::ByteOrder;
use std::io::Read;
use vstd::prelude::*;
use vstd::utf8::*;

verus! {

/// Why a dictionary file could not be read.
#[derive(Debug, Clone, Copy, PartialEq, Eq, Structural)]
pub enum MDictError {
    /// The data ended before a field that the format requires.
    UnexpectedEof,
    /// An Adler-32 checksum stored in the file does not match its data.
    ChecksumMismatch,
    /// A text field is not valid UTF-8.
    InvalidUtf8,
    /// The header text is not valid UTF-16.
    InvalidUtf16,
    /// A size field is out of the range that the format can address.
    Overflow,
    /// A zlib-compressed block could not be inflated.
    Decompression,
    /// A block uses a compression scheme that is not supported (the stored type tag).
    UnsupportedBlockType(u32),
    /// A record block does not have the size announced for it.
    SizeMismatch,
    /// A key points outside the record data.
    InvalidRecordRange,
    /// A header attribute that the format requires is absent.
    MissingAttribute,
    /// A header attribute has a value that cannot be interpreted.
    InvalidAttribute,
}

/// The Adler-32 running state `(a, b)` after feeding the bytes of `s`.
pub open spec fn adler32_state(s: Seq<u8>) -> (nat, nat)
    decreases s.len(),
{
    if s.len() == 0 {
        (1, 0)
    } else {
        let (a, b) = adler32_state(s.drop_last());
        let a2 = (a + s.last() as nat) % 65521;
        (a2, (b + a2) % 65521)
    }
}

/// The Adler-32 checksum of `s`.
pub open spec fn adler32_spec(s: Seq<u8>) -> u32 {
    let (a, b) = adler32_state(s);
    (b * 65536 + a) as u32
}

/// `adler32::RollingAdler32::from_buffer(buffer).hash()`: the crate starts from
/// the state `a = 1, b = 0` and folds each byte in as `a = (a + byte) % 65521`,
/// `b = (b + a) % 65521`; `hash` returns `(b << 16) | a`.  The contract claims
/// exactly that value.
#[verifier::external_body]
pub(crate) fn adler32_of(buffer: &[u8]) -> (res: u32)
    ensures
        res == adler32_spec(buffer@),
{
    adler32::RollingAdler32::from_buffer(buffer).hash()
}

/// Checks `buffer` against a stored Adler-32 checksum: `ChecksumMismatch` when
/// they differ.
pub fn check_adler32(buffer: &[u8], checksum: u32) -> (res: Result<(), MDictError>)
    ensures
        res == (if adler32_spec(buffer@) == checksum {
            Ok::<(), MDictError>(())
        } else {
            Err(MDictError::ChecksumMismatch)
        }),
{
    let actual = adler32_of(buffer);
    assert(checksum & 0xffffffff == checksum) by (bit_vector);
    if actual == checksum & 0xffffffff {
        Ok(())
    } else {
        Err(MDictError::ChecksumMismatch)
    }
}

/// Asserts that `buffer` matches its stored Adler-32 checksum; a mismatch is
/// outside what the function accepts (see `check_adler32` for a check that
/// reports it).
pub fn assert_adler32_checksum(buffer: &[u8], checksum: u32)
    requires
        adler32_spec(buffer@) == checksum,
{
    let actual = adler32_of(buffer);
    assert(actual == checksum);
}

/// The faults of a dictionary file that reading stops on instead of reporting:
/// everything but the data ending early and a compressed stream that cannot be
/// inflated.
pub open spec fn stops_reading(e: MDictError) -> bool {
    !(e is UnexpectedEof) && !(e is Decompression)
}

/// Big-endian value of the first two bytes of `s`.
pub open spec fn be_u16(s: Seq<u8>) -> u16 {
    (s[0] as nat * 0x100 + s[1] as nat) as u16
}

/// Big-endian value of the first four bytes of `s`.
pub open spec fn be_u32(s: Seq<u8>) -> u32 {
    (s[0] as nat * 0x1000000 + s[1] as nat * 0x10000 + s[2] as nat * 0x100 + s[3] as nat) as u32
}

/// Little-endian value of the first four bytes of `s`.
pub open spec fn le_u32(s: Seq<u8>) -> u32 {
    (s[3] as nat * 0x1000000 + s[2] as nat * 0x10000 + s[1] as nat * 0x100 + s[0] as nat) as u32
}

/// Big-endian value of the first eight bytes of `s`.
pub open spec fn be_u64(s: Seq<u8>) -> u64 {
    (be_u32(s) as nat * 0x100000000 + be_u32(s.skip(4)) as nat) as u64
}

/// `byteorder::BigEndian::read_u16`: the big-endian value of the first two bytes.
#[verifier::external_body]
pub(crate) fn read_be_u16(buf: &[u8]) -> (res: u16)
    requires
        buf@.len() >= 2,
    ensures
        res == be_u16(buf@),
{
    byteorder::BigEndian::read_u16(buf)
}

/// `byteorder::BigEndian::read_u32`: the big-endian value of the first four bytes.
#[verifier::external_body]
pub(crate) fn read_be_u32(buf: &[u8]) -> (res: u32)
    requires
        buf@.len() >= 4,
    ensures
        res == be_u32(buf@),
{
    byteorder::BigEndian::read_u32(buf)
}

/// `byteorder::LittleEndian::read_u32`: the little-endian value of the first four bytes.
#[verifier::external_body]
pub(crate) fn read_le_u32(buf: &[u8]) -> (res: u32)
    requires
        buf@.len() >= 4,
    ensures
        res == le_u32(buf@),
{
    byteorder::LittleEndian::read_u32(buf)
}

/// `byteorder::BigEndian::read_u64`: the big-endian value of the first eight bytes.
#[verifier::external_body]
pub(crate) fn read_be_u64(buf: &[u8]) -> (res: u64)
    requires
        buf@.len() >= 8,
    ensures
        res == be_u64(buf@),
{
    byteorder::BigEndian::read_u64(buf)
}


/// `std::str::from_utf8`: succeeds exactly when the bytes are well-formed UTF-8,
/// and then the string holds the decoded characters.
#[verifier::external_body]
pub(crate) fn utf8_to_string(bytes: &[u8]) -> (res: Option<String>)
    ensures
        res is Some <==> valid_utf8(bytes@),
        res matches Some(s) ==> s@ == decode_utf8(bytes@),
{
    match std::str::from_utf8(bytes) {
        Ok(s) => Some(s.to_string()),
        Err(_) => None,
    }
}

/// What inflating the zlib stream `data` yields: `None` when `flate2` reports an error.
pub uninterp spec fn zlib_inflated(data: Seq<u8>) -> Option<Seq<u8>>;

/// `flate2::read::ZlibDecoder` over `data`, read to the end.  The result is named
/// (`zlib_inflated`): it depends on the input bytes alone; nothing else is claimed.
#[verifier::external_body]
pub(crate) fn zlib_inflate(data: &[u8]) -> (res: Option<Vec<u8>>)
    ensures
        match res {
            Some(v) => zlib_inflated(data@) == Some(v@),
            None => zlib_inflated(data@) is None,
        },
{
    let mut out = Vec::new();
    match flate2::read::ZlibDecoder::new(data).read_to_end(&mut out) {
        Ok(_) => Some(out),
        Err(_) => None,
    }
}

/// `char::from_u32`: the character with the given code point, if it is a Unicode scalar value.
#[verifier::external_body]
pub(crate) fn char_from_u32(v: u32) -> (res: Option<char>)
    ensures
        res is Some <==> is_scalar(v),
        res matches Some(c) ==> c as u32 == v,
{
    char::from_u32(v)
}

/// The little-endian 16-bit units of `s`; a trailing odd byte is ignored.
pub open spec fn le_u16_units(s: Seq<u8>) -> Seq<u16> {
    Seq::new(s.len() / 2, |i: int| (s[2 * i] as nat + s[2 * i + 1] as nat * 0x100) as u16)
}

/// True for a UTF-16 high (leading) surrogate.
pub open spec fn is_high_surrogate(u: u16) -> bool {
    0xD800 <= u <= 0xDBFF
}

/// True for a UTF-16 low (trailing) surrogate.
pub open spec fn is_low_surrogate(u: u16) -> bool {
    0xDC00 <= u <= 0xDFFF
}

/// UTF-16 decoding: `None` as soon as a surrogate is unpaired.
pub open spec fn utf16_decode(units: Seq<u16>) -> Option<Seq<char>>
    decreases units.len(),
{
    if units.len() == 0 {
        Some(Seq::empty())
    } else if !is_high_surrogate(units[0]) && !is_low_surrogate(units[0]) {
        match utf16_decode(units.drop_first()) {
            Some(rest) => Some(seq![units[0] as u32 as char] + rest),
            None => None,
        }
    } else if is_high_surrogate(units[0]) && units.len() >= 2 && is_low_surrogate(units[1]) {
        let c = (0x10000 + (units[0] - 0xD800) * 0x400 + (units[1] - 0xDC00)) as u32;
        match utf16_decode(units.skip(2)) {
            Some(rest) => Some(seq![c as char] + rest),
            None => None,
        }
    } else {
        None
    }
}

/// Decodes little-endian UTF-16 text; `None` if it holds an unpaired surrogate.
pub fn read_utf16_string(slice: &[u8]) -> (res: Option<String>)
    ensures
        match utf16_decode(le_u16_units(slice@)) {
            Some(chars) => res is Some && res->0@ == chars,
            None => res is None,
        },
{
    let len = slice.len();
    let size = len / 2;
    let ghost units = le_u16_units(slice@);
    let mut out = String::new();
    let mut i: usize = 0;
    proof {
        assert(units.skip(0) =~= units);
        match utf16_decode(units) {
            Some(r) => { assert(out@ + r =~= r); }
            None => {}
        }
    }
    while i < size
        invariant
            size == units.len(),
            size as int == slice@.len() / 2,
            len == slice@.len(),
            units == le_u16_units(slice@),
            i <= size,
            utf16_decode(units) == match utf16_decode(units.skip(i as int)) {
                Some(rest) => Some(out@ + rest),
                None => None,
            },
        decreases size - i,
    {
        assert(2 * i + 1 < slice@.len());
        let j: usize = i + i;
        let u = (slice[j] as u32 + slice[j + 1] as u32 * 0x100) as u16;
        assert(u == units[i as int]);
        let ghost rest = units.skip(i as int);
        assert(rest[0] == u);
        if (u < 0xD800 || u > 0xDFFF) {
            let c = char_from_u32(u as u32);
            assert(is_scalar(u as u32));
            let c = match c { Some(c) => c, None => { return None; } };
            assert(rest.drop_first() =~= units.skip(i + 1));
            assert(c == u as u32 as char) by {
                vstd::utf8::char_u32_cast(c, u as u32);
            }
            let ghost old_out = out@;
            crate::text::push_char(&mut out, c);
            i = i + 1;
            proof {
                match utf16_decode(units.skip(i as int)) {
                    Some(r2) => { assert(old_out + (seq![c] + r2) =~= out@ + r2); }
                    None => {}
                }
            }
        } else if u <= 0xDBFF && i + 1 < size {
            assert(2 * i + 3 < slice@.len());
            let u2 = (slice[j + 2] as u32 + slice[j + 3] as u32 * 0x100) as u16;
            assert(u2 == units[i + 1]);
            if u2 >= 0xDC00 && u2 <= 0xDFFF {
                let v: u32 = 0x10000 + (u as u32 - 0xD800) * 0x400 + (u2 as u32 - 0xDC00);
                let c = char_from_u32(v);
                assert(is_scalar(v));
                let c = match c { Some(c) => c, None => { return None; } };
                assert(rest.skip(2) =~= units.skip(i + 2));
                assert(c == v as char) by {
                    vstd::utf8::char_u32_cast(c, v);
                }
                let ghost old_out = out@;
                crate::text::push_char(&mut out, c);
                i = i + 2;
                proof {
                    match utf16_decode(units.skip(i as int)) {
                        Some(r2) => { assert(old_out + (seq![c] + r2) =~= out@ + r2); }
                        None => {}
                    }
                }
            } else {
                return None;
            }
        } else {
            return None;
        }
    }
    assert(units.skip(size as int) =~= Seq::<u16>::empty());
    Some(out)
}

/// The UTF-16 code units of a text: one unit for a character below U+10000,
/// a high and a low surrogate for the others.
pub open spec fn utf16_units(s: Seq<char>) -> Seq<u16>
    decreases s.len(),
{
    if s.len() == 0 {
        Seq::empty()
    } else {
        let c = s[0] as u32;
        let head: Seq<u16> = if c < 0x10000 {
            seq![c as u16]
        } else {
            seq![(0xD800 + (c - 0x10000) / 0x400) as u16, (0xDC00 + (c - 0x10000) % 0x400) as u16]
        };
        head + utf16_units(s.drop_first())
    }
}

/// The little-endian bytes of UTF-16 code units.
pub open spec fn le_bytes_of_units(units: Seq<u16>) -> Seq<u8>
    decreases units.len(),
{
    if units.len() == 0 {
        Seq::empty()
    } else {
        seq![(units[0] % 0x100) as u8, (units[0] / 0x100) as u8] + le_bytes_of_units(units.drop_first())
    }
}

/// Decoding gives back any text from its UTF-16 code units.
pub proof fn lemma_utf16_round_trip(s: Seq<char>)
    ensures
        utf16_decode(utf16_units(s)) == Some(s),
    decreases s.len(),
{
    if s.len() == 0 {
        assert(utf16_units(s) =~= Seq::<u16>::empty());
        assert(s =~= Seq::<char>::empty());
    } else {
        let ch = s[0];
        let c = ch as u32;
        vstd::utf8::char_is_scalar(ch);
        let rest = s.drop_first();
        lemma_utf16_round_trip(rest);
        let units = utf16_units(s);
        if c < 0x10000 {
            let u = c as u16;
            assert(units =~= seq![u] + utf16_units(rest));
            assert(units[0] == u);
            assert(units.drop_first() =~= utf16_units(rest));
            assert(u as u32 == c);
            vstd::utf8::char_u32_cast(ch, c);
            assert(seq![ch] + rest =~= s);
        } else {
            let hi = (0xD800 + (c - 0x10000) / 0x400) as u16;
            let lo = (0xDC00 + (c - 0x10000) % 0x400) as u16;
            assert(0x10000 <= c <= 0x10FFFF);
            assert(0xD800 <= 0xD800 + (c - 0x10000) / 0x400 <= 0xDBFF) by (nonlinear_arith)
                requires 0x10000 <= c <= 0x10FFFF;
            assert(0 <= (c - 0x10000) % 0x400 < 0x400) by (nonlinear_arith)
                requires 0x10000 <= c;
            assert(hi as int == 0xD800 + (c - 0x10000) / 0x400);
            assert(lo as int == 0xDC00 + (c - 0x10000) % 0x400);
            assert(units =~= seq![hi, lo] + utf16_units(rest));
            assert(units[0] == hi && units[1] == lo);
            assert(units.skip(2) =~= utf16_units(rest));
            let v = (0x10000 + (hi - 0xD800) * 0x400 + (lo - 0xDC00)) as u32;
            assert(0x10000 + ((c - 0x10000) / 0x400) * 0x400 + (c - 0x10000) % 0x400 == c) by (nonlinear_arith)
                requires 0x10000 <= c;
            assert(v == c);
            vstd::utf8::char_u32_cast(ch, c);
            assert(seq![ch] + rest =~= s);
        }
    }
}

/// The little-endian bytes of UTF-16 code units read back as those units.
pub proof fn lemma_le_units_round_trip(units: Seq<u16>)
    ensures
        le_u16_units(le_bytes_of_units(units)) == units,
    decreases units.len(),
{
    let b = le_bytes_of_units(units);
    if units.len() == 0 {
        assert(le_u16_units(b) =~= units);
    } else {
        let rest = units.drop_first();
        lemma_le_units_round_trip(rest);
        let rb = le_bytes_of_units(rest);
        let u = units[0];
        assert(b =~= seq![(u % 0x100) as u8, (u / 0x100) as u8] + rb);
        assert(b.len() == 2 + rb.len());
        assert((u % 0x100) as int + (u / 0x100) as int * 0x100 == u as int) by (nonlinear_arith);
        assert forall|i: int| 0 <= i < units.len() implies #[trigger] le_u16_units(b)[i] == units[i] by {
            if i > 0 {
                assert(b[2 * i] == rb[2 * (i - 1)]);
                assert(b[2 * i + 1] == rb[2 * (i - 1) + 1]);
                assert(le_u16_units(rb)[i - 1] == rest[i - 1]);
            }
        }
        assert(le_u16_units(b) =~= units);
    }
}

/// `read_utf16_string` gives back any text from its UTF-16LE bytes.
pub proof fn lemma_read_utf16_round_trip(s: Seq<char>)
    ensures
        utf16_decode(le_u16_units(le_bytes_of_units(utf16_units(s)))) == Some(s),
{
    lemma_le_units_round_trip(utf16_units(s));
    lemma_utf16_round_trip(s);
}

} // verus!
