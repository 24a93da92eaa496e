use vstd::hash_map::StringHashMap;
use vstd::prelude::*;
use vstd::utf8::*;

use crate::mdict::mdict_header::{block_spec, key_list_view, prepend_ok, read_block, read_num, MDictHeader};
use crate::mdict::mdx::Word;
use crate::mdict::utils::{adler32_spec, check_adler32, stops_reading, utf8_to_string, MDictError};

verus! {

/// The record block info list: `(compressed size, decompressed size)` pairs of
/// numbers, until too few bytes remain for another number.
pub open spec fn record_infos_spec(s: Seq<u8>, w: nat) -> Result<Seq<(usize, usize)>, MDictError>
    decreases s.len(),
{
    if w == 0 || s.len() < w {
        Ok(Seq::empty())
    } else if s.len() < 2 * w {
        Err(MDictError::UnexpectedEof)
    } else {
        prepend_ok(
            seq![(read_num(s, w) as usize, read_num(s.skip(w as int), w) as usize)],
            record_infos_spec(s.skip((2 * w) as int), w),
        )
    }
}

/// The records that a decompressed record block `b` holds, `b` starting at
/// `offset` in the concatenation of all record blocks.  Keys are taken from
/// index `i` on while their record offset falls inside `b`; each record runs to
/// the next key's offset, the last key's to the end of the block.  Yields the
/// `(key, record bytes)` pairs and the index of the first key not taken.
pub open spec fn records_in_block(b: Seq<u8>, offset: nat, keys: Seq<(u64, Seq<char>)>, i: nat)
    -> Result<(Seq<(Seq<char>, Seq<u8>)>, nat), MDictError>
    decreases keys.len() - i,
{
    if i >= keys.len() {
        Ok((Seq::empty(), i))
    } else {
        let start = keys[i as int].0 as usize as nat;
        if start < offset {
            Err(MDictError::InvalidRecordRange)
        } else if start - offset >= b.len() {
            Ok((Seq::empty(), i))
        } else {
            let end: nat = if i + 1 < keys.len() { keys[(i + 1) as int].0 as usize as nat } else { b.len() + offset };
            if end < start || end - offset > b.len() {
                Err(MDictError::InvalidRecordRange)
            } else {
                match records_in_block(b, offset, keys, i + 1) {
                    Err(e) => Err(e),
                    Ok((r, j)) => Ok((seq![(keys[i as int].1, b.subrange(start - offset, end - offset))] + r, j)),
                }
            }
        }
    }
}

/// Where the record of key `k` starts in the record data: its record offset.
pub open spec fn record_start(keys: Seq<(u64, Seq<char>)>, k: int) -> nat {
    keys[k].0 as usize as nat
}

/// Where the record of key `k` ends in the record data of a block of `blen`
/// bytes at `offset`: at the next key's record offset, the last key's at the end
/// of the block.
pub open spec fn record_end(keys: Seq<(u64, Seq<char>)>, k: int, offset: nat, blen: nat) -> nat {
    if k + 1 < keys.len() { record_start(keys, k + 1) } else { offset + blen }
}

/// The keys that a record block `b` at `offset` takes from index `i` on are
/// exactly those, in order, whose record offsets lie inside the block, up to the
/// first that does not: each with the block's bytes from its record offset to
/// where its record ends, both taken relative to the block's start.  The only
/// fault is a record range that leaves the block or runs backwards.
pub proof fn lemma_block_takes_keys_inside(b: Seq<u8>, offset: nat, keys: Seq<(u64, Seq<char>)>, i: nat)
    requires
        i <= keys.len(),
    ensures
        records_in_block(b, offset, keys, i) matches Err(e) ==> e == MDictError::InvalidRecordRange,
        records_in_block(b, offset, keys, i) matches Ok((r, j)) ==> {
            &&& i <= j <= keys.len()
            &&& r.len() == j - i
            &&& forall|k: int| i <= k < j ==> offset <= #[trigger] record_start(keys, k) < offset + b.len()
                && r[k - i] == (keys[k].1, b.subrange(record_start(keys, k) - offset, record_end(keys, k, offset, b.len()) - offset))
            &&& j < keys.len() ==> record_start(keys, j as int) >= offset + b.len()
        },
    decreases keys.len() - i,
{
    if i < keys.len() {
        lemma_block_takes_keys_inside(b, offset, keys, i + 1);
        match records_in_block(b, offset, keys, i) {
            Ok((r, j)) => {
                if record_start(keys, i as int) >= offset && record_start(keys, i as int) - offset < b.len() {
                    let (r1, j1) = records_in_block(b, offset, keys, i + 1)->Ok_0;
                    assert(r == seq![(keys[i as int].1, b.subrange(record_start(keys, i as int) - offset,
                        record_end(keys, i as int, offset, b.len()) - offset))] + r1);
                    assert forall|k: int| i <= k < j implies offset <= #[trigger] record_start(keys, k) < offset + b.len()
                        && r[k - i] == (keys[k].1, b.subrange(record_start(keys, k) - offset, record_end(keys, k, offset, b.len()) - offset)) by {
                        if k > i {
                            assert(r[k - i] == r1[k - (i + 1)]);
                        }
                    }
                }
            }
            Err(_) => {}
        }
    }
}

/// One stored record block at the start of `s` (see `block_spec`) with the
/// announced sizes `info`: it must match its checksum, and, when `sized`, have
/// the announced decompressed size; its records are cut out by
/// `records_in_block`.  Yields the records, the index of the next key, the bytes
/// taken and the block's length.
#[verifier::opaque]
pub open spec fn record_block_step(
    s: Seq<u8>,
    info: (usize, usize),
    keys: Seq<(u64, Seq<char>)>,
    i: nat,
    offset: nat,
    sized: bool,
) -> Result<(Seq<(Seq<char>, Seq<u8>)>, nat, nat, nat), MDictError> {
    match block_spec(s, info.0 as nat) {
        Err(e) => Err(e),
        Ok((b, ck, n)) => if sized && info.1 as nat != b.len() {
            Err(MDictError::SizeMismatch)
        } else if adler32_spec(b) != ck {
            Err(MDictError::ChecksumMismatch)
        } else if offset + b.len() > usize::MAX {
            Err(MDictError::Overflow)
        } else {
            match records_in_block(b, offset, keys, i) {
                Err(e) => Err(e),
                Ok((r, j)) => Ok((r, j, n, b.len())),
            }
        },
    }
}

/// The records of consecutive stored record blocks, one per entry of `infos`
/// (see `record_block_step`), the data of each block continuing the offsets of
/// the one before.
pub open spec fn record_blocks_spec(
    s: Seq<u8>,
    infos: Seq<(usize, usize)>,
    keys: Seq<(u64, Seq<char>)>,
    i: nat,
    offset: nat,
    sized: bool,
) -> Result<Seq<(Seq<char>, Seq<u8>)>, MDictError>
    decreases infos.len(),
{
    if infos.len() == 0 {
        Ok(Seq::empty())
    } else {
        match record_block_step(s, infos[0], keys, i, offset, sized) {
            Err(e) => Err(e),
            Ok((r, j, n, blen)) => prepend_ok(r, record_blocks_spec(s.skip(n as int), infos.drop_first(), keys, j, offset + blen, sized)),
        }
    }
}

/// The record section at the start of `s`: four numbers (block count, entry
/// count, info size, data size), the record block info list, then the blocks.
pub open spec fn record_section_spec(s: Seq<u8>, w: nat, keys: Seq<(u64, Seq<char>)>, sized: bool) -> Result<Seq<(Seq<char>, Seq<u8>)>, MDictError> {
    if s.len() < 4 * w {
        Err(MDictError::UnexpectedEof)
    } else {
        let info_size = read_num(s.skip((2 * w) as int), w) as usize as nat;
        let s1 = s.skip((4 * w) as int);
        if s1.len() < info_size {
            Err(MDictError::UnexpectedEof)
        } else {
            match record_infos_spec(s1.take(info_size as int), w) {
                Err(e) => Err(e),
                Ok(infos) => record_blocks_spec(s1.skip(info_size as int), infos, keys, 0, 0, sized),
            }
        }
    }
}

/// The records of consecutive record blocks belong to the keys from index `i`
/// on, in key-list order, one record per key: no key is skipped or repeated.
pub proof fn lemma_blocks_follow_key_order(
    s: Seq<u8>,
    infos: Seq<(usize, usize)>,
    keys: Seq<(u64, Seq<char>)>,
    i: nat,
    offset: nat,
    sized: bool,
)
    requires
        i <= keys.len(),
    ensures
        record_blocks_spec(s, infos, keys, i, offset, sized) matches Ok(r) ==> {
            &&& i + r.len() <= keys.len()
            &&& forall|k: int| 0 <= k < r.len() ==> (#[trigger] r[k]).0 == keys[i + k].1
        },
    decreases infos.len(),
{
    if infos.len() > 0 {
        reveal(record_block_step);
        match block_spec(s, infos[0].0 as nat) {
            Ok((b, ck, n)) => {
                lemma_block_takes_keys_inside(b, offset, keys, i);
                match records_in_block(b, offset, keys, i) {
                    Ok((r1, j)) => {
                        lemma_blocks_follow_key_order(s.skip(n as int), infos.drop_first(), keys, j, offset + b.len(), sized);
                        match record_blocks_spec(s, infos, keys, i, offset, sized) {
                            Ok(r) => {
                                let r2 = record_blocks_spec(s.skip(n as int), infos.drop_first(), keys, j, offset + b.len(), sized)->Ok_0;
                                assert(r == r1 + r2);
                                assert forall|k: int| 0 <= k < r.len() implies (#[trigger] r[k]).0 == keys[i + k].1 by {
                                    if k < r1.len() {
                                        assert(offset <= record_start(keys, i + k));
                                        assert(r1[(i + k) - i].0 == keys[i + k].1);
                                    } else {
                                        assert(r[k] == r2[k - r1.len()]);
                                    }
                                }
                            }
                            Err(_) => {}
                        }
                    }
                    Err(_) => {}
                }
            }
            Err(_) => {}
        }
    }
}

/// The records of a record section belong to the keys of the key list from the
/// first on, in key-list order, one record per key: no key is skipped or
/// repeated.
pub proof fn lemma_section_follows_key_order(s: Seq<u8>, w: nat, keys: Seq<(u64, Seq<char>)>, sized: bool)
    ensures
        record_section_spec(s, w, keys, sized) matches Ok(r) ==> {
            &&& r.len() <= keys.len()
            &&& forall|k: int| 0 <= k < r.len() ==> (#[trigger] r[k]).0 == keys[k].1
        },
{
    if s.len() >= 4 * w {
        let info_size = read_num(s.skip((2 * w) as int), w) as usize as nat;
        let s1 = s.skip((4 * w) as int);
        if s1.len() >= info_size {
            match record_infos_spec(s1.take(info_size as int), w) {
                Ok(infos) => { lemma_blocks_follow_key_order(s1.skip(info_size as int), infos, keys, 0, 0, sized); }
                Err(_) => {}
            }
        }
    }
}

/// The abstract view of decoded records: key texts with record bytes.
pub open spec fn records_view(v: Seq<(String, Vec<u8>)>) -> Seq<(Seq<char>, Seq<u8>)> {
    v.map_values(|e: (String, Vec<u8>)| (e.0@, e.1@))
}

/// The bytes of the last record whose key is `key`, if any.
pub open spec fn last_record(records: Seq<(Seq<char>, Seq<u8>)>, key: Seq<char>) -> Option<Seq<u8>>
    decreases records.len(),
{
    if records.len() == 0 {
        None
    } else if records.last().0 == key {
        Some(records.last().1)
    } else {
        last_record(records.drop_last(), key)
    }
}

/// True when every record's bytes are UTF-8.
pub open spec fn all_utf8(records: Seq<(Seq<char>, Seq<u8>)>) -> bool {
    forall|i: int| 0 <= i < records.len() ==> valid_utf8(#[trigger] records[i].1)
}


/// `Ok((prefix ++ r, j))` when the rest yields `Ok((r, j))`.
pub open spec fn prepend_pair(
    prefix: Seq<(Seq<char>, Seq<u8>)>,
    r: Result<(Seq<(Seq<char>, Seq<u8>)>, nat), MDictError>,
) -> Result<(Seq<(Seq<char>, Seq<u8>)>, nat), MDictError> {
    match r {
        Ok((x, j)) => Ok((prefix + x, j)),
        Err(e) => Err(e),
    }
}

impl MDictHeader {
    /// Decodes the record block info list (see `record_infos_spec`).
    fn read_record_infos(&self, info: &[u8]) -> (res: Result<Vec<(usize, usize)>, MDictError>)
        ensures
            match record_infos_spec(info@, self.num_width()) {
                Ok(v) => res is Ok && res->Ok_0@ == v,
                Err(e) => res == Err::<Vec<(usize, usize)>, MDictError>(e),
            },
    {
        let len = info.len();
        let w: usize = if self.version_at_least_2 { 8 } else { 4 };
        let mut list: Vec<(usize, usize)> = Vec::new();
        let mut pos: usize = 0;
        assert(info@.skip(0) =~= info@);
        loop
            invariant
                pos <= len,
                len == info@.len(),
                w == self.num_width(),
                record_infos_spec(info@, w as nat) == prepend_ok(list@, record_infos_spec(info@.skip(pos as int), w as nat)),
            decreases len - pos,
        {
            let ghost s = info@.skip(pos as int);
            let compressed_size = match self.read_number(info, pos) {
                Some(v) => v,
                None => {
                    assert(list@ + Seq::empty() =~= list@);
                    return Ok(list);
                }
            };
            let decompressed_size = match self.read_number(info, pos + w) {
                Some(v) => v,
                None => { return Err(MDictError::UnexpectedEof); }
            };
            assert(s.skip(w as int) =~= info@.skip(pos + w));
            assert(s.skip((2 * w) as int) =~= info@.skip(pos + 2 * w));
            let ghost old_list = list@;
            let entry = (compressed_size as usize, decompressed_size as usize);
            list.push(entry);
            pos = pos + 2 * w;
            proof {
                match record_infos_spec(info@.skip(pos as int), w as nat) {
                    Ok(r) => { assert(old_list + (seq![entry] + r) =~= list@ + r); }
                    Err(_) => {}
                }
            }
        }
    }

    /// Cuts the records of keys `i..` out of the record block `block`, which
    /// starts at `offset` in the record data (see `records_in_block`).
    fn split_records(block: &[u8], offset: usize, key_list: &Vec<(u64, String)>, i: usize)
        -> (res: Result<(Vec<(String, Vec<u8>)>, usize), MDictError>)
        requires
            offset + block@.len() <= usize::MAX,
        ensures
            match records_in_block(block@, offset as nat, key_list_view(key_list@), i as nat) {
                Ok((r, j)) => res is Ok && records_view(res->Ok_0.0@) == r && res->Ok_0.1 == j,
                Err(e) => res == Err::<(Vec<(String, Vec<u8>)>, usize), MDictError>(e),
            },
    {
        let ghost keys = key_list_view(key_list@);
        let len = block.len();
        let n = key_list.len();
        let mut out: Vec<(String, Vec<u8>)> = Vec::new();
        let mut k = i;
        assert(records_view(out@) + Seq::empty() =~= Seq::<(Seq<char>, Seq<u8>)>::empty());
        loop
            invariant
                n == key_list@.len(),
                keys == key_list_view(key_list@),
                len == block@.len(),
                offset + len <= usize::MAX,
                records_in_block(block@, offset as nat, keys, i as nat)
                    == prepend_pair(records_view(out@), records_in_block(block@, offset as nat, keys, k as nat)),
            decreases n - k,
        {
            if k >= n {
                assert(records_view(out@) + Seq::empty() =~= records_view(out@));
                return Ok((out, k));
            }
            let start = key_list[k].0 as usize;
            if start < offset {
                return Err(MDictError::InvalidRecordRange);
            }
            if start - offset >= len {
                assert(records_view(out@) + Seq::empty() =~= records_view(out@));
                return Ok((out, k));
            }
            let end: usize = if k + 1 < n { key_list[k + 1].0 as usize } else { len + offset };
            if end < start || end - offset > len {
                return Err(MDictError::InvalidRecordRange);
            }
            let key_text = key_list[k].1.clone();
            let record = vstd::slice::slice_to_vec(&block[start - offset..end - offset]);
            let ghost old_out = out@;
            let ghost item = (key_text@, record@);
            assert(item == (keys[k as int].1, block@.subrange(start - offset, end - offset)));
            out.push((key_text, record));
            assert(records_view(out@) =~= records_view(old_out) + seq![item]);
            k = k + 1;
            proof {
                match records_in_block(block@, offset as nat, keys, k as nat) {
                    Ok((r, j)) => { assert(records_view(old_out) + (seq![item] + r) =~= records_view(out@) + r); }
                    Err(_) => {}
                }
            }
        }
    }
}


proof fn lemma_record_blocks_step(
    data: Seq<u8>,
    p: nat,
    next: nat,
    infos: Seq<(usize, usize)>,
    k: nat,
    keys: Seq<(u64, Seq<char>)>,
    i: nat,
    offset: nat,
    done: Seq<(Seq<char>, Seq<u8>)>,
    r: Seq<(Seq<char>, Seq<u8>)>,
    j: nat,
    blen: nat,
    whole: Result<Seq<(Seq<char>, Seq<u8>)>, MDictError>,
    sized: bool,
)
    requires
        p <= next <= data.len(),
        k < infos.len(),
        record_block_step(data.skip(p as int), infos[k as int], keys, i, offset, sized) == Ok::<(Seq<(Seq<char>, Seq<u8>)>, nat, nat, nat), MDictError>((r, j, (next - p) as nat, blen)),
        whole == prepend_ok(done, record_blocks_spec(data.skip(p as int), infos.skip(k as int), keys, i, offset, sized)),
    ensures
        whole == prepend_ok(done + r, record_blocks_spec(data.skip(next as int), infos.skip((k + 1) as int), keys, j, offset + blen, sized)),
{
    assert(infos.skip(k as int)[0] == infos[k as int]);
    assert(infos.skip(k as int).drop_first() =~= infos.skip((k + 1) as int));
    assert(data.skip(p as int).skip(next - p) =~= data.skip(next as int));
    match record_blocks_spec(data.skip(next as int), infos.skip((k + 1) as int), keys, j, offset + blen, sized) {
        Ok(x) => { assert(done + (r + x) =~= (done + r) + x); }
        Err(_) => {}
    }
}

proof fn lemma_record_blocks_err(
    s: Seq<u8>,
    infos: Seq<(usize, usize)>,
    k: nat,
    keys: Seq<(u64, Seq<char>)>,
    i: nat,
    offset: nat,
    e: MDictError,
    sized: bool,
)
    requires
        k < infos.len(),
        record_block_step(s, infos[k as int], keys, i, offset, sized) == Err::<(Seq<(Seq<char>, Seq<u8>)>, nat, nat, nat), MDictError>(e),
    ensures
        record_blocks_spec(s, infos.skip(k as int), keys, i, offset, sized) == Err::<Seq<(Seq<char>, Seq<u8>)>, MDictError>(e),
{
    assert(infos.skip(k as int)[0] == infos[k as int]);
}

impl MDictHeader {
    /// Decodes one stored record block at `p` (see `record_block_step`).
    fn decode_one_record_block(
        data: &[u8],
        p: usize,
        info: (usize, usize),
        key_list: &Vec<(u64, String)>,
        i: usize,
        offset: usize,
        sized: bool,
    ) -> (res: Result<(Vec<(String, Vec<u8>)>, usize, usize, usize), MDictError>)
        requires
            p <= data@.len(),
        ensures
            match record_block_step(data@.skip(p as int), info, key_list_view(key_list@), i as nat, offset as nat, sized) {
                Ok((r, j, n, blen)) => res is Ok && records_view(res->Ok_0.0@) == r && res->Ok_0.1 == j
                    && res->Ok_0.2 == p + n && res->Ok_0.3 == blen && p + n <= data@.len() && offset + blen <= usize::MAX,
                Err(e) => res == Err::<(Vec<(String, Vec<u8>)>, usize, usize, usize), MDictError>(e),
            },
    {
        reveal(record_block_step);
        let (compressed_size, decompressed_size) = info;
        let (record_block, checksum, next) = match read_block(data, p, compressed_size) {
            Ok(r) => r,
            Err(e) => { return Err(e); }
        };
        if sized && decompressed_size != record_block.len() {
            return Err(MDictError::SizeMismatch);
        }
        match check_adler32(record_block.as_slice(), checksum) {
            Ok(()) => {}
            Err(e) => { return Err(e); }
        }
        if record_block.len() > usize::MAX - offset {
            return Err(MDictError::Overflow);
        }
        match Self::split_records(record_block.as_slice(), offset, key_list, i) {
            Ok((found, j)) => Ok((found, j, next, record_block.len())),
            Err(e) => Err(e),
        }
    }
}

impl MDictHeader {
    /// Decodes the record section at `pos` for the keys of `key_list` (sorted by
    /// record offset): the `(key, record bytes)` pairs in order (see
    /// `record_section_spec`); every fault is reported.  `sized` asks that each
    /// block have the decompressed size announced for it.
    #[verifier::rlimit(60)]
    fn try_decode_records(&self, data: &[u8], pos: usize, key_list: Vec<(u64, String)>, sized: bool)
        -> (res: Result<Vec<(String, Vec<u8>)>, MDictError>)
        requires
            pos <= data@.len(),
        ensures
            match record_section_spec(data@.skip(pos as int), self.num_width(), key_list_view(key_list@), sized) {
                Ok(r) => res is Ok && records_view(res->Ok_0@) == r,
                Err(e) => res == Err::<Vec<(String, Vec<u8>)>, MDictError>(e),
            },
    {
        let ghost s = data@.skip(pos as int);
        let ghost keys = key_list_view(key_list@);
        let len = data.len();
        let w: usize = if self.version_at_least_2 { 8 } else { 4 };
        if len - pos < 4 * w {
            return Err(MDictError::UnexpectedEof);
        }
        let record_block_info_size = match self.read_number(data, pos + 2 * w) {
            Some(v) => v as usize,
            None => { return Err(MDictError::UnexpectedEof); }
        };
        assert(s.skip((2 * w) as int) =~= data@.skip(pos + 2 * w));
        let p1 = pos + 4 * w;
        assert(s.skip((4 * w) as int) =~= data@.skip(p1 as int));
        if len - p1 < record_block_info_size {
            return Err(MDictError::UnexpectedEof);
        }
        let info = &data[p1..p1 + record_block_info_size];
        assert(info@ =~= data@.skip(p1 as int).take(record_block_info_size as int));
        let infos = match self.read_record_infos(info) {
            Ok(v) => v,
            Err(e) => { return Err(e); }
        };
        let mut p = p1 + record_block_info_size;
        assert(data@.skip(p1 as int).skip(record_block_info_size as int) =~= data@.skip(p as int));
        let ghost whole = record_blocks_spec(data@.skip(p as int), infos@, keys, 0, 0, sized);
        let mut records: Vec<(String, Vec<u8>)> = Vec::new();
        let mut i: usize = 0;
        let mut offset: usize = 0;
        let mut k: usize = 0;
        assert(infos@.skip(0) =~= infos@);
        assert(records_view(records@) + Seq::empty() =~= Seq::<(Seq<char>, Seq<u8>)>::empty());
        proof {
            match whole {
                Ok(x) => { assert(records_view(records@) + x =~= x); }
                Err(_) => {}
            }
        }
        while k < infos.len()
            invariant
                k <= infos@.len(),
                p <= len,
                len == data@.len(),
                w == self.num_width(),
                s == data@.skip(pos as int),
                keys == key_list_view(key_list@),
                record_section_spec(s, w as nat, keys, sized) == whole,
                whole == prepend_ok(records_view(records@), record_blocks_spec(data@.skip(p as int), infos@.skip(k as int), keys, i as nat, offset as nat, sized)),
            decreases infos@.len() - k,
        {
            let info = infos[k];
            let (mut found, j, next, blen) = match Self::decode_one_record_block(data, p, info, &key_list, i, offset, sized) {
                Ok(r) => r,
                Err(e) => {
                    proof { lemma_record_blocks_err(data@.skip(p as int), infos@, k as nat, keys, i as nat, offset as nat, e, sized); }
                    return Err(e);
                }
            };
            proof {
                lemma_record_blocks_step(data@, p as nat, next as nat, infos@, k as nat, keys, i as nat,
                    offset as nat, records_view(records@), records_view(found@), j as nat, blen as nat, whole, sized);
            }
            let ghost old_records = records@;
            let ghost found_v = found@;
            records.append(&mut found);
            assert(records_view(records@) =~= records_view(old_records) + records_view(found_v));
            offset = offset + blen;
            i = j;
            p = next;
            k = k + 1;
        }
        assert(infos@.skip(k as int) =~= Seq::<(usize, usize)>::empty());
        assert(records_view(records@) + Seq::empty() =~= records_view(records@));
        Ok(records)
    }
}


/// The text records' map: each key maps to the UTF-8 text of its last record;
/// every record must be UTF-8.
pub open spec fn text_records_map(records: Seq<(Seq<char>, Seq<u8>)>, m: Map<Seq<char>, String>) -> bool {
    forall|k: Seq<char>|
        match last_record(records, k) {
            Some(b) => #[trigger] m.contains_key(k) && m[k]@ == decode_utf8(b),
            None => !m.contains_key(k),
        }
}

/// The binary records' map: each key maps to the bytes of its last record.
pub open spec fn binary_records_map(records: Seq<(Seq<char>, Seq<u8>)>, m: Map<Seq<char>, Vec<u8>>) -> bool {
    forall|k: Seq<char>|
        match last_record(records, k) {
            Some(b) => #[trigger] m.contains_key(k) && m[k]@ == b,
            None => !m.contains_key(k),
        }
}

proof fn lemma_text_records_map_push(
    records: Seq<(Seq<char>, Seq<u8>)>,
    m: Map<Seq<char>, String>,
    key: Seq<char>,
    bytes: Seq<u8>,
    text: String,
)
    requires
        text_records_map(records, m),
        text@ == decode_utf8(bytes),
    ensures
        text_records_map(records.push((key, bytes)), m.insert(key, text)),
{
    let rs = records.push((key, bytes));
    assert(rs.drop_last() =~= records);
    assert(rs.last() == (key, bytes));
    assert forall|k: Seq<char>|
        match last_record(rs, k) {
            Some(b) => #[trigger] m.insert(key, text).contains_key(k) && m.insert(key, text)[k]@ == decode_utf8(b),
            None => !m.insert(key, text).contains_key(k),
        } by {
        if k != key {
            assert(last_record(rs, k) == last_record(records, k));
            assert(m.contains_key(k) == m.insert(key, text).contains_key(k));
        }
    }
}

impl MDictHeader {
    /// Decodes the record section at `pos` for the keys of `key_list` (sorted by
    /// record offset): the `(key, record bytes)` pairs in order (see
    /// `record_section_spec`), each block having its announced size.  A section
    /// with a faulty block (size, checksum, type or record range) is outside what
    /// it accepts (see `stops_reading`); the data ending early or a stream that
    /// cannot be inflated is reported.
    pub fn decode_record_block(&self, data: &[u8], pos: usize, key_list: Vec<(u64, String)>)
        -> (res: Result<Vec<(String, Vec<u8>)>, MDictError>)
        requires
            pos <= data@.len(),
            record_section_spec(data@.skip(pos as int), self.num_width(), key_list_view(key_list@), true) matches Err(e)
                ==> !stops_reading(e),
        ensures
            match record_section_spec(data@.skip(pos as int), self.num_width(), key_list_view(key_list@), true) {
                Ok(r) => res is Ok && records_view(res->Ok_0@) == r,
                Err(e) => res == Err::<Vec<(String, Vec<u8>)>, MDictError>(e),
            },
    {
        self.try_decode_records(data, pos, key_list, true)
    }
}

impl MDictHeader {
    /// Decodes the record section of a `.mdd` file: each key's asset bytes.
    pub fn mdd_decode_record_block(&self, data: &[u8], pos: usize, key_list: Vec<(u64, String)>)
        -> (res: Result<StringHashMap<Vec<u8>>, MDictError>)
        requires
            pos <= data@.len(),
        ensures
            match record_section_spec(data@.skip(pos as int), self.num_width(), key_list_view(key_list@), false) {
                Ok(r) => res is Ok && binary_records_map(r, res->Ok_0@),
                Err(e) => res is Err && res->Err_0 == e,
            },
    {
        let records = match self.try_decode_records(data, pos, key_list, false) {
            Ok(r) => r,
            Err(e) => { return Err(e); }
        };
        let ghost rv = records_view(records@);
        let mut map: StringHashMap<Vec<u8>> = StringHashMap::new();
        let mut i: usize = 0;
        while i < records.len()
            invariant
                i <= records@.len(),
                rv == records_view(records@),
                binary_records_map(rv.take(i as int), map@),
            decreases records@.len() - i,
        {
            let key = records[i].0.clone();
            let value = records[i].1.clone();
            map.insert(key, value);
            i = i + 1;
            assert(rv.take(i as int).drop_last() =~= rv.take(i - 1));
        }
        assert(rv.take(i as int) =~= rv);
        Ok(map)
    }

    /// Decodes the record section of a `.mdx` file into a map from each key to
    /// the definition text of its last record.
    #[verifier::loop_isolation(false)]
    pub fn decode_word_map(&self, data: &[u8], pos: usize, key_list: Vec<(u64, String)>)
        -> (res: Result<StringHashMap<String>, MDictError>)
        requires
            pos <= data@.len(),
        ensures
            match record_section_spec(data@.skip(pos as int), self.num_width(), key_list_view(key_list@), false) {
                Ok(r) => if all_utf8(r) {
                    res is Ok && text_records_map(r, res->Ok_0@)
                } else {
                    res is Err && res->Err_0 == MDictError::InvalidUtf8
                },
                Err(e) => res is Err && res->Err_0 == e,
            },
    {
        let ghost whole = record_section_spec(data@.skip(pos as int), self.num_width(), key_list_view(key_list@), false);
        let records = match self.try_decode_records(data, pos, key_list, false) {
            Ok(r) => r,
            Err(e) => { return Err(e); }
        };
        let ghost rv = records_view(records@);
        let mut map: StringHashMap<String> = StringHashMap::new();
        let mut i: usize = 0;
        while i < records.len()
            invariant
                i <= records@.len(),
                rv == records_view(records@),
                whole == Ok::<Seq<(Seq<char>, Seq<u8>)>, MDictError>(rv),
                all_utf8(rv.take(i as int)),
                text_records_map(rv.take(i as int), map@),
            decreases records@.len() - i,
        {
            let text = match utf8_to_string(records[i].1.as_slice()) {
                Some(t) => t,
                None => {
                    assert(!valid_utf8(rv[i as int].1));
                    assert(!all_utf8(rv));
                    return Err(MDictError::InvalidUtf8);
                }
            };
            let key = records[i].0.clone();
            proof {
                assert(rv.take(i + 1) =~= rv.take(i as int).push(rv[i as int]));
                lemma_text_records_map_push(rv.take(i as int), map@, key@, rv[i as int].1, text);
            }
            map.insert(key, text);
            i = i + 1;
            assert(rv.take(i as int).drop_last() =~= rv.take(i - 1));
            assert forall|j: int| 0 <= j < rv.take(i as int).len() implies valid_utf8(#[trigger] rv.take(i as int)[j].1) by {
                if j < i - 1 {
                    assert(rv.take(i as int)[j] == rv.take(i - 1)[j]);
                }
            }
        }
        assert(rv.take(i as int) =~= rv);
        Ok(map)
    }
}

/// The view of a word list: key texts with definition texts.
pub open spec fn words_view(v: Seq<Word>) -> Seq<(Seq<char>, Seq<char>)> {
    v.map_values(|w: Word| (w.key_text@, w.record_text@))
}

/// Records with their bytes read as UTF-8 text.
pub open spec fn decoded_records(records: Seq<(Seq<char>, Seq<u8>)>) -> Seq<(Seq<char>, Seq<char>)> {
    records.map_values(|r: (Seq<char>, Seq<u8>)| (r.0, decode_utf8(r.1)))
}

impl MDictHeader {
    /// Decodes the record section of a `.mdx` file into its words: each key of
    /// `key_list` that has a record, with the record's text, in key-list order.
    #[verifier::loop_isolation(false)]
    pub fn mdx_decode_record_block(&self, data: &[u8], pos: usize, key_list: Vec<(u64, String)>)
        -> (res: Result<Vec<Word>, MDictError>)
        requires
            pos <= data@.len(),
        ensures
            match record_section_spec(data@.skip(pos as int), self.num_width(), key_list_view(key_list@), false) {
                Ok(r) => if all_utf8(r) {
                    res is Ok && words_view(res->Ok_0@) == decoded_records(r)
                } else {
                    res is Err && res->Err_0 == MDictError::InvalidUtf8
                },
                Err(e) => res is Err && res->Err_0 == e,
            },
    {
        let ghost whole = record_section_spec(data@.skip(pos as int), self.num_width(), key_list_view(key_list@), false);
        let records = match self.try_decode_records(data, pos, key_list, false) {
            Ok(r) => r,
            Err(e) => { return Err(e); }
        };
        let ghost rv = records_view(records@);
        let mut words: Vec<Word> = Vec::new();
        let mut i: usize = 0;
        while i < records.len()
            invariant
                i <= records@.len(),
                rv == records_view(records@),
                whole == Ok::<Seq<(Seq<char>, Seq<u8>)>, MDictError>(rv),
                all_utf8(rv.take(i as int)),
                words_view(words@) == decoded_records(rv.take(i as int)),
            decreases records@.len() - i,
        {
            let text = match utf8_to_string(records[i].1.as_slice()) {
                Some(t) => t,
                None => {
                    assert(!valid_utf8(rv[i as int].1));
                    assert(!all_utf8(rv));
                    return Err(MDictError::InvalidUtf8);
                }
            };
            let key = records[i].0.clone();
            let ghost before = words@;
            words.push(Word::new(key, text));
            i = i + 1;
            assert(rv.take(i as int).drop_last() =~= rv.take(i - 1));
            assert(words_view(words@) =~= words_view(before).push((rv[i - 1].0, decode_utf8(rv[i - 1].1))));
            assert(decoded_records(rv.take(i as int)) =~= decoded_records(rv.take(i - 1)).push((rv[i - 1].0, decode_utf8(rv[i - 1].1))));
            assert forall|j: int| 0 <= j < rv.take(i as int).len() implies valid_utf8(#[trigger] rv.take(i as int)[j].1) by {
                if j < i - 1 {
                    assert(rv.take(i as int)[j] == rv.take(i - 1)[j]);
                }
            }
        }
        assert(rv.take(i as int) =~= rv);
        Ok(words)
    }
}

} // verus!
