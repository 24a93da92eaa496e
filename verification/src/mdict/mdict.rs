use vstd::hash_map::StringHashMap;
use vstd::prelude::*;

use crate::mdict::mdict_header::{key_list_view, read_keys_spec, MDictHeader};
use crate::mdict::record_block::{all_utf8, binary_records_map, last_record, record_section_spec, text_records_map};
use vstd::utf8::decode_utf8;
use crate::mdict::utils::MDictError;

verus! {

/// Key word to data.
pub type Datas<T> = StringHashMap<T>;

/// Key word to definition text.
pub type Words = Datas<String>;

/// Key word to asset bytes.
pub type Binarys = Datas<Vec<u8>>;

/// The key list of a dictionary: record offset and key word.
pub type KeyList = Vec<(u64, String)>;

/// The entries of a key list whose record offset is `k`, in order.
pub open spec fn same_offset(keys: Seq<(u64, Seq<char>)>, k: u64) -> Seq<(u64, Seq<char>)> {
    keys.filter(|e: (u64, Seq<char>)| e.0 == k)
}

/// The key list sorted by record offset; equal offsets keep their order.
pub uninterp spec fn sorted_by_offset(keys: Seq<(u64, Seq<char>)>) -> Seq<(u64, Seq<char>)>;

/// `slice::sort_by_key` with the record offset as key: a stable sort.  The result
/// is named (`sorted_by_offset`); the contract also claims that it is ordered by
/// offset, holds the same entries, and keeps the entries of each offset in the
/// order they had (stability).
#[verifier::external_body]
fn sort_key_list(key_list: &mut KeyList)
    ensures
        key_list_view(final(key_list)@) == sorted_by_offset(key_list_view(old(key_list)@)),
        key_list_view(final(key_list)@).to_multiset() == key_list_view(old(key_list)@).to_multiset(),
        forall|i: int, j: int| 0 <= i <= j < final(key_list)@.len() ==> (#[trigger] final(key_list)@[i]).0 <= (#[trigger] final(key_list)@[j]).0,
        forall|k: u64| #[trigger] same_offset(key_list_view(final(key_list)@), k) == same_offset(key_list_view(old(key_list)@), k),
{
    key_list.sort_by_key(|e| e.0);
}

/// `sorted` is `keys` sorted by record offset, stably: the same entries, in
/// ascending order of offset, the entries of each offset in their former order.
pub open spec fn is_stable_offset_sort(keys: Seq<(u64, Seq<char>)>, sorted: Seq<(u64, Seq<char>)>) -> bool {
    &&& sorted.to_multiset() == keys.to_multiset()
    &&& forall|i: int, j: int| 0 <= i <= j < sorted.len() ==> (#[trigger] sorted[i]).0 <= (#[trigger] sorted[j]).0
    &&& forall|k: u64| #[trigger] same_offset(sorted, k) == same_offset(keys, k)
}

/// The record section that follows the key section of a dictionary file body
/// `s`, read with the keys sorted by offset.
pub open spec fn sorted_records_spec(s: Seq<u8>, v2: bool, unit: nat) -> Result<Seq<(Seq<char>, Seq<u8>)>, MDictError> {
    let w: nat = if v2 { 8 } else { 4 };
    match read_keys_spec(s, v2, unit) {
        Err(e) => Err(e),
        Ok((keys, n)) => record_section_spec(s.skip(n as int), w, sorted_by_offset(keys), false),
    }
}

/// A key list ordered by offset has its view ordered by offset.
proof fn lemma_sorted_view(v: Seq<(u64, String)>)
    requires
        forall|i: int, j: int| 0 <= i <= j < v.len() ==> (#[trigger] v[i]).0 <= (#[trigger] v[j]).0,
    ensures
        forall|i: int, j: int| 0 <= i <= j < key_list_view(v).len()
            ==> (#[trigger] key_list_view(v)[i]).0 <= (#[trigger] key_list_view(v)[j]).0,
{
    assert forall|i: int, j: int| 0 <= i <= j < key_list_view(v).len()
        implies (#[trigger] key_list_view(v)[i]).0 <= (#[trigger] key_list_view(v)[j]).0 by {
        assert(key_list_view(v)[i].0 == v[i].0);
        assert(key_list_view(v)[j].0 == v[j].0);
        assert(v[i].0 <= v[j].0);
    }
}

impl MDictHeader {
    /// Reads the definitions of a `.mdx` file whose header ends at `pos`: the
    /// keys, sorted by record offset, then their records as text.
    pub fn read_words(&self, data: &[u8], pos: usize) -> (res: Result<Words, MDictError>)
        requires
            pos <= data@.len(),
        ensures
            match sorted_records_spec(data@.skip(pos as int), self.version_at_least_2, self.unit_len()) {
                Ok(r) => if all_utf8(r) {
                    res is Ok && text_records_map(r, res->Ok_0@)
                } else {
                    res is Err && res->Err_0 == MDictError::InvalidUtf8
                },
                Err(e) => res is Err && res->Err_0 == e,
            },
            read_keys_spec(data@.skip(pos as int), self.version_at_least_2, self.unit_len()) matches Ok((keys, _))
                ==> is_stable_offset_sort(keys, sorted_by_offset(keys)),
    {
        let (mut key_list, next) = match self.try_read_keys(data, pos) {
            Ok(r) => r,
            Err(e) => { return Err(e); }
        };
        assert(data@.skip(pos as int).skip((next - pos) as int) =~= data@.skip(next as int));
        sort_key_list(&mut key_list);
        proof { lemma_sorted_view(key_list@); }
        self.decode_word_map(data, next, key_list)
    }

    /// Reads the assets of a `.mdd` file whose header ends at `pos`.
    pub fn read_assets(&self, data: &[u8], pos: usize) -> (res: Result<Binarys, MDictError>)
        requires
            pos <= data@.len(),
        ensures
            match sorted_records_spec(data@.skip(pos as int), self.version_at_least_2, self.unit_len()) {
                Ok(r) => res is Ok && binary_records_map(r, res->Ok_0@),
                Err(e) => res is Err && res->Err_0 == e,
            },
            read_keys_spec(data@.skip(pos as int), self.version_at_least_2, self.unit_len()) matches Ok((keys, _))
                ==> is_stable_offset_sort(keys, sorted_by_offset(keys)),
    {
        let (mut key_list, next) = match self.try_read_keys(data, pos) {
            Ok(r) => r,
            Err(e) => { return Err(e); }
        };
        assert(data@.skip(pos as int).skip((next - pos) as int) =~= data@.skip(next as int));
        sort_key_list(&mut key_list);
        proof { lemma_sorted_view(key_list@); }
        self.mdd_decode_record_block(data, next, key_list)
    }
}

/// A dictionary: definitions (key word, explanation) from a `.mdx` file, and the
/// reference data (images, pronunciations, stylesheets) from a `.mdd` file.
pub struct MDict {
    /// `.mdx` file path
    pub mdx_file_path: String,
    /// header info
    pub header: MDictHeader,
    pub mdd_asset: Option<MDictAsset>,
    pub words: Words,
}

/// Assets stored in a `.mdd` file, usually images and css tables.
pub struct MDictAsset {
    pub mdd_file_path: String,
    /// header info
    pub header: MDictHeader,
    assets: Binarys,
}

impl MDictAsset {
    pub fn new(mdd_file_path: String, header: MDictHeader, assets: Binarys) -> (res: Self)
        ensures
            res.file_path() == mdd_file_path,
            res.header_info() == header,
            res.assets() == assets@,
    {
        MDictAsset { mdd_file_path, header, assets }
    }

    /// The `.mdd` file path.
    pub closed spec fn file_path(&self) -> String {
        self.mdd_file_path
    }

    /// The header of the `.mdd` file.
    pub closed spec fn header_info(&self) -> MDictHeader {
        self.header
    }

    /// The assets by key.
    pub closed spec fn assets(&self) -> Map<Seq<char>, Vec<u8>> {
        self.assets@
    }
}

impl MDict {
    /// The definition of `word`, if the dictionary has it.
    pub fn lookup(&self, word: &str) -> (res: Option<&String>)
        ensures
            match res {
                Some(v) => self.words@.contains_key(word@) && *v == self.words@[word@],
                None => !self.words@.contains_key(word@),
            },
    {
        self.words.get(word)
    }

    /// The asset named `word`, if there is an asset file that has it.
    pub fn lookup_assets(&self, word: &str) -> (res: Option<&Vec<u8>>)
        ensures
            match res {
                Some(v) => self.mdd_asset is Some && self.mdd_asset->0.assets().contains_key(word@)
                    && *v == self.mdd_asset->0.assets()[word@],
                None => self.mdd_asset is None || !self.mdd_asset->0.assets().contains_key(word@),
            },
    {
        match &self.mdd_asset {
            Some(asset) => asset.assets.get(word),
            None => None,
        }
    }
}

/// A key has a last record exactly when some record has that key.
proof fn lemma_last_record_some(records: Seq<(Seq<char>, Seq<u8>)>, key: Seq<char>)
    ensures
        last_record(records, key) is Some <==> exists|i: int| 0 <= i < records.len() && (#[trigger] records[i]).0 == key,
    decreases records.len(),
{
    if records.len() > 0 {
        let init = records.drop_last();
        lemma_last_record_some(init, key);
        if exists|i: int| 0 <= i < init.len() && (#[trigger] init[i]).0 == key {
            let i = choose|i: int| 0 <= i < init.len() && (#[trigger] init[i]).0 == key;
            assert(records[i] == init[i]);
        }
        if exists|i: int| 0 <= i < records.len() && (#[trigger] records[i]).0 == key {
            let i = choose|i: int| 0 <= i < records.len() && (#[trigger] records[i]).0 == key;
            if i < init.len() {
                assert(init[i] == records[i]);
            } else {
                assert(records[i] == records.last());
            }
        }
    }
}

/// The definitions read from a dictionary hold exactly the words that the file
/// has records for, each with the text of its last record.
pub proof fn lemma_lookup_finds_every_word(records: Seq<(Seq<char>, Seq<u8>)>, words: Map<Seq<char>, String>, word: Seq<char>)
    requires
        text_records_map(records, words),
    ensures
        words.contains_key(word) <==> exists|i: int| 0 <= i < records.len() && (#[trigger] records[i]).0 == word,
        words.contains_key(word) ==> words[word]@ == decode_utf8(last_record(records, word)->0),
{
    lemma_last_record_some(records, word);
    assert(match last_record(records, word) {
        Some(b) => words.contains_key(word) && words[word]@ == decode_utf8(b),
        None => !words.contains_key(word),
    });
}

} // verus!
