use vstd::prelude::*;

use crate::mdict::mdict::MDict;
use crate::types::{Query, RespData};

verus! {

/// A backend that looks words up in a local dictionary.
pub struct MDictBackend {
    dict: MDict,
}

impl MDictBackend {
    pub fn new(dict: MDict) -> (res: MDictBackend)
        ensures
            res.dict() == dict,
    {
        MDictBackend { dict }
    }

    /// The dictionary.
    pub closed spec fn dict(&self) -> MDict {
        self.dict
    }

    /// The definition of the query text, or `cannot lookup` when the dictionary
    /// has none.
    pub fn query(&self, query: Query) -> (res: Result<RespData, String>)
        ensures
            self.dict().words@.contains_key(query.text@) ==> res is Ok && {
                let r = res->Ok_0;
                &&& r.backend@ == "mdict"@
                &&& r.query == query
                &&& r.basic_desc@ == self.dict().words@[query.text@]@
                &&& r.phonetic_symbol is None
                &&& r.detail_desc is None
                &&& r.audio is None
            },
            !self.dict().words@.contains_key(query.text@) ==> res is Err && res->Err_0@ == "cannot lookup"@,
    {
        let text = match self.dict.lookup(query.text.as_str()) {
            Some(t) => t.clone(),
            None => { return Err("cannot lookup".to_owned()); }
        };
        Ok(RespData {
            backend: "mdict".to_owned(),
            query,
            basic_desc: text,
            phonetic_symbol: None,
            detail_desc: None,
            audio: None,
        })
    }
}

} // verus!
