pub mod dictcn;
pub mod google_translate;
pub mod google_translate_token;
pub mod youdao;

use vstd::prelude::*;

use crate::json::JsonValue;

verus! {

/// A step into a JSON document: a member of an object, or an element of an
/// array.
#[derive(Debug, Clone)]
pub enum JSONValueType {
    String(String),
    Index(usize),
}

/// The value one step leads to, if there is one.
pub open spec fn step_spec(json: JsonValue, step: JSONValueType) -> Option<JsonValue> {
    match step {
        JSONValueType::String(name) => json.get_spec(name@),
        JSONValueType::Index(i) => match json {
            JsonValue::Array(items) => if i < items@.len() { Some(items@[i as int]) } else { None },
            _ => None,
        },
    }
}

/// The value that the steps of `path` lead to, in order, if each exists.
pub open spec fn select_spec(json: JsonValue, path: Seq<JSONValueType>) -> Option<JsonValue>
    decreases path.len(),
{
    if path.len() == 0 {
        Some(json)
    } else {
        match step_spec(json, path[0]) {
            Some(next) => select_spec(next, path.drop_first()),
            None => None,
        }
    }
}

/// Follows the steps of `path` into `json` (see `select_spec`); an error when
/// a step leads nowhere.
pub fn select_json<'a>(json: &'a JsonValue, path: &Vec<JSONValueType>) -> (res: Result<&'a JsonValue, String>)
    ensures
        match select_spec(*json, path@) {
            Some(v) => res is Ok && *res->Ok_0 == v,
            None => res is Err && res->Err_0@ == "json decode error"@,
        },
{
    let mut cur = json;
    let mut i: usize = 0;
    assert(path@.skip(0) =~= path@);
    while i < path.len()
        invariant
            i <= path@.len(),
            select_spec(*json, path@) == select_spec(*cur, path@.skip(i as int)),
        decreases path@.len() - i,
    {
        let ghost rest = path@.skip(i as int);
        assert(rest[0] == path@[i as int]);
        assert(rest.drop_first() =~= path@.skip(i + 1));
        let next = match &path[i] {
            JSONValueType::String(name) => cur.get(name.as_str()),
            JSONValueType::Index(k) => match cur.as_array() {
                Some(items) => if *k < items.len() { Some(&items[*k]) } else { None },
                None => None,
            },
        };
        match next {
            Some(n) => { cur = n; },
            None => { return Err("json decode error".to_owned()); },
        }
        i = i + 1;
    }
    Ok(cur)
}

} // verus!
