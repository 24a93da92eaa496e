use vstd::prelude::*;

verus! {

/// A JSON document as the backends read it.  Numbers keep their text; an
/// object keeps its members in order.
pub enum JsonValue {
    Null,
    Bool(bool),
    Number(String),
    Str(String),
    Array(Vec<JsonValue>),
    Object(Vec<(String, JsonValue)>),
}

/// The value of the first member named `key`.
pub open spec fn member(members: Seq<(String, JsonValue)>, key: Seq<char>) -> Option<JsonValue>
    decreases members.len(),
{
    if members.len() == 0 {
        None
    } else if members[0].0@ == key {
        Some(members[0].1)
    } else {
        member(members.drop_first(), key)
    }
}

impl JsonValue {
    /// The member `key` of an object; `None` for a missing member or a value
    /// that is not an object.
    pub open spec fn get_spec(self, key: Seq<char>) -> Option<JsonValue> {
        match self {
            JsonValue::Object(members) => member(members@, key),
            _ => None,
        }
    }

    pub fn get(&self, key: &str) -> (res: Option<&JsonValue>)
        ensures
            match self.get_spec(key@) {
                Some(v) => res is Some && *res->0 == v,
                None => res is None,
            },
    {
        match self {
            JsonValue::Object(members) => {
                let mut i: usize = 0;
                assert(members@.skip(0) =~= members@);
                while i < members.len()
                    invariant
                        i <= members@.len(),
                        member(members@, key@) == member(members@.skip(i as int), key@),
                        self.get_spec(key@) == member(members@, key@),
                    decreases members@.len() - i,
                {
                    assert(members@.skip(i as int)[0] == members@[i as int]);
                    assert(members@.skip(i as int).drop_first() =~= members@.skip(i + 1));
                    let name = members[i].0.as_str().to_owned();
                    let wanted = key.to_owned();
                    if name == wanted {
                        assert(members@[i as int].0@ == key@);
                        assert(self.get_spec(key@) == Some(members@[i as int].1));
                        return Some(&members[i].1);
                    }
                    i = i + 1;
                }
                None
            },
            _ => None,
        }
    }

    /// The string of a string value.
    pub fn as_str(&self) -> (res: Option<&String>)
        ensures
            match *self {
                JsonValue::Str(s) => res == Some(&s),
                _ => res is None,
            },
    {
        match self {
            JsonValue::Str(s) => Some(s),
            _ => None,
        }
    }

    /// The elements of an array value.
    pub fn as_array(&self) -> (res: Option<&Vec<JsonValue>>)
        ensures
            match *self {
                JsonValue::Array(a) => res == Some(&a),
                _ => res is None,
            },
    {
        match self {
            JsonValue::Array(a) => Some(a),
            _ => None,
        }
    }
}

} // verus!
