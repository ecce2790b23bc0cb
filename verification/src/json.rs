//! A JSON document as the configuration logic reads it.
use vstd::prelude::*;

verus! {

/// A JSON value. Numbers carry no value: nothing here reads one.
pub enum Json {
    Null,
    Bool(bool),
    Number,
    Str(String),
    Array(Vec<Json>),
    Object(Vec<Member>),
}

/// One member of a JSON object.
pub struct Member {
    pub key: String,
    pub value: Json,
}

/// The value of the first member named `key`.
pub open spec fn member(members: Seq<Member>, key: Seq<char>) -> Option<Json>
    decreases members.len(),
{
    if members.len() == 0 {
        None
    } else if members[0].key@ == key {
        Some(members[0].value)
    } else {
        member(members.drop_first(), key)
    }
}

/// The value under `key` when `value` is an object, as `Value::get` gives it.
pub open spec fn spec_get(value: Json, key: Seq<char>) -> Option<Json> {
    match value {
        Json::Object(members) => member(members@, key),
        _ => None,
    }
}

proof fn lemma_member_skip(members: Seq<Member>, key: Seq<char>, i: int)
    requires
        0 <= i <= members.len(),
        forall|j: int| 0 <= j < i ==> members[j].key@ != key,
    ensures
        member(members, key) == member(members.subrange(i, members.len() as int), key),
    decreases i,
{
    if i > 0 {
        lemma_member_skip(members.drop_first(), key, i - 1);
        assert(members.drop_first().subrange(i - 1, members.len() - 1) =~= members.subrange(i, members.len() as int));
    } else {
        assert(members.subrange(0, members.len() as int) =~= members);
    }
}

impl Json {
    /// Whether this value is an object.
    pub fn is_object(&self) -> (r: bool)
        ensures
            r == (*self is Object),
    {
        match self {
            Json::Object(_) => true,
            _ => false,
        }
    }

    /// The value under `key` when this value is an object.
    pub fn get(&self, key: &str) -> (r: Option<&Json>)
        ensures
            r matches Some(v) ==> spec_get(*self, key@) == Some(*v),
            r is None ==> spec_get(*self, key@) is None,
    {
        match self {
            Json::Object(members) => {
                let mut i: usize = 0;
                while i < members.len()
                    invariant
                        i <= members@.len(),
                        spec_get(*self, key@) == member(members@, key@),
                        forall|j: int| 0 <= j < i ==> members@[j].key@ != key@,
                    decreases members@.len() - i,
                {
                    if crate::text::same_text(members[i].key.as_str(), key) {
                        proof {
                            lemma_member_skip(members@, key@, i as int);
                            let rest = members@.subrange(i as int, members@.len() as int);
                            assert(rest[0] == members@[i as int]);
                            assert(rest[0].key@ == key@);
                            assert(member(rest, key@) == Some(members@[i as int].value));
                        }
                        return Some(&members[i].value);
                    }
                    i += 1;
                }
                proof {
                    lemma_member_skip(members@, key@, i as int);
                }
                None
            },
            _ => None,
        }
    }
}

} // verus!
