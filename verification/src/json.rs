//! JSON documents as plain values, for the answers of the embedding and rerank
//! services. Numbers are held by the integers that the rules read of them.
use vstd::prelude::*;

verus! {

/// How a JSON number was written: a non-negative integer, a negative integer,
/// or any other number.
#[derive(Debug, Clone, Copy, PartialEq, Eq, Structural)]
pub enum NumberRepr {
    PosInt(u64),
    NegInt(i64),
    Float,
}

/// A JSON number. `bits` is the IEEE-754 bit pattern of the number as a 64-bit
/// float; `rank` is an integer that orders numbers as their float values do
/// (equal values, zero and minus zero among them, have equal ranks), with
/// `ZERO_RANK` for zero.
#[derive(Debug, Clone, Copy, PartialEq, Eq, Structural)]
pub struct JsonNumber {
    pub repr: NumberRepr,
    pub bits: u64,
    pub rank: u64,
}

/// The rank of the number zero.
pub const ZERO_RANK: u64 = 0x8000_0000_0000_0000u64;

/// A JSON value. An object is its members in order; looking up a key finds the
/// first member with that key (a JSON reader hands over distinct keys).
#[derive(Debug)]
pub enum JsonValue {
    Null,
    Bool(bool),
    Number(JsonNumber),
    Str(String),
    Array(Vec<JsonValue>),
    Object(Vec<(String, JsonValue)>),
}

/// The value of the first member of `members` named `key`.
pub open spec fn member(members: Seq<(String, JsonValue)>, key: Seq<char>) -> Option<JsonValue>
    decreases members.len(),
{
    if members.len() == 0 {
        None
    } else {
        match member(members.drop_last(), key) {
            Some(v) => Some(v),
            None => if members.last().0@ == key {
                Some(members.last().1)
            } else {
                None
            },
        }
    }
}

/// `v[key]` for an object `v`; nothing for any other value.
pub open spec fn json_get(v: JsonValue, key: Seq<char>) -> Option<JsonValue> {
    match v {
        JsonValue::Object(members) => member(members@, key),
        _ => None,
    }
}

/// `v[i]` for an array `v`; nothing for any other value.
pub open spec fn json_at(v: JsonValue, i: int) -> Option<JsonValue> {
    match v {
        JsonValue::Array(items) => if 0 <= i < items@.len() {
            Some(items@[i])
        } else {
            None
        },
        _ => None,
    }
}

/// The items of an array.
pub open spec fn array_items(v: JsonValue) -> Option<Seq<JsonValue>> {
    match v {
        JsonValue::Array(items) => Some(items@),
        _ => None,
    }
}

/// The number that `v` is, if it is one.
pub open spec fn number(v: JsonValue) -> Option<JsonNumber> {
    match v {
        JsonValue::Number(n) => Some(n),
        _ => None,
    }
}

/// The value of `v` as an unsigned integer: only non-negative integers have one.
pub open spec fn unsigned(v: JsonValue) -> Option<u64> {
    match v {
        JsonValue::Number(n) => match n.repr {
            NumberRepr::PosInt(u) => Some(u),
            _ => None,
        },
        _ => None,
    }
}

/// Option of a reference, as an option of the value.
pub open spec fn deref_opt(o: Option<&JsonValue>) -> Option<JsonValue> {
    match o {
        Some(v) => Some(*v),
        None => None,
    }
}

/// Whether two texts are equal.
pub fn text_eq(a: &str, b: &str) -> (r: bool)
    ensures
        r == (a@ == b@),
{
    a.to_owned() == b.to_owned()
}

impl JsonValue {
    /// The member named `key` of an object.
    pub fn get(&self, key: &str) -> (r: Option<&JsonValue>)
        ensures
            deref_opt(r) == json_get(*self, key@),
    {
        match self {
            JsonValue::Object(members) => {
                let n = members.len();
                let mut k: usize = 0;
                while k < n
                    invariant
                        n == members@.len(),
                        k <= n,
                        member(members@.take(k as int), key@) is None,
                        json_get(*self, key@) == member(members@, key@),
                    decreases n - k,
                {
                    proof {
                        assert(members@.take(k + 1).drop_last() =~= members@.take(k as int));
                    }
                    if text_eq(members[k].0.as_str(), key) {
                        proof {
                            lemma_member_prefix(members@, k + 1, key@);
                        }
                        return Some(&members[k].1);
                    }
                    k = k + 1;
                }
                assert(members@.take(n as int) =~= members@);
                None
            },
            _ => None,
        }
    }

    /// The item at position `i` of an array.
    pub fn at(&self, i: usize) -> (r: Option<&JsonValue>)
        ensures
            deref_opt(r) == json_at(*self, i as int),
    {
        match self {
            JsonValue::Array(items) => {
                if i < items.len() {
                    Some(&items[i])
                } else {
                    None
                }
            },
            _ => None,
        }
    }

    /// The items of an array.
    pub fn as_array(&self) -> (r: Option<&Vec<JsonValue>>)
        ensures
            match r {
                Some(items) => array_items(*self) == Some(items@),
                None => array_items(*self) is None,
            },
    {
        match self {
            JsonValue::Array(items) => Some(items),
            _ => None,
        }
    }

    /// The number that this value is, if it is one.
    pub fn as_number(&self) -> (r: Option<JsonNumber>)
        ensures
            r == number(*self),
    {
        match self {
            JsonValue::Number(n) => Some(*n),
            _ => None,
        }
    }

    /// The value as an unsigned integer, if it is a non-negative integer.
    pub fn as_u64(&self) -> (r: Option<u64>)
        ensures
            r == unsigned(*self),
    {
        match self {
            JsonValue::Number(n) => match n.repr {
                NumberRepr::PosInt(u) => Some(u),
                _ => None,
            },
            _ => None,
        }
    }
}

/// Once a key is found among the first members, later members do not change it.
proof fn lemma_member_prefix(members: Seq<(String, JsonValue)>, k: int, key: Seq<char>)
    requires
        0 < k <= members.len(),
        member(members.take(k - 1), key) is None,
        members[k - 1].0@ == key,
    ensures
        member(members, key) == Some(members[k - 1].1),
    decreases members.len() - k,
{
    assert(members.take(k).drop_last() =~= members.take(k - 1));
    if k < members.len() {
        lemma_member_prefix_extend(members, k, key);
    } else {
        assert(members.take(k) =~= members);
    }
}

proof fn lemma_member_prefix_extend(members: Seq<(String, JsonValue)>, k: int, key: Seq<char>)
    requires
        0 < k <= members.len(),
        member(members.take(k), key) is Some,
    ensures
        member(members, key) == member(members.take(k), key),
    decreases members.len() - k,
{
    if k < members.len() {
        assert(members.take(k + 1).drop_last() =~= members.take(k));
        lemma_member_prefix_extend(members, k + 1, key);
    } else {
        assert(members.take(k) =~= members);
    }
}

} // verus!
