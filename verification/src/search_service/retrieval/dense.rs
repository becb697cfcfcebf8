//! The answer of the dense embedding service: finding the embedding in the
//! shapes that such services use.
use vstd::prelude::*;

use crate::json::{array_items, json_at, json_get, number, JsonNumber, JsonValue};

verus! {

/// Why an embedding answer was refused: no known shape, or an item of the
/// embedding that is not a number.
#[derive(Debug)]
pub enum DenseFormatError<'a> {
    UnknownFormat,
    NotANumber(&'a JsonValue),
}

/// The items of the embedding in an answer, by the first shape that fits:
/// `{"data": [{"embedding": [..]}, ..]}`, then `{"embedding": [..]}`, then a
/// bare array whose first item is a number, then an array whose first item is
/// an array (that inner array).
pub open spec fn embedding_items(v: JsonValue) -> Option<Seq<JsonValue>> {
    let openai = match json_get(v, "data"@) {
        Some(d) => match json_at(d, 0) {
            Some(d0) => match json_get(d0, "embedding"@) {
                Some(e) => array_items(e),
                None => None,
            },
            None => None,
        },
        None => None,
    };
    let direct = match json_get(v, "embedding"@) {
        Some(e) => array_items(e),
        None => None,
    };
    if openai is Some {
        openai
    } else if direct is Some {
        direct
    } else {
        match v {
            JsonValue::Array(arr) => if arr@.len() > 0 && number(arr@[0]) is Some {
                Some(arr@)
            } else if arr@.len() > 0 {
                array_items(arr@[0])
            } else {
                None
            },
            _ => None,
        }
    }
}

/// The numbers of `items`, or the first item that is not a number.
pub open spec fn numbers_of(items: Seq<JsonValue>) -> Result<Seq<JsonNumber>, JsonValue>
    decreases items.len(),
{
    if items.len() == 0 {
        Ok(Seq::empty())
    } else {
        match numbers_of(items.drop_last()) {
            Err(bad) => Err(bad),
            Ok(ns) => match number(items.last()) {
                Some(n) => Ok(ns.push(n)),
                None => Err(items.last()),
            },
        }
    }
}

/// The numbers of an array, or the first item that is not a number.
fn numbers_in<'a>(items: &'a Vec<JsonValue>) -> (r: Result<Vec<JsonNumber>, &'a JsonValue>)
    ensures
        match numbers_of(items@) {
            Ok(ns) => r matches Ok(xs) && xs@ == ns,
            Err(bad) => r matches Err(b) && *b == bad,
        },
{
    let mut out: Vec<JsonNumber> = Vec::new();
    let n = items.len();
    let mut i: usize = 0;
    while i < n
        invariant
            n == items@.len(),
            i <= n,
            numbers_of(items@.take(i as int)) == Ok::<Seq<JsonNumber>, JsonValue>(out@),
        decreases n - i,
    {
        assert(items@.take(i + 1).drop_last() =~= items@.take(i as int));
        match items[i].as_number() {
            Some(x) => {
                out.push(x);
            },
            None => {
                proof {
                    lemma_numbers_of_error_stays(items@, i + 1);
                }
                return Err(&items[i]);
            },
        }
        i = i + 1;
    }
    assert(items@.take(n as int) =~= items@);
    Ok(out)
}

/// An error among the first items is the error of the whole.
proof fn lemma_numbers_of_error_stays(items: Seq<JsonValue>, k: int)
    requires
        0 <= k <= items.len(),
        numbers_of(items.take(k)) is Err,
    ensures
        numbers_of(items) == numbers_of(items.take(k)),
    decreases items.len() - k,
{
    if k < items.len() {
        assert(items.take(k + 1).drop_last() =~= items.take(k));
        lemma_numbers_of_error_stays(items, k + 1);
    } else {
        assert(items.take(k) =~= items);
    }
}

/// The numbers of the embedding in an answer of the dense embedding service.
pub fn parse_embedding(v: &JsonValue) -> (r: Result<Vec<JsonNumber>, DenseFormatError<'_>>)
    ensures
        match embedding_items(*v) {
            None => r matches Err(DenseFormatError::UnknownFormat),
            Some(items) => match numbers_of(items) {
                Ok(ns) => r matches Ok(xs) && xs@ == ns,
                Err(bad) => r matches Err(DenseFormatError::NotANumber(b)) && *b == bad,
            },
        },
{
    if let Some(d) = v.get("data") {
        if let Some(d0) = d.at(0) {
            if let Some(e) = d0.get("embedding") {
                if let Some(arr) = e.as_array() {
                    return match numbers_in(arr) {
                        Ok(xs) => Ok(xs),
                        Err(b) => Err(DenseFormatError::NotANumber(b)),
                    };
                }
            }
        }
    }
    if let Some(e) = v.get("embedding") {
        if let Some(arr) = e.as_array() {
            return match numbers_in(arr) {
                Ok(xs) => Ok(xs),
                Err(b) => Err(DenseFormatError::NotANumber(b)),
            };
        }
    }
    if let Some(arr) = v.as_array() {
        if arr.len() > 0 && arr[0].as_number().is_some() {
            return match numbers_in(arr) {
                Ok(xs) => Ok(xs),
                Err(b) => Err(DenseFormatError::NotANumber(b)),
            };
        }
        if arr.len() > 0 {
            if let Some(inner) = arr[0].as_array() {
                return match numbers_in(inner) {
                    Ok(xs) => Ok(xs),
                    Err(b) => Err(DenseFormatError::NotANumber(b)),
                };
            }
        }
    }
    Err(DenseFormatError::UnknownFormat)
}

} // verus!
