//! Reading settings from a snapshot of the process environment.
use vstd::prelude::*;

use crate::json::text_eq;

verus! {

/// The value of the first variable of `vars` named `key`.
pub open spec fn var_value(vars: Seq<(String, String)>, key: Seq<char>) -> Option<Seq<char>>
    decreases vars.len(),
{
    if vars.len() == 0 {
        None
    } else {
        match var_value(vars.drop_last(), key) {
            Some(v) => Some(v),
            None => if vars.last().0@ == key {
                Some(vars.last().1@)
            } else {
                None
            },
        }
    }
}

/// The value of `key`, or `default` when it is not set.
pub open spec fn var_or(vars: Seq<(String, String)>, key: Seq<char>, default: Seq<char>) -> Seq<char> {
    match var_value(vars, key) {
        Some(v) => v,
        None => default,
    }
}

proof fn lemma_var_value_found(vars: Seq<(String, String)>, k: int, key: Seq<char>)
    requires
        0 < k <= vars.len(),
        var_value(vars.take(k), key) is Some,
    ensures
        var_value(vars, key) == var_value(vars.take(k), key),
    decreases vars.len() - k,
{
    if k < vars.len() {
        assert(vars.take(k + 1).drop_last() =~= vars.take(k));
        lemma_var_value_found(vars, k + 1, key);
    } else {
        assert(vars.take(k) =~= vars);
    }
}

/// The value of the variable `key` in the snapshot `vars`, if it is set.
pub fn lookup_var(vars: &Vec<(String, String)>, key: &str) -> (r: Option<String>)
    ensures
        match r {
            Some(v) => var_value(vars@, key@) == Some(v@),
            None => var_value(vars@, key@) is None,
        },
{
    let n = vars.len();
    let mut k: usize = 0;
    while k < n
        invariant
            n == vars@.len(),
            k <= n,
            var_value(vars@.take(k as int), key@) is None,
        decreases n - k,
    {
        assert(vars@.take(k + 1).drop_last() =~= vars@.take(k as int));
        if text_eq(vars[k].0.as_str(), key) {
            proof {
                lemma_var_value_found(vars@, k + 1, key@);
            }
            return Some(vars[k].1.clone());
        }
        k = k + 1;
    }
    assert(vars@.take(n as int) =~= vars@);
    None
}

/// The value of the variable `key`, or `default` when it is not set.
pub fn var_or_default(vars: &Vec<(String, String)>, key: &str, default: &str) -> (r: String)
    ensures
        r@ == var_or(vars@, key@, default@),
{
    match lookup_var(vars, key) {
        Some(v) => v,
        None => default.to_owned(),
    }
}

} // verus!
