//! The answer of the reranker: the order in which to take the candidates.
use vstd::prelude::*;

use crate::json::{array_items, json_get, number, unsigned, JsonValue, ZERO_RANK};

verus! {

/// `x` put into `sorted` after every entry whose rank is at least its own.
pub open spec fn insert_desc(sorted: Seq<(usize, u64)>, x: (usize, u64)) -> Seq<(usize, u64)>
    decreases sorted.len(),
{
    if sorted.len() == 0 {
        seq![x]
    } else if sorted[0].1 < x.1 {
        seq![x] + sorted
    } else {
        seq![sorted[0]] + insert_desc(sorted.drop_first(), x)
    }
}

/// `s` sorted by rank, highest first; entries of equal rank keep their order.
pub open spec fn sort_desc(s: Seq<(usize, u64)>) -> Seq<(usize, u64)>
    decreases s.len(),
{
    if s.len() == 0 {
        Seq::empty()
    } else {
        insert_desc(sort_desc(s.drop_last()), s.last())
    }
}

/// Whether the ranks of `s` never increase.
pub open spec fn is_desc(s: Seq<(usize, u64)>) -> bool {
    forall|i: int, j: int| 0 <= i < j < s.len() ==> s[i].1 >= s[j].1
}

/// The positions of a list of (position, rank) entries.
pub open spec fn positions(s: Seq<(usize, u64)>) -> Seq<usize> {
    s.map_values(|p: (usize, u64)| p.0)
}

proof fn lemma_insert_at(s: Seq<(usize, u64)>, x: (usize, u64), p: int)
    requires
        0 <= p <= s.len(),
        forall|i: int| 0 <= i < p ==> s[i].1 >= x.1,
        p < s.len() ==> s[p].1 < x.1,
    ensures
        insert_desc(s, x) == s.take(p).push(x) + s.skip(p),
    decreases p,
{
    if p == 0 {
        if s.len() == 0 {
            assert(s.take(0).push(x) + s.skip(0) =~= seq![x]);
        } else {
            assert(s.take(0).push(x) + s.skip(0) =~= seq![x] + s);
        }
    } else {
        let t = s.drop_first();
        lemma_insert_at(t, x, p - 1);
        assert(s.take(p).push(x) + s.skip(p) =~= seq![s[0]] + (t.take(p - 1).push(x) + t.skip(
            p - 1,
        )));
    }
}

/// Puts `x` into `v` after every entry whose rank is at least its own.
fn insert_by_rank(v: &mut Vec<(usize, u64)>, x: (usize, u64))
    ensures
        final(v)@ == insert_desc(old(v)@, x),
{
    let n = v.len();
    let mut p: usize = 0;
    while p < n && v[p].1 >= x.1
        invariant
            n == v@.len(),
            p <= n,
            forall|i: int| 0 <= i < p ==> v@[i].1 >= x.1,
        decreases n - p,
    {
        p = p + 1;
    }
    proof {
        lemma_insert_at(v@, x, p as int);
        assert(v@.insert(p as int, x) =~= v@.take(p as int).push(x) + v@.skip(p as int));
    }
    v.insert(p, x);
}

/// The entries of `pairs` by rank, highest first, equal ranks in their order.
pub fn sort_by_rank_desc(pairs: &Vec<(usize, u64)>) -> (r: Vec<(usize, u64)>)
    ensures
        r@ == sort_desc(pairs@),
{
    let mut out: Vec<(usize, u64)> = Vec::new();
    let n = pairs.len();
    let mut i: usize = 0;
    while i < n
        invariant
            n == pairs@.len(),
            i <= n,
            out@ == sort_desc(pairs@.take(i as int)),
        decreases n - i,
    {
        assert(pairs@.take(i + 1).drop_last() =~= pairs@.take(i as int));
        insert_by_rank(&mut out, pairs[i]);
        i = i + 1;
    }
    assert(pairs@.take(n as int) =~= pairs@);
    out
}

/// The index that an entry of a reranker answer names, if it names a
/// non-negative integer one.
pub open spec fn entry_index(r: JsonValue) -> Option<u64> {
    match json_get(r, "index"@) {
        Some(x) => unsigned(x),
        None => None,
    }
}

/// The rank of a score: that of the number, zero's for anything else.
pub open spec fn score_rank(v: Option<JsonValue>) -> u64 {
    match v {
        Some(x) => match number(x) {
            Some(n) => n.rank,
            None => ZERO_RANK,
        },
        None => ZERO_RANK,
    }
}

/// The (index, score rank) of each entry of `arr` that names an index below `n`.
pub open spec fn scored_entries(arr: Seq<JsonValue>, n: nat) -> Seq<(usize, u64)>
    decreases arr.len(),
{
    if arr.len() == 0 {
        Seq::empty()
    } else {
        let prefix = scored_entries(arr.drop_last(), n);
        match entry_index(arr.last()) {
            Some(i) => if i < n {
                prefix.push((i as usize, score_rank(json_get(arr.last(), "score"@))))
            } else {
                prefix
            },
            None => prefix,
        }
    }
}

/// Whether some entry of `arr` has a `score` member.
pub open spec fn any_scored(arr: Seq<JsonValue>) -> bool {
    exists|k: int| 0 <= k < arr.len() && (#[trigger] json_get(arr[k], "score"@)) is Some
}

/// Position `i` with the rank of the `i`-th score.
pub open spec fn parallel_scores(arr: Seq<JsonValue>) -> Seq<(usize, u64)> {
    Seq::new(arr.len(), |i: int| (i as usize, score_rank(Some(arr[i]))))
}

/// The non-negative integers of `arr` that are below `n`.
pub open spec fn raw_indices(arr: Seq<JsonValue>, n: nat) -> Seq<usize>
    decreases arr.len(),
{
    if arr.len() == 0 {
        Seq::empty()
    } else {
        let prefix = raw_indices(arr.drop_last(), n);
        match unsigned(arr.last()) {
            Some(i) => if i < n {
                prefix.push(i as usize)
            } else {
                prefix
            },
            None => prefix,
        }
    }
}

/// The positions `0, 1, .., n - 1`.
pub open spec fn identity(n: nat) -> Seq<usize> {
    Seq::new(n, |i: int| i as usize)
}

/// `s` with every index that already occurred dropped: each index at its first place.
pub open spec fn first_occurrences(s: Seq<usize>) -> Seq<usize>
    decreases s.len(),
{
    if s.len() == 0 {
        Seq::empty()
    } else {
        let d = first_occurrences(s.drop_last());
        if d.contains(s.last()) {
            d
        } else {
            d.push(s.last())
        }
    }
}

/// Shape 1: `{"results": [{"index": i, "score": s}, ..]}`; sorted by score when
/// any entry has one; fits when some entry names an index below `n`. An index
/// named again is taken only once.
pub open spec fn from_results(resp: JsonValue, n: nat) -> Option<Seq<usize>> {
    match json_get(resp, "results"@) {
        Some(r) => match array_items(r) {
            Some(arr) => {
                let pairs = scored_entries(arr, n);
                if pairs.len() > 0 {
                    if any_scored(arr) {
                        Some(first_occurrences(positions(sort_desc(pairs))))
                    } else {
                        Some(first_occurrences(positions(pairs)))
                    }
                } else {
                    None
                }
            },
            None => None,
        },
        None => None,
    }
}

/// Shape 2: `{"scores": [s0, s1, ..]}` with one score per candidate.
pub open spec fn from_scores(resp: JsonValue, n: nat) -> Option<Seq<usize>> {
    match json_get(resp, "scores"@) {
        Some(s) => match array_items(s) {
            Some(arr) => if arr.len() == n {
                Some(positions(sort_desc(parallel_scores(arr))))
            } else {
                None
            },
            None => None,
        },
        None => None,
    }
}

/// Shape 3: a bare array of `{"index": i, "score": s}`, sorted by score; an
/// index named again is taken only once.
pub open spec fn from_entries(resp: JsonValue, n: nat) -> Option<Seq<usize>> {
    match array_items(resp) {
        Some(arr) => {
            let pairs = scored_entries(arr, n);
            if pairs.len() > 0 {
                Some(first_occurrences(positions(sort_desc(pairs))))
            } else {
                None
            }
        },
        None => None,
    }
}

/// Shape 4: a bare array of indices, all below `n`; an index named again is
/// taken only once.
pub open spec fn from_indices(resp: JsonValue, n: nat) -> Option<Seq<usize>> {
    match array_items(resp) {
        Some(arr) => {
            let idxs = raw_indices(arr, n);
            if idxs.len() == arr.len() && idxs.len() > 0 {
                Some(first_occurrences(idxs))
            } else {
                None
            }
        },
        None => None,
    }
}

/// The candidate order that a reranker answer gives for `n` candidates: by the
/// first shape that fits, else the retrieval order.
pub open spec fn rerank_order(resp: JsonValue, n: nat) -> Seq<usize> {
    if from_results(resp, n) is Some {
        from_results(resp, n).unwrap()
    } else if from_scores(resp, n) is Some {
        from_scores(resp, n).unwrap()
    } else if from_entries(resp, n) is Some {
        from_entries(resp, n).unwrap()
    } else if from_indices(resp, n) is Some {
        from_indices(resp, n).unwrap()
    } else {
        identity(n)
    }
}

fn score_rank_of(v: Option<&JsonValue>) -> (r: u64)
    ensures
        r == score_rank(match v {
            Some(x) => Some(*x),
            None => None,
        }),
{
    match v {
        Some(x) => match x.as_number() {
            Some(num) => num.rank,
            None => ZERO_RANK,
        },
        None => ZERO_RANK,
    }
}

fn collect_scored(arr: &Vec<JsonValue>, n: usize) -> (r: Vec<(usize, u64)>)
    ensures
        r@ == scored_entries(arr@, n as nat),
{
    let mut out: Vec<(usize, u64)> = Vec::new();
    let len = arr.len();
    let mut k: usize = 0;
    while k < len
        invariant
            len == arr@.len(),
            k <= len,
            out@ == scored_entries(arr@.take(k as int), n as nat),
        decreases len - k,
    {
        assert(arr@.take(k + 1).drop_last() =~= arr@.take(k as int));
        let entry = &arr[k];
        let idx = match entry.get("index") {
            Some(x) => x.as_u64(),
            None => None,
        };
        match idx {
            Some(i) => {
                if i < n as u64 {
                    out.push((i as usize, score_rank_of(entry.get("score"))));
                }
            },
            None => {},
        }
        k = k + 1;
    }
    assert(arr@.take(len as int) =~= arr@);
    out
}

fn has_any_score(arr: &Vec<JsonValue>) -> (r: bool)
    ensures
        r == any_scored(arr@),
{
    let len = arr.len();
    let mut k: usize = 0;
    while k < len
        invariant
            len == arr@.len(),
            k <= len,
            forall|j: int| 0 <= j < k ==> (#[trigger] json_get(arr@[j], "score"@)) is None,
        decreases len - k,
    {
        if arr[k].get("score").is_some() {
            return true;
        }
        k = k + 1;
    }
    false
}

fn indices_of(pairs: &Vec<(usize, u64)>) -> (r: Vec<usize>)
    ensures
        r@ == positions(pairs@),
{
    let mut out: Vec<usize> = Vec::new();
    let len = pairs.len();
    let mut k: usize = 0;
    while k < len
        invariant
            len == pairs@.len(),
            k <= len,
            out@ =~= positions(pairs@.take(k as int)),
        decreases len - k,
    {
        out.push(pairs[k].0);
        k = k + 1;
    }
    assert(pairs@.take(len as int) =~= pairs@);
    out
}

fn identity_order(n: usize) -> (r: Vec<usize>)
    ensures
        r@ == identity(n as nat),
{
    let mut out: Vec<usize> = Vec::new();
    let mut k: usize = 0;
    while k < n
        invariant
            k <= n,
            out@ =~= identity(k as nat),
        decreases n - k,
    {
        out.push(k);
        k = k + 1;
    }
    out
}

fn parallel_ranks(arr: &Vec<JsonValue>) -> (r: Vec<(usize, u64)>)
    ensures
        r@ == parallel_scores(arr@),
{
    let mut out: Vec<(usize, u64)> = Vec::new();
    let len = arr.len();
    let mut k: usize = 0;
    while k < len
        invariant
            len == arr@.len(),
            k <= len,
            out@ =~= parallel_scores(arr@.take(k as int)),
        decreases len - k,
    {
        out.push((k, score_rank_of(Some(&arr[k]))));
        k = k + 1;
    }
    assert(arr@.take(len as int) =~= arr@);
    out
}

fn collect_raw_indices(arr: &Vec<JsonValue>, n: usize) -> (r: Vec<usize>)
    ensures
        r@ == raw_indices(arr@, n as nat),
{
    let mut out: Vec<usize> = Vec::new();
    let len = arr.len();
    let mut k: usize = 0;
    while k < len
        invariant
            len == arr@.len(),
            k <= len,
            out@ == raw_indices(arr@.take(k as int), n as nat),
        decreases len - k,
    {
        assert(arr@.take(k + 1).drop_last() =~= arr@.take(k as int));
        match arr[k].as_u64() {
            Some(i) => {
                if i < n as u64 {
                    out.push(i as usize);
                }
            },
            None => {},
        }
        k = k + 1;
    }
    assert(arr@.take(len as int) =~= arr@);
    out
}

/// `v` without the indices that already occurred earlier in it.
fn drop_repeats(v: &Vec<usize>) -> (r: Vec<usize>)
    ensures
        r@ == first_occurrences(v@),
{
    let mut out: Vec<usize> = Vec::new();
    let n = v.len();
    let mut i: usize = 0;
    while i < n
        invariant
            n == v@.len(),
            i <= n,
            out@ == first_occurrences(v@.take(i as int)),
        decreases n - i,
    {
        assert(v@.take(i + 1).drop_last() =~= v@.take(i as int));
        let x = v[i];
        let mut seen = false;
        let mut k: usize = 0;
        while k < out.len()
            invariant
                k <= out@.len(),
                seen == (exists|j: int| 0 <= j < k && out@[j] == x),
            decreases out@.len() - k,
        {
            if out[k] == x {
                seen = true;
            }
            k = k + 1;
        }
        if !seen {
            out.push(x);
        }
        i = i + 1;
    }
    assert(v@.take(n as int) =~= v@);
    out
}

/// Given `n` candidates in retrieval order, the order in which to take
/// the candidates according to the reranker's answer `resp`; the retrieval order
/// when the answer has no known shape.
pub fn parse_rerank_order(resp: &JsonValue, n: usize) -> (r: Vec<usize>)
    ensures
        r@ == rerank_order(*resp, n as nat),
        r@.no_duplicates(),
        forall|i: int| 0 <= i < r@.len() ==> (#[trigger] r@[i]) < n,
{
    proof {
        lemma_rerank_order_distinct(*resp, n as nat);
        lemma_rerank_order_in_range(*resp, n as nat);
    }
    if let Some(res) = resp.get("results") {
        if let Some(arr) = res.as_array() {
            let pairs = collect_scored(arr, n);
            let ordered = if has_any_score(arr) {
                sort_by_rank_desc(&pairs)
            } else {
                pairs
            };
            proof {
                lemma_sort_desc_len(scored_entries(arr@, n as nat));
            }
            if ordered.len() > 0 {
                return drop_repeats(&indices_of(&ordered));
            }
        }
    }
    assert(from_results(*resp, n as nat) is None);
    if let Some(sc) = resp.get("scores") {
        if let Some(arr) = sc.as_array() {
            if arr.len() == n {
                let pairs = parallel_ranks(arr);
                let ordered = sort_by_rank_desc(&pairs);
                return indices_of(&ordered);
            }
        }
    }
    assert(from_scores(*resp, n as nat) is None);
    if let Some(arr) = resp.as_array() {
        let pairs = collect_scored(arr, n);
        if pairs.len() > 0 {
            let ordered = sort_by_rank_desc(&pairs);
            return drop_repeats(&indices_of(&ordered));
        }
    }
    assert(from_entries(*resp, n as nat) is None);
    if let Some(arr) = resp.as_array() {
        let idxs = collect_raw_indices(arr, n);
        if idxs.len() == arr.len() && idxs.len() > 0 {
            return drop_repeats(&idxs);
        }
    }
    identity_order(n)
}

/// The candidate order for `n` candidates given what the reranker answered:
/// the order its answer gives, or the retrieval order when there is no answer
/// (the request failed, the status was not a success, or the body was not JSON).
pub fn order_from_reply(reply: Option<&JsonValue>, n: usize) -> (r: Vec<usize>)
    ensures
        match reply {
            Some(v) => r@ == rerank_order(*v, n as nat),
            None => r@ == identity(n as nat),
        },
        r@.no_duplicates(),
        forall|i: int| 0 <= i < r@.len() ==> (#[trigger] r@[i]) < n,
{
    match reply {
        Some(v) => parse_rerank_order(v, n),
        None => {
            proof {
                lemma_identity_distinct(n as nat);
            }
            identity_order(n)
        },
    }
}

/// Where `insert_desc` puts `x`: after every leading entry whose rank is at
/// least its own.
pub open spec fn insert_pos(s: Seq<(usize, u64)>, x: (usize, u64)) -> int
    decreases s.len(),
{
    if s.len() == 0 || s[0].1 < x.1 {
        0
    } else {
        1 + insert_pos(s.drop_first(), x)
    }
}

proof fn lemma_insert_desc_is_insert(s: Seq<(usize, u64)>, x: (usize, u64))
    ensures
        0 <= insert_pos(s, x) <= s.len(),
        insert_desc(s, x) == s.insert(insert_pos(s, x), x),
    decreases s.len(),
{
    if s.len() == 0 {
        assert(s.insert(0, x) =~= seq![x]);
    } else if s[0].1 < x.1 {
        assert(s.insert(0, x) =~= seq![x] + s);
    } else {
        let t = s.drop_first();
        lemma_insert_desc_is_insert(t, x);
        assert(s.insert(insert_pos(s, x), x) =~= seq![s[0]] + t.insert(insert_pos(t, x), x));
    }
}

/// Sorting neither adds nor drops entries: the result is a rearrangement.
pub proof fn lemma_sort_desc_permutes(s: Seq<(usize, u64)>)
    ensures
        sort_desc(s).to_multiset() == s.to_multiset(),
    decreases s.len(),
{
    broadcast use vstd::seq_lib::group_to_multiset_ensures;

    if s.len() == 0 {
    } else {
        let rest = sort_desc(s.drop_last());
        lemma_sort_desc_permutes(s.drop_last());
        lemma_insert_desc_is_insert(rest, s.last());
        assert(s.drop_last().push(s.last()) =~= s);
    }
}

/// The positions of a rearrangement are a rearrangement of the positions.
pub proof fn lemma_sort_desc_permutes_positions(s: Seq<(usize, u64)>)
    ensures
        positions(sort_desc(s)).to_multiset() == positions(s).to_multiset(),
    decreases s.len(),
{
    broadcast use vstd::seq_lib::group_to_multiset_ensures;

    if s.len() == 0 {
    } else {
        let rest = sort_desc(s.drop_last());
        lemma_sort_desc_permutes_positions(s.drop_last());
        lemma_insert_desc_is_insert(rest, s.last());
        let p = insert_pos(rest, s.last());
        assert(positions(rest.insert(p, s.last())) =~= positions(rest).insert(p, s.last().0));
        assert(positions(s) =~= positions(s.drop_last()).push(s.last().0));
    }
}

proof fn lemma_insert_desc_sorted(s: Seq<(usize, u64)>, x: (usize, u64))
    requires
        is_desc(s),
    ensures
        is_desc(insert_desc(s, x)),
        insert_desc(s, x).len() == s.len() + 1,
        forall|i: int| 0 <= i < insert_desc(s, x).len() ==> (#[trigger] insert_desc(s, x)[i]) == x
            || s.contains(insert_desc(s, x)[i]),
    decreases s.len(),
{
    if s.len() == 0 {
    } else if s[0].1 < x.1 {
        let r = seq![x] + s;
        assert forall|i: int| 0 <= i < r.len() implies r[i] == x || s.contains(r[i]) by {
            if i > 0 {
                assert(r[i] == s[i - 1]);
            }
        }
    } else {
        let t = s.drop_first();
        assert(is_desc(t)) by {
            assert forall|i: int, j: int| 0 <= i < j < t.len() implies t[i].1 >= t[j].1 by {
                assert(t[i] == s[i + 1] && t[j] == s[j + 1]);
            }
        }
        lemma_insert_desc_sorted(t, x);
        let it = insert_desc(t, x);
        let r = seq![s[0]] + it;
        assert forall|i: int| 0 <= i < r.len() implies r[i] == x || s.contains(r[i]) by {
            if i > 0 {
                assert(r[i] == it[i - 1]);
                if it[i - 1] != x {
                    let k = choose|k: int| 0 <= k < t.len() && t[k] == it[i - 1];
                    assert(s[k + 1] == t[k]);
                }
            } else {
                assert(s[0] == r[0]);
            }
        }
        assert forall|i: int, j: int| 0 <= i < j < r.len() implies r[i].1 >= r[j].1 by {
            if i == 0 {
                assert(r[j] == it[j - 1]);
                if it[j - 1] == x {
                } else {
                    let k = choose|k: int| 0 <= k < t.len() && t[k] == it[j - 1];
                    assert(s[k + 1] == t[k]);
                }
            } else {
                assert(r[i] == it[i - 1] && r[j] == it[j - 1]);
            }
        }
    }
}

/// Sorting puts the entries in order of rank, highest first.
pub proof fn lemma_sort_desc_sorted(s: Seq<(usize, u64)>)
    ensures
        is_desc(sort_desc(s)),
    decreases s.len(),
{
    if s.len() > 0 {
        lemma_sort_desc_sorted(s.drop_last());
        lemma_insert_desc_sorted(sort_desc(s.drop_last()), s.last());
    }
}

proof fn lemma_scored_entries_in_range(arr: Seq<JsonValue>, n: nat)
    requires
        n <= usize::MAX,
    ensures
        forall|i: int| 0 <= i < scored_entries(arr, n).len() ==> (#[trigger] scored_entries(arr, n)[i]).0 < n,
    decreases arr.len(),
{
    if arr.len() > 0 {
        lemma_scored_entries_in_range(arr.drop_last(), n);
        let prefix = scored_entries(arr.drop_last(), n);
        let whole = scored_entries(arr, n);
        assert forall|i: int| 0 <= i < whole.len() implies (#[trigger] whole[i]).0 < n by {
            if i < prefix.len() {
                assert(whole[i] == prefix[i]);
            } else {
                let k = entry_index(arr.last()).unwrap();
                assert(k < n);
                assert(whole[i].0 == k as usize);
            }
        }
    }
}

proof fn lemma_raw_indices_in_range(arr: Seq<JsonValue>, n: nat)
    requires
        n <= usize::MAX,
    ensures
        forall|i: int| 0 <= i < raw_indices(arr, n).len() ==> (#[trigger] raw_indices(arr, n)[i]) < n,
    decreases arr.len(),
{
    if arr.len() > 0 {
        lemma_raw_indices_in_range(arr.drop_last(), n);
        let prefix = raw_indices(arr.drop_last(), n);
        let whole = raw_indices(arr, n);
        assert forall|i: int| 0 <= i < whole.len() implies (#[trigger] whole[i]) < n by {
            if i < prefix.len() {
                assert(whole[i] == prefix[i]);
            } else {
                let k = unsigned(arr.last()).unwrap();
                assert(k < n);
                assert(whole[i] == k as usize);
            }
        }
    }
}

/// Dropping repeated indices leaves none twice, keeps every index, and adds none.
pub proof fn lemma_first_occurrences(s: Seq<usize>)
    ensures
        first_occurrences(s).no_duplicates(),
        forall|x: usize| first_occurrences(s).contains(x) <==> s.contains(x),
    decreases s.len(),
{
    if s.len() > 0 {
        let t = s.drop_last();
        lemma_first_occurrences(t);
        let d = first_occurrences(t);
        assert forall|x: usize| first_occurrences(s).contains(x) <==> s.contains(x) by {
            if s.contains(x) && x != s.last() {
                let k = choose|k: int| 0 <= k < s.len() && s[k] == x;
                assert(t[k] == x);
            }
            if t.contains(x) {
                let k = choose|k: int| 0 <= k < t.len() && t[k] == x;
                assert(s[k] == x);
            }
            if d.push(s.last()).contains(x) && x != s.last() {
                let k = choose|k: int| 0 <= k < d.push(s.last()).len() && d.push(s.last())[k] == x;
                assert(d[k] == x);
            }
            if d.contains(x) {
                let k = choose|k: int| 0 <= k < d.len() && d[k] == x;
                assert(d.push(s.last())[k] == x);
            }
            assert(s[s.len() - 1] == s.last());
            assert(d.push(s.last())[d.len() as int] == s.last());
        }
        if !d.contains(s.last()) {
            let e = d.push(s.last());
            assert forall|i: int, j: int| 0 <= i < e.len() && 0 <= j < e.len() && i != j implies e[i] != e[j] by {
                if i < d.len() && j < d.len() {
                } else if i == d.len() {
                    assert(d[j] == e[j]);
                } else {
                    assert(d[i] == e[i]);
                }
            }
        }
    }
}

/// The positions `0, .., n - 1` are distinct.
proof fn lemma_identity_distinct(n: nat)
    requires
        n <= usize::MAX,
    ensures
        identity(n).no_duplicates(),
{
    assert forall|i: int, j: int| 0 <= i < identity(n).len() && 0 <= j < identity(n).len() && i != j implies identity(n)[i] != identity(n)[j] by {
        assert(identity(n)[i] == i as usize);
        assert(identity(n)[j] == j as usize);
    }
}

/// The order that a reranker answer gives names no candidate twice.
pub proof fn lemma_rerank_order_distinct(resp: JsonValue, n: nat)
    requires
        n <= usize::MAX,
    ensures
        rerank_order(resp, n).no_duplicates(),
{
    match json_get(resp, "results"@) {
        Some(r) => match array_items(r) {
            Some(arr) => {
                lemma_first_occurrences(positions(sort_desc(scored_entries(arr, n))));
                lemma_first_occurrences(positions(scored_entries(arr, n)));
            },
            None => {},
        },
        None => {},
    }
    match array_items(resp) {
        Some(arr) => {
            lemma_first_occurrences(positions(sort_desc(scored_entries(arr, n))));
            lemma_first_occurrences(raw_indices(arr, n));
        },
        None => {},
    }
    lemma_identity_distinct(n);
    if from_results(resp, n) is None && from_scores(resp, n) is Some {
        lemma_scores_order_is_permutation(resp, n);
        let r = rerank_order(resp, n);
        identity(n).lemma_multiset_has_no_duplicates();
        assert forall|x: usize| r.to_multiset().contains(x) implies r.to_multiset().count(x) == 1 by {
            assert(identity(n).to_multiset().contains(x));
        }
        r.lemma_multiset_has_no_duplicates_conv();
    }
}

proof fn lemma_sorted_positions_in_range(p: Seq<(usize, u64)>, n: nat)
    requires
        forall|i: int| 0 <= i < p.len() ==> (#[trigger] p[i]).0 < n,
    ensures
        forall|i: int| 0 <= i < positions(sort_desc(p)).len() ==> (#[trigger] positions(sort_desc(p))[i]) < n,
{
    broadcast use vstd::seq_lib::group_to_multiset_ensures;

    lemma_sort_desc_permutes_positions(p);
    assert forall|i: int| 0 <= i < positions(sort_desc(p)).len() implies (#[trigger] positions(sort_desc(p))[i]) < n by {
        let x = positions(sort_desc(p))[i];
        assert(positions(sort_desc(p)).contains(x));
        assert(positions(sort_desc(p)).to_multiset().count(x) > 0);
        assert(positions(p).contains(x));
        let k = choose|k: int| 0 <= k < positions(p).len() && positions(p)[k] == x;
        assert(p[k].0 == x);
    }
}

proof fn lemma_first_occurrences_in_range(s: Seq<usize>, n: nat)
    requires
        forall|i: int| 0 <= i < s.len() ==> (#[trigger] s[i]) < n,
    ensures
        forall|i: int| 0 <= i < first_occurrences(s).len() ==> (#[trigger] first_occurrences(s)[i]) < n,
{
    lemma_first_occurrences(s);
    assert forall|i: int| 0 <= i < first_occurrences(s).len() implies (#[trigger] first_occurrences(s)[i]) < n by {
        let x = first_occurrences(s)[i];
        assert(first_occurrences(s)[i] == x);
        assert(first_occurrences(s).contains(x));
        assert(s.contains(x));
        let k = choose|k: int| 0 <= k < s.len() && s[k] == x;
        assert(s[k] < n);
    }
}

/// Every position in the order that a reranker answer gives for `n`
/// candidates names one of them.
pub proof fn lemma_rerank_order_in_range(resp: JsonValue, n: nat)
    requires
        n <= usize::MAX,
    ensures
        forall|i: int| 0 <= i < rerank_order(resp, n).len() ==> (#[trigger] rerank_order(resp, n)[i]) < n,
{
    match array_items(resp) {
        Some(arr) => {
            lemma_scored_entries_in_range(arr, n);
            lemma_sorted_positions_in_range(scored_entries(arr, n), n);
            lemma_raw_indices_in_range(arr, n);
            lemma_first_occurrences_in_range(positions(sort_desc(scored_entries(arr, n))), n);
            lemma_first_occurrences_in_range(raw_indices(arr, n), n);
        },
        None => {},
    }
    match json_get(resp, "results"@) {
        Some(r) => match array_items(r) {
            Some(arr) => {
                lemma_scored_entries_in_range(arr, n);
                lemma_sorted_positions_in_range(scored_entries(arr, n), n);
                lemma_first_occurrences_in_range(positions(sort_desc(scored_entries(arr, n))), n);
                assert forall|i: int| 0 <= i < positions(scored_entries(arr, n)).len() implies (#[trigger] positions(scored_entries(arr, n))[i]) < n by {
                    assert(positions(scored_entries(arr, n))[i] == scored_entries(arr, n)[i].0);
                }
                lemma_first_occurrences_in_range(positions(scored_entries(arr, n)), n);
            },
            None => {},
        },
        None => {},
    }
    match json_get(resp, "scores"@) {
        Some(sc) => match array_items(sc) {
            Some(arr) => {
                assert forall|i: int| 0 <= i < parallel_scores(arr).len() implies (#[trigger] parallel_scores(arr)[i]).0 < arr.len() by {}
                if arr.len() == n {
                    lemma_sorted_positions_in_range(parallel_scores(arr), arr.len());
                }
            },
            None => {},
        },
        None => {},
    }
}

/// When the reranker answers with one score per candidate (and not with a
/// `results` list that names a candidate), the order is a rearrangement of all
/// `n` candidates.
pub proof fn lemma_scores_order_is_permutation(resp: JsonValue, n: nat)
    requires
        from_results(resp, n) is None,
        from_scores(resp, n) is Some,
    ensures
        rerank_order(resp, n).to_multiset() == identity(n).to_multiset(),
{
    let arr = array_items(json_get(resp, "scores"@).unwrap()).unwrap();
    lemma_sort_desc_permutes_positions(parallel_scores(arr));
    assert(positions(parallel_scores(arr)) =~= identity(n));
}

/// The rank of the score at position `i` of a `scores` list.
pub open spec fn score_at(arr: Seq<JsonValue>, i: int) -> u64 {
    score_rank(Some(arr[i]))
}

/// Positions `k` and `k + 1` of `r` are in score order: a higher score first,
/// or equal scores with the smaller position first.
pub open spec fn in_score_order(arr: Seq<JsonValue>, r: Seq<usize>, k: int) -> bool {
    ||| score_at(arr, r[k] as int) > score_at(arr, r[k + 1] as int)
    ||| score_at(arr, r[k] as int) == score_at(arr, r[k + 1] as int) && r[k] < r[k + 1]
}

/// When the reranker answers with one score per candidate (and not with a
/// `results` list that names a candidate), the order is a rearrangement of all
/// `n` candidates, by score highest first, candidates of equal score in their
/// retrieval order.
pub proof fn lemma_scores_order(resp: JsonValue, n: nat)
    requires
        n <= usize::MAX,
        from_results(resp, n) is None,
        from_scores(resp, n) is Some,
    ensures
        ({
            let arr = array_items(json_get(resp, "scores"@).unwrap()).unwrap();
            let r = rerank_order(resp, n);
            &&& r.to_multiset() == identity(n).to_multiset()
            &&& forall|k: int| 0 <= k < r.len() - 1 ==> #[trigger] in_score_order(arr, r, k)
        }),
{
    broadcast use vstd::seq_lib::group_to_multiset_ensures;

    let arr = array_items(json_get(resp, "scores"@).unwrap()).unwrap();
    let p = parallel_scores(arr);
    let srt = sort_desc(p);
    let r = rerank_order(resp, n);
    assert(r == positions(srt));
    lemma_scores_order_is_permutation(resp, n);
    lemma_sort_desc_permutes(p);
    lemma_sort_desc_sorted(p);
    lemma_sort_desc_len(p);
    lemma_rerank_order_distinct(resp, n);
    assert forall|k: int| 0 <= k < srt.len() implies (#[trigger] srt[k]).1 == score_at(arr, srt[k].0 as int)
        && srt[k].0 < n && p[srt[k].0 as int] == srt[k] by {
        assert(srt.contains(srt[k]));
        assert(srt.to_multiset().count(srt[k]) > 0);
        assert(p.contains(srt[k]));
        let i = choose|i: int| 0 <= i < p.len() && p[i] == srt[k];
        assert(p[i] == (i as usize, score_at(arr, i)));
    }
    assert forall|k: int| 0 <= k < r.len() - 1 implies #[trigger] in_score_order(arr, r, k) by {
        assert(r[k] == srt[k].0 && r[k + 1] == srt[k + 1].0);
        assert(srt[k].1 >= srt[k + 1].1);
        let x = srt[k];
        let y = srt[k + 1];
        if x.1 == y.1 {
            assert(r[k] != r[k + 1]);
            if y.0 < x.0 {
                let i = x.0 as int;
                let j = y.0 as int;
                lemma_sort_desc_stable(p, j, i);
                let (a, b) = choose|a: int, b: int|
                    0 <= a < b < srt.len() && srt[a] == p[j] && srt[b] == p[i];
                assert(r[a] == srt[a].0 && r[b] == srt[b].0);
                assert(r[a] == r[k + 1]);
                assert(r[b] == r[k]);
                assert(a == k + 1);
                assert(b == k);
            }
        }
    }
}

/// The score of an answer entry (zero's rank when it has none).
pub open spec fn entry_score(v: JsonValue) -> u64 {
    score_rank(json_get(v, "score"@))
}

/// Whether entry `j` of `arr` names candidate `i`.
pub open spec fn names(arr: Seq<JsonValue>, j: int, i: usize) -> bool {
    entry_index(arr[j]) == Some(i as u64)
}

/// Candidate `a` is scored at least as high as candidate `b` in `arr`: for every
/// entry naming `b` there is an entry naming `a` with at least its score.
pub open spec fn scored_at_least(arr: Seq<JsonValue>, a: usize, b: usize) -> bool {
    forall|j: int|
        0 <= j < arr.len() && #[trigger] names(arr, j, b) ==> exists|j1: int|
            0 <= j1 < arr.len() && names(arr, j1, a) && entry_score(arr[j1]) >= entry_score(arr[j])
}

/// Positions `k` and `k + 1` of the order `r` are in score order for `arr`.
pub open spec fn ranked_before(arr: Seq<JsonValue>, r: Seq<usize>, k: int) -> bool {
    scored_at_least(arr, r[k], r[k + 1])
}

proof fn lemma_scored_entries_origin(arr: Seq<JsonValue>, n: nat)
    requires
        n <= usize::MAX,
    ensures
        forall|e: (usize, u64)|
            #[trigger] scored_entries(arr, n).contains(e) ==> exists|j: int|
                0 <= j < arr.len() && names(arr, j, e.0) && entry_score(arr[j]) == e.1,
        forall|j: int, i: usize|
            0 <= j < arr.len() && i < n && #[trigger] names(arr, j, i) ==> scored_entries(arr, n).contains(
                (i, entry_score(arr[j])),
            ),
    decreases arr.len(),
{
    if arr.len() > 0 {
        let t = arr.drop_last();
        lemma_scored_entries_origin(t, n);
        let pre = scored_entries(t, n);
        let whole = scored_entries(arr, n);
        let last = arr.len() - 1;
        assert forall|e: (usize, u64)| #[trigger] whole.contains(e) implies exists|j: int|
            0 <= j < arr.len() && names(arr, j, e.0) && entry_score(arr[j]) == e.1 by {
            let c = choose|c: int| 0 <= c < whole.len() && whole[c] == e;
            if c < pre.len() {
                assert(whole[c] == pre[c]);
                assert(pre.contains(e));
                let j = choose|j: int| 0 <= j < t.len() && names(t, j, e.0) && entry_score(t[j]) == e.1;
                assert(arr[j] == t[j]);
                assert(names(arr, j, e.0));
            } else {
                let i = entry_index(arr.last()).unwrap();
                assert(e == (i as usize, entry_score(arr.last())));
                assert(arr[last] == arr.last());
                assert(names(arr, last, e.0));
            }
        }
        assert forall|j: int, i: usize|
            0 <= j < arr.len() && i < n && #[trigger] names(arr, j, i) implies whole.contains(
                (i, entry_score(arr[j])),
            ) by {
            if j < t.len() {
                assert(arr[j] == t[j]);
                assert(names(t, j, i));
                assert(pre.contains((i, entry_score(t[j]))));
                let c = choose|c: int| 0 <= c < pre.len() && pre[c] == (i, entry_score(t[j]));
                assert(whole[c] == pre[c]);
            } else {
                assert(arr[j] == arr.last());
                assert((i as u64) as usize == i);
                assert(whole.last() == (i, entry_score(arr[j])));
                assert(whole[whole.len() - 1] == whole.last());
            }
        }
    }
}

proof fn lemma_first_occurrences_by_rank(q: Seq<(usize, u64)>)
    requires
        is_desc(q),
    ensures
        forall|k: int, c: int|
            0 <= k < first_occurrences(positions(q)).len() - 1 && 0 <= c < q.len() && (#[trigger] q[c]).0
                == #[trigger] first_occurrences(positions(q))[k + 1] ==> exists|a: int|
                0 <= a < q.len() && q[a].0 == first_occurrences(positions(q))[k] && q[a].1 >= q[c].1,
    decreases q.len(),
{
    if q.len() > 0 {
        let t = q.drop_last();
        let x = q.last();
        assert(is_desc(t)) by {
            assert forall|i: int, j: int| 0 <= i < j < t.len() implies t[i].1 >= t[j].1 by {
                assert(t[i] == q[i] && t[j] == q[j]);
            }
        }
        lemma_first_occurrences_by_rank(t);
        lemma_first_occurrences(positions(t));
        assert(positions(q).drop_last() =~= positions(t));
        assert(positions(q).last() == x.0);
        let d = first_occurrences(positions(t));
        let fo = first_occurrences(positions(q));
        assert forall|k: int, c: int|
            0 <= k < fo.len() - 1 && 0 <= c < q.len() && (#[trigger] q[c]).0 == #[trigger] fo[k + 1] implies exists|a: int|
            0 <= a < q.len() && q[a].0 == fo[k] && q[a].1 >= q[c].1 by {
            if k < d.len() - 1 {
                assert(fo[k] == d[k] && fo[k + 1] == d[k + 1]);
                if c < t.len() {
                    assert(q[c] == t[c]);
                    let a = choose|a: int| 0 <= a < t.len() && t[a].0 == d[k] && t[a].1 >= t[c].1;
                    assert(q[a] == t[a]);
                } else {
                    assert(q[c] == x);
                    assert(d.contains(d[k + 1]));
                    assert(positions(t).contains(x.0));
                    let c2 = choose|c2: int| 0 <= c2 < positions(t).len() && positions(t)[c2] == x.0;
                    assert(t[c2].0 == x.0);
                    assert(q[c2] == t[c2]);
                    assert(q[c2].1 >= q[c].1);
                    let a = choose|a: int| 0 <= a < t.len() && t[a].0 == d[k] && t[a].1 >= t[c2].1;
                    assert(q[a] == t[a]);
                }
            } else {
                assert(!d.contains(x.0));
                assert(fo == d.push(x.0));
                assert(k == d.len() - 1);
                assert(fo[k] == d[k] && fo[k + 1] == x.0);
                if c < t.len() {
                    assert(q[c] == t[c]);
                    assert(positions(t)[c] == x.0);
                    assert(positions(t).contains(x.0));
                }
                assert(c == t.len());
                assert(d.contains(d[k]));
                assert(positions(t).contains(d[k]));
                let a = choose|a: int| 0 <= a < positions(t).len() && positions(t)[a] == d[k];
                assert(q[a] == t[a]);
                assert(q[a].0 == d[k]);
            }
        }
    }
}

/// Sorting the entries of an answer by score and taking each candidate once
/// puts the candidates in score order: at each step, the candidate before is
/// scored at least as high as the one after.
proof fn lemma_sorted_entries_ranked(arr: Seq<JsonValue>, n: nat)
    requires
        n <= usize::MAX,
    ensures
        ({
            let r = first_occurrences(positions(sort_desc(scored_entries(arr, n))));
            forall|k: int| 0 <= k < r.len() - 1 ==> #[trigger] ranked_before(arr, r, k)
        }),
{
    broadcast use vstd::seq_lib::group_to_multiset_ensures;

    let p = scored_entries(arr, n);
    let q = sort_desc(p);
    let r = first_occurrences(positions(q));
    lemma_sort_desc_sorted(p);
    lemma_sort_desc_permutes(p);
    lemma_scored_entries_origin(arr, n);
    lemma_scored_entries_in_range(arr, n);
    lemma_sorted_positions_in_range(p, n);
    lemma_first_occurrences_in_range(positions(q), n);
    lemma_first_occurrences_by_rank(q);
    assert forall|k: int| 0 <= k < r.len() - 1 implies #[trigger] ranked_before(arr, r, k) by {
        assert forall|j: int| 0 <= j < arr.len() && #[trigger] names(arr, j, r[k + 1]) implies exists|j1: int|
            0 <= j1 < arr.len() && names(arr, j1, r[k]) && entry_score(arr[j1]) >= entry_score(arr[j]) by {
            let e = (r[k + 1], entry_score(arr[j]));
            assert(r[k + 1] < n);
            assert(p.contains(e));
            assert(p.to_multiset().count(e) > 0);
            assert(q.contains(e));
            let c = choose|c: int| 0 <= c < q.len() && q[c] == e;
            assert(q[c].0 == r[k + 1]);
            let a = choose|a: int| 0 <= a < q.len() && q[a].0 == r[k] && q[a].1 >= q[c].1;
            assert(q.contains(q[a]));
            assert(q.to_multiset().count(q[a]) > 0);
            assert(p.contains(q[a]));
            let j1 = choose|j1: int| 0 <= j1 < arr.len() && names(arr, j1, q[a].0) && entry_score(arr[j1]) == q[a].1;
        }
    }
}

/// When the reranker answers with a bare list of `{"index", "score"}` entries,
/// the candidates come by score, highest first: of two neighbours in the order,
/// the first is scored at least as high as the second.
pub proof fn lemma_entries_order_by_score(resp: JsonValue, n: nat)
    requires
        n <= usize::MAX,
        from_results(resp, n) is None,
        from_scores(resp, n) is None,
        from_entries(resp, n) is Some,
    ensures
        ({
            let arr = array_items(resp).unwrap();
            let r = rerank_order(resp, n);
            forall|k: int| 0 <= k < r.len() - 1 ==> #[trigger] ranked_before(arr, r, k)
        }),
{
    lemma_sorted_entries_ranked(array_items(resp).unwrap(), n);
}

/// When the reranker answers with a `results` list of which some entry has a
/// score, the candidates come by score, highest first, in the same sense.
pub proof fn lemma_results_order_by_score(resp: JsonValue, n: nat)
    requires
        n <= usize::MAX,
        from_results(resp, n) is Some,
        any_scored(array_items(json_get(resp, "results"@).unwrap()).unwrap()),
    ensures
        ({
            let arr = array_items(json_get(resp, "results"@).unwrap()).unwrap();
            let r = rerank_order(resp, n);
            forall|k: int| 0 <= k < r.len() - 1 ==> #[trigger] ranked_before(arr, r, k)
        }),
{
    lemma_sorted_entries_ranked(array_items(json_get(resp, "results"@).unwrap()).unwrap(), n);
}

/// When no known shape fits, the candidates keep their retrieval order.
pub proof fn lemma_unknown_answer_keeps_order(resp: JsonValue, n: nat)
    requires
        from_results(resp, n) is None,
        from_scores(resp, n) is None,
        from_entries(resp, n) is None,
        from_indices(resp, n) is None,
    ensures
        rerank_order(resp, n) == identity(n),
{
}

proof fn lemma_insert_pos_bounds(s: Seq<(usize, u64)>, x: (usize, u64))
    requires
        is_desc(s),
    ensures
        0 <= insert_pos(s, x) <= s.len(),
        forall|k: int| 0 <= k < insert_pos(s, x) ==> s[k].1 >= x.1,
        forall|k: int| insert_pos(s, x) <= k < s.len() ==> s[k].1 < x.1,
    decreases s.len(),
{
    if s.len() > 0 && s[0].1 >= x.1 {
        let t = s.drop_first();
        assert(is_desc(t)) by {
            assert forall|i: int, j: int| 0 <= i < j < t.len() implies t[i].1 >= t[j].1 by {
                assert(t[i] == s[i + 1] && t[j] == s[j + 1]);
            }
        }
        lemma_insert_pos_bounds(t, x);
        assert forall|k: int| 0 <= k < insert_pos(s, x) implies s[k].1 >= x.1 by {
            if k > 0 {
                assert(s[k] == t[k - 1]);
            }
        }
        assert forall|k: int| insert_pos(s, x) <= k < s.len() implies s[k].1 < x.1 by {
            assert(s[k] == t[k - 1]);
        }
    } else if s.len() > 0 {
        assert forall|k: int| 0 <= k < s.len() implies s[k].1 < x.1 by {
            assert(s[0].1 >= s[k].1);
        }
    }
}

/// Sorting is stable: of two entries with equal ranks, the earlier one in `s`
/// comes first in the result.
pub proof fn lemma_sort_desc_stable(s: Seq<(usize, u64)>, i: int, j: int)
    requires
        0 <= i < j < s.len(),
        s[i].1 == s[j].1,
    ensures
        exists|a: int, b: int|
            0 <= a < b < sort_desc(s).len() && sort_desc(s)[a] == s[i] && sort_desc(s)[b] == s[j],
    decreases s.len(),
{
    broadcast use vstd::seq_lib::group_to_multiset_ensures;

    let t = s.drop_last();
    let x = s.last();
    let sorted = sort_desc(t);
    lemma_sort_desc_sorted(t);
    lemma_sort_desc_len(t);
    lemma_insert_desc_is_insert(sorted, x);
    lemma_insert_pos_bounds(sorted, x);
    let p = insert_pos(sorted, x);
    let r = sort_desc(s);
    assert(r == sorted.insert(p, x));
    assert(r.len() == sorted.len() + 1);
    if j < s.len() - 1 {
        assert(t[i] == s[i] && t[j] == s[j]);
        lemma_sort_desc_stable(t, i, j);
        let (a, b) = choose|a: int, b: int|
            0 <= a < b < sorted.len() && sorted[a] == t[i] && sorted[b] == t[j];
        let a2 = if a < p { a } else { a + 1 };
        let b2 = if b < p { b } else { b + 1 };
        assert(r[a2] == sorted[a]);
        assert(r[b2] == sorted[b]);
    } else {
        lemma_sort_desc_permutes(t);
        assert(t[i] == s[i]);
        assert(t.contains(s[i]));
        assert(t.to_multiset().count(s[i]) > 0);
        assert(sorted.contains(s[i]));
        let a = choose|a: int| 0 <= a < sorted.len() && sorted[a] == s[i];
        assert(sorted[a].1 == x.1);
        assert(a < p);
        assert(r[a] == sorted[a]);
        assert(r[p] == x);
        assert(x == s[j]);
    }
}

/// Inserting adds exactly one entry.
proof fn lemma_insert_desc_len(s: Seq<(usize, u64)>, x: (usize, u64))
    ensures
        insert_desc(s, x).len() == s.len() + 1,
    decreases s.len(),
{
    if s.len() > 0 && s[0].1 >= x.1 {
        lemma_insert_desc_len(s.drop_first(), x);
    }
}

/// Sorting keeps the number of entries.
pub proof fn lemma_sort_desc_len(s: Seq<(usize, u64)>)
    ensures
        sort_desc(s).len() == s.len(),
    decreases s.len(),
{
    if s.len() > 0 {
        lemma_sort_desc_len(s.drop_last());
        lemma_insert_desc_len(sort_desc(s.drop_last()), s.last());
    }
}

} // verus!
