//! The decisions of the search pipeline: which text to search for, which texts
//! the reranker gets, and which message ids answer the question.
use vstd::prelude::*;

use crate::search_service::errors::AppError;
use crate::search_service::retrieval::qdrant::Candidate;
use crate::shared::{Question, SearchAPIResponse, SearchAPIResultItem};
use crate::text::{trim, trim_str, views};

verus! {

/// How many candidates the vector store is asked for.
pub const CANDIDATE_LIMIT: u64 = 100;

/// How many message ids an answer holds at most.
pub const FINAL_LIMIT: usize = 50;

/// The text searched for: the prepared search text, unless it is blank, in
/// which case the question's own text.
pub open spec fn query_text(q: Question) -> Seq<char> {
    if trim(q.search_text@).len() > 0 {
        q.search_text@
    } else {
        q.text@
    }
}

/// The text searched for is the question's search text when that is not blank
/// and its text otherwise; no other part of the question (variants, rewrites,
/// keywords, entities, dates, asker) has any bearing on it.
pub proof fn lemma_query_text_choice(q1: Question, q2: Question)
    ensures
        query_text(q1) == q1.search_text@ || query_text(q1) == q1.text@,
        trim(q1.search_text@).len() > 0 ==> query_text(q1) == q1.search_text@,
        trim(q1.search_text@).len() == 0 ==> query_text(q1) == q1.text@,
        q1.text@ == q2.text@ && q1.search_text@ == q2.search_text@ ==> query_text(q1) == query_text(q2),
{
}

/// The text to search for.
pub fn search_query(question: &Question) -> (r: &str)
    ensures
        r@ == query_text(*question),
{
    if !trim_str(question.search_text.as_str()).is_empty() {
        question.search_text.as_str()
    } else {
        question.text.as_str()
    }
}

/// The displayed texts of the candidates, in order: what the reranker ranks.
pub fn candidate_documents(candidates: &Vec<Candidate>) -> (r: Vec<String>)
    ensures
        r@.len() == candidates@.len(),
        forall|i: int| 0 <= i < r@.len() ==> (#[trigger] r@[i])@ == candidates@[i].page_content@,
{
    let mut out: Vec<String> = Vec::new();
    let n = candidates.len();
    let mut i: usize = 0;
    while i < n
        invariant
            n == candidates@.len(),
            i <= n,
            out@.len() == i,
            forall|j: int| 0 <= j < i ==> (#[trigger] out@[j])@ == candidates@[j].page_content@,
        decreases n - i,
    {
        out.push(candidates[i].page_content.clone());
        i = i + 1;
    }
    out
}

/// The message ids of the candidates named by `order`, in that order; a
/// position that names no candidate contributes nothing.
pub open spec fn id_stream(candidates: Seq<Candidate>, order: Seq<usize>) -> Seq<Seq<char>>
    decreases order.len(),
{
    if order.len() == 0 {
        Seq::empty()
    } else {
        id_stream(candidates, order.drop_last()) + ids_at(candidates, order.last())
    }
}

/// The message ids of candidate `i`, none if there is no such candidate.
pub open spec fn ids_at(candidates: Seq<Candidate>, i: usize) -> Seq<Seq<char>> {
    if i < candidates.len() {
        views(candidates[i as int].message_ids@)
    } else {
        Seq::empty()
    }
}

/// `s` with every repeated item dropped: each item at its first place.
pub open spec fn dedup(s: Seq<Seq<char>>) -> Seq<Seq<char>>
    decreases s.len(),
{
    if s.len() == 0 {
        Seq::empty()
    } else {
        let d = dedup(s.drop_last());
        if d.contains(s.last()) {
            d
        } else {
            d.push(s.last())
        }
    }
}

/// The first `limit` items of `s` (all of them when there are fewer).
pub open spec fn at_most(s: Seq<Seq<char>>, limit: nat) -> Seq<Seq<char>> {
    if s.len() <= limit {
        s
    } else {
        s.take(limit as int)
    }
}

/// The distinct message ids of the candidates taken in `order`, at most `limit`.
pub open spec fn ranked_ids(candidates: Seq<Candidate>, order: Seq<usize>, limit: nat) -> Seq<Seq<char>> {
    at_most(dedup(id_stream(candidates, order)), limit)
}

/// Whether `s` holds `x`.
fn holds(s: &Vec<String>, x: &String) -> (r: bool)
    ensures
        r == views(s@).contains(x@),
{
    let n = s.len();
    let mut i: usize = 0;
    while i < n
        invariant
            n == s@.len(),
            i <= n,
            forall|j: int| 0 <= j < i ==> (#[trigger] s@[j])@ != x@,
        decreases n - i,
    {
        if s[i] == *x {
            assert(views(s@)[i as int] == x@);
            return true;
        }
        i = i + 1;
    }
    assert forall|j: int| 0 <= j < views(s@).len() implies views(s@)[j] != x@ by {
        assert(s@[j]@ != x@);
    }
    false
}

/// The stream up to order position `i` is a prefix of the whole stream.
proof fn lemma_stream_prefix(candidates: Seq<Candidate>, order: Seq<usize>, i: int)
    requires
        0 <= i <= order.len(),
    ensures
        id_stream(candidates, order.take(i)).is_prefix_of(id_stream(candidates, order)),
    decreases order.len() - i,
{
    if i < order.len() {
        lemma_stream_prefix(candidates, order, i + 1);
        assert(order.take(i + 1).drop_last() =~= order.take(i));
        let a = id_stream(candidates, order.take(i));
        let b = id_stream(candidates, order.take(i + 1));
        let c = id_stream(candidates, order);
        assert(b == a + ids_at(candidates, order[i]));
        assert(c.subrange(0, a.len() as int) =~= b.subrange(0, a.len() as int));
    } else {
        assert(order.take(i) =~= order);
        assert(id_stream(candidates, order).subrange(0, id_stream(candidates, order).len() as int)
            =~= id_stream(candidates, order));
    }
}

/// Dropping repeats keeps prefixes: the answer for a prefix starts the answer
/// for the whole.
pub proof fn lemma_dedup_prefix(a: Seq<Seq<char>>, b: Seq<Seq<char>>)
    requires
        a.is_prefix_of(b),
    ensures
        dedup(a).is_prefix_of(dedup(b)),
    decreases b.len(),
{
    if a.len() == b.len() {
        assert(a =~= b.subrange(0, a.len() as int));
        assert(a =~= b);
        assert(dedup(b).subrange(0, dedup(b).len() as int) =~= dedup(b));
    } else {
        let c = b.drop_last();
        assert(a.is_prefix_of(c)) by {
            assert(c.subrange(0, a.len() as int) =~= b.subrange(0, a.len() as int));
        }
        lemma_dedup_prefix(a, c);
        let da = dedup(a);
        let dc = dedup(c);
        let db = dedup(b);
        assert(db.subrange(0, dc.len() as int) =~= dc);
        assert(db.subrange(0, da.len() as int) =~= dc.subrange(0, da.len() as int));
    }
}

/// Dropping repeats leaves no item twice, keeps every item, and adds none.
pub proof fn lemma_dedup_facts(s: Seq<Seq<char>>)
    ensures
        dedup(s).no_duplicates(),
        forall|x: Seq<char>| dedup(s).contains(x) <==> s.contains(x),
        dedup(s).len() <= s.len(),
    decreases s.len(),
{
    if s.len() > 0 {
        let t = s.drop_last();
        lemma_dedup_facts(t);
        let d = dedup(t);
        assert forall|x: Seq<char>| dedup(s).contains(x) <==> s.contains(x) by {
            if s.contains(x) && x != s.last() {
                let k = choose|k: int| 0 <= k < s.len() && s[k] == x;
                assert(t[k] == x);
            }
            if t.contains(x) {
                let k = choose|k: int| 0 <= k < t.len() && t[k] == x;
                assert(s[k] == x);
            }
            if d.push(s.last()).contains(x) && x != s.last() {
                let k = choose|k: int| 0 <= k < d.push(s.last()).len() && d.push(s.last())[k] == x;
                assert(d[k] == x);
            }
            if d.contains(x) {
                let k = choose|k: int| 0 <= k < d.len() && d[k] == x;
                assert(d.push(s.last())[k] == x);
            }
            assert(s[s.len() - 1] == s.last());
            assert(d.push(s.last())[d.len() as int] == s.last());
        }
        if !d.contains(s.last()) {
            let e = d.push(s.last());
            assert forall|i: int, j: int| 0 <= i < e.len() && 0 <= j < e.len() && i != j implies e[i] != e[j] by {
                if i < d.len() && j < d.len() {
                } else if i == d.len() {
                    assert(d[j] == e[j]);
                } else {
                    assert(d[i] == e[i]);
                }
            }
        }
    }
}

/// Every id in the stream is one of the message ids of a candidate that
/// `order` names.
proof fn lemma_stream_origin(candidates: Seq<Candidate>, order: Seq<usize>, x: Seq<char>)
    requires
        id_stream(candidates, order).contains(x),
    ensures
        exists|k: int|
            0 <= k < order.len() && order[k] < candidates.len() && views(
                (#[trigger] candidates[order[k] as int]).message_ids@,
            ).contains(x),
    decreases order.len(),
{
    let pre = id_stream(candidates, order.drop_last());
    let last = ids_at(candidates, order.last());
    let j = choose|j: int| 0 <= j < (pre + last).len() && (pre + last)[j] == x;
    if j < pre.len() {
        assert(pre[j] == x);
        lemma_stream_origin(candidates, order.drop_last(), x);
        let k = choose|k: int|
            0 <= k < order.drop_last().len() && order.drop_last()[k] < candidates.len() && views(
                (#[trigger] candidates[order.drop_last()[k] as int]).message_ids@,
            ).contains(x);
        assert(order[k] == order.drop_last()[k]);
    } else {
        assert(last[j - pre.len()] == x);
        let k = order.len() - 1;
        assert(order[k] == order.last());
    }
}

/// The answer of a search holds at most `limit` ids, none twice, each of them
/// a message id of a candidate that the rerank order names; and when it holds
/// fewer than `limit`, it holds every such id.
pub proof fn lemma_ranked_ids_facts(candidates: Seq<Candidate>, order: Seq<usize>, limit: nat)
    ensures
        ranked_ids(candidates, order, limit).len() <= limit,
        ranked_ids(candidates, order, limit).no_duplicates(),
        forall|x: Seq<char>| #[trigger] ranked_ids(candidates, order, limit).contains(x) ==> exists|k: int|
            0 <= k < order.len() && order[k] < candidates.len() && views(
                (#[trigger] candidates[order[k] as int]).message_ids@,
            ).contains(x),
        ranked_ids(candidates, order, limit).len() < limit ==> forall|x: Seq<char>|
            #[trigger] id_stream(candidates, order).contains(x) ==> ranked_ids(
                candidates,
                order,
                limit,
            ).contains(x),
{
    let s = id_stream(candidates, order);
    let d = dedup(s);
    let r = ranked_ids(candidates, order, limit);
    lemma_dedup_facts(s);
    assert forall|x: Seq<char>| #[trigger] r.contains(x) implies exists|k: int|
        0 <= k < order.len() && order[k] < candidates.len() && views(
            (#[trigger] candidates[order[k] as int]).message_ids@,
        ).contains(x) by {
        let j = choose|j: int| 0 <= j < r.len() && r[j] == x;
        assert(d[j] == x);
        assert(d.contains(x));
        lemma_stream_origin(candidates, order, x);
    }
    if d.len() > limit {
        assert forall|i: int, j: int| 0 <= i < r.len() && 0 <= j < r.len() && i != j implies r[i] != r[j] by {
            assert(r[i] == d[i] && r[j] == d[j]);
        }
    }
}

/// The distinct message ids of the candidates taken in the order `order`
/// (positions that name no candidate are passed over), each at its first
/// place, at most `limit` of them.
pub fn dedup_take(candidates: &Vec<Candidate>, order: &Vec<usize>, limit: usize) -> (r: Vec<String>)
    ensures
        views(r@) == ranked_ids(candidates@, order@, limit as nat),
{
    let mut out: Vec<String> = Vec::new();
    let n = order.len();
    let ghost full = id_stream(candidates@, order@);
    let mut i: usize = 0;
    while i < n
        invariant
            n == order@.len(),
            i <= n,
            full == id_stream(candidates@, order@),
            views(out@) == dedup(id_stream(candidates@, order@.take(i as int))),
            out@.len() <= limit,
        decreases n - i,
    {
        let ghost before = id_stream(candidates@, order@.take(i as int));
        assert(order@.take(i + 1).drop_last() =~= order@.take(i as int));
        let idx = order[i];
        if idx < candidates.len() {
            let ids = &candidates[idx].message_ids;
            let m = ids.len();
            let mut j: usize = 0;
            while j < m
                invariant
                    n == order@.len(),
                    i < n,
                    idx == order@[i as int],
                    idx < candidates@.len(),
                    *ids == candidates@[idx as int].message_ids,
                    m == ids@.len(),
                    j <= m,
                    full == id_stream(candidates@, order@),
                    before == id_stream(candidates@, order@.take(i as int)),
                    id_stream(candidates@, order@.take(i + 1)) == before + views(ids@),
                    views(out@) == dedup(before + views(ids@).take(j as int)),
                    out@.len() <= limit,
                decreases m - j,
            {
                let ghost prefix = before + views(ids@).take(j as int);
                let ghost next = before + views(ids@).take(j + 1);
                assert(next.drop_last() =~= prefix);
                assert(next.last() == ids@[j as int]@);
                if out.len() >= limit {
                    proof {
                        assert(prefix.is_prefix_of(full)) by {
                            lemma_stream_prefix(candidates@, order@, i + 1);
                            assert(prefix.is_prefix_of(before + views(ids@))) by {
                                assert((before + views(ids@)).subrange(0, prefix.len() as int)
                                    =~= prefix);
                            }
                        }
                        lemma_dedup_prefix(prefix, full);
                        assert(dedup(full).take(limit as int) =~= views(out@));
                    }
                    return out;
                }
                let id = &ids[j];
                if !holds(&out, id) {
                    out.push(id.clone());
                    assert(views(out@) =~= dedup(prefix).push(id@));
                }
                j = j + 1;
            }
            assert(views(ids@).take(m as int) =~= views(ids@));
        } else {
            assert(id_stream(candidates@, order@.take(i + 1)) =~= before);
        }
        i = i + 1;
    }
    assert(order@.take(n as int) =~= order@);
    out
}

/// The answer to a question, given the candidates found and the order in
/// which the reranker put them: one result with the first `FINAL_LIMIT`
/// distinct message ids.
pub fn search_response(candidates: &Vec<Candidate>, order: &Vec<usize>) -> (r: SearchAPIResponse)
    ensures
        r.results@.len() == 1,
        views(r.results@[0].message_ids@) == ranked_ids(candidates@, order@, FINAL_LIMIT as nat),
{
    let message_ids = dedup_take(candidates, order, FINAL_LIMIT);
    SearchAPIResponse { results: vec![SearchAPIResultItem { message_ids }] }
}

/// Where a search stands, with what it has learned so far.
#[derive(Debug)]
pub enum SearchStage {
    /// Waiting for the dense and sparse embeddings of `query`.
    Embedding { query: String },
    /// Waiting for the vector store's candidates.
    Retrieving { query: String },
    /// Waiting for the reranker's order of `candidates`.
    Reranking { query: String, candidates: Vec<Candidate> },
    /// Answered.
    Done,
}

/// What the service has to do next.
#[derive(Debug)]
pub enum SearchAction {
    /// Compute the dense and sparse embeddings of `query`.
    Embed { query: String },
    /// Ask the vector store for at most `limit` candidates near the embeddings.
    Retrieve { limit: u64 },
    /// Ask the reranker to order `documents` for `query`.
    Rerank { query: String, documents: Vec<String> },
    /// Answer with this response.
    Respond(SearchAPIResponse),
    /// Answer with this error.
    Fail(AppError),
}

/// What the outside work brought back.
#[derive(Debug)]
pub enum SearchEvent {
    /// Both embeddings are ready.
    Embedded,
    /// The vector store's candidates.
    Retrieved(Vec<Candidate>),
    /// The reranker's order of the candidates.
    Reranked(Vec<usize>),
    /// Computing the embeddings or asking the vector store failed.
    Failed(AppError),
}

/// The first step of a search for `question`: embed the query text.
pub fn start_search(question: &Question) -> (r: (SearchStage, SearchAction))
    ensures
        r.0 matches SearchStage::Embedding { query } && query@ == query_text(*question),
        r.1 matches SearchAction::Embed { query } && query@ == query_text(*question),
{
    let query = search_query(question);
    (SearchStage::Embedding { query: query.to_owned() }, SearchAction::Embed { query: query.to_owned() })
}

/// The step that follows `event` in `stage`: after the embeddings, retrieve
/// `CANDIDATE_LIMIT` candidates; after the candidates, rerank their texts; after
/// the order, answer. A failure while embedding or retrieving ends the search
/// with that error, and nothing is retrieved or reranked after it. An event
/// that does not belong to the stage gives `None`; no event belongs to `Done`.
pub fn next_step(stage: SearchStage, event: SearchEvent) -> (r: Option<(SearchStage, SearchAction)>)
    ensures
        match (stage, event) {
            (SearchStage::Embedding { query }, SearchEvent::Embedded) => r matches Some(
                (SearchStage::Retrieving { query: q }, SearchAction::Retrieve { limit }),
            ) && q@ == query@ && limit == CANDIDATE_LIMIT,
            (SearchStage::Retrieving { query }, SearchEvent::Retrieved(candidates)) => r matches Some(
                (SearchStage::Reranking { query: q, candidates: c }, SearchAction::Rerank { query: q2, documents }),
            ) && q@ == query@ && q2@ == query@ && c@ == candidates@ && documents@.len() == candidates@.len()
                && forall|i: int| 0 <= i < documents@.len() ==> (#[trigger] documents@[i])@ == candidates@[i].page_content@,
            (SearchStage::Reranking { query, candidates }, SearchEvent::Reranked(order)) => r matches Some(
                (SearchStage::Done, SearchAction::Respond(resp)),
            ) && resp.results@.len() == 1 && views(resp.results@[0].message_ids@) == ranked_ids(
                candidates@,
                order@,
                FINAL_LIMIT as nat,
            ),
            (SearchStage::Embedding { .. }, SearchEvent::Failed(e)) => r matches Some(
                (SearchStage::Done, SearchAction::Fail(err)),
            ) && err == e,
            (SearchStage::Retrieving { .. }, SearchEvent::Failed(e)) => r matches Some(
                (SearchStage::Done, SearchAction::Fail(err)),
            ) && err == e,
            _ => r is None,
        },
{
    match (stage, event) {
        (SearchStage::Embedding { .. }, SearchEvent::Failed(e)) => {
            Some((SearchStage::Done, SearchAction::Fail(e)))
        },
        (SearchStage::Retrieving { .. }, SearchEvent::Failed(e)) => {
            Some((SearchStage::Done, SearchAction::Fail(e)))
        },
        (SearchStage::Embedding { query }, SearchEvent::Embedded) => {
            Some((SearchStage::Retrieving { query }, SearchAction::Retrieve { limit: CANDIDATE_LIMIT }))
        },
        (SearchStage::Retrieving { query }, SearchEvent::Retrieved(candidates)) => {
            let documents = candidate_documents(&candidates);
            let q2 = query.clone();
            Some((SearchStage::Reranking { query, candidates }, SearchAction::Rerank { query: q2, documents }))
        },
        (SearchStage::Reranking { query, candidates }, SearchEvent::Reranked(order)) => {
            let resp = search_response(&candidates, &order);
            Some((SearchStage::Done, SearchAction::Respond(resp)))
        },
        _ => None,
    }
}

} // verus!
