use chat_search::search_service::pipeline::{
    dedup_take, next_step, search_query, start_search, SearchAction, SearchEvent, SearchStage,
    CANDIDATE_LIMIT, FINAL_LIMIT,
};
use chat_search::search_service::errors::AppError;
use chat_search::search_service::retrieval::qdrant::Candidate;
use chat_search::shared::{Entities, Question, SearchAPIResponse};

fn cand(id: &str, msgs: &[&str]) -> Candidate {
    Candidate {
        id: id.into(),
        page_content: format!("content for {id}"),
        message_ids: msgs.iter().map(|s| s.to_string()).collect(),
    }
}

fn q(text: &str) -> Question {
    Question {
        text: text.into(),
        asker: String::new(),
        asked_on: String::new(),
        variants: vec![],
        hyde: vec![],
        keywords: vec![],
        entities: Entities::default(),
        date_mentions: vec![],
        date_range: None,
        search_text: text.into(),
    }
}

/// Runs a search with the given store results and reranker, returning the
/// query that was embedded and the response.
fn run(question: &Question, results: Vec<Candidate>, rerank: impl Fn(&[String]) -> Vec<usize>) -> (String, SearchAPIResponse) {
    let (stage, action) = start_search(question);
    let query = match action {
        SearchAction::Embed { query } => query,
        other => panic!("unexpected {other:?}"),
    };
    let (stage, action) = next_step(stage, SearchEvent::Embedded).unwrap();
    match action {
        SearchAction::Retrieve { limit } => assert_eq!(limit, CANDIDATE_LIMIT),
        other => panic!("unexpected {other:?}"),
    }
    let (stage, action) = next_step(stage, SearchEvent::Retrieved(results)).unwrap();
    let order = match action {
        SearchAction::Rerank { query: q2, documents } => {
            assert_eq!(q2, query);
            rerank(&documents)
        },
        other => panic!("unexpected {other:?}"),
    };
    let (stage, action) = next_step(stage, SearchEvent::Reranked(order)).unwrap();
    assert!(matches!(stage, SearchStage::Done));
    match action {
        SearchAction::Respond(resp) => (query, resp),
        other => panic!("unexpected {other:?}"),
    }
}

#[test]
fn happy_path_returns_reranked_ids() {
    let results = vec![cand("p1", &["m1", "m2"]), cand("p2", &["m3"]), cand("p3", &["m4"])];
    // rerank reverses the order
    let (_, resp) = run(&q("hi"), results, |docs| (0..docs.len()).rev().collect());
    assert_eq!(resp.results.len(), 1);
    // Reversed: p3, p2, p1 → m4, m3, m1, m2
    assert_eq!(resp.results[0].message_ids, vec!["m4", "m3", "m1", "m2"]);
}

#[test]
fn dedup_message_ids_across_candidates() {
    let results = vec![cand("p1", &["m1", "m2"]), cand("p2", &["m2", "m3"])];
    let (_, resp) = run(&q("x"), results, |docs| (0..docs.len()).collect());
    assert_eq!(resp.results[0].message_ids, vec!["m1", "m2", "m3"]);
}

#[test]
fn truncates_to_50() {
    let mut results = Vec::new();
    for i in 0..60 {
        results.push(cand(&format!("p{i}"), &[&format!("m{i}")]));
    }
    let (_, resp) = run(&q("x"), results, |docs| (0..docs.len()).collect());
    assert_eq!(resp.results[0].message_ids.len(), 50);
}

#[test]
fn empty_store_returns_empty_results() {
    let (_, resp) = run(&q("x"), vec![], |docs| (0..docs.len()).collect());
    assert!(resp.results[0].message_ids.is_empty());
}

#[test]
fn falls_back_to_text_when_search_text_empty() {
    let mut question = q("");
    question.text = "fallback-query".into();
    question.search_text = "".into();
    let (captured, _) = run(&question, vec![cand("p1", &["m1"])], |docs| (0..docs.len()).collect());
    assert_eq!(captured, "fallback-query");
}

#[test]
fn compile_check() {
    // The pipeline's pieces link together.
    assert_eq!(FINAL_LIMIT, 50);
}

#[test]
fn blank_search_text_counts_as_empty() {
    let mut question = q("the question");
    question.search_text = " \t\n".into();
    assert_eq!(search_query(&question), "the question");
    question.search_text = " prepared ".into();
    assert_eq!(search_query(&question), " prepared ");
}

#[test]
fn reranker_sees_the_candidate_texts() {
    let results = vec![cand("p1", &["m1"]), cand("p2", &["m2"])];
    let (_, resp) = run(&q("x"), results, |docs| {
        assert_eq!(docs, &["content for p1".to_string(), "content for p2".to_string()]);
        vec![1]
    });
    assert_eq!(resp.results[0].message_ids, vec!["m2"]);
}

#[test]
fn dedup_take_skips_bad_positions_and_stops_at_limit() {
    let cands = vec![cand("a", &["x", "y"]), cand("b", &["y", "z", "w"])];
    assert_eq!(dedup_take(&cands, &vec![5, 1, 0, 1], 10), vec!["y", "z", "w", "x"]);
    assert_eq!(dedup_take(&cands, &vec![0, 1], 3), vec!["x", "y", "z"]);
    assert_eq!(dedup_take(&cands, &vec![0, 1], 0), Vec::<String>::new());
}

#[test]
fn events_out_of_turn_are_refused() {
    let (stage, _) = start_search(&q("x"));
    assert!(next_step(stage, SearchEvent::Reranked(vec![0])).is_none());
}

#[test]
fn embedding_failure_ends_the_search() {
    let (stage, _) = start_search(&q("x"));
    let (stage, action) = next_step(stage, SearchEvent::Failed(AppError::Sparse("down".into()))).unwrap();
    assert!(matches!(stage, SearchStage::Done));
    assert!(matches!(action, SearchAction::Fail(AppError::Sparse(ref s)) if s == "down"));
    assert!(next_step(stage, SearchEvent::Retrieved(vec![])).is_none());
}

#[test]
fn store_failure_ends_the_search() {
    let (stage, _) = start_search(&q("x"));
    let (stage, _) = next_step(stage, SearchEvent::Embedded).unwrap();
    let (stage, action) = next_step(stage, SearchEvent::Failed(AppError::Qdrant("gone".into()))).unwrap();
    assert!(matches!(stage, SearchStage::Done));
    assert!(matches!(action, SearchAction::Fail(AppError::Qdrant(_))));
    assert!(next_step(stage, SearchEvent::Reranked(vec![0])).is_none());
}
