use chat_search::json::{JsonNumber, JsonValue, NumberRepr, ZERO_RANK};
use chat_search::search_service::retrieval::rerank::{order_from_reply, parse_rerank_order, sort_by_rank_desc};
use chat_search::search_service::errors::AppError;
use chat_search::search_service::retrieval::status::{status_is_success, upstream_failure};

fn rank(f: f64) -> u64 {
    let f = if f == 0.0 { 0.0 } else { f };
    let b = f.to_bits();
    if b >> 63 == 1 { !b } else { b | (1u64 << 63) }
}

fn num(f: f64) -> JsonValue {
    JsonValue::Number(JsonNumber { repr: NumberRepr::Float, bits: f.to_bits(), rank: rank(f) })
}

fn uint(u: u64) -> JsonValue {
    let f = u as f64;
    JsonValue::Number(JsonNumber { repr: NumberRepr::PosInt(u), bits: f.to_bits(), rank: rank(f) })
}

fn arr(items: Vec<JsonValue>) -> JsonValue {
    JsonValue::Array(items)
}

fn obj(members: Vec<(&str, JsonValue)>) -> JsonValue {
    JsonValue::Object(members.into_iter().map(|(k, v)| (k.to_string(), v)).collect())
}

fn entry(index: u64, score: Option<f64>) -> JsonValue {
    match score {
        Some(s) => obj(vec![("index", uint(index)), ("score", num(s))]),
        None => obj(vec![("index", uint(index))]),
    }
}

#[test]
fn parses_results_with_score() {
    let r = obj(vec![("results", arr(vec![entry(2, Some(0.9)), entry(0, Some(0.5))]))]);
    assert_eq!(parse_rerank_order(&r, 3), vec![2, 0]);
}

#[test]
fn parses_scores_parallel_array() {
    let r = obj(vec![("scores", arr(vec![num(0.1), num(0.9), num(0.3)]))]);
    assert_eq!(parse_rerank_order(&r, 3), vec![1, 2, 0]);
}

#[test]
fn parses_raw_array_of_objects() {
    let r = arr(vec![entry(1, Some(1.0)), entry(0, Some(0.5))]);
    assert_eq!(parse_rerank_order(&r, 2), vec![1, 0]);
}

#[test]
fn parses_raw_indices_array() {
    let r = arr(vec![uint(2), uint(0), uint(1)]);
    assert_eq!(parse_rerank_order(&r, 3), vec![2, 0, 1]);
}

#[test]
fn falls_back_to_identity_on_unknown() {
    let r = obj(vec![("wtf", JsonValue::Bool(true))]);
    assert_eq!(parse_rerank_order(&r, 4), vec![0, 1, 2, 3]);
}

#[test]
fn drops_out_of_range_indices() {
    let r = obj(vec![("results", arr(vec![entry(99, None), entry(0, None)]))]);
    assert_eq!(parse_rerank_order(&r, 2), vec![0]);
}

#[test]
fn results_without_scores_keep_their_order() {
    let r = obj(vec![("results", arr(vec![entry(1, None), entry(2, None), entry(0, None)]))]);
    assert_eq!(parse_rerank_order(&r, 3), vec![1, 2, 0]);
}

#[test]
fn equal_scores_keep_their_order() {
    let r = obj(vec![("scores", arr(vec![num(0.5), num(0.7), num(0.5), num(0.7)]))]);
    assert_eq!(parse_rerank_order(&r, 4), vec![1, 3, 0, 2]);
}

#[test]
fn missing_score_counts_as_zero() {
    let r = obj(vec![(
        "results",
        arr(vec![entry(0, None), entry(1, Some(-1.0)), entry(2, Some(0.5))]),
    )]);
    assert_eq!(parse_rerank_order(&r, 3), vec![2, 0, 1]);
}

#[test]
fn scores_of_wrong_length_fall_back() {
    let r = obj(vec![("scores", arr(vec![num(0.1), num(0.9)]))]);
    assert_eq!(parse_rerank_order(&r, 3), vec![0, 1, 2]);
}

#[test]
fn raw_indices_with_one_out_of_range_fall_back() {
    let r = arr(vec![uint(2), uint(7)]);
    assert_eq!(parse_rerank_order(&r, 3), vec![0, 1, 2]);
}

#[test]
fn sorting_is_stable_and_descending() {
    let pairs = vec![(0usize, 5u64), (1, 9), (2, 5), (3, ZERO_RANK), (4, 9)];
    assert_eq!(sort_by_rank_desc(&pairs), vec![(3, ZERO_RANK), (1, 9), (4, 9), (0, 5), (2, 5)]);
}

#[test]
fn rerank_upstream_error_gives_identity() {
    let order = order_from_reply(None, 3);
    assert_eq!(order, vec![0, 1, 2]);
}

#[test]
fn reply_is_read_when_there_is_one() {
    let r = arr(vec![uint(1), uint(0)]);
    assert_eq!(order_from_reply(Some(&r), 2), vec![1, 0]);
}

#[test]
fn success_statuses() {
    assert!(status_is_success(200));
    assert!(status_is_success(299));
    assert!(!status_is_success(199));
    assert!(!status_is_success(300));
    assert!(!status_is_success(500));
}

#[test]
fn repeated_result_index_is_taken_once() {
    let r = obj(vec![("results", arr(vec![entry(0, None), entry(0, None)]))]);
    assert_eq!(parse_rerank_order(&r, 2), vec![0]);
    let r = obj(vec![(
        "results",
        arr(vec![entry(1, Some(0.2)), entry(0, Some(0.5)), entry(1, Some(0.9))]),
    )]);
    assert_eq!(parse_rerank_order(&r, 2), vec![1, 0]);
}

#[test]
fn repeated_raw_index_is_taken_once() {
    let r = arr(vec![uint(2), uint(0), uint(2), uint(1)]);
    assert_eq!(parse_rerank_order(&r, 3), vec![2, 0, 1]);
    let r = arr(vec![entry(1, Some(1.0)), entry(1, Some(0.5))]);
    assert_eq!(parse_rerank_order(&r, 2), vec![1]);
}

#[test]
fn non_success_status_gives_upstream_error() {
    assert!(upstream_failure(204, "ok".into()).is_none());
    match upstream_failure(500, "nope".into()) {
        Some(AppError::Upstream { status, body }) => {
            assert_eq!(status, 500);
            assert_eq!(body, "nope");
        },
        other => panic!("wrong result: {other:?}"),
    }
    assert!(matches!(upstream_failure(0, "refused".into()), Some(AppError::Upstream { status: 0, .. })));
}
