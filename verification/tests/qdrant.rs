use chat_search::search_service::retrieval::qdrant::{
    candidate_from_point, extract_string, extract_string_list, Payload, PayloadValue,
};

fn qval_string(s: &str) -> PayloadValue {
    PayloadValue::Str(s.to_string())
}

fn qval_list(items: Vec<&str>) -> PayloadValue {
    PayloadValue::List(items.into_iter().map(qval_string).collect())
}

#[test]
fn extracts_string() {
    let mut p = Payload::new();
    p.insert("page_content".into(), qval_string("hi"));
    assert_eq!(extract_string(&p, "page_content"), "hi");
}

#[test]
fn extracts_missing_string_as_empty() {
    let p = Payload::new();
    assert_eq!(extract_string(&p, "nope"), "");
}

#[test]
fn extracts_list() {
    let mut p = Payload::new();
    p.insert("message_ids".into(), qval_list(vec!["a", "b"]));
    assert_eq!(extract_string_list(&p, "message_ids"), vec!["a", "b"]);
}

#[test]
fn extracts_single_string_as_list_of_one() {
    let mut p = Payload::new();
    p.insert("message_ids".into(), qval_string("solo"));
    assert_eq!(extract_string_list(&p, "message_ids"), vec!["solo"]);
}

#[test]
fn list_keeps_only_strings() {
    let mut p = Payload::new();
    p.insert(
        "message_ids".into(),
        PayloadValue::List(vec![qval_string("a"), PayloadValue::Other, PayloadValue::Missing, qval_string("b")]),
    );
    assert_eq!(extract_string_list(&p, "message_ids"), vec!["a", "b"]);
    p.insert("page_content".into(), PayloadValue::Other);
    assert_eq!(extract_string(&p, "page_content"), "");
}

#[test]
fn insert_replaces_the_value_of_a_key() {
    let mut p = Payload::new();
    p.insert("page_content".into(), qval_string("old"));
    p.insert("page_content".into(), qval_string("new"));
    assert_eq!(extract_string(&p, "page_content"), "new");
}

#[test]
fn candidate_reads_text_and_ids() {
    let mut p = Payload::new();
    p.insert("page_content".into(), qval_string("u: hello"));
    p.insert("message_ids".into(), qval_list(vec!["m1"]));
    let c = candidate_from_point("42".into(), &p);
    assert_eq!(c.id, "42");
    assert_eq!(c.page_content, "u: hello");
    assert_eq!(c.message_ids, vec!["m1"]);
}
