use chat_search::json::{JsonNumber, JsonValue, NumberRepr};
use chat_search::search_service::retrieval::dense::{parse_embedding, DenseFormatError};

fn rank(f: f64) -> u64 {
    let f = if f == 0.0 { 0.0 } else { f };
    let b = f.to_bits();
    if b >> 63 == 1 { !b } else { b | (1u64 << 63) }
}

fn num(f: f64) -> JsonValue {
    JsonValue::Number(JsonNumber { repr: NumberRepr::Float, bits: f.to_bits(), rank: rank(f) })
}

fn arr(items: Vec<JsonValue>) -> JsonValue {
    JsonValue::Array(items)
}

fn obj(members: Vec<(&str, JsonValue)>) -> JsonValue {
    JsonValue::Object(members.into_iter().map(|(k, v)| (k.to_string(), v)).collect())
}

fn nums(v: &[f64]) -> JsonValue {
    arr(v.iter().map(|f| num(*f)).collect())
}

fn as_f32(ns: Vec<JsonNumber>) -> Vec<f32> {
    ns.iter().map(|n| f64::from_bits(n.bits) as f32).collect()
}

#[test]
fn parses_openai_format() {
    let v = obj(vec![("data", arr(vec![obj(vec![("embedding", nums(&[1.0, 2.5, -0.5]))])]))]);
    let out = as_f32(parse_embedding(&v).unwrap());
    assert_eq!(out, vec![1.0, 2.5, -0.5]);
}

#[test]
fn parses_direct_embedding() {
    let v = obj(vec![("embedding", nums(&[0.0, 1.0]))]);
    assert_eq!(as_f32(parse_embedding(&v).unwrap()), vec![0.0, 1.0]);
}

#[test]
fn parses_raw_array() {
    let v = nums(&[0.1, 0.2, 0.3]);
    assert_eq!(as_f32(parse_embedding(&v).unwrap()), vec![0.1, 0.2, 0.3]);
}

#[test]
fn parses_array_of_arrays() {
    let v = arr(vec![nums(&[0.5, 0.6])]);
    assert_eq!(as_f32(parse_embedding(&v).unwrap()), vec![0.5, 0.6]);
}

#[test]
fn errors_on_unknown_format() {
    let v = obj(vec![("weird", JsonValue::Bool(true))]);
    assert!(parse_embedding(&v).is_err());
}

#[test]
fn unknown_format_is_named() {
    let v = arr(vec![]);
    assert!(matches!(parse_embedding(&v), Err(DenseFormatError::UnknownFormat)));
}

#[test]
fn first_non_number_is_reported() {
    let v = obj(vec![(
        "embedding",
        arr(vec![num(1.0), JsonValue::Str("x".into()), JsonValue::Null]),
    )]);
    match parse_embedding(&v) {
        Err(DenseFormatError::NotANumber(JsonValue::Str(s))) => assert_eq!(s, "x"),
        other => panic!("wrong result: {other:?}"),
    }
}

#[test]
fn openai_shape_wins_over_direct() {
    let v = obj(vec![
        ("embedding", nums(&[9.0])),
        ("data", arr(vec![obj(vec![("embedding", nums(&[1.0, 2.0]))])])),
    ]);
    assert_eq!(as_f32(parse_embedding(&v).unwrap()), vec![1.0, 2.0]);
}
