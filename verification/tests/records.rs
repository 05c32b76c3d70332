//! Default-content selection and decorated operation records.

use mandolin::error::Error;
use mandolin::operation::{LappedMediaType, LappedOperation};
use mandolin::value::DocumentValue;

fn t(s: &str) -> DocumentValue {
    DocumentValue::Text(s.to_string())
}

fn map(entries: Vec<(&str, DocumentValue)>) -> DocumentValue {
    DocumentValue::Mapping(entries.into_iter().map(|(k, v)| (k.to_string(), v)).collect())
}

fn content(entries: Vec<(&str, DocumentValue)>) -> Vec<(String, DocumentValue)> {
    entries.into_iter().map(|(k, v)| (k.to_string(), v)).collect()
}

#[test]
fn select_prefers_json_irrespective_of_order() {
    let a = t("A");
    let b = t("B");
    let first = LappedMediaType::select(&content(vec![
        ("text/plain", a.clone()),
        ("application/json", b.clone()),
    ]))
    .unwrap();
    assert_eq!(first.media_type, "application/json");
    assert_eq!(first.media, b);
    let second = LappedMediaType::select(&content(vec![
        ("application/json", b.clone()),
        ("text/plain", a.clone()),
    ]))
    .unwrap();
    assert_eq!(second.media_type, "application/json");
    assert_eq!(second.media, b);
}

#[test]
fn select_falls_back_to_first_declared() {
    let chosen = LappedMediaType::select(&content(vec![
        ("text/plain", t("A")),
        ("application/xml", t("B")),
    ]))
    .unwrap();
    assert_eq!(chosen.media_type, "text/plain");
    assert_eq!(chosen.media, t("A"));
}

#[test]
fn select_takes_first_json_key() {
    let chosen = LappedMediaType::select(&content(vec![
        ("text/json", t("A")),
        ("application/json", t("B")),
    ]))
    .unwrap();
    assert_eq!(chosen.media_type, "text/json");
}

#[test]
fn select_of_empty_content_fails() {
    assert_eq!(
        LappedMediaType::select(&content(vec![])),
        Err(Error::EmptyContent)
    );
}

#[test]
fn build_derives_function_from_method_and_path() {
    let op = map(vec![("summary", t("list pets"))]);
    let built = LappedOperation::new("/pets/{id}", "get", &op).unwrap();
    assert_eq!(built.function, "get_pets_{id}");
    assert_eq!(built.path, "/pets/{id}");
    assert_eq!(built.method, "get");
    assert_eq!(built.request_identifier, "requestGetPets{id}");
    assert_eq!(built.response_identifier, "responseGetPets{id}");
    assert!(built.request_body.is_none());
    assert_eq!(built.operation, op);
}

#[test]
fn build_prefers_declared_identifier() {
    let op = map(vec![("operationId", t("GetUser"))]);
    let built = LappedOperation::new("/pets/{id}", "get", &op).unwrap();
    assert_eq!(built.function, "GetUser");
    assert_eq!(built.request_identifier, "requestGetUser");
    assert_eq!(built.response_identifier, "responseGetUser");
}

#[test]
fn build_decorates_an_inline_request_body() {
    let body = map(vec![
        ("required", DocumentValue::Bool(true)),
        (
            "content",
            map(vec![
                ("text/plain", t("P")),
                ("application/json", map(vec![("schema", t("S"))])),
            ]),
        ),
    ]);
    let op = map(vec![
        ("operationId", t("GetUser")),
        ("requestBody", body.clone()),
    ]);
    let built = LappedOperation::new("/users", "post", &op).unwrap();
    let decorated = built.request_body.unwrap();
    assert_eq!(decorated.identifier, "requestBodyGetUser");
    assert_eq!(decorated.default_content.media_type, "application/json");
    assert_eq!(decorated.default_content.media, map(vec![("schema", t("S"))]));
    assert_eq!(decorated.request_body, body);
}

#[test]
fn build_rejects_a_referenced_request_body() {
    let op = map(vec![(
        "requestBody",
        map(vec![("$ref", t("#/components/requestBodies/Shared"))]),
    )]);
    assert_eq!(
        LappedOperation::new("/users", "post", &op),
        Err(Error::UnsupportedReferencedRequestBody)
    );
}

#[test]
fn build_rejects_an_empty_content_map() {
    let op = map(vec![(
        "requestBody",
        map(vec![("content", map(vec![]))]),
    )]);
    assert_eq!(
        LappedOperation::new("/users", "post", &op),
        Err(Error::EmptyContent)
    );
}
