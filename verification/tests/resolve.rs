//! Pointer resolution, reference following and enumeration over a small
//! document.

use mandolin::error::Error;
use mandolin::listing::{list, list_operations};
use mandolin::pointer::resolve;
use mandolin::reference::{is_reference, resolve_and_dereference};
use mandolin::value::DocumentValue;
use mandolin::Mandolin;

fn t(s: &str) -> DocumentValue {
    DocumentValue::Text(s.to_string())
}

fn num(s: &str) -> DocumentValue {
    DocumentValue::Number(s.to_string())
}

fn map(entries: Vec<(&str, DocumentValue)>) -> DocumentValue {
    DocumentValue::Mapping(entries.into_iter().map(|(k, v)| (k.to_string(), v)).collect())
}

fn arr(items: Vec<DocumentValue>) -> DocumentValue {
    DocumentValue::Sequence(items)
}

fn empty_obj() -> DocumentValue {
    DocumentValue::Mapping(Vec::new())
}

/// A small document: two servers, one path with one operation, and one
/// component schema.
fn doc() -> DocumentValue {
    map(vec![
        (
            "servers",
            arr(vec![
                map(vec![("url", t("http://a.example"))]),
                map(vec![("url", t("http://b.example"))]),
            ]),
        ),
        (
            "paths",
            map(vec![(
                "/pets/{id}",
                map(vec![
                    ("description", t("pet lookup")),
                    ("get", map(vec![("operationId", t("getPet"))])),
                    ("head", map(vec![])),
                ]),
            )]),
        ),
        (
            "components",
            map(vec![(
                "schemas",
                map(vec![("Pet", map(vec![("type", t("object"))]))]),
            )]),
        ),
        ("a/b", map(vec![("~x", num("5"))])),
    ])
}

#[test]
fn root_pointer_returns_whole_document() {
    let d = doc();
    assert_eq!(resolve(&d, "#", false).unwrap(), doc());
    assert_eq!(resolve(&d, "", false).unwrap(), doc());
}

#[test]
fn resolve_descends_mappings_and_sequences() {
    let d = doc();
    assert_eq!(
        resolve(&d, "#/servers/0/url", false).unwrap(),
        t("http://a.example")
    );
    assert_eq!(
        resolve(&d, "#/paths/~1pets~1{id}/get/operationId", false).unwrap(),
        t("getPet")
    );
    assert_eq!(resolve(&d, "#/a~1b/~0x", false).unwrap(), num("5"));
}

#[test]
fn resolve_accepts_index_forms_std_accepts() {
    let d = doc();
    let b = resolve(&d, "#/servers/1", false).unwrap();
    assert_eq!(resolve(&d, "#/servers/+1", false).unwrap(), b);
    assert_eq!(resolve(&d, "#/servers/01", false).unwrap(), b);
    assert!(resolve(&d, "#/servers/2", false).is_err());
}

#[test]
fn lenient_miss_is_empty_object_strict_miss_is_error() {
    let d = doc();
    let m = Mandolin::new(doc());
    assert_eq!(m.p("#/components/schemas/Missing"), empty_obj());
    match resolve(&d, "#/components/schemas/Missing", false) {
        Err(Error::PointerNotFound(p)) => assert_eq!(p, "#/components/schemas/Missing"),
        other => panic!("expected PointerNotFound, got {:?}", other),
    }
}

#[test]
fn dereference_always_fails_on_dangling_reference() {
    let m = Mandolin::new(doc());
    let dangling = map(vec![("$ref", t("#/components/schemas/Missing"))]);
    // Even through the bindings whose other operations are lenient.
    match m.r(&dangling) {
        Err(Error::ReferenceTargetMissing(p)) => {
            assert_eq!(p, "#/components/schemas/Missing")
        },
        other => panic!("expected ReferenceTargetMissing, got {:?}", other),
    }
}

#[test]
fn dereference_follows_one_hop_and_passes_values_through() {
    let d = doc();
    let reference = map(vec![("$ref", t("#/components/schemas/Pet"))]);
    assert!(is_reference(&reference));
    assert!(!is_reference(&t("plain")));
    let m = Mandolin::new(doc());
    assert_eq!(m.r(&reference).unwrap(), map(vec![("type", t("object"))]));
    assert_eq!(m.r(&t("plain")).unwrap(), t("plain"));
    assert_eq!(
        resolve_and_dereference(&d, "#/components/schemas/Pet", true).unwrap(),
        map(vec![("type", t("object"))])
    );
}

#[test]
fn ls_lists_sequence_children_with_pointers() {
    let m = Mandolin::new(doc());
    let listed = m.ls("#/servers").unwrap();
    assert_eq!(
        listed,
        vec![
            (
                "#/servers/0".to_string(),
                map(vec![("url", t("http://a.example"))])
            ),
            (
                "#/servers/1".to_string(),
                map(vec![("url", t("http://b.example"))])
            ),
        ]
    );
}

#[test]
fn ls_pointers_resolve_back_to_their_values() {
    let d = doc();
    for base in ["#", "#/servers", "#/paths", "#/paths/~1pets~1{id}"] {
        for (p, v) in list(&d, base, false).unwrap() {
            assert_eq!(resolve(&d, &p, false).unwrap(), v);
        }
    }
}

#[test]
fn ls_on_scalar_is_error_only_in_strict_mode() {
    let d = doc();
    assert_eq!(list(&d, "#/paths/~1pets~1{id}/description", true).unwrap(), vec![]);
    match list(&d, "#/paths/~1pets~1{id}/description", false) {
        Err(Error::NotEnumerable(p)) => assert_eq!(p, "#/paths/~1pets~1{id}/description"),
        other => panic!("expected NotEnumerable, got {:?}", other),
    }
}

#[test]
fn lsop_keeps_exactly_the_method_children() {
    let m = Mandolin::new(doc());
    let ops = m.lsop("#/paths").unwrap();
    // `description` is not a method; `head` is. Order is document order.
    assert_eq!(
        ops,
        vec![
            (
                "#/paths/~1pets~1{id}/get".to_string(),
                map(vec![("operationId", t("getPet"))])
            ),
            ("#/paths/~1pets~1{id}/head".to_string(), map(vec![])),
        ]
    );
}

#[test]
fn lsop_on_missing_paths_is_empty_in_lenient_mode() {
    let d = doc();
    assert_eq!(list_operations(&d, "#/nowhere", true).unwrap(), vec![]);
}

#[test]
fn m_yields_the_empty_mapping() {
    let m = Mandolin::new(doc());
    assert_eq!(m.m(), empty_obj());
}

#[test]
fn templates_accumulate_in_order() {
    let mut m = Mandolin::new(doc());
    m.template("first");
    m.template("second");
    assert_eq!(m.templates, vec!["first".to_string(), "second".to_string()]);
}

#[test]
fn dereference_follows_only_one_hop() {
    let d = map(vec![
        ("first", map(vec![("$ref", t("#/second"))])),
        ("second", map(vec![("$ref", t("#/third"))])),
        ("third", t("done")),
    ]);
    let m = Mandolin::new(d);
    let hop = m.pr("#/first").unwrap();
    // One indirection hop only: the target may itself be a reference,
    // which is handed back unresolved.
    assert_eq!(hop, map(vec![("$ref", t("#/third"))]));
    assert_eq!(m.p("#/first"), map(vec![("$ref", t("#/second"))]));
}

#[test]
fn lsop_follows_a_referenced_path_item() {
    let d = map(vec![
        (
            "paths",
            map(vec![("/pets", map(vec![("$ref", t("#/shared"))]))]),
        ),
        (
            "shared",
            map(vec![("get", t("G")), ("summary", t("s")), ("put", t("P"))]),
        ),
    ]);
    let ops = list_operations(&d, "#/paths", true).unwrap();
    // The path item is found through its reference; the reconstructed
    // pointers still hang under the path entry.
    assert_eq!(
        ops,
        vec![
            ("#/paths/~1pets/get".to_string(), t("G")),
            ("#/paths/~1pets/put".to_string(), t("P")),
        ]
    );
}

#[test]
fn non_method_keys_that_end_like_methods_are_excluded() {
    let d = map(vec![(
        "paths",
        map(vec![(
            "/x",
            map(vec![("overhead", t("no")), ("forget", t("no")), ("get", t("yes"))]),
        )]),
    )]);
    let ops = list_operations(&d, "#/paths", true).unwrap();
    // The whole final segment must be a method name, not just its tail.
    assert_eq!(ops, vec![("#/paths/~1x/get".to_string(), t("yes"))]);
}
