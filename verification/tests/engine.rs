//! Naming and segment-escaping behaviour.

use mandolin::escape::{escape_chars, strip_pass_chars, unescape_chars};
use mandolin::naming::camel_case;
use mandolin::text::{parse_index, usize_to_string};

fn chars(s: &str) -> Vec<char> {
    s.chars().collect()
}

fn text_of(v: &Vec<char>) -> String {
    v.iter().collect()
}

#[test]
fn test_camel_case() {
    println!("{}", camel_case("abc_def"));
    assert_eq!(camel_case("abc_def"), "abcDef");
}

#[test]
fn camel_case_tokens() {
    assert_eq!(camel_case("request_GetUser"), "requestGetUser");
    assert_eq!(camel_case("request_body_get_pets_{id}"), "requestBodyGetPets{id}");
    assert_eq!(camel_case("a-b c/d"), "aBCD");
    assert_eq!(camel_case(""), "");
    assert_eq!(camel_case("___"), "");
    assert_eq!(camel_case("Already"), "already");
}

#[test]
fn camel_case_idempotent_samples() {
    for s in ["abc_def", "getPetsById", "request_GetUser", "x"] {
        let once = camel_case(s);
        assert_eq!(camel_case(&once), once);
    }
}

#[test]
fn escape_round_trip_plain() {
    for s in ["", "abc", "a~b", "a/b", "~", "/", "a~0b", "~~//"] {
        let v = chars(s);
        let enc = escape_chars(&v);
        let dec = unescape_chars(&enc);
        assert_eq!(text_of(&dec), s);
    }
}

#[test]
fn escape_emits_known_forms() {
    assert_eq!(text_of(&escape_chars(&chars("a~b/c"))), "a~0b~1c");
    assert_eq!(text_of(&unescape_chars(&chars("a~0b~1c"))), "a~b/c");
}

#[test]
fn unescape_double_unescapes_tilde_one() {
    // The fixed pass order first turns `~01` into `~1`, then eats that
    // `~1` as an escape: pinned behaviour, not corrected.
    assert_eq!(text_of(&unescape_chars(&chars("~01"))), "/");
    // So a segment holding a literal `~1` does not survive the round trip.
    let enc = escape_chars(&chars("~1"));
    assert_eq!(text_of(&enc), "~01");
    assert_eq!(text_of(&unescape_chars(&enc)), "/");
}

#[test]
fn unescape_passes_run_in_order() {
    let first = strip_pass_chars(&chars("~0~1"), '0', '~');
    assert_eq!(text_of(&first), "~~1");
    let second = strip_pass_chars(&first, '1', '/');
    assert_eq!(text_of(&second), "~/");
}

#[test]
fn index_text_round_trip() {
    assert_eq!(usize_to_string(0), "0");
    assert_eq!(usize_to_string(10), "10");
    assert_eq!(usize_to_string(90210), "90210");
    assert_eq!(parse_index(&chars("90210")), Some(90210));
    assert_eq!(parse_index(&chars("+7")), Some(7));
    assert_eq!(parse_index(&chars("007")), Some(7));
    assert_eq!(parse_index(&chars("")), None);
    assert_eq!(parse_index(&chars("+")), None);
    assert_eq!(parse_index(&chars("1a")), None);
    assert_eq!(parse_index(&chars("99999999999999999999999999")), None);
}
