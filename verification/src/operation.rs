//! Derived operation records: the default-content selector and the
//! decorated per-operation record handed to templates. Every record
//! embeds its source payload unchanged — decoration is additive.

use vstd::prelude::*;
use crate::error::Error;
use crate::listing::pair_views;
use crate::naming::{camel, camel_case};
use crate::reference::{is_reference, is_reference_view};
use crate::text::{chars_of, concat_str, string_of};
use crate::value::{doc_get, DocView, DocumentValue};

verus! {

/// A chosen content entry: the media-type key and its definition.
#[derive(Debug, PartialEq, Eq)]
pub struct LappedMediaType {
    pub media_type: String,
    pub media: DocumentValue,
}

/// A decorated inline request body: the chosen default content, the
/// derived identifier, and the body payload unchanged.
#[derive(Debug, PartialEq, Eq)]
pub struct LappedRequestBody {
    pub default_content: LappedMediaType,
    pub identifier: String,
    pub request_body: DocumentValue,
}

/// A decorated operation: naming derived from the declared identifier or
/// the method and path, the optional decorated request body, and the
/// operation payload unchanged.
#[derive(Debug, PartialEq, Eq)]
pub struct LappedOperation {
    pub path: String,
    pub method: String,
    pub function: String,
    pub request_identifier: String,
    pub response_identifier: String,
    pub request_body: Option<LappedRequestBody>,
    pub operation: DocumentValue,
}

/// Whether the text holds `json` anywhere.
pub open spec fn contains_json(s: Seq<char>) -> bool {
    exists|i: int| 0 <= i && i + 4 <= s.len() && #[trigger] s.subrange(i, i + 4) == "json"@
}

/// Position of the first key holding `json`, if any.
pub open spec fn first_json_index(entries: Seq<(Seq<char>, DocView)>) -> Option<int>
    decreases entries.len(),
{
    if entries.len() == 0 {
        None
    } else if contains_json(entries[0].0) {
        Some(0)
    } else {
        match first_json_index(entries.drop_first()) {
            Some(j) => Some(j + 1),
            None => None,
        }
    }
}

/// The entry selection picks: the first whose key holds `json`, else the
/// first declared.
pub open spec fn selected_index(entries: Seq<(Seq<char>, DocView)>) -> int {
    match first_json_index(entries) {
        Some(j) => j,
        None => 0,
    }
}

/// If no key before position `j` holds `json`, the first-json outcome is
/// decided at or after `j`.
proof fn lemma_first_json_prefix(entries: Seq<(Seq<char>, DocView)>, j: int)
    requires
        0 <= j <= entries.len(),
        forall|k: int| 0 <= k < j ==> !contains_json((#[trigger] entries[k]).0),
    ensures
        j < entries.len() && contains_json(entries[j].0) ==> first_json_index(entries) == Some(j),
        j == entries.len() ==> first_json_index(entries) is None,
    decreases j,
{
    if j > 0 {
        assert(!contains_json(entries[0].0));
        assert(forall|k: int|
            0 <= k < entries.drop_first().len() ==> #[trigger] entries.drop_first()[k]
                == entries[k + 1]);
        lemma_first_json_prefix(entries.drop_first(), j - 1);
    }
}

/// Whether the string holds `json` anywhere.
#[verifier::loop_isolation(false)]
pub fn contains_json_str(s: &str) -> (b: bool)
    ensures
        b == contains_json(s@),
{
    let chars = chars_of(s);
    let n = chars.len();
    if n < 4 {
        proof {
            assert(!contains_json(s@));
        }
        return false;
    }
    let mut i: usize = 0;
    while i <= n - 4
        invariant
            0 <= i,
            i + 3 <= n,
            n == s@.len(),
            chars@ == s@,
            forall|k: int| 0 <= k < i ==> #[trigger] s@.subrange(k, k + 4) != "json"@,
        decreases n - i,
    {
        if chars[i] == 'j' && chars[i + 1] == 's' && chars[i + 2] == 'o' && chars[i + 3] == 'n' {
            proof {
                reveal_strlit("json");
                assert(s@.subrange(i as int, i + 4) =~= "json"@);
            }
            return true;
        }
        proof {
            reveal_strlit("json");
            assert(s@.subrange(i as int, i + 4) != "json"@) by {
                if s@.subrange(i as int, i + 4) == "json"@ {
                    assert(s@.subrange(i as int, i + 4)[0] == 'j');
                    assert(s@.subrange(i as int, i + 4)[1] == 's');
                    assert(s@.subrange(i as int, i + 4)[2] == 'o');
                    assert(s@.subrange(i as int, i + 4)[3] == 'n');
                }
            }
        }
        i = i + 1;
    }
    proof {
        reveal_strlit("json");
        assert(!contains_json(s@)) by {
            if contains_json(s@) {
                let w = choose|k: int|
                    0 <= k && k + 4 <= s@.len() && #[trigger] s@.subrange(k, k + 4) == "json"@;
                assert(w < i);
            }
        }
    }
    false
}

impl LappedMediaType {
    /// Picks the default content entry: the first declared whose key
    /// holds `json`, else the first declared. An empty content map has
    /// no default and is an error.
    #[verifier::loop_isolation(false)]
    pub fn select(content: &Vec<(String, DocumentValue)>) -> (r: Result<LappedMediaType, Error>)
        ensures
            content@.len() == 0 ==> match r {
                Err(Error::EmptyContent) => true,
                _ => false,
            },
            content@.len() > 0 ==> match r {
                Ok(m) => {
                    let j = selected_index(pair_views(content@));
                    &&& m.media_type@ == pair_views(content@)[j].0
                    &&& m.media@ == pair_views(content@)[j].1
                },
                _ => false,
            },
    {
        let n = content.len();
        if n == 0 {
            return Err(Error::EmptyContent);
        }
        let ghost ev = pair_views(content@);
        let mut i: usize = 0;
        while i < n
            invariant
                0 <= i <= n,
                n == content@.len(),
                ev == pair_views(content@),
                forall|k: int| 0 <= k < i ==> !contains_json((#[trigger] ev[k]).0),
            decreases n - i,
        {
            let hit = contains_json_str(content[i].0.as_str());
            proof {
                assert(ev[i as int].0 == content@[i as int].0@);
            }
            if hit {
                proof {
                    lemma_first_json_prefix(ev, i as int);
                    assert(selected_index(ev) == i as int);
                }
                return Ok(
                    LappedMediaType {
                        media_type: content[i].0.clone(),
                        media: content[i].1.clone(),
                    },
                );
            }
            i = i + 1;
        }
        proof {
            lemma_first_json_prefix(ev, n as int);
            assert(selected_index(ev) == 0);
        }
        Ok(LappedMediaType { media_type: content[0].0.clone(), media: content[0].1.clone() })
    }
}

/// `/` became `_` everywhere.
pub open spec fn underscored(s: Seq<char>) -> Seq<char> {
    s.map_values(
        |c: char|
            if c == '/' {
                '_'
            } else {
                c
            },
    )
}

/// The operation's function name: its declared text identifier if it has
/// one, else the method and the path template joined, with every `/`
/// turned into `_` and nothing deduplicated.
pub open spec fn function_name(method: Seq<char>, path: Seq<char>, op: DocView) -> Seq<char> {
    let d = doc_get(op, "operationId"@);
    if d is Some && d.unwrap() is Text {
        d.unwrap()->Text_0
    } else {
        underscored(method + path)
    }
}

/// The method and path joined, with `/` as `_`.
#[verifier::loop_isolation(false)]
fn underscored_name(method: &str, path: &str) -> (r: String)
    ensures
        r@ == underscored(method@ + path@),
{
    let joined = concat_str(method, path);
    let chars = chars_of(joined.as_str());
    let n = chars.len();
    let mut out: Vec<char> = Vec::new();
    let mut i: usize = 0;
    while i < n
        invariant
            0 <= i <= n,
            n == joined@.len(),
            chars@ == joined@,
            out@.len() == i,
            forall|k: int| 0 <= k < i ==> out@[k] == underscored(joined@)[k],
        decreases n - i,
    {
        let c = chars[i];
        if c == '/' {
            out.push('_');
        } else {
            out.push(c);
        }
        i = i + 1;
    }
    proof {
        assert(out@ =~= underscored(method@ + path@));
    }
    string_of(&out)
}

impl LappedOperation {
    /// Builds the decorated record for one (path, method, operation)
    /// triple. A request body given by reference, or one declaring no
    /// content type, is an invalid input and fails; both checks are
    /// unconditional.
    pub fn new(path: &str, method: &str, operation: &DocumentValue) -> (r: Result<
        LappedOperation,
        Error,
    >)
        ensures
            ({
                let f = function_name(method@, path@, operation@);
                match doc_get(operation@, "requestBody"@) {
                    Some(rb) => {
                        if is_reference_view(rb) {
                            match r {
                                Err(Error::UnsupportedReferencedRequestBody) => true,
                                _ => false,
                            }
                        } else {
                            let c = doc_get(rb, "content"@);
                            if c is Some && c.unwrap() is Mapping && c.unwrap()->Mapping_0.len()
                                > 0 {
                                match r {
                                    Ok(op) => {
                                        &&& op.request_body is Some
                                        &&& {
                                            let b = op.request_body.unwrap();
                                            let entries = c.unwrap()->Mapping_0;
                                            let j = selected_index(entries);
                                            &&& b.request_body@ == rb
                                            &&& b.identifier@ == camel("request_body_"@ + f)
                                            &&& b.default_content.media_type@ == entries[j].0
                                            &&& b.default_content.media@ == entries[j].1
                                        }
                                    },
                                    _ => false,
                                }
                            } else {
                                match r {
                                    Err(Error::EmptyContent) => true,
                                    _ => false,
                                }
                            }
                        }
                    },
                    None => match r {
                        Ok(op) => op.request_body is None,
                        _ => false,
                    },
                }
            }),
            match r {
                Ok(op) => {
                    let f = function_name(method@, path@, operation@);
                    &&& op.path@ == path@
                    &&& op.method@ == method@
                    &&& op.function@ == f
                    &&& op.request_identifier@ == camel("request_"@ + f)
                    &&& op.response_identifier@ == camel("response_"@ + f)
                    &&& op.operation@ == operation@
                },
                Err(_) => true,
            },
    {
        let oid_key: String = "operationId".to_owned();
        let found_id = operation.get(&oid_key);
        let function: String = match found_id {
            Some(w) => match w {
                DocumentValue::Text(s) => s.clone(),
                _ => underscored_name(method, path),
            },
            None => underscored_name(method, path),
        };
        proof {
            assert(function@ == function_name(method@, path@, operation@));
        }
        let rb_key: String = "requestBody".to_owned();
        let found_rb = operation.get(&rb_key);
        let body: Option<LappedRequestBody> = match found_rb {
            None => None,
            Some(rb) => {
                if is_reference(rb) {
                    return Err(Error::UnsupportedReferencedRequestBody);
                }
                let content_key: String = "content".to_owned();
                let found_content = rb.get(&content_key);
                let selected: Result<LappedMediaType, Error> = match found_content {
                    Some(cv) => match cv {
                        DocumentValue::Mapping(entries) => {
                            proof {
                                assert(pair_views(entries@) =~= cv@->Mapping_0);
                            }
                            if entries.len() == 0 {
                                Err(Error::EmptyContent)
                            } else {
                                LappedMediaType::select(entries)
                            }
                        },
                        _ => Err(Error::EmptyContent),
                    },
                    None => Err(Error::EmptyContent),
                };
                match selected {
                    Ok(mt) => {
                        let seed = concat_str("request_body_", function.as_str());
                        Some(
                            LappedRequestBody {
                                default_content: mt,
                                identifier: camel_case(seed.as_str()),
                                request_body: rb.clone(),
                            },
                        )
                    },
                    Err(e) => {
                        return Err(e);
                    },
                }
            },
        };
        let req_seed = concat_str("request_", function.as_str());
        let resp_seed = concat_str("response_", function.as_str());
        Ok(
            LappedOperation {
                path: path.to_owned(),
                method: method.to_owned(),
                function,
                request_identifier: camel_case(req_seed.as_str()),
                response_identifier: camel_case(resp_seed.as_str()),
                request_body: body,
                operation: operation.clone(),
            },
        )
    }
}

} // verus!
