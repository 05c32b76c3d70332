//! Reference following: a mapping whose `$ref` key holds text is an
//! indirection naming the pointer of the real definition. Following it is
//! never lenient — a dangling reference would otherwise be silently
//! replaced by an empty node and fabricate structurally wrong output.

use vstd::prelude::*;
use crate::error::Error;
use crate::pointer::{resolve, resolve_view};
use crate::value::{doc_get, DocView, DocumentValue, empty_object};

verus! {

/// Whether a node is a reference: a mapping whose `$ref` key holds text.
pub open spec fn is_reference_view(v: DocView) -> bool {
    match doc_get(v, "$ref"@) {
        Some(t) => t is Text,
        None => false,
    }
}

/// The pointer a reference names.
pub open spec fn reference_target(v: DocView) -> Seq<char>
    recommends
        is_reference_view(v),
{
    doc_get(v, "$ref"@).unwrap()->Text_0
}

/// Whether the node is a reference, without following it.
pub fn is_reference(value: &DocumentValue) -> (r: bool)
    ensures
        r == is_reference_view(value@),
{
    let key: String = "$ref".to_owned();
    let found = value.get(&key);
    match found {
        Some(w) => match w {
            DocumentValue::Text(_) => true,
            _ => false,
        },
        None => false,
    }
}

/// What following one indirection hop yields: the named target for a
/// reference, the node itself for anything else. `None` is a dangling
/// reference, which no mode tolerates.
pub open spec fn dereference_view(root: DocView, v: DocView) -> Option<DocView> {
    if is_reference_view(v) {
        resolve_view(root, reference_target(v))
    } else {
        Some(v)
    }
}

/// Follows one indirection hop if the value is a reference, else hands
/// the value back. The lenient flag is deliberately ignored: the outcome
/// is the strict one whatever it says.
pub fn dereference(root: &DocumentValue, value: &DocumentValue, lenient: bool) -> (r: Result<
    DocumentValue,
    Error,
>)
    ensures
        match dereference_view(root@, value@) {
            Some(w) => match r {
                Ok(x) => x@ == w,
                _ => false,
            },
            None => match r {
                Err(Error::ReferenceTargetMissing(p)) => p@ == reference_target(value@),
                _ => false,
            },
        },
{
    let key: String = "$ref".to_owned();
    let found = value.get(&key);
    let target_opt: Option<String> = match found {
        Some(w) => match w {
            DocumentValue::Text(s) => Some(s.clone()),
            _ => None,
        },
        None => None,
    };
    match target_opt {
        Some(target) => {
            proof {
                assert(is_reference_view(value@));
                assert(target@ == reference_target(value@));
            }
            let resolved = resolve(root, target.as_str(), false);
            match resolved {
                Ok(w) => Ok(w),
                Err(_) => Err(Error::ReferenceTargetMissing(target)),
            }
        },
        None => {
            proof {
                assert(!is_reference_view(value@));
            }
            Ok(value.clone())
        },
    }
}

/// Resolves a pointer, honouring the lenient flag, then follows one
/// indirection hop, never leniently.
pub fn resolve_and_dereference(root: &DocumentValue, pointer: &str, lenient: bool) -> (r: Result<
    DocumentValue,
    Error,
>)
    ensures
        match resolve_view(root@, pointer@) {
            Some(v) => match dereference_view(root@, v) {
                Some(w) => match r {
                    Ok(x) => x@ == w,
                    _ => false,
                },
                None => match r {
                    Err(Error::ReferenceTargetMissing(p)) => p@ == reference_target(v),
                    _ => false,
                },
            },
            None => {
                &&& lenient ==> match r {
                    Ok(x) => x@ == empty_object(),
                    _ => false,
                }
                &&& !lenient ==> match r {
                    Err(Error::PointerNotFound(q)) => q@ == pointer@,
                    _ => false,
                }
            },
        },
{
    let first = resolve(root, pointer, lenient);
    match first {
        Ok(v) => {
            proof {
                if resolve_view(root@, pointer@) is None {
                    assert(doc_get(empty_object(), "$ref"@) is None);
                    assert(!is_reference_view(empty_object()));
                    assert(dereference_view(root@, v@) == Some(v@));
                }
            }
            dereference(root, &v, false)
        },
        Err(e) => Err(e),
    }
}

} // verus!
