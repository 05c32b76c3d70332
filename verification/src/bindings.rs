//! The named operations a template sees, bound against one immutable
//! document snapshot: `m`, `p`, `r`, `pr`, `ls`, `lsop`, and the
//! reference test. Lookups default to the lenient policy; dereferencing
//! never does.

use vstd::prelude::*;
use crate::error::Error;
use crate::listing::{child_entries, list, list_operations, operations_view, pair_views};
use crate::pointer::{resolve, resolve_view};
use crate::reference::{
    dereference, dereference_view, is_reference, is_reference_view, reference_target,
    resolve_and_dereference,
};
use crate::value::{DocumentValue, empty_object};

verus! {

/// Marker for the empty mapping the `m` operation yields.
pub struct Empty {}

/// One render's bindings: the immutable document snapshot and the
/// templates queued for it. Every named operation reads the same
/// snapshot; none mutates it.
pub struct Mandolin {
    pub api: DocumentValue,
    pub templates: Vec<String>,
}

impl Mandolin {
    /// Bindings over the given document snapshot, with no templates yet.
    pub fn new(api: DocumentValue) -> (m: Self)
        ensures
            m.api == api,
            m.templates@.len() == 0,
    {
        Mandolin { api, templates: Vec::new() }
    }

    /// Queues one more template for the render.
    pub fn template(&mut self, template: &str)
        ensures
            final(self).api == old(self).api,
            final(self).templates@.len() == old(self).templates@.len() + 1,
            final(self).templates@.last()@ == template@,
            forall|k: int|
                0 <= k < old(self).templates@.len() ==> final(self).templates@[k] == old(
                    self,
                ).templates@[k],
    {
        self.templates.push(template.to_owned());
    }

    /// The empty mapping.
    pub fn m(&self) -> (r: DocumentValue)
        ensures
            r@ == empty_object(),
    {
        DocumentValue::new_empty_object()
    }

    /// Lenient pointer resolution: a miss yields the empty-object
    /// sentinel, never an error.
    pub fn p(&self, pointer: &str) -> (r: DocumentValue)
        ensures
            match resolve_view(self.api@, pointer@) {
                Some(v) => r@ == v,
                None => r@ == empty_object(),
            },
    {
        let resolved = resolve(&self.api, pointer, true);
        match resolved {
            Ok(v) => v,
            Err(_) => DocumentValue::new_empty_object(),
        }
    }

    /// Strict dereference: a reference is followed one hop and a dangling
    /// one always fails; any other value passes through.
    pub fn r(&self, value: &DocumentValue) -> (res: Result<DocumentValue, Error>)
        ensures
            match dereference_view(self.api@, value@) {
                Some(w) => match res {
                    Ok(x) => x@ == w,
                    _ => false,
                },
                None => match res {
                    Err(Error::ReferenceTargetMissing(p)) => p@ == reference_target(value@),
                    _ => false,
                },
            },
    {
        dereference(&self.api, value, false)
    }

    /// Lenient resolution followed by strict dereference.
    pub fn pr(&self, pointer: &str) -> (res: Result<DocumentValue, Error>)
        ensures
            match resolve_view(self.api@, pointer@) {
                Some(v) => match dereference_view(self.api@, v) {
                    Some(w) => match res {
                        Ok(x) => x@ == w,
                        _ => false,
                    },
                    None => match res {
                        Err(Error::ReferenceTargetMissing(p)) => p@ == reference_target(v),
                        _ => false,
                    },
                },
                None => match res {
                    Ok(x) => x@ == empty_object(),
                    _ => false,
                },
            },
    {
        resolve_and_dereference(&self.api, pointer, true)
    }

    /// Lenient child enumeration with reconstructed pointers.
    pub fn ls(&self, pointer: &str) -> (res: Result<Vec<(String, DocumentValue)>, Error>)
        ensures
            match resolve_view(self.api@, pointer@) {
                Some(v) => match dereference_view(self.api@, v) {
                    Some(w) => match child_entries(pointer@, w) {
                        Some(cs) => match res {
                            Ok(out) => pair_views(out@) == cs,
                            _ => false,
                        },
                        None => match res {
                            Ok(out) => out@.len() == 0,
                            _ => false,
                        },
                    },
                    None => match res {
                        Err(Error::ReferenceTargetMissing(p)) => p@ == reference_target(v),
                        _ => false,
                    },
                },
                None => match res {
                    Ok(out) => out@.len() == 0,
                    _ => false,
                },
            },
    {
        list(&self.api, pointer, true)
    }

    /// Lenient per-operation enumeration under a paths node.
    pub fn lsop(&self, pointer: &str) -> (res: Result<Vec<(String, DocumentValue)>, Error>)
        ensures
            match resolve_view(self.api@, pointer@) {
                Some(v) => match dereference_view(self.api@, v) {
                    Some(w) => match child_entries(pointer@, w) {
                        Some(cs) => match res {
                            Ok(out) => pair_views(out@) == operations_view(self.api@, cs),
                            _ => false,
                        },
                        None => match res {
                            Ok(out) => out@.len() == 0,
                            _ => false,
                        },
                    },
                    None => match res {
                        Err(Error::ReferenceTargetMissing(p)) => p@ == reference_target(v),
                        _ => false,
                    },
                },
                None => match res {
                    Ok(out) => out@.len() == 0,
                    _ => false,
                },
            },
    {
        list_operations(&self.api, pointer, true)
    }

    /// Whether the value is a reference, without following it.
    pub fn is_ref(&self, value: &DocumentValue) -> (b: bool)
        ensures
            b == is_reference_view(value@),
    {
        is_reference(value)
    }
}

} // verus!
