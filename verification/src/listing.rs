//! Child enumeration and operation flattening. Enumerating a node lists
//! its children together with reconstructed pointers; flattening a paths
//! node lists the per-method operation records two levels below it.

use vstd::prelude::*;
use crate::error::Error;
use crate::escape::{escaped, escape_chars, has_tilde_one, lemma_escaped_no_slash, lemma_unescape_escape, lemma_unescaped_identity};
use crate::pointer::{lemma_pieces_len, lemma_pieces_one, lemma_resolve_snoc, lemma_resolve_wf, lemma_segments_snoc, pieces, resolve_segments, resolve_view, segments, step_view};
use crate::reference::{dereference_view, is_reference_view, reference_target, resolve_and_dereference};
use crate::text::{chars_of, decimal, index_body, index_val, is_index, lemma_decimal_digits, lemma_decimal_value, string_of, usize_to_string};
use crate::value::{lemma_map_lookup_at, wf, DocView, DocumentValue};

verus! {

/// The children of a node under a base pointer: one pair per mapping
/// entry (keyed by the escaped key) or per sequence element (keyed by the
/// decimal index), in document order. Scalars have none.
pub open spec fn child_entries(base: Seq<char>, v: DocView) -> Option<Seq<(Seq<char>, DocView)>> {
    match v {
        DocView::Mapping(entries) => Some(
            Seq::new(
                entries.len(),
                |i: int| (base + seq!['/'] + escaped(entries[i].0), entries[i].1),
            ),
        ),
        DocView::Sequence(items) => Some(
            Seq::new(items.len(), |i: int| (base + seq!['/'] + decimal(i as nat), items[i])),
        ),
        _ => None,
    }
}

/// The views of listed pairs.
pub open spec fn pair_views(s: Seq<(String, DocumentValue)>) -> Seq<(Seq<char>, DocView)> {
    s.map_values(|p: (String, DocumentValue)| (p.0@, p.1@))
}

/// The child pointer: the base pointer, a slash, and the child's segment.
fn join_pointer(base: &str, seg: &Vec<char>) -> (r: String)
    ensures
        r@ == base@ + seq!['/'] + seg@,
{
    let mut s = base.to_owned();
    s.push('/');
    let t = string_of(seg);
    s.append(t.as_str());
    proof {
        assert(s@ =~= base@ + seq!['/'] + seg@);
    }
    s
}

/// Lists a node's children as (pointer, value) pairs. The node is found
/// by pointer (honouring the lenient flag) and dereferenced strictly; a
/// scalar yields the empty listing in lenient mode and `NotEnumerable`
/// otherwise.
#[verifier::loop_isolation(false)]
pub fn list(root: &DocumentValue, pointer: &str, lenient: bool) -> (r: Result<
    Vec<(String, DocumentValue)>,
    Error,
>)
    ensures
        match resolve_view(root@, pointer@) {
            Some(v) => match dereference_view(root@, v) {
                Some(w) => match child_entries(pointer@, w) {
                    Some(cs) => match r {
                        Ok(out) => pair_views(out@) == cs,
                        _ => false,
                    },
                    None => {
                        &&& lenient ==> match r {
                            Ok(out) => out@.len() == 0,
                            _ => false,
                        }
                        &&& !lenient ==> match r {
                            Err(Error::NotEnumerable(q)) => q@ == pointer@,
                            _ => false,
                        }
                    },
                },
                None => match r {
                    Err(Error::ReferenceTargetMissing(p)) => p@ == reference_target(v),
                    _ => false,
                },
            },
            None => {
                &&& lenient ==> match r {
                    Ok(out) => out@.len() == 0,
                    _ => false,
                }
                &&& !lenient ==> match r {
                    Err(Error::PointerNotFound(q)) => q@ == pointer@,
                    _ => false,
                }
            },
        },
{
    let target = match resolve_and_dereference(root, pointer, lenient) {
        Ok(v) => v,
        Err(e) => {
            return Err(e);
        },
    };
    match &target {
        DocumentValue::Mapping(entries) => {
            let ghost eview = target@->Mapping_0;
            let ghost cs = child_entries(pointer@, target@).unwrap();
            let n = entries.len();
            let mut out: Vec<(String, DocumentValue)> = Vec::new();
            let mut j: usize = 0;
            while j < n
                invariant
                    0 <= j <= n,
                    n == entries@.len(),
                    out@.len() == j,
                    forall|k: int|
                        0 <= k < j ==> (#[trigger] out@[k]).0@ == cs[k].0 && out@[k].1@
                            == cs[k].1,
                decreases n - j,
            {
                let key_chars = chars_of(entries[j].0.as_str());
                let enc = escape_chars(&key_chars);
                let ptr = join_pointer(pointer, &enc);
                let child = entries[j].1.clone();
                out.push((ptr, child));
                proof {
                    assert(eview[j as int].0 == entries@[j as int].0@);
                    assert(eview[j as int].1 == entries@[j as int].1@);
                    assert(cs[j as int] == (
                        pointer@ + seq!['/'] + escaped(eview[j as int].0),
                        eview[j as int].1,
                    ));
                }
                j = j + 1;
            }
            proof {
                assert(pair_views(out@) =~= cs);
            }
            Ok(out)
        },
        DocumentValue::Sequence(items) => {
            let ghost iview = target@->Sequence_0;
            let ghost cs = child_entries(pointer@, target@).unwrap();
            let n = items.len();
            let mut out: Vec<(String, DocumentValue)> = Vec::new();
            let mut j: usize = 0;
            while j < n
                invariant
                    0 <= j <= n,
                    n == items@.len(),
                    out@.len() == j,
                    forall|k: int|
                        0 <= k < j ==> (#[trigger] out@[k]).0@ == cs[k].0 && out@[k].1@
                            == cs[k].1,
                decreases n - j,
            {
                let digits = chars_of(usize_to_string(j).as_str());
                let ptr = join_pointer(pointer, &digits);
                let child = items[j].clone();
                out.push((ptr, child));
                proof {
                    assert(iview[j as int] == items@[j as int]@);
                    assert(cs[j as int] == (
                        pointer@ + seq!['/'] + decimal(j as nat),
                        iview[j as int],
                    ));
                }
                j = j + 1;
            }
            proof {
                assert(pair_views(out@) =~= cs);
            }
            Ok(out)
        },
        _ => {
            if lenient {
                Ok(Vec::new())
            } else {
                Err(Error::NotEnumerable(pointer.to_owned()))
            }
        },
    }
}


/// One of the eight method names an operation can stand under.
pub open spec fn is_method(s: Seq<char>) -> bool {
    ||| s == "get"@
    ||| s == "put"@
    ||| s == "post"@
    ||| s == "delete"@
    ||| s == "options"@
    ||| s == "head"@
    ||| s == "patch"@
    ||| s == "trace"@
}

/// The last piece of a pointer: the text after its final `/`, or the
/// whole pointer when it has no `/` at all.
pub open spec fn last_piece(p: Seq<char>) -> Seq<char> {
    pieces(p).last()
}

/// Keeps exactly the pairs whose pointer ends in a method segment.
pub open spec fn method_filter() -> spec_fn((Seq<char>, DocView)) -> bool {
    |e: (Seq<char>, DocView)| is_method(last_piece(e.0))
}

/// What lenient enumeration yields with every failure degraded to the
/// empty listing: the shape the operation flattener consumes.
pub open spec fn list_default_view(root: DocView, base: Seq<char>) -> Seq<(Seq<char>, DocView)> {
    match resolve_view(root, base) {
        Some(v) => match dereference_view(root, v) {
            Some(w) => match child_entries(base, w) {
                Some(cs) => cs,
                None => Seq::empty(),
            },
            None => Seq::empty(),
        },
        None => Seq::empty(),
    }
}

/// The operation records under a paths node's children: each child's own
/// children whose pointer ends in a method segment, in document order.
/// Path-item fields that are not methods are left out; nothing of the
/// parent path item is merged in.
pub open spec fn operations_view(root: DocView, cs: Seq<(Seq<char>, DocView)>) -> Seq<
    (Seq<char>, DocView),
>
    decreases cs.len(),
{
    if cs.len() == 0 {
        Seq::empty()
    } else {
        list_default_view(root, cs[0].0).filter(method_filter()) + operations_view(
            root,
            cs.drop_first(),
        )
    }
}

proof fn lemma_pieces_last_after_slash(s: Seq<char>, j: int)
    requires
        0 <= j < s.len(),
        s[j] == '/',
        forall|m: int| j < m < s.len() ==> s[m] != '/',
    ensures
        pieces(s).len() >= 2,
        pieces(s).last() == s.skip(j + 1),
    decreases s.len(),
{
    let rest = s.drop_first();
    assert(forall|m: int| 0 <= m < rest.len() ==> rest[m] == s[m + 1]);
    if j == 0 {
        lemma_pieces_one(rest);
        assert(pieces(s) =~= seq![Seq::<char>::empty()] + seq![rest]);
        assert(pieces(s).last() == rest);
        assert(rest =~= s.skip(1));
    } else {
        lemma_pieces_last_after_slash(rest, j - 1);
        lemma_pieces_len(rest);
        assert(rest.skip(j) =~= s.skip(j + 1));
        if s[0] == '/' {
            assert(pieces(s) == seq![Seq::<char>::empty()] + pieces(rest));
            assert(pieces(s).last() == pieces(rest).last());
        } else {
            let q = pieces(rest);
            assert(pieces(s) == seq![seq![s[0]] + q[0]] + q.drop_first());
            assert(q.drop_first().len() >= 1);
            assert(pieces(s).last() == q.drop_first().last());
            assert(q.drop_first().last() == q.last());
        }
    }
}

/// The last piece of a pointer string, as characters.
#[verifier::loop_isolation(false)]
fn last_piece_chars(s: &String) -> (r: Vec<char>)
    ensures
        r@ == last_piece(s@),
{
    let chars = chars_of(s.as_str());
    let n = chars.len();
    let mut cut: usize = 0;
    let mut found = false;
    let mut i: usize = 0;
    while i < n
        invariant
            0 <= i <= n,
            n == s@.len(),
            found ==> 1 <= cut <= i && s@[cut - 1] == '/' && (forall|m: int|
                cut <= m < i ==> s@[m] != '/'),
            !found ==> cut == 0 && (forall|m: int| 0 <= m < i ==> s@[m] != '/'),
        decreases n - i,
    {
        if chars[i] == '/' {
            cut = i + 1;
            found = true;
        }
        i = i + 1;
    }
    let mut out: Vec<char> = Vec::new();
    let mut k: usize = cut;
    while k < n
        invariant
            cut <= k <= n,
            out@ == s@.subrange(cut as int, k as int),
        decreases n - k,
    {
        out.push(chars[k]);
        proof {
            assert(out@ =~= s@.subrange(cut as int, k + 1));
        }
        k = k + 1;
    }
    proof {
        if found {
            lemma_pieces_last_after_slash(s@, cut - 1);
            assert(out@ =~= s@.skip(cut as int));
        } else {
            lemma_pieces_one(s@);
            assert(out@ =~= s@);
        }
    }
    out
}

/// Whether the characters spell a method name.
fn is_method_chars(v: &Vec<char>) -> (b: bool)
    ensures
        b == is_method(v@),
{
    let s = string_of(v);
    if s.eq(&"get".to_owned()) {
        true
    } else if s.eq(&"put".to_owned()) {
        true
    } else if s.eq(&"post".to_owned()) {
        true
    } else if s.eq(&"delete".to_owned()) {
        true
    } else if s.eq(&"options".to_owned()) {
        true
    } else if s.eq(&"head".to_owned()) {
        true
    } else if s.eq(&"patch".to_owned()) {
        true
    } else if s.eq(&"trace".to_owned()) {
        true
    } else {
        false
    }
}

/// Flattens a paths node into per-operation records: for every child of
/// the node (one per path template), the child's own children whose
/// pointer ends in one of the eight method names, in document order.
/// Failures of the inner enumerations degrade to empty listings; nothing
/// of the parent path item is merged into the records.
#[verifier::loop_isolation(false)]
pub fn list_operations(root: &DocumentValue, pointer: &str, lenient: bool) -> (r: Result<
    Vec<(String, DocumentValue)>,
    Error,
>)
    ensures
        match resolve_view(root@, pointer@) {
            Some(v) => match dereference_view(root@, v) {
                Some(w) => match child_entries(pointer@, w) {
                    Some(cs) => match r {
                        Ok(out) => pair_views(out@) == operations_view(root@, cs),
                        _ => false,
                    },
                    None => {
                        &&& lenient ==> match r {
                            Ok(out) => out@.len() == 0,
                            _ => false,
                        }
                        &&& !lenient ==> match r {
                            Err(Error::NotEnumerable(q)) => q@ == pointer@,
                            _ => false,
                        }
                    },
                },
                None => match r {
                    Err(Error::ReferenceTargetMissing(p)) => p@ == reference_target(v),
                    _ => false,
                },
            },
            None => {
                &&& lenient ==> match r {
                    Ok(out) => out@.len() == 0,
                    _ => false,
                }
                &&& !lenient ==> match r {
                    Err(Error::PointerNotFound(q)) => q@ == pointer@,
                    _ => false,
                }
            },
        },
{
    let outer = match list(root, pointer, lenient) {
        Ok(v) => v,
        Err(e) => {
            return Err(e);
        },
    };
    let ghost cs = pair_views(outer@);
    let mut out: Vec<(String, DocumentValue)> = Vec::new();
    let no = outer.len();
    let mut i: usize = 0;
    proof {
        assert(cs.skip(0) =~= cs);
        assert(pair_views(out@) =~= Seq::<(Seq<char>, DocView)>::empty());
    }
    while i < no
        invariant
            0 <= i <= no,
            no == outer@.len(),
            cs == pair_views(outer@),
            operations_view(root@, cs) == pair_views(out@) + operations_view(
                root@,
                cs.skip(i as int),
            ),
        decreases no - i,
    {
        let ghost out0 = pair_views(out@);
        let inner = match list(root, outer[i].0.as_str(), lenient) {
            Ok(v) => v,
            Err(_) => Vec::new(),
        };
        let ghost iv = pair_views(inner@);
        let ghost ldv = list_default_view(root@, cs[i as int].0);
        proof {
            assert(outer@[i as int].0@ == cs[i as int].0);
            assert(iv =~= ldv);
        }
        let ni = inner.len();
        let mut j: usize = 0;
        proof {
            reveal(Seq::filter);
            assert(iv.take(0).filter(method_filter()) =~= Seq::<(Seq<char>, DocView)>::empty());
            assert(pair_views(out@) =~= out0 + iv.take(0).filter(method_filter()));
        }
        while j < ni
            invariant
                0 <= j <= ni,
                ni == inner@.len(),
                iv == pair_views(inner@),
                pair_views(out@) == out0 + iv.take(j as int).filter(method_filter()),
            decreases ni - j,
        {
            let ghost fpre = iv.take(j as int).filter(method_filter());
            let lp = last_piece_chars(&inner[j].0);
            let keep = is_method_chars(&lp);
            proof {
                reveal(Seq::filter);
                assert(iv[j as int].0 == inner@[j as int].0@);
                assert(iv.take(j + 1).drop_last() =~= iv.take(j as int));
                assert(iv.take(j + 1).last() == iv[j as int]);
            }
            if keep {
                let p = inner[j].0.clone();
                let w = inner[j].1.clone();
                let ghost pv0 = pair_views(out@);
                out.push((p, w));
                proof {
                    reveal(Seq::filter);
                    assert(method_filter()(iv[j as int]));
                    assert(iv.take(j + 1).filter(method_filter()) =~= fpre.push(iv[j as int]));
                    assert((p@, w@) == iv[j as int]);
                    assert(pair_views(out@) =~= pv0.push(iv[j as int]));
                    assert(out0 + fpre.push(iv[j as int]) =~= pv0.push(iv[j as int]));
                    assert(pair_views(out@) =~= out0 + iv.take(j + 1).filter(method_filter()));
                }
            } else {
                proof {
                    reveal(Seq::filter);
                    assert(!method_filter()(iv[j as int]));
                    assert(iv.take(j + 1).filter(method_filter()) =~= fpre);
                }
            }
            j = j + 1;
        }
        proof {
            assert(iv.take(ni as int) =~= iv);
            assert(cs.skip(i as int)[0] == cs[i as int]);
            assert(cs.skip(i as int).drop_first() =~= cs.skip(i + 1));
            assert(operations_view(root@, cs.skip(i as int)) == ldv.filter(method_filter())
                + operations_view(root@, cs.skip(i + 1)));
            assert(pair_views(out@) + operations_view(root@, cs.skip(i + 1)) =~= out0 + (ldv.filter(
                method_filter(),
            ) + operations_view(root@, cs.skip(i + 1))));
        }
        i = i + 1;
    }
    proof {
        assert(cs.skip(no as int) =~= Seq::<(Seq<char>, DocView)>::empty());
        assert(operations_view(root@, cs.skip(no as int)) =~= Seq::<(Seq<char>, DocView)>::empty());
        assert(pair_views(out@) =~= operations_view(root@, cs));
    }
    Ok(out)
}


/// Every pointer handed out by enumeration leads back, by strict
/// resolution, to exactly the value it was paired with. This holds over a
/// well-formed document (no duplicate mapping keys) when the enumerated
/// node itself is no reference (enumeration follows a reference,
/// resolution descends into it) and none of its keys holds a literal
/// `~1`, whose escape does not survive the fixed unescape order.
pub proof fn lemma_list_round_trip(root: DocView, base: Seq<char>, v: DocView)
    requires
        wf(root),
        resolve_view(root, base) == Some(v),
        !is_reference_view(v),
        v is Mapping ==> forall|i: int|
            0 <= i < v->Mapping_0.len() ==> !has_tilde_one((#[trigger] v->Mapping_0[i]).0),
        v is Sequence ==> v->Sequence_0.len() <= usize::MAX,
        child_entries(base, v) is Some,
    ensures
        forall|k: int|
            0 <= k < child_entries(base, v).unwrap().len() ==> resolve_view(
                root,
                (#[trigger] child_entries(base, v).unwrap()[k]).0,
            ) == Some(child_entries(base, v).unwrap()[k].1),
{
    let cs = child_entries(base, v).unwrap();
    lemma_resolve_wf(root, segments(base));
    if v is Mapping {
        let entries = v->Mapping_0;
        assert(DocView::Mapping(entries)->Mapping_0 == entries);
        assert forall|k: int| 0 <= k < cs.len() implies resolve_view(root, (#[trigger] cs[k]).0)
            == Some(cs[k].1) by {
            let key = entries[k].0;
            let seg = escaped(key);
            let p = base + seq!['/'] + seg;
            assert(cs[k] == (p, entries[k].1));
            lemma_escaped_no_slash(key);
            lemma_segments_snoc(base, seg);
            lemma_resolve_snoc(root, segments(base), seg);
            lemma_unescape_escape(key);
            lemma_map_lookup_at(entries, k);
            assert(step_view(v, seg) == Some(entries[k].1));
            assert(resolve_view(root, p) == resolve_segments(root, segments(base).push(seg)));
        }
    } else if v is Sequence {
        let items = v->Sequence_0;
        assert forall|k: int| 0 <= k < cs.len() implies resolve_view(root, (#[trigger] cs[k]).0)
            == Some(cs[k].1) by {
            let seg = decimal(k as nat);
            let p = base + seq!['/'] + seg;
            assert(cs[k] == (p, items[k]));
            lemma_decimal_digits(k as nat);
            assert(forall|m: int| 0 <= m < seg.len() ==> (#[trigger] seg[m]) != '/');
            assert(forall|m: int| 0 <= m < seg.len() ==> (#[trigger] seg[m]) != '~');
            lemma_segments_snoc(base, seg);
            lemma_resolve_snoc(root, segments(base), seg);
            lemma_unescaped_identity(seg);
            lemma_decimal_value(k as nat);
            assert(seg[0] != '+');
            assert(index_body(seg) =~= seg);
            assert(is_index(seg));
            assert(index_val(seg) == k);
            assert(step_view(v, seg) == Some(items[k]));
            assert(resolve_view(root, p) == resolve_segments(root, segments(base).push(seg)));
        }
    }
}


proof fn lemma_add_contains<A>(a: Seq<A>, b: Seq<A>, e: A)
    ensures
        (a + b).contains(e) <==> a.contains(e) || b.contains(e),
{
    if (a + b).contains(e) {
        let i = choose|i: int| 0 <= i < (a + b).len() && (a + b)[i] == e;
        if i < a.len() {
            assert(a[i] == e);
        } else {
            assert(b[i - a.len()] == e);
        }
    }
    if a.contains(e) {
        let i = choose|i: int| 0 <= i < a.len() && a[i] == e;
        assert((a + b)[i] == e);
    }
    if b.contains(e) {
        let i = choose|i: int| 0 <= i < b.len() && b[i] == e;
        assert((a + b)[a.len() + i] == e);
    }
}

proof fn lemma_filter_membership<A>(s: Seq<A>, pred: spec_fn(A) -> bool, e: A)
    ensures
        s.filter(pred).contains(e) <==> s.contains(e) && pred(e),
    decreases s.len(),
{
    reveal(Seq::filter);
    if s.len() == 0 {
    } else {
        lemma_filter_membership(s.drop_last(), pred, e);
        let fpre = s.drop_last().filter(pred);
        if s.filter(pred).contains(e) {
            let i = choose|i: int| 0 <= i < s.filter(pred).len() && s.filter(pred)[i] == e;
            if pred(s.last()) && i == s.filter(pred).len() - 1 {
                assert(e == s.last());
                assert(s[s.len() - 1] == e);
            } else {
                assert(fpre[i] == e);
                assert(fpre.contains(e));
                let j = choose|j: int| 0 <= j < s.drop_last().len() && s.drop_last()[j] == e;
                assert(s[j] == e);
            }
        }
        if s.contains(e) && pred(e) {
            let i = choose|i: int| 0 <= i < s.len() && s[i] == e;
            if i == s.len() - 1 {
                assert(s.filter(pred)[s.filter(pred).len() - 1] == e);
            } else {
                assert(s.drop_last()[i] == e);
                assert(s.drop_last().contains(e));
                assert(fpre.contains(e));
                let j = choose|j: int| 0 <= j < fpre.len() && fpre[j] == e;
                if pred(s.last()) {
                    assert(s.filter(pred)[j] == e);
                } else {
                    assert(s.filter(pred)[j] == e);
                }
            }
        }
    }
}

/// What flattening keeps, element by element: a pair stands in the
/// flattened listing exactly when the listing of some path child holds it
/// and its pointer ends in a method segment. Nothing else gets in, and
/// nothing of the path items themselves is carried over.
pub proof fn lemma_operations_membership(
    root: DocView,
    cs: Seq<(Seq<char>, DocView)>,
    e: (Seq<char>, DocView),
)
    ensures
        operations_view(root, cs).contains(e) <==> (is_method(last_piece(e.0)) && exists|i: int|
            0 <= i < cs.len() && list_default_view(root, (#[trigger] cs[i]).0).contains(e)),
    decreases cs.len(),
{
    if cs.len() == 0 {
    } else {
        let rest = cs.drop_first();
        lemma_operations_membership(root, rest, e);
        let first = list_default_view(root, cs[0].0).filter(method_filter());
        lemma_add_contains(first, operations_view(root, rest), e);
        lemma_filter_membership(list_default_view(root, cs[0].0), method_filter(), e);
        assert(method_filter()(e) == is_method(last_piece(e.0)));
        if operations_view(root, cs).contains(e) {
            if first.contains(e) {
                assert(list_default_view(root, cs[0].0).contains(e));
            } else {
                let i = choose|i: int|
                    0 <= i < rest.len() && list_default_view(root, (#[trigger] rest[i]).0).contains(
                        e,
                    );
                assert(rest[i] == cs[i + 1]);
                assert(list_default_view(root, cs[i + 1].0).contains(e));
            }
        }
        if is_method(last_piece(e.0)) && exists|i: int|
            0 <= i < cs.len() && list_default_view(root, (#[trigger] cs[i]).0).contains(e) {
            let i = choose|i: int|
                0 <= i < cs.len() && list_default_view(root, (#[trigger] cs[i]).0).contains(e);
            if i == 0 {
                assert(first.contains(e));
            } else {
                assert(rest[i - 1] == cs[i]);
                assert(list_default_view(root, rest[i - 1].0).contains(e));
                assert(operations_view(root, rest).contains(e));
            }
        }
    }
}

} // verus!
